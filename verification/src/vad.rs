//! Amplitude-based voice-activity detection with hysteresis.
use vstd::prelude::*;

verus! {

/// RMS level at or above which a silent stream is taken to start speech.
pub const SPEECH_START_THRESHOLD: u64 = 800;

/// RMS level at or above which ongoing speech is taken to continue.
pub const SPEECH_CONTINUE_THRESHOLD: u64 = 500;

/// Number of consecutive quiet chunks after which ongoing speech ends.
pub const SILENT_CHUNKS_TO_END_SPEECH: u32 = 3;

/// Sum of the squares of the samples.
pub open spec fn sum_squares(s: Seq<i16>) -> int
    decreases s.len(),
{
    if s.len() == 0 {
        0
    } else {
        sum_squares(s.drop_last()) + s.last() as int * s.last() as int
    }
}

/// Whether the root-mean-square level of the non-empty `s` is at least
/// `threshold`: the mean of the squares is at least `threshold` squared.
pub open spec fn rms_at_least(s: Seq<i16>, threshold: int) -> bool {
    sum_squares(s) >= threshold * threshold * s.len()
}

/// One step of the detector on a chunk, from state `(speech_active,
/// silent_chunks)`, given whether the chunk reaches the start and the
/// continue thresholds.
///
/// Silence turns into speech on a chunk that reaches the start threshold.
/// Speech continues, with the count of quiet chunks reset, on a chunk that
/// reaches the continue threshold; otherwise the quiet chunk is counted, and
/// the count reaching `SILENT_CHUNKS_TO_END_SPEECH` ends speech.
pub open spec fn vad_step(state: (bool, nat), reaches_start: bool, reaches_continue: bool) -> (
    bool,
    nat,
) {
    if state.0 {
        if reaches_continue {
            (true, 0)
        } else if state.1 + 1 >= SILENT_CHUNKS_TO_END_SPEECH {
            (false, 0)
        } else {
            (true, (state.1 + 1) as nat)
        }
    } else {
        (reaches_start, 0)
    }
}

/// The detector's state between chunks.
pub struct VadState {
    speech_active: bool,
    consecutive_silent_chunks: u32,
}

impl View for VadState {
    type V = (bool, nat);

    /// Whether speech is ongoing, and how many quiet chunks have followed it.
    closed spec fn view(&self) -> (bool, nat) {
        (self.speech_active, self.consecutive_silent_chunks as nat)
    }
}

impl VadState {
    #[verifier::type_invariant]
    spec fn counts_only_during_speech(self) -> bool {
        &&& self.consecutive_silent_chunks < SILENT_CHUNKS_TO_END_SPEECH
        &&& !self.speech_active ==> self.consecutive_silent_chunks == 0
    }

    /// A detector that starts in silence.
    pub fn new() -> (state: Self)
        ensures
            state@ == (false, 0nat),
    {
        VadState { speech_active: false, consecutive_silent_chunks: 0 }
    }

    /// Whether speech is ongoing.
    pub fn is_speech_active(&self) -> (active: bool)
        ensures
            active == self@.0,
    {
        self.speech_active
    }

    /// How many quiet chunks have followed ongoing speech.
    pub fn silent_chunk_count(&self) -> (count: u32)
        ensures
            count == self@.1,
            count < SILENT_CHUNKS_TO_END_SPEECH,
            !self@.0 ==> count == 0,
    {
        proof {
            use_type_invariant(self);
        }
        self.consecutive_silent_chunks
    }
}

/// Whether the root-mean-square level of the non-empty `samples` is at least
/// `threshold`, computed exactly on integers.
pub fn rms_reaches(samples: &[i16], threshold: u64) -> (reaches: bool)
    requires
        samples@.len() > 0,
        threshold <= u16::MAX,
    ensures
        reaches == rms_at_least(samples@, threshold as int),
{
    let n = samples.len();
    let mut total: u128 = 0;
    let mut i: usize = 0;
    while i < n
        invariant
            n == samples@.len(),
            i <= samples@.len(),
            samples@.len() <= usize::MAX,
            total == sum_squares(samples@.subrange(0, i as int)),
            total <= i as int * 0x4000_0000,
        decreases samples@.len() - i,
    {
        let v = samples[i] as i64;
        proof {
            let s = samples@.subrange(0, i as int + 1);
            assert(s.drop_last() =~= samples@.subrange(0, i as int));
            assert(v * v <= 0x4000_0000) by (nonlinear_arith)
                requires -32768 <= v <= 32767;
            assert(v * v >= 0) by (nonlinear_arith);
            assert(i as int * 0x4000_0000 <= 0x1_0000_0000_0000_0000 * 0x4000_0000int) by (nonlinear_arith)
                requires i <= 0x1_0000_0000_0000_0000int;
        }
        total = total + (v * v) as u128;
        i = i + 1;
    }
    assert(samples@.subrange(0, samples@.len() as int) =~= samples@);
    let t = threshold as u128;
    proof {
        assert(t * t <= 0x1_0000_0000int) by (nonlinear_arith)
            requires t <= 0x1_0000int;
        assert(t * t * n <= 0x1_0000_0000int * 0x1_0000_0000_0000_0000int) by (nonlinear_arith)
            requires t * t <= 0x1_0000_0000int, n <= 0x1_0000_0000_0000_0000int;
    }
    total >= t * t * n as u128
}

/// Decides whether a chunk of audio is speech, and advances the detector.
///
/// An empty chunk is silence and leaves the detector as it was. Otherwise the
/// detector takes one `vad_step`, with the chunk's RMS level compared to
/// `SPEECH_START_THRESHOLD` and `SPEECH_CONTINUE_THRESHOLD`, and the result is
/// whether speech is active after that step.
pub fn detect_voice_activity(samples: &[i16], vad_state: &mut VadState) -> (has_speech: bool)
    ensures
        samples@.len() == 0 ==> !has_speech && final(vad_state)@ == old(vad_state)@,
        samples@.len() > 0 ==> final(vad_state)@ == vad_step(
            old(vad_state)@,
            rms_at_least(samples@, SPEECH_START_THRESHOLD as int),
            rms_at_least(samples@, SPEECH_CONTINUE_THRESHOLD as int),
        ),
        samples@.len() > 0 ==> has_speech == final(vad_state)@.0,
        final(vad_state)@.1 < SILENT_CHUNKS_TO_END_SPEECH,
        !final(vad_state)@.0 ==> final(vad_state)@.1 == 0,
{
    proof {
        use_type_invariant(&*vad_state);
    }
    if samples.len() == 0 {
        return false;
    }
    let reaches_start = rms_reaches(samples, SPEECH_START_THRESHOLD);
    let reaches_continue = rms_reaches(samples, SPEECH_CONTINUE_THRESHOLD);
    if vad_state.speech_active {
        if reaches_continue {
            vad_state.consecutive_silent_chunks = 0;
        } else {
            let count = vad_state.consecutive_silent_chunks + 1;
            if count >= SILENT_CHUNKS_TO_END_SPEECH {
                *vad_state = VadState { speech_active: false, consecutive_silent_chunks: 0 };
            } else {
                vad_state.consecutive_silent_chunks = count;
            }
        }
    } else {
        *vad_state = VadState { speech_active: reaches_start, consecutive_silent_chunks: 0 };
    }
    proof {
        use_type_invariant(&*vad_state);
    }
    vad_state.speech_active
}

/// The detector's state after `k` consecutive chunks that reach neither
/// threshold.
pub open spec fn after_quiet_chunks(state: (bool, nat), k: nat) -> (bool, nat)
    decreases k,
{
    if k == 0 {
        state
    } else {
        vad_step(after_quiet_chunks(state, (k - 1) as nat), false, false)
    }
}

/// Hysteresis of the detector. From silence, speech starts exactly on a chunk
/// that reaches the start threshold. During speech, a chunk that reaches the
/// continue threshold keeps it going and clears the count of quiet chunks.
/// Speech that has been followed by `c` quiet chunks survives `k` more quiet
/// chunks exactly when `c + k` stays below `SILENT_CHUNKS_TO_END_SPEECH`, and
/// once it has ended, further quiet chunks keep it ended.
pub proof fn lemma_vad_hysteresis(c: nat, k: nat, reaches_start: bool, reaches_continue: bool)
    requires
        c < SILENT_CHUNKS_TO_END_SPEECH,
    ensures
        vad_step((false, 0), reaches_start, reaches_continue).0 == reaches_start,
        vad_step((true, c), reaches_start, true) == (true, 0nat),
        after_quiet_chunks((true, c), k).0 <==> c + k < SILENT_CHUNKS_TO_END_SPEECH,
        after_quiet_chunks((true, c), k).0 ==> after_quiet_chunks((true, c), k).1 == c + k,
    decreases k,
{
    if k > 0 {
        lemma_vad_hysteresis(c, (k - 1) as nat, reaches_start, reaches_continue);
    }
}

/// A chunk loud enough to start speech is loud enough to continue it.
pub proof fn lemma_start_level_implies_continue_level(s: Seq<i16>)
    ensures
        rms_at_least(s, SPEECH_START_THRESHOLD as int) ==> rms_at_least(
            s,
            SPEECH_CONTINUE_THRESHOLD as int,
        ),
{
    assert(800 * 800 * s.len() >= 500 * 500 * s.len()) by (nonlinear_arith);
}

} // verus!
