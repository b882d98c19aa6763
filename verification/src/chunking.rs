//! Cutting the converted audio stream into numbered one-second chunks, and
//! deciding which chunks go to transcription.
use vstd::prelude::*;
use crate::pcm::{mono_of, resampled_len, resampled_of, resample_linear, stereo_to_mono};
use crate::results::{outcome_of_transcription, skipped_result, silence_message, ChunkOutcome, TranscriptionResult};
use crate::vad::{detect_voice_activity, rms_at_least, vad_step, VadState, SPEECH_CONTINUE_THRESHOLD, SPEECH_START_THRESHOLD};
use crate::{concat_all, TARGET_SAMPLE_RATE};

verus! {

/// Number of samples in a full chunk: one second at the target rate.
pub const CHUNK_SAMPLES: usize = 16000;

/// Duration of a full chunk, in milliseconds.
pub const CHUNK_DURATION_MS: u64 = 1000;

/// A numbered stretch of mono audio at the target rate, with its place in
/// the recording.
#[derive(Debug, PartialEq, Eq)]
pub struct AudioChunk {
    pub chunk_id: u64,
    pub start_ms: u64,
    pub end_ms: u64,
    pub samples: Vec<i16>,
}

/// Samples `[CHUNK_SAMPLES * j, CHUNK_SAMPLES * (j + 1))` of `s`: the samples
/// of the `j`-th full chunk cut from `s`.
pub open spec fn chunk_slice(s: Seq<i16>, j: int) -> Seq<i16> {
    s.subrange(CHUNK_SAMPLES * j, CHUNK_SAMPLES * (j + 1))
}

/// Number of full chunks in `n` samples.
pub open spec fn full_chunks(n: int) -> int {
    n / (CHUNK_SAMPLES as int)
}

/// Duration in milliseconds of a final chunk of `n` samples: its length at
/// the target rate, rounded down, but at least one millisecond.
pub open spec fn partial_duration_ms(n: int) -> int {
    let d = n * 1000 / (TARGET_SAMPLE_RATE as int);
    if d < 1 {
        1
    } else {
        d
    }
}

/// The samples of all `chunks`, joined in order.
pub open spec fn joined_samples(chunks: Seq<AudioChunk>) -> Seq<i16>
    decreases chunks.len(),
{
    if chunks.len() == 0 {
        Seq::empty()
    } else {
        joined_samples(chunks.drop_last()) + chunks.last().samples@
    }
}

/// Cuts a stream of samples into full chunks, numbering them in order and
/// keeping the samples that do not yet fill a chunk.
pub struct ChunkAssembler {
    buffer: Vec<i16>,
    next_chunk_id: u64,
}

impl View for ChunkAssembler {
    type V = (Seq<i16>, u64);

    /// The samples waiting for a full chunk, and the id the next chunk gets.
    closed spec fn view(&self) -> (Seq<i16>, u64) {
        (self.buffer@, self.next_chunk_id)
    }
}

/// Whether `c` is the `j`-th full chunk cut from `all`, numbered from
/// `first`: it has id `first + j`, starts at `first + j` chunk durations,
/// lasts one chunk duration, and holds `chunk_slice(all, j)`.
pub open spec fn is_chunk_at(c: AudioChunk, all: Seq<i16>, first: int, j: int) -> bool {
    &&& c.chunk_id == first + j
    &&& c.start_ms == (first + j) * CHUNK_DURATION_MS
    &&& c.end_ms == (first + j) * CHUNK_DURATION_MS + CHUNK_DURATION_MS
    &&& c.samples@ == chunk_slice(all, j)
}

/// What `push` does, from state `before` (buffered samples and next id)
/// given `samples`: the buffered samples followed by `samples` are cut into
/// `chunks`, numbered from the next id, and what does not fill a chunk stays
/// buffered.
pub open spec fn pushed(
    before: (Seq<i16>, u64),
    samples: Seq<i16>,
    chunks: Seq<AudioChunk>,
    after: (Seq<i16>, u64),
) -> bool {
    let all = before.0 + samples;
    let k = full_chunks(all.len() as int);
    &&& chunks_cut_from(chunks, all, before.1 as int)
    &&& after.0 == all.subrange(CHUNK_SAMPLES * k, all.len() as int)
    &&& after.1 == before.1 + k
}

/// Whether `chunks` are the full chunks cut from `all`, numbered from `first`.
pub open spec fn chunks_cut_from(chunks: Seq<AudioChunk>, all: Seq<i16>, first: int) -> bool {
    &&& chunks.len() == full_chunks(all.len() as int)
    &&& forall|j: int| 0 <= j < chunks.len() ==> is_chunk_at(#[trigger] chunks[j], all, first, j)
}

impl ChunkAssembler {
    #[verifier::type_invariant]
    spec fn buffer_and_ids_in_range(self) -> bool {
        &&& self.buffer@.len() < CHUNK_SAMPLES
        &&& self.next_chunk_id * CHUNK_DURATION_MS <= u64::MAX
    }

    /// An assembler with nothing buffered, whose first chunk is chunk 0.
    pub fn new() -> (a: Self)
        ensures
            a@.0 == Seq::<i16>::empty(),
            a@.1 == 0,
    {
        ChunkAssembler { buffer: Vec::new(), next_chunk_id: 0 }
    }

    /// Number of samples waiting for a full chunk.
    pub fn buffered_len(&self) -> (n: usize)
        ensures
            n == self@.0.len(),
            n < CHUNK_SAMPLES,
    {
        proof {
            use_type_invariant(self);
        }
        self.buffer.len()
    }

    /// Id that the next chunk will get.
    pub fn next_chunk_id(&self) -> (id: u64)
        ensures
            id == self@.1,
            id * CHUNK_DURATION_MS <= u64::MAX,
    {
        proof {
            use_type_invariant(self);
        }
        self.next_chunk_id
    }

    /// Appends samples and cuts off every full chunk.
    ///
    /// The buffered samples followed by `samples` are cut into full chunks of
    /// `CHUNK_SAMPLES`, numbered on from the next id, chunk `i` spanning
    /// `i * CHUNK_DURATION_MS` to one chunk duration later; what remains
    /// stays buffered.
    pub fn push(&mut self, samples: &[i16]) -> (chunks: Vec<AudioChunk>)
        requires
            (old(self)@.1 + full_chunks(old(self)@.0.len() + samples@.len() as int)) * CHUNK_DURATION_MS
                <= u64::MAX,
        ensures
            pushed(old(self)@, samples@, chunks@, final(self)@),
    {
        proof {
            use_type_invariant(&*self);
        }
        let ghost all_spec = self.buffer@ + samples@;
        let ghost first = self.next_chunk_id as int;
        let mut all: Vec<i16> = Vec::new();
        std::mem::swap(&mut all, &mut self.buffer);
        let mut i: usize = 0;
        while i < samples.len()
            invariant
                i <= samples@.len(),
                all@ == old(self)@.0 + samples@.subrange(0, i as int),
            decreases samples@.len() - i,
        {
            all.push(samples[i]);
            assert(samples@.subrange(0, i as int + 1) =~= samples@.subrange(0, i as int).push(samples@[i as int]));
            i = i + 1;
        }
        assert(samples@.subrange(0, samples@.len() as int) =~= samples@);
        assert(all@ == all_spec);
        let total = all.len();
        let mut chunks: Vec<AudioChunk> = Vec::new();
        let mut start: usize = 0;
        let mut id = self.next_chunk_id;
        let ghost k = full_chunks(total as int);
        while total - start >= CHUNK_SAMPLES
            invariant
                total == all@.len(),
                all@ == all_spec,
                start <= total,
                start == CHUNK_SAMPLES * chunks@.len(),
                id == first + chunks@.len(),
                chunks@.len() <= k,
                k == full_chunks(total as int),
                (first + k) * CHUNK_DURATION_MS <= u64::MAX,
                forall|j: int| 0 <= j < chunks@.len() ==> is_chunk_at(#[trigger] chunks@[j], all_spec, first, j),
            decreases total - start,
        {
            proof {
                assert(chunks@.len() < k) by (nonlinear_arith)
                    requires
                        start == 16000 * chunks@.len(),
                        total - start >= 16000,
                        k == total / 16000,
                ;
                assert((first + chunks@.len() + 1) * 1000 <= (first + k) * 1000) by (nonlinear_arith)
                    requires chunks@.len() < k;
            }
            let end = start + CHUNK_SAMPLES;
            let samples_of_chunk = copy_range(&all, start, end);
            let start_ms = id * CHUNK_DURATION_MS;
            let end_ms = start_ms + CHUNK_DURATION_MS;
            let ghost old_chunks = chunks@;
            chunks.push(AudioChunk { chunk_id: id, start_ms, end_ms, samples: samples_of_chunk });
            proof {
                assert forall|j: int| 0 <= j < chunks@.len() implies is_chunk_at(#[trigger] chunks@[j], all_spec, first, j) by {
                    if j < old_chunks.len() {
                        assert(chunks@[j] == old_chunks[j]);
                    } else {
                        assert(CHUNK_SAMPLES * (j + 1) == start + CHUNK_SAMPLES);
                    }
                }
            }
            start = end;
            id = id + 1;
        }
        proof {
            assert(chunks@.len() == k) by (nonlinear_arith)
                requires
                    start == 16000 * chunks@.len(),
                    total - start < 16000,
                    start <= total,
                    k == total / 16000,
            ;
        }
        let rest = copy_range(&all, start, total);
        *self = ChunkAssembler { buffer: rest, next_chunk_id: id };
        chunks
    }

    /// Whether `finish` may be called: the final chunk's end time, if there
    /// is a final chunk, stays within 64 bits.
    pub fn can_finish(&self) -> (ok: bool)
        ensures
            ok == (self@.0.len() > 0 ==> self@.1 * CHUNK_DURATION_MS + partial_duration_ms(
                self@.0.len() as int,
            ) <= u64::MAX),
    {
        proof {
            use_type_invariant(self);
        }
        if self.buffer.len() == 0 {
            return true;
        }
        let scaled: u64 = self.buffer.len() as u64 * 1000 / TARGET_SAMPLE_RATE as u64;
        let duration_ms: u64 = if scaled < 1 {
            1
        } else {
            scaled
        };
        self.next_chunk_id * CHUNK_DURATION_MS <= u64::MAX - duration_ms
    }

    /// Cuts the buffered samples, if any, into a final, shorter chunk.
    ///
    /// The chunk takes the next id and starts where a full chunk with that id
    /// would; it lasts `partial_duration_ms` of its length. The buffer is
    /// left empty and the next id unchanged.
    pub fn finish(&mut self) -> (last: Option<AudioChunk>)
        requires
            old(self)@.0.len() > 0 ==> old(self)@.1 * CHUNK_DURATION_MS + partial_duration_ms(
                old(self)@.0.len() as int,
            ) <= u64::MAX,
        ensures
            final(self)@.0 == Seq::<i16>::empty(),
            final(self)@.1 == old(self)@.1,
            old(self)@.0.len() == 0 <==> last is None,
            last matches Some(c) ==> {
                &&& c.chunk_id == old(self)@.1
                &&& c.start_ms == old(self)@.1 * CHUNK_DURATION_MS
                &&& c.end_ms == c.start_ms + partial_duration_ms(old(self)@.0.len() as int)
                &&& c.samples@ == old(self)@.0
            },
    {
        proof {
            use_type_invariant(&*self);
        }
        if self.buffer.len() == 0 {
            return None;
        }
        let remaining_samples = self.buffer.len();
        let scaled: u64 = remaining_samples as u64 * 1000 / TARGET_SAMPLE_RATE as u64;
        let duration_ms: u64 = if scaled < 1 {
            1
        } else {
            scaled
        };
        let start_ms = self.next_chunk_id * CHUNK_DURATION_MS;
        let end_ms = start_ms + duration_ms;
        let mut final_samples: Vec<i16> = Vec::new();
        std::mem::swap(&mut final_samples, &mut self.buffer);
        Some(AudioChunk { chunk_id: self.next_chunk_id, start_ms, end_ms, samples: final_samples })
    }
}

/// A copy of `v[from..to]`.
fn copy_range(v: &Vec<i16>, from: usize, to: usize) -> (out: Vec<i16>)
    requires
        from <= to <= v@.len(),
    ensures
        out@ == v@.subrange(from as int, to as int),
{
    let mut out: Vec<i16> = Vec::new();
    let mut i = from;
    while i < to
        invariant
            from <= i <= to,
            to <= v@.len(),
            out@ == v@.subrange(from as int, i as int),
        decreases to - i,
    {
        out.push(v[i]);
        assert(v@.subrange(from as int, i as int + 1) =~= v@.subrange(from as int, i as int).push(v@[i as int]));
        i = i + 1;
    }
    out
}

/// The chunks cut from a stream hold its samples, in order, without gap or
/// repetition: joined, they are the stream up to its last full chunk.
pub proof fn lemma_chunks_cover_stream(chunks: Seq<AudioChunk>, all: Seq<i16>, first: int)
    requires
        chunks_cut_from(chunks, all, first),
    ensures
        joined_samples(chunks) == all.subrange(0, CHUNK_SAMPLES * chunks.len()),
    decreases chunks.len(),
{
    if chunks.len() > 0 {
        let init = chunks.drop_last();
        let n = chunks.len() - 1;
        assert(CHUNK_SAMPLES * chunks.len() <= all.len()) by (nonlinear_arith)
            requires chunks.len() == all.len() / 16000;
        let shorter = all.subrange(0, CHUNK_SAMPLES * n);
        lemma_prefix_cut(chunks, all, first);
        lemma_chunks_cover_stream(init, shorter, first);
        assert(is_chunk_at(chunks[n], all, first, n));
        assert(chunks.last().samples@ == chunk_slice(all, n));
        assert(joined_samples(chunks) == joined_samples(init) + chunks.last().samples@);
        assert(all.subrange(0, CHUNK_SAMPLES * chunks.len()) =~= shorter.subrange(0, CHUNK_SAMPLES * n)
            + chunk_slice(all, n));
    }
}

proof fn lemma_prefix_cut(chunks: Seq<AudioChunk>, all: Seq<i16>, first: int)
    requires
        chunks_cut_from(chunks, all, first),
        chunks.len() > 0,
    ensures
        chunks_cut_from(
            chunks.drop_last(),
            all.subrange(0, CHUNK_SAMPLES * (chunks.len() - 1)),
            first,
        ),
{
    let n = chunks.len() - 1;
    let shorter = all.subrange(0, CHUNK_SAMPLES * n);
    assert(CHUNK_SAMPLES * chunks.len() <= all.len()) by (nonlinear_arith)
        requires chunks.len() == all.len() / 16000;
    assert(full_chunks(shorter.len() as int) == n) by (nonlinear_arith)
        requires shorter.len() == 16000 * n, n >= 0;
    assert forall|j: int| 0 <= j < n implies chunk_slice(shorter, j) == chunk_slice(all, j) by {
        assert(CHUNK_SAMPLES * (j + 1) <= CHUNK_SAMPLES * n) by (nonlinear_arith)
            requires j + 1 <= n;
        assert(0 <= CHUNK_SAMPLES * j) by (nonlinear_arith)
            requires j >= 0;
        assert(chunk_slice(shorter, j) =~= chunk_slice(all, j));
    }
    let init = chunks.drop_last();
    assert forall|j: int| 0 <= j < init.len() implies is_chunk_at(#[trigger] init[j], shorter, first, j) by {
        assert(init[j] == chunks[j]);
    }
}

/// Consecutive chunks abut: each chunk ends where the next one starts.
pub proof fn lemma_chunks_abut(chunks: Seq<AudioChunk>, all: Seq<i16>, first: int, j: int)
    requires
        chunks_cut_from(chunks, all, first),
        0 <= j < chunks.len() - 1,
    ensures
        chunks[j].end_ms == chunks[j + 1].start_ms,
        chunks[j + 1].chunk_id == chunks[j].chunk_id + 1,
{
    assert(is_chunk_at(chunks[j], all, first, j));
    assert(is_chunk_at(chunks[j + 1], all, first, j + 1));
    assert((first + j) * 1000 + 1000 == (first + j + 1) * 1000) by (nonlinear_arith);
}

/// Cutting loses, repeats and reorders no sample: the samples of the chunks
/// cut by `push`, followed by what stays buffered, are exactly the samples
/// that were buffered before followed by those pushed.
pub proof fn lemma_push_keeps_every_sample(chunks: Seq<AudioChunk>, all: Seq<i16>, first: int)
    requires
        chunks_cut_from(chunks, all, first),
    ensures
        joined_samples(chunks) + all.subrange(
            CHUNK_SAMPLES * full_chunks(all.len() as int),
            all.len() as int,
        ) == all,
{
    lemma_chunks_cover_stream(chunks, all, first);
    let k = full_chunks(all.len() as int);
    assert(CHUNK_SAMPLES * k <= all.len()) by (nonlinear_arith)
        requires k == all.len() / 16000;
    assert(all.subrange(0, CHUNK_SAMPLES * k) + all.subrange(CHUNK_SAMPLES * k, all.len() as int) =~= all);
}

/// Where a chunk goes after voice-activity detection.
#[derive(Debug, PartialEq, Eq)]
pub enum ChunkRoute {
    /// Speech was detected: the chunk is to be transcribed.
    Transcribe(AudioChunk),
    /// No speech: the chunk is skipped, with this result to report.
    Skip(TranscriptionResult),
}

/// Runs voice-activity detection on a chunk and decides where it goes: to
/// transcription when the detector reports speech, otherwise it is skipped
/// with a result that says silence was detected.
pub fn route_chunk(chunk: AudioChunk, vad_state: &mut VadState) -> (route: ChunkRoute)
    ensures
        chunk.samples@.len() == 0 ==> final(vad_state)@ == old(vad_state)@,
        chunk.samples@.len() > 0 ==> final(vad_state)@ == vad_step(
            old(vad_state)@,
            rms_at_least(chunk.samples@, SPEECH_START_THRESHOLD as int),
            rms_at_least(chunk.samples@, SPEECH_CONTINUE_THRESHOLD as int),
        ),
        (route is Transcribe) <==> (chunk.samples@.len() > 0 && final(vad_state)@.0),
        route matches ChunkRoute::Transcribe(c) ==> c == chunk,
        route matches ChunkRoute::Skip(r) ==> {
            &&& r.chunk_id == chunk.chunk_id
            &&& r.start_ms == chunk.start_ms
            &&& r.end_ms == chunk.end_ms
            &&& r.outcome matches ChunkOutcome::Skipped(m) && m@ == silence_message()
        },
{
    let has_speech = detect_voice_activity(chunk.samples.as_slice(), vad_state);
    if !has_speech {
        ChunkRoute::Skip(skipped_result(chunk.chunk_id, chunk.start_ms, chunk.end_ms))
    } else {
        ChunkRoute::Transcribe(chunk)
    }
}

/// The result of a finished transcription of `chunk`: its text, or its
/// error message, with the chunk's id and times.
pub fn transcription_result(chunk: &AudioChunk, transcription: Result<String, String>) -> (result:
    TranscriptionResult)
    ensures
        result.chunk_id == chunk.chunk_id,
        result.start_ms == chunk.start_ms,
        result.end_ms == chunk.end_ms,
        match transcription {
            Ok(text) => result.outcome == ChunkOutcome::Transcript(text),
            Err(error) => result.outcome == ChunkOutcome::Error(error),
        },
{
    TranscriptionResult {
        chunk_id: chunk.chunk_id,
        start_ms: chunk.start_ms,
        end_ms: chunk.end_ms,
        outcome: outcome_of_transcription(transcription),
    }
}

/// Number of mono samples that `stereo_to_mono` makes of `n` interleaved
/// samples with `channels` channels.
pub open spec fn mono_len(n: int, channels: int) -> int {
    if channels <= 1 {
        n
    } else {
        n / channels
    }
}

/// Whether `process_raw` may take a buffer of `raw_len` samples with
/// `channels` channels at `input_rate`: the rate is not zero unless no mono
/// sample comes out, the resampled buffer fits in memory, and the chunk ids
/// and times stay within 64 bits.
pub open spec fn accepts_raw(state: (Seq<i16>, u64), raw_len: int, channels: int, input_rate: u32) -> bool {
    let m = mono_len(raw_len, channels);
    let r = resampled_len(m as nat, input_rate, TARGET_SAMPLE_RATE);
    &&& m == 0 || input_rate > 0
    &&& r <= usize::MAX
    &&& (state.1 + full_chunks(state.0.len() + r as int)) * CHUNK_DURATION_MS <= u64::MAX
}

impl ChunkAssembler {
    /// Whether `process_raw` may take a buffer of `raw_len` samples with
    /// `channels` channels at `input_rate`.
    pub fn accepts(&self, raw_len: usize, channels: usize, input_rate: u32) -> (ok: bool)
        ensures
            ok == accepts_raw(self@, raw_len as int, channels as int, input_rate),
    {
        proof {
            use_type_invariant(self);
        }
        let m: usize = if channels <= 1 {
            raw_len
        } else {
            raw_len / channels
        };
        if m > 0 && input_rate == 0 {
            return false;
        }
        let r: u128 = if m == 0 {
            0
        } else if input_rate == TARGET_SAMPLE_RATE {
            m as u128
        } else {
            proof {
                assert(m as int * 16000 <= 0x1_0000_0000_0000_0000int * 16000) by (nonlinear_arith)
                    requires m <= 0x1_0000_0000_0000_0000int;
            }
            (m as u128 * TARGET_SAMPLE_RATE as u128 + input_rate as u128 - 1) / input_rate as u128
        };
        assert(r == resampled_len(m as nat, input_rate, TARGET_SAMPLE_RATE));
        if r > usize::MAX as u128 {
            return false;
        }
        let total: u128 = self.buffer.len() as u128 + r;
        let chunks: u128 = total / CHUNK_SAMPLES as u128;
        proof {
            assert(chunks <= total);
            assert((self.next_chunk_id + chunks) * 1000 <= 0x2_0000_0000_0000_0000int * 1000) by (nonlinear_arith)
                requires self.next_chunk_id + chunks <= 0x2_0000_0000_0000_0000int;
        }
        (self.next_chunk_id as u128 + chunks) * CHUNK_DURATION_MS as u128 <= u64::MAX as u128
    }

    /// Converts a buffer of captured samples, interleaved with `channels`
    /// channels at `input_rate`, to mono at the target rate, appends it, and
    /// cuts off every full chunk, as `push` does.
    pub fn process_raw(&mut self, raw: &[i16], channels: usize, input_rate: u32) -> (chunks: Vec<AudioChunk>)
        requires
            accepts_raw(old(self)@, raw@.len() as int, channels as int, input_rate),
        ensures
            ({
                let converted = resampled_of(mono_of(raw@, channels as int), input_rate, TARGET_SAMPLE_RATE);
                pushed(old(self)@, converted, chunks@, final(self)@)
            }),
    {
        let mono = stereo_to_mono(raw, channels);
        assert(mono@.len() == mono_len(raw@.len() as int, channels as int));
        let resampled = resample_linear(mono.as_slice(), input_rate, TARGET_SAMPLE_RATE);
        self.push(resampled.as_slice())
    }
}

/// Whether `chunks` are numbered `first`, `first + 1`, ..., chunk `i`
/// spanning one chunk duration from `i` chunk durations.
pub open spec fn numbered_from(chunks: Seq<AudioChunk>, first: int) -> bool {
    forall|j: int|
        0 <= j < chunks.len() ==> {
            &&& #[trigger] chunks[j].chunk_id == first + j
            &&& chunks[j].start_ms == (first + j) * CHUNK_DURATION_MS
            &&& chunks[j].end_ms == (first + j) * CHUNK_DURATION_MS + CHUNK_DURATION_MS
        }
}

proof fn lemma_joined_samples_append(a: Seq<AudioChunk>, b: Seq<AudioChunk>)
    ensures
        joined_samples(a + b) == joined_samples(a) + joined_samples(b),
    decreases b.len(),
{
    if b.len() == 0 {
        assert(a + b =~= a);
    } else {
        lemma_joined_samples_append(a, b.drop_last());
        assert((a + b).drop_last() =~= a + b.drop_last());
        assert((a + b).last() == b.last());
    }
}

/// What holds after the first `i` pushes of a run: the chunks cut so far are
/// numbered from 0, and their samples followed by the buffered ones are the
/// samples pushed so far.
spec fn pushes_so_far(
    inputs: Seq<Seq<i16>>,
    states: Seq<(Seq<i16>, u64)>,
    outs: Seq<Seq<AudioChunk>>,
    i: int,
) -> bool {
    let c = concat_all(outs.take(i));
    &&& numbered_from(c, 0)
    &&& states[i].1 == c.len()
    &&& joined_samples(c) + states[i].0 == concat_all(inputs.take(i))
}

proof fn lemma_pushes_prefix(
    inputs: Seq<Seq<i16>>,
    states: Seq<(Seq<i16>, u64)>,
    outs: Seq<Seq<AudioChunk>>,
    i: int,
)
    requires
        0 <= i <= inputs.len(),
        states.len() == inputs.len() + 1,
        outs.len() == inputs.len(),
        states[0].0 == Seq::<i16>::empty(),
        states[0].1 == 0,
        forall|x: int| 0 <= x < inputs.len() ==> pushed(states[x], inputs[x], #[trigger] outs[x], states[x + 1]),
    ensures
        pushes_so_far(inputs, states, outs, i),
    decreases i,
{
    if i == 0 {
        assert(outs.take(0) =~= Seq::<Seq<AudioChunk>>::empty());
        assert(inputs.take(0) =~= Seq::<Seq<i16>>::empty());
        assert(Seq::<i16>::empty() + Seq::<i16>::empty() =~= Seq::<i16>::empty());
    } else {
        let p = i - 1;
        lemma_pushes_prefix(inputs, states, outs, p);
        assert(pushed(states[p], inputs[p], outs[p], states[i]));
        let c = concat_all(outs.take(p));
        let out = outs[p];
        let buf = states[p].0;
        let all = buf + inputs[p];
        assert(outs.take(i).drop_last() =~= outs.take(p));
        assert(inputs.take(i).drop_last() =~= inputs.take(p));
        let c2 = concat_all(outs.take(i));
        assert(c2 == c + out);
        lemma_push_keeps_every_sample(out, all, states[p].1 as int);
        lemma_joined_samples_append(c, out);
        let k = full_chunks(all.len() as int);
        assert(states[i].0 == all.subrange(CHUNK_SAMPLES * k, all.len() as int));
        assert(joined_samples(out) + states[i].0 == all);
        assert(joined_samples(c2) == joined_samples(c) + joined_samples(out));
        assert(joined_samples(c2) + states[i].0 =~= joined_samples(c) + (joined_samples(out) + states[i].0));
        assert(joined_samples(c2) + states[i].0 =~= (joined_samples(c) + buf) + inputs[p]);
        assert(concat_all(inputs.take(i)) == concat_all(inputs.take(p)) + inputs[p]);
        assert forall|j: int| 0 <= j < c2.len() implies {
            &&& #[trigger] c2[j].chunk_id == j
            &&& c2[j].start_ms == j * CHUNK_DURATION_MS
            &&& c2[j].end_ms == j * CHUNK_DURATION_MS + CHUNK_DURATION_MS
        } by {
            if j < c.len() {
                assert(c2[j] == c[j]);
                assert(c[j].chunk_id == j);
            } else {
                let t = j - c.len();
                assert(c2[j] == out[t]);
                assert(is_chunk_at(out[t], all, states[p].1 as int, t));
            }
        }
    }
}

/// Chunking a whole recording loses, repeats and reorders no sample. Take a
/// run of an assembler that starts empty and is pushed `inputs` in turn,
/// cutting `outs[i]` on push `i`. The chunks cut, in order, are numbered
/// `0, 1, 2, ...`, chunk `i` spanning `i` to `i + 1` chunk durations; and
/// their samples, followed by what stays buffered at the end, are all the
/// samples pushed, in order.
pub proof fn lemma_chunking_keeps_the_recording(
    inputs: Seq<Seq<i16>>,
    states: Seq<(Seq<i16>, u64)>,
    outs: Seq<Seq<AudioChunk>>,
)
    requires
        states.len() == inputs.len() + 1,
        outs.len() == inputs.len(),
        states[0].0 == Seq::<i16>::empty(),
        states[0].1 == 0,
        forall|x: int| 0 <= x < inputs.len() ==> pushed(states[x], inputs[x], #[trigger] outs[x], states[x + 1]),
    ensures
        numbered_from(concat_all(outs), 0),
        joined_samples(concat_all(outs)) + states[inputs.len() as int].0 == concat_all(inputs),
{
    lemma_pushes_prefix(inputs, states, outs, inputs.len() as int);
    assert(outs.take(inputs.len() as int) =~= outs);
    assert(inputs.take(inputs.len() as int) =~= inputs);
}

} // verus!
