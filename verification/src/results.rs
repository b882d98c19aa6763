//! Outcomes of chunks and their delivery in chunk order.
use vstd::prelude::*;
use std::collections::BTreeMap;
use vstd::std_specs::iter::IteratorSpec;
use crate::concat_all;

verus! {

/// What became of one chunk of audio.
#[derive(Debug, PartialEq, Eq)]
pub enum ChunkOutcome {
    /// The transcription service returned this text.
    Transcript(String),
    /// Transcription failed with this message.
    Error(String),
    /// The chunk was dropped under backpressure, for this reason.
    Dropped(String),
    /// The chunk was not sent for transcription, for this reason.
    Skipped(String),
}

/// The outcome of one chunk, with the chunk's place in the recording.
#[derive(Debug, PartialEq, Eq)]
pub struct TranscriptionResult {
    pub chunk_id: u64,
    pub start_ms: u64,
    pub end_ms: u64,
    pub outcome: ChunkOutcome,
}

/// Why a chunk was dropped under backpressure.
#[derive(Clone, Copy, Debug, PartialEq, Eq)]
pub enum DropReason {
    /// The queue in front of the dispatcher was full.
    QueueFull,
    /// The queue in front of the dispatcher was closed.
    QueueDisconnected,
    /// Every transcription worker's queue refused the chunk.
    WorkersBusy,
}

/// The text reported for a chunk dropped for `reason`.
pub open spec fn drop_message(reason: DropReason) -> Seq<char> {
    match reason {
        DropReason::QueueFull => "Transcription queue full"@,
        DropReason::QueueDisconnected => "Transcription queue disconnected"@,
        DropReason::WorkersBusy => "All transcription workers are busy"@,
    }
}

/// The text reported for a chunk that voice-activity detection skipped.
pub open spec fn silence_message() -> Seq<char> {
    "Silence detected by VAD"@
}

impl DropReason {
    /// The text reported for a chunk dropped for this reason.
    pub fn message(&self) -> (m: String)
        ensures
            m@ == drop_message(*self),
    {
        match self {
            DropReason::QueueFull => "Transcription queue full".to_owned(),
            DropReason::QueueDisconnected => "Transcription queue disconnected".to_owned(),
            DropReason::WorkersBusy => "All transcription workers are busy".to_owned(),
        }
    }
}

/// The result reported for chunk `chunk_id`, spanning `start_ms..end_ms`,
/// when it is dropped for `reason`.
pub fn dropped_result(chunk_id: u64, start_ms: u64, end_ms: u64, reason: DropReason) -> (result:
    TranscriptionResult)
    ensures
        result.chunk_id == chunk_id,
        result.start_ms == start_ms,
        result.end_ms == end_ms,
        result.outcome matches ChunkOutcome::Dropped(m) && m@ == drop_message(reason),
{
    TranscriptionResult { chunk_id, start_ms, end_ms, outcome: ChunkOutcome::Dropped(reason.message()) }
}

/// The result reported for chunk `chunk_id`, spanning `start_ms..end_ms`,
/// when voice-activity detection found no speech in it.
pub fn skipped_result(chunk_id: u64, start_ms: u64, end_ms: u64) -> (result: TranscriptionResult)
    ensures
        result.chunk_id == chunk_id,
        result.start_ms == start_ms,
        result.end_ms == end_ms,
        result.outcome matches ChunkOutcome::Skipped(m) && m@ == silence_message(),
{
    TranscriptionResult {
        chunk_id,
        start_ms,
        end_ms,
        outcome: ChunkOutcome::Skipped("Silence detected by VAD".to_owned()),
    }
}

/// The outcome of a finished transcription: its text, or its error message.
pub fn outcome_of_transcription(transcription: Result<String, String>) -> (outcome: ChunkOutcome)
    ensures
        match transcription {
            Ok(text) => outcome == ChunkOutcome::Transcript(text),
            Err(error) => outcome == ChunkOutcome::Error(error),
        },
{
    match transcription {
        Ok(text) => ChunkOutcome::Transcript(text),
        Err(error) => ChunkOutcome::Error(error),
    }
}

/// The kind of event reported for a result.
#[derive(Clone, Copy, Debug, PartialEq, Eq)]
pub enum EventKind {
    /// A transcript (`"transcript"`), with the text under `"text"`.
    Transcript,
    /// A failed transcription (`"error"`), with the message under
    /// `"message"`.
    Error,
    /// A chunk dropped because a queue was full or closed
    /// (`"backpressure"`), with the reason under `"message"`.
    Backpressure,
    /// A skipped chunk (`"skipped"`), with the reason under `"reason"`.
    Skipped,
}

/// The event that reports one result.
#[derive(Debug, PartialEq, Eq)]
pub struct ResultEvent {
    pub kind: EventKind,
    pub chunk_id: u64,
    pub start_ms: u64,
    pub end_ms: u64,
    /// The transcript text, error message, drop reason or skip reason.
    pub detail: String,
}

impl EventKind {
    /// The event's name.
    pub fn name(&self) -> (n: String)
        ensures
            n@ == match *self {
                EventKind::Transcript => "transcript"@,
                EventKind::Error => "error"@,
                EventKind::Backpressure => "backpressure"@,
                EventKind::Skipped => "skipped"@,
            },
    {
        match self {
            EventKind::Transcript => "transcript".to_owned(),
            EventKind::Error => "error".to_owned(),
            EventKind::Backpressure => "backpressure".to_owned(),
            EventKind::Skipped => "skipped".to_owned(),
        }
    }

    /// The name of the field that carries the event's detail.
    pub fn detail_field(&self) -> (n: String)
        ensures
            n@ == match *self {
                EventKind::Transcript => "text"@,
                EventKind::Error => "message"@,
                EventKind::Backpressure => "message"@,
                EventKind::Skipped => "reason"@,
            },
    {
        match self {
            EventKind::Transcript => "text".to_owned(),
            EventKind::Error => "message".to_owned(),
            EventKind::Backpressure => "message".to_owned(),
            EventKind::Skipped => "reason".to_owned(),
        }
    }
}

/// The event that reports `result`: a transcript as a transcript event, a
/// transcription error as an error event, a dropped chunk as a backpressure
/// event, a skipped chunk as a skipped event; each with the chunk's id and
/// times and the outcome's text.
pub fn result_event(result: &TranscriptionResult) -> (event: ResultEvent)
    ensures
        event.chunk_id == result.chunk_id,
        event.start_ms == result.start_ms,
        event.end_ms == result.end_ms,
        match result.outcome {
            ChunkOutcome::Transcript(t) => event.kind == EventKind::Transcript && event.detail == t,
            ChunkOutcome::Error(m) => event.kind == EventKind::Error && event.detail == m,
            ChunkOutcome::Dropped(m) => event.kind == EventKind::Backpressure && event.detail == m,
            ChunkOutcome::Skipped(m) => event.kind == EventKind::Skipped && event.detail == m,
        },
{
    let (kind, detail) = match &result.outcome {
        ChunkOutcome::Transcript(t) => (EventKind::Transcript, t.clone()),
        ChunkOutcome::Error(m) => (EventKind::Error, m.clone()),
        ChunkOutcome::Dropped(m) => (EventKind::Backpressure, m.clone()),
        ChunkOutcome::Skipped(m) => (EventKind::Skipped, m.clone()),
    };
    ResultEvent { kind, chunk_id: result.chunk_id, start_ms: result.start_ms, end_ms: result.end_ms, detail }
}

/// Whether the results `s` carry strictly increasing chunk ids.
pub open spec fn ids_increasing(s: Seq<TranscriptionResult>) -> bool {
    forall|i: int, j: int| 0 <= i < j < s.len() ==> s[i].chunk_id < s[j].chunk_id
}

/// Holds results that arrive out of order and releases them in chunk order.
///
/// Results are released as soon as every earlier chunk has been released;
/// the others wait, keyed by chunk id, until the gap before them is filled or
/// the stream ends.
pub struct ResultReorderer {
    pending: BTreeMap<u64, TranscriptionResult>,
    expected_chunk_id: u64,
}

impl View for ResultReorderer {
    type V = (Map<u64, TranscriptionResult>, u64);

    /// The results waiting, by chunk id, and the id of the next chunk to
    /// release.
    closed spec fn view(&self) -> (Map<u64, TranscriptionResult>, u64) {
        (self.pending@, self.expected_chunk_id)
    }
}

/// Whether, once a result for chunk `chunk_id` is stored, some id from the
/// expected one up to `u64::MAX` still has no result.
pub open spec fn leaves_a_gap(state: (Map<u64, TranscriptionResult>, u64), chunk_id: u64) -> bool {
    exists|k: u64| state.1 <= k && k != chunk_id && !#[trigger] state.0.contains_key(k)
}

/// What `accept` does, from state `before` (pending results and expected
/// id) given `result`: the result is stored under its id; the results under
/// the expected id `e` and the ids that follow it without a gap are
/// `released`, in order, their ids being `e`, `e + 1`, ...; the first id
/// without a result becomes the expected one, and the released results leave
/// the pending ones.
pub open spec fn accepted(
    before: (Map<u64, TranscriptionResult>, u64),
    result: TranscriptionResult,
    released: Seq<TranscriptionResult>,
    after: (Map<u64, TranscriptionResult>, u64),
) -> bool {
    let stored = before.0.insert(result.chunk_id, result);
    let e = before.1;
    let n = released.len();
    &&& is_run_from(released, stored, e as int)
    &&& ids_consecutive_from(released, e as int)
    &&& !stored.contains_key((e + n) as u64)
    &&& e + n <= u64::MAX
    &&& after.1 == e + n
    &&& after.0 == without_run(stored, e as int, n as int)
}

/// What `finish` does from state `state`: `rest` holds every pending
/// result, each once, in increasing chunk order.
pub open spec fn finished(state: (Map<u64, TranscriptionResult>, u64), rest: Seq<TranscriptionResult>) -> bool {
    &&& rest.len() == state.0.len()
    &&& ids_increasing(rest)
    &&& forall|j: int|
        0 <= j < rest.len() ==> state.0.contains_key(#[trigger] rest[j].chunk_id) && rest[j]
            == state.0[rest[j].chunk_id]
    &&& forall|k: u64|
        #[trigger] state.0.contains_key(k) ==> exists|j: int| 0 <= j < rest.len() && rest[j].chunk_id == k
}

/// The pending results after releasing those with ids `from`, `from + 1`,
/// ..., `from + count - 1`.
pub open spec fn without_run(pending: Map<u64, TranscriptionResult>, from: int, count: int) -> Map<
    u64,
    TranscriptionResult,
> {
    pending.remove_keys(Set::new(|k: u64| from <= k < from + count))
}

impl ResultReorderer {
    #[verifier::type_invariant]
    spec fn keyed_by_id(self) -> bool {
        &&& forall|k: u64| #[trigger]
            self.pending@.contains_key(k) ==> self.pending@[k].chunk_id == k
        &&& !self.pending@.contains_key(self.expected_chunk_id)
    }

    /// An empty reorderer that waits for chunk 0.
    pub fn new() -> (r: Self)
        ensures
            r@.0 == Map::<u64, TranscriptionResult>::empty(),
            r@.1 == 0,
    {
        ResultReorderer { pending: BTreeMap::new(), expected_chunk_id: 0 }
    }

    /// Id of the next chunk whose result will be released.
    pub fn expected_chunk_id(&self) -> (id: u64)
        ensures
            id == self@.1,
    {
        self.expected_chunk_id
    }

    /// Number of results waiting for an earlier chunk.
    pub fn pending_count(&self) -> (n: usize)
        ensures
            n == self@.0.len(),
    {
        self.pending.len()
    }

    /// Whether `accept` may take a result for chunk `chunk_id`: once it is
    /// stored, some id from the expected one up to `u64::MAX` still has no
    /// result, so the expected id does not run past `u64::MAX`.
    pub fn can_accept(&self, chunk_id: u64) -> (ok: bool)
        ensures
            ok == leaves_a_gap(self@, chunk_id),
    {
        proof {
            use_type_invariant(self);
        }
        let mut k = self.expected_chunk_id;
        loop
            invariant
                self@.1 <= k,
                forall|j: u64| self@.1 <= j < k ==> j == chunk_id || #[trigger] self@.0.contains_key(j),
            decreases u64::MAX - k,
        {
            proof {
                lemma_ids_are_ordered_keys();
            }
            if k != chunk_id && !self.pending.contains_key(&k) {
                assert(self@.1 <= k && k != chunk_id && !self@.0.contains_key(k));
                return true;
            }
            if k == u64::MAX {
                proof {
                    assert forall|j: u64| self@.1 <= j implies j == chunk_id || #[trigger] self@.0.contains_key(j) by {
                        if j == k {
                        }
                    }
                }
                return false;
            }
            k = k + 1;
        }
    }

    /// Takes in one result and releases, in order, every result that is now
    /// next in line.
    ///
    /// The result is stored under its chunk id (replacing one stored there
    /// before). Then the results with ids `e`, `e + 1`, ... are released, `e`
    /// being the expected id, up to the first id that has no result; that id
    /// becomes the expected one.
    pub fn accept(&mut self, result: TranscriptionResult) -> (released: Vec<TranscriptionResult>)
        requires
            leaves_a_gap(old(self)@, result.chunk_id),
        ensures
            accepted(old(self)@, result, released@, final(self)@),
    {
        proof {
            use_type_invariant(&*self);
        }
        let ghost stored = self.pending@.insert(result.chunk_id, result);
        let ghost e: int = self.expected_chunk_id as int;
        let mut pending: BTreeMap<u64, TranscriptionResult> = BTreeMap::new();
        std::mem::swap(&mut pending, &mut self.pending);
        pending.insert(result.chunk_id, result);
        assert(pending@ == stored);
        let mut expected = self.expected_chunk_id;
        let mut released: Vec<TranscriptionResult> = Vec::new();
        let ghost gap = choose|k: u64| old(self)@.1 <= k && k != result.chunk_id && !#[trigger] old(self)@.0.contains_key(k);
        assert(e <= gap && !stored.contains_key(gap));
        loop
            invariant_except_break
                0 <= e <= expected <= gap,
                !stored.contains_key(gap),
                released@.len() == expected - e,
                forall|k: u64| #[trigger] stored.contains_key(k) ==> stored[k].chunk_id == k,
                is_run_from(released@, stored, e),
                pending@ == without_run(stored, e, released@.len() as int),
            ensures
                e <= expected,
                released@.len() == expected - e,
                is_run_from(released@, stored, e),
                pending@ == without_run(stored, e, released@.len() as int),
                !stored.contains_key(expected),
            decreases u64::MAX - expected,
        {
            let ghost before = pending@;
            match pending.remove(&expected) {
                Some(next) => {
                    proof {
                        assert(before.contains_key(expected));
                        assert(stored.contains_key(expected));
                        assert(without_run(stored, e, released@.len() as int + 1) =~= before.remove(expected));
                        assert(next == stored[expected]);
                        lemma_run_extends(released@, stored, e, next);
                    }
                    released.push(next);
                    expected = expected + 1;
                },
                None => {
                    proof {
                        assert(!before.contains_key(expected));
                    }
                    break;
                },
            }
        }
        proof {
            assert forall|j: int| 0 <= j < released@.len() implies #[trigger] released@[j].chunk_id == e + j by {
                assert(stored.contains_key((e + j) as u64));
            }
        }
        *self = ResultReorderer { pending, expected_chunk_id: expected };
        released
    }

    /// Releases every result still waiting, in increasing chunk order, at the
    /// end of the stream.
    pub fn finish(self) -> (rest: Vec<TranscriptionResult>)
        ensures
            finished(self@, rest@),
    {
        proof {
            use_type_invariant(&self);
        }
        let ghost all = self.pending@;
        let mut pending = self.pending;
        let mut rest: Vec<TranscriptionResult> = Vec::new();
        while pending.len() > 0
            invariant
                forall|k: u64| #[trigger]
                    all.contains_key(k) ==> all[k].chunk_id == k,
                forall|k: u64| #[trigger]
                    pending@.contains_key(k) ==> all.contains_key(k) && pending@[k] == all[k],
                forall|k: u64| #[trigger]
                    all.contains_key(k) ==> pending@.contains_key(k) || exists|j: int|
                        0 <= j < rest@.len() && rest@[j].chunk_id == k,
                forall|j: int|
                    0 <= j < rest@.len() ==> all.contains_key(#[trigger] rest@[j].chunk_id)
                        && rest@[j] == all[rest@[j].chunk_id],
                ids_increasing(rest@),
                forall|k: u64, j: int|
                    #![trigger pending@.contains_key(k), rest@[j]]
                    pending@.contains_key(k) && 0 <= j < rest@.len() ==> rest@[j].chunk_id < k,
                rest@.len() + pending@.len() == all.len(),
            decreases pending@.len(),
        {
            let key = smallest_key(&pending);
            let ghost before = pending@;
            let removed = pending.remove(&key);
            let next = removed.unwrap();
            proof {
                assert(pending@ == before.remove(key));
                assert(next == all[key]);
            }
            let ghost old_rest = rest@;
            rest.push(next);
            proof {
                assert forall|k: u64| #[trigger] all.contains_key(k) implies pending@.contains_key(k)
                    || exists|j: int| 0 <= j < rest@.len() && rest@[j].chunk_id == k by {
                    if !pending@.contains_key(k) {
                        if k == key {
                            assert(rest@[old_rest.len() as int].chunk_id == k);
                        } else {
                            let j = choose|j: int| 0 <= j < old_rest.len() && old_rest[j].chunk_id == k;
                            assert(rest@[j] == old_rest[j]);
                        }
                    }
                }
                assert forall|j: int| 0 <= j < rest@.len() implies all.contains_key(#[trigger] rest@[j].chunk_id)
                    && rest@[j] == all[rest@[j].chunk_id] by {
                    if j < old_rest.len() {
                        assert(rest@[j] == old_rest[j]);
                    }
                }
                assert forall|i: int, j: int| 0 <= i < j < rest@.len() implies rest@[i].chunk_id < rest@[j].chunk_id by {
                    assert(rest@[i] == old_rest[i]);
                    if j < old_rest.len() {
                        assert(rest@[j] == old_rest[j]);
                    } else {
                        assert(before.contains_key(key));
                    }
                }
                assert forall|k: u64, j: int| #[trigger] pending@.contains_key(k) && 0 <= j < rest@.len() implies
                    #[trigger] rest@[j].chunk_id < k by {
                    assert(before.contains_key(k));
                    if j < old_rest.len() {
                        assert(rest@[j] == old_rest[j]);
                    }
                }
            }
        }
        proof {
            lemma_ids_are_ordered_keys();
            assert(pending@.len() == 0);
            assert(pending@.dom().len() == 0);
            pending@.dom().lemma_len0_is_empty();
            assert forall|k: u64| #[trigger] all.contains_key(k) implies exists|j: int|
                0 <= j < rest@.len() && rest@[j].chunk_id == k by {
                assert(!pending@.dom().contains(k));
            }
        }
        rest
    }
}

/// Whether the results `s` carry the consecutive chunk ids `from`,
/// `from + 1`, ...
pub open spec fn ids_consecutive_from(s: Seq<TranscriptionResult>, from: int) -> bool {
    forall|j: int| 0 <= j < s.len() ==> #[trigger] s[j].chunk_id == from + j
}

/// Releases chain: what one call of `accept` releases continues, without gap
/// or repetition, where the previous call stopped, so the whole released
/// stream carries the chunk ids `0, 1, 2, ...` in order.
pub proof fn lemma_releases_chain(first: Seq<TranscriptionResult>, second: Seq<TranscriptionResult>, from: int)
    requires
        ids_consecutive_from(first, from),
        ids_consecutive_from(second, from + first.len()),
    ensures
        ids_consecutive_from(first + second, from),
        ids_increasing(first + second),
{
    let all = first + second;
    assert forall|j: int| 0 <= j < all.len() implies #[trigger] all[j].chunk_id == from + j by {
        if j >= first.len() {
            assert(all[j] == second[j - first.len()]);
        }
    }
}

/// Chunk ids obey the ordering that `BTreeMap` relies on.
proof fn lemma_ids_are_ordered_keys()
    ensures
        vstd::std_specs::btree::key_obeys_cmp_spec::<u64>(),
        vstd::laws_cmp::obeys_cmp::<u64>(),
{
    assert(vstd::laws_cmp::obeys_cmp::<u64>());
}

/// The smallest chunk id with a result in `pending`.
fn smallest_key(pending: &BTreeMap<u64, TranscriptionResult>) -> (key: u64)
    requires
        pending@.len() > 0,
    ensures
        pending@.contains_key(key),
        forall|k: u64| #[trigger] pending@.contains_key(k) ==> key <= k,
{
    let ghost key_seq = pending.keys().remaining();
    let mut smallest: u64 = u64::MAX;
    let mut found = false;
    for key in it: pending.keys()
        invariant
            it.seq() == key_seq,
            found ==> exists|i: int| 0 <= i < it.index() && *key_seq[i] == smallest,
            !found ==> it.index() == 0,
            forall|i: int| 0 <= i < it.index() ==> smallest <= *key_seq[i],
    {
        if !found || *key < smallest {
            smallest = *key;
        }
        found = true;
    }
    proof {
        assert(key_seq.len() == pending@.dom().len());
        assert(key_seq.unref().to_set() == pending@.dom());
        let i = choose|i: int| 0 <= i < key_seq.len() && *key_seq[i] == smallest;
        assert(key_seq.unref()[i] == smallest);
        assert(key_seq.unref().to_set().contains(smallest));
        assert forall|k: u64| #[trigger] pending@.contains_key(k) implies smallest <= k by {
            assert(key_seq.unref().to_set().contains(k));
            let i = choose|i: int| 0 <= i < key_seq.len() && key_seq.unref()[i] == k;
        }
    }
    smallest
}

/// Whether `released` holds the results stored under ids `e`, `e + 1`, ...,
/// in that order.
pub open spec fn is_run_from(released: Seq<TranscriptionResult>, stored: Map<u64, TranscriptionResult>, e: int) -> bool {
    &&& forall|k: u64| e <= k < e + released.len() ==> #[trigger] stored.contains_key(k)
    &&& forall|j: int| 0 <= j < released.len() ==> #[trigger] released[j] == stored[(e + j) as u64]
}

proof fn lemma_run_extends(
    released: Seq<TranscriptionResult>,
    stored: Map<u64, TranscriptionResult>,
    e: int,
    next: TranscriptionResult,
)
    requires
        is_run_from(released, stored, e),
        0 <= e,
        e + released.len() < u64::MAX,
        stored.contains_key((e + released.len()) as u64),
        next == stored[(e + released.len()) as u64],
    ensures
        is_run_from(released.push(next), stored, e),
{
    let r = released.push(next);
    assert forall|j: int| 0 <= j < r.len() implies #[trigger] r[j] == stored[(e + j) as u64] by {
        if j < released.len() {
            assert(r[j] == released[j]);
        }
    }
}

/// What holds after the first `i` results of a run have been accepted:
/// everything released so far carries the ids `0 .. e` in order and came in;
/// the pending results came in, under ids above `e`; and every result that
/// came in was either released under its id or is pending under it.
spec fn run_so_far(
    arrivals: Seq<TranscriptionResult>,
    states: Seq<(Map<u64, TranscriptionResult>, u64)>,
    outs: Seq<Seq<TranscriptionResult>>,
    i: int,
) -> bool {
    let f = concat_all(outs.take(i));
    let m = states[i].0;
    let e = states[i].1;
    &&& f.len() == e
    &&& ids_consecutive_from(f, 0)
    &&& forall|j: int| 0 <= j < f.len() ==> exists|a: int| 0 <= a < i && arrivals[a] == #[trigger] f[j]
    &&& forall|k: u64| #[trigger]
        m.contains_key(k) ==> e < k && m[k].chunk_id == k && exists|a: int|
            0 <= a < i && arrivals[a] == m[k]
    &&& forall|a: int|
        0 <= a < i ==> {
            let id = #[trigger] arrivals[a].chunk_id;
            ||| id < e && f[id as int] == arrivals[a]
            ||| m.contains_key(id) && m[id] == arrivals[a]
        }
}

proof fn lemma_run_step(
    arrivals: Seq<TranscriptionResult>,
    states: Seq<(Map<u64, TranscriptionResult>, u64)>,
    outs: Seq<Seq<TranscriptionResult>>,
    i: int,
)
    requires
        0 <= i < arrivals.len(),
        states.len() == arrivals.len() + 1,
        outs.len() == arrivals.len(),
        forall|a: int| 0 <= a < i ==> #[trigger] arrivals[a].chunk_id != arrivals[i].chunk_id,
        accepted(states[i], arrivals[i], outs[i], states[i + 1]),
        run_so_far(arrivals, states, outs, i),
    ensures
        run_so_far(arrivals, states, outs, i + 1),
{
    let f = concat_all(outs.take(i));
    let m = states[i].0;
    let e = states[i].1;
    let r = arrivals[i];
    let id = r.chunk_id;
    let stored = m.insert(id, r);
    let out = outs[i];
    let n = out.len();
    let f2 = concat_all(outs.take(i + 1));
    let m2 = states[i + 1].0;
    let e2 = states[i + 1].1;
    assert(outs.take(i + 1).drop_last() =~= outs.take(i));
    assert(f2 == f + out);
    // The new result's id was neither released nor pending.
    if id < e {
        let a = choose|a: int| 0 <= a < i && arrivals[a] == f[id as int];
        assert(f[id as int].chunk_id == id);
        assert(arrivals[a].chunk_id == id);
    }
    if m.contains_key(id) {
        let a = choose|a: int| 0 <= a < i && arrivals[a] == m[id];
        assert(arrivals[a].chunk_id == id);
    }
    assert(e <= id);
    assert(!m.contains_key(id));
    assert forall|k: u64| #[trigger] stored.contains_key(k) implies e <= k && stored[k].chunk_id == k
        && exists|a: int| 0 <= a < i + 1 && arrivals[a] == stored[k] by {
        if k == id {
            assert(arrivals[i] == stored[k]);
        } else {
            let a = choose|a: int| 0 <= a < i && arrivals[a] == m[k];
            assert(arrivals[a] == stored[k]);
        }
    }
    // Released results.
    assert(f2.len() == e2);
    lemma_releases_chain(f, out, 0);
    assert forall|j: int| 0 <= j < f2.len() implies exists|a: int| 0 <= a < i + 1 && arrivals[a] == #[trigger] f2[j] by {
        if j < f.len() {
            assert(f2[j] == f[j]);
            let a = choose|a: int| 0 <= a < i && arrivals[a] == f[j];
        } else {
            let t = j - f.len();
            assert(f2[j] == out[t]);
            let k = (e + t) as u64;
            assert(e <= k < e + n);
            assert(stored.contains_key(k));
            assert(out[t] == stored[k]);
        }
    }
    // Pending results.
    assert forall|k: u64| #[trigger] m2.contains_key(k) implies e2 < k && m2[k].chunk_id == k
        && exists|a: int| 0 <= a < i + 1 && arrivals[a] == m2[k] by {
        assert(stored.contains_key(k));
        assert(!(e <= k < e + n));
        assert(k != e + n);
    }
    // Every arrival so far is released or pending under its id.
    assert forall|a: int| 0 <= a < i + 1 implies {
        let aid = #[trigger] arrivals[a].chunk_id;
        ||| aid < e2 && f2[aid as int] == arrivals[a]
        ||| m2.contains_key(aid) && m2[aid] == arrivals[a]
    } by {
        let aid = arrivals[a].chunk_id;
        if a < i && aid < e {
            assert(f2[aid as int] == f[aid as int]);
        } else {
            assert(stored.contains_key(aid) && stored[aid] == arrivals[a]);
            if e <= aid < e + n {
                let t = aid - e;
                assert(e + t == aid);
                assert(out[t] == stored[aid]);
                assert(f2[aid as int] == out[t]);
            } else {
                assert(m2.contains_key(aid));
            }
        }
    }
}

proof fn lemma_run_prefix(
    arrivals: Seq<TranscriptionResult>,
    states: Seq<(Map<u64, TranscriptionResult>, u64)>,
    outs: Seq<Seq<TranscriptionResult>>,
    i: int,
)
    requires
        0 <= i <= arrivals.len(),
        states.len() == arrivals.len() + 1,
        outs.len() == arrivals.len(),
        states[0].0 == Map::<u64, TranscriptionResult>::empty(),
        states[0].1 == 0,
        forall|x: int| 0 <= x < arrivals.len() ==> leaves_a_gap(#[trigger] states[x], arrivals[x].chunk_id),
        forall|x: int, y: int|
            0 <= x < y < arrivals.len() ==> #[trigger] arrivals[x].chunk_id != #[trigger] arrivals[y].chunk_id,
        forall|x: int|
            0 <= x < arrivals.len() ==> accepted(states[x], arrivals[x], #[trigger] outs[x], states[x + 1]),
    ensures
        run_so_far(arrivals, states, outs, i),
    decreases i,
{
    if i == 0 {
        assert(outs.take(0) =~= Seq::<Seq<TranscriptionResult>>::empty());
    } else {
        lemma_run_prefix(arrivals, states, outs, i - 1);
        assert(accepted(states[i - 1], arrivals[i - 1], outs[i - 1], states[i]));
        assert forall|a: int| 0 <= a < i - 1 implies #[trigger] arrivals[a].chunk_id != arrivals[i - 1].chunk_id by {
            assert(arrivals[a].chunk_id != arrivals[i - 1].chunk_id);
        }
        lemma_run_step(arrivals, states, outs, i - 1);
    }
}

/// Results are released in chunk order. Take a run of a reorderer that
/// starts empty, accepts `arrivals` (each chunk id at most once, in any
/// order), releasing `outs[i]` on arrival `i`, and is then finished with
/// `rest`. Everything it hands out, the releases followed by `rest`, holds
/// each arrival exactly once, in strictly increasing chunk order; and the
/// releases alone are the chunks `0, 1, 2, ...` without a gap. The run is
/// one that `accept`'s precondition allows at every step.
pub proof fn lemma_results_released_in_chunk_order(
    arrivals: Seq<TranscriptionResult>,
    states: Seq<(Map<u64, TranscriptionResult>, u64)>,
    outs: Seq<Seq<TranscriptionResult>>,
    rest: Seq<TranscriptionResult>,
)
    requires
        states.len() == arrivals.len() + 1,
        outs.len() == arrivals.len(),
        states[0].0 == Map::<u64, TranscriptionResult>::empty(),
        states[0].1 == 0,
        forall|i: int| 0 <= i < arrivals.len() ==> leaves_a_gap(#[trigger] states[i], arrivals[i].chunk_id),
        forall|i: int, j: int|
            0 <= i < j < arrivals.len() ==> #[trigger] arrivals[i].chunk_id != #[trigger] arrivals[j].chunk_id,
        forall|i: int|
            0 <= i < arrivals.len() ==> accepted(states[i], arrivals[i], #[trigger] outs[i], states[i + 1]),
        finished(states[arrivals.len() as int], rest),
    ensures
        ids_consecutive_from(concat_all(outs), 0),
        ids_increasing(concat_all(outs) + rest),
        forall|i: int| 0 <= i < arrivals.len() ==> (concat_all(outs) + rest).contains(#[trigger] arrivals[i]),
        forall|j: int|
            0 <= j < (concat_all(outs) + rest).len() ==> arrivals.contains(
                #[trigger] (concat_all(outs) + rest)[j],
            ),
        (concat_all(outs) + rest).len() == arrivals.len(),
{
    let n = arrivals.len() as int;
    lemma_run_prefix(arrivals, states, outs, n);
    assert(outs.take(n) =~= outs);
    let f = concat_all(outs);
    let m = states[n].0;
    let e = states[n].1;
    let all = f + rest;
    assert forall|x: int, y: int| 0 <= x < y < all.len() implies all[x].chunk_id < all[y].chunk_id by {
        if y < f.len() {
        } else if x < f.len() {
            assert(all[x] == f[x]);
            assert(all[y] == rest[y - f.len()]);
            assert(m.contains_key(rest[y - f.len()].chunk_id));
        } else {
            assert(all[x] == rest[x - f.len()]);
            assert(all[y] == rest[y - f.len()]);
        }
    }
    assert forall|a: int| 0 <= a < n implies all.contains(#[trigger] arrivals[a]) by {
        let aid = arrivals[a].chunk_id;
        if aid < e {
            assert(all[aid as int] == arrivals[a]);
        } else {
            assert(m.contains_key(aid));
            let j = choose|j: int| 0 <= j < rest.len() && rest[j].chunk_id == aid;
            assert(all[f.len() + j] == rest[j]);
        }
    }
    assert forall|j: int| 0 <= j < all.len() implies arrivals.contains(#[trigger] all[j]) by {
        if j < f.len() {
            assert(all[j] == f[j]);
            let a = choose|a: int| 0 <= a < n && arrivals[a] == f[j];
        } else {
            let t = j - f.len();
            assert(all[j] == rest[t]);
            assert(m.contains_key(rest[t].chunk_id));
            let a = choose|a: int| 0 <= a < n && arrivals[a] == m[rest[t].chunk_id];
        }
    }
    lemma_same_ids_same_len(all, arrivals);
}

/// The chunk ids of `s`, in order.
pub open spec fn ids_of(s: Seq<TranscriptionResult>) -> Seq<u64> {
    s.map_values(|r: TranscriptionResult| r.chunk_id)
}

proof fn lemma_same_ids_same_len(all: Seq<TranscriptionResult>, arrivals: Seq<TranscriptionResult>)
    requires
        ids_increasing(all),
        forall|i: int, j: int|
            0 <= i < j < arrivals.len() ==> #[trigger] arrivals[i].chunk_id != #[trigger] arrivals[j].chunk_id,
        forall|i: int| 0 <= i < arrivals.len() ==> all.contains(#[trigger] arrivals[i]),
        forall|j: int| 0 <= j < all.len() ==> arrivals.contains(#[trigger] all[j]),
    ensures
        all.len() == arrivals.len(),
{
    let a = ids_of(all);
    let b = ids_of(arrivals);
    assert(a.no_duplicates()) by {
        assert forall|i: int, j: int| 0 <= i < a.len() && 0 <= j < a.len() && i != j implies a[i] != a[j] by {
            if i < j {
                assert(all[i].chunk_id < all[j].chunk_id);
            } else {
                assert(all[j].chunk_id < all[i].chunk_id);
            }
        }
    }
    assert(b.no_duplicates()) by {
        assert forall|i: int, j: int| 0 <= i < b.len() && 0 <= j < b.len() && i != j implies b[i] != b[j] by {
            if i < j {
                assert(arrivals[i].chunk_id != arrivals[j].chunk_id);
            } else {
                assert(arrivals[j].chunk_id != arrivals[i].chunk_id);
            }
        }
    }
    assert forall|x: u64| a.to_set().contains(x) <==> b.to_set().contains(x) by {
        if a.to_set().contains(x) {
            assert(a.contains(x));
            let j = choose|j: int| 0 <= j < a.len() && a[j] == x;
            assert(arrivals.contains(all[j]));
            let i = choose|i: int| 0 <= i < arrivals.len() && arrivals[i] == all[j];
            assert(b[i] == x);
            assert(b.contains(x));
        }
        if b.to_set().contains(x) {
            assert(b.contains(x));
            let i = choose|i: int| 0 <= i < b.len() && b[i] == x;
            assert(all.contains(arrivals[i]));
            let j = choose|j: int| 0 <= j < all.len() && all[j] == arrivals[i];
            assert(a[j] == x);
            assert(a.contains(x));
        }
    }
    assert(a.to_set() =~= b.to_set());
    a.unique_seq_to_set();
    b.unique_seq_to_set();
}

/// Whether a result for chunk `id` is among the first `count` arrivals.
pub open spec fn arrived_among(arrivals: Seq<TranscriptionResult>, count: int, id: int) -> bool {
    exists|a: int| 0 <= a < count && arrivals[a].chunk_id == id
}

/// A result is released as soon as it can be, and no sooner. In a run as
/// in `lemma_results_released_in_chunk_order`, after arrival `i` the
/// releases so far are the chunks `0, 1, 2, ...` in order, and chunk `k` is
/// among them exactly when the results for all of chunks `0 ..= k` have
/// arrived (among the first `i + 1` arrivals).
pub proof fn lemma_result_released_once_predecessors_arrived(
    arrivals: Seq<TranscriptionResult>,
    states: Seq<(Map<u64, TranscriptionResult>, u64)>,
    outs: Seq<Seq<TranscriptionResult>>,
    i: int,
    k: int,
)
    requires
        0 <= i < arrivals.len(),
        0 <= k,
        states.len() == arrivals.len() + 1,
        outs.len() == arrivals.len(),
        states[0].0 == Map::<u64, TranscriptionResult>::empty(),
        states[0].1 == 0,
        forall|x: int| 0 <= x < arrivals.len() ==> leaves_a_gap(#[trigger] states[x], arrivals[x].chunk_id),
        forall|x: int, y: int|
            0 <= x < y < arrivals.len() ==> #[trigger] arrivals[x].chunk_id != #[trigger] arrivals[y].chunk_id,
        forall|x: int|
            0 <= x < arrivals.len() ==> accepted(states[x], arrivals[x], #[trigger] outs[x], states[x + 1]),
    ensures
        ids_consecutive_from(concat_all(outs.take(i + 1)), 0),
        k < concat_all(outs.take(i + 1)).len() <==> forall|j: int|
            0 <= j <= k ==> #[trigger] arrived_among(arrivals, i + 1, j),
{
    lemma_run_prefix(arrivals, states, outs, i + 1);
    let f = concat_all(outs.take(i + 1));
    let e = states[i + 1].1;
    let m = states[i + 1].0;
    if forall|j: int| 0 <= j <= k ==> #[trigger] arrived_among(arrivals, i + 1, j) {
        if e <= k {
            assert(arrived_among(arrivals, i + 1, e as int));
            let a = choose|a: int| 0 <= a < i + 1 && arrivals[a].chunk_id == e;
            assert(m.contains_key(arrivals[a].chunk_id));
        }
    }
    if k < f.len() {
        assert forall|j: int| 0 <= j <= k implies #[trigger] arrived_among(arrivals, i + 1, j) by {
            let a = choose|a: int| 0 <= a < i + 1 && arrivals[a] == f[j];
            assert(f[j].chunk_id == j);
            assert(arrivals[a].chunk_id == j);
        }
    }
}

} // verus!
