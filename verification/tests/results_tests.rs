use audio_transcription::results::{
    dropped_result, result_event, skipped_result, ChunkOutcome, DropReason, EventKind,
    ResultReorderer, TranscriptionResult,
};

fn result(id: u64, text: &str) -> TranscriptionResult {
    TranscriptionResult {
        chunk_id: id,
        start_ms: id * 1000,
        end_ms: id * 1000 + 1000,
        outcome: ChunkOutcome::Transcript(text.to_string()),
    }
}

fn ids(rs: &[TranscriptionResult]) -> Vec<u64> {
    rs.iter().map(|r| r.chunk_id).collect()
}

#[test]
fn results_are_released_in_chunk_order() {
    let mut r = ResultReorderer::new();
    assert!(r.accept(result(2, "c")).is_empty());
    assert!(r.accept(result(1, "b")).is_empty());
    assert_eq!(r.pending_count(), 2);
    let out = r.accept(result(0, "a"));
    assert_eq!(ids(&out), vec![0, 1, 2]);
    assert_eq!(out[1].outcome, ChunkOutcome::Transcript("b".to_string()));
    assert_eq!(r.expected_chunk_id(), 3);
    assert_eq!(r.pending_count(), 0);
    assert_eq!(ids(&r.accept(result(3, "d"))), vec![3]);
}

#[test]
fn finish_releases_the_rest_in_order() {
    let mut r = ResultReorderer::new();
    assert_eq!(ids(&r.accept(result(0, "a"))), vec![0]);
    for id in [7, 3, 5, 4] {
        assert!(r.accept(result(id, "x")).is_empty());
    }
    assert_eq!(ids(&r.finish()), vec![3, 4, 5, 7]);
}

#[test]
fn later_result_replaces_pending_one() {
    let mut r = ResultReorderer::new();
    r.accept(result(1, "first"));
    r.accept(result(1, "second"));
    let out = r.accept(result(0, "zero"));
    assert_eq!(ids(&out), vec![0, 1]);
    assert_eq!(out[1].outcome, ChunkOutcome::Transcript("second".to_string()));
}

#[test]
fn late_result_waits_for_finish() {
    let mut r = ResultReorderer::new();
    r.accept(result(0, "a"));
    assert!(r.accept(result(0, "again")).is_empty());
    let rest = r.finish();
    assert_eq!(ids(&rest), vec![0]);
}

#[test]
fn drop_reasons_have_their_messages() {
    assert_eq!(DropReason::QueueFull.message(), "Transcription queue full");
    assert_eq!(DropReason::QueueDisconnected.message(), "Transcription queue disconnected");
    assert_eq!(DropReason::WorkersBusy.message(), "All transcription workers are busy");
    let d = dropped_result(3, 3000, 4000, DropReason::WorkersBusy);
    assert_eq!((d.chunk_id, d.start_ms, d.end_ms), (3, 3000, 4000));
    assert_eq!(d.outcome, ChunkOutcome::Dropped("All transcription workers are busy".to_string()));
}

#[test]
fn events_match_outcomes() {
    let t = result_event(&result(1, "hi"));
    assert_eq!(t.kind, EventKind::Transcript);
    assert_eq!(t.detail, "hi");
    assert_eq!(t.kind.name(), "transcript");
    assert_eq!(t.kind.detail_field(), "text");

    let e = result_event(&TranscriptionResult {
        chunk_id: 2,
        start_ms: 2000,
        end_ms: 3000,
        outcome: ChunkOutcome::Error("bad".to_string()),
    });
    assert_eq!(e.kind, EventKind::Error);
    assert_eq!(e.kind.name(), "error");
    assert_eq!(e.kind.detail_field(), "message");

    let d = result_event(&dropped_result(5, 5000, 6000, DropReason::QueueFull));
    assert_eq!(d.kind, EventKind::Backpressure);
    assert_eq!(d.detail, "Transcription queue full");
    assert_eq!((d.chunk_id, d.start_ms, d.end_ms), (5, 5000, 6000));
    assert_eq!(d.kind.name(), "backpressure");
    assert_eq!(d.kind.detail_field(), "message");

    let s = result_event(&skipped_result(6, 6000, 7000));
    assert_eq!(s.kind, EventKind::Skipped);
    assert_eq!(s.detail, "Silence detected by VAD");
    assert_eq!((s.chunk_id, s.start_ms, s.end_ms), (6, 6000, 7000));
    assert_eq!(s.kind.name(), "skipped");
    assert_eq!(s.kind.detail_field(), "reason");
}

#[test]
fn every_arrival_comes_out_once_in_order() {
    let order = [4u64, 0, 2, 9, 1, 3, 7];
    let mut r = ResultReorderer::new();
    let mut out = Vec::new();
    for id in order {
        out.extend(r.accept(result(id, "x")));
    }
    assert_eq!(ids(&out), vec![0, 1, 2, 3, 4]);
    out.extend(r.finish());
    assert_eq!(ids(&out), vec![0, 1, 2, 3, 4, 7, 9]);
}

#[test]
fn last_chunk_id_is_taken_while_a_gap_remains() {
    let mut r = ResultReorderer::new();
    assert!(r.can_accept(u64::MAX));
    assert!(r.accept(result(u64::MAX, "last")).is_empty());
    assert!(r.can_accept(0));
    assert_eq!(ids(&r.accept(result(0, "first"))), vec![0]);
    assert_eq!(ids(&r.finish()), vec![u64::MAX]);
}

#[test]
fn release_happens_once_all_predecessors_arrived() {
    let mut r = ResultReorderer::new();
    assert!(r.accept(result(1, "b")).is_empty());
    assert!(r.accept(result(3, "d")).is_empty());
    assert_eq!(ids(&r.accept(result(0, "a"))), vec![0, 1]);
    assert_eq!(ids(&r.accept(result(2, "c"))), vec![2, 3]);
}
