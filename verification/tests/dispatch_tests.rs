use std::sync::mpsc;

use audio_transcription::chunking::AudioChunk;
use audio_transcription::dispatch::{OfferStep, RoundRobin};

fn chunk(id: u64) -> AudioChunk {
    AudioChunk { chunk_id: id, start_ms: 0, end_ms: 0, samples: vec![] }
}

#[test]
fn chunks_go_round_robin_and_drop_when_all_full() {
    let (tx0, rx0) = mpsc::sync_channel::<AudioChunk>(1);
    let (tx1, rx1) = mpsc::sync_channel::<AudioChunk>(1);
    let workers = vec![tx0, tx1];
    let mut rr = RoundRobin::new(2);
    assert_eq!(rr.dispatch(&workers, chunk(0)).ok(), Some(0));
    assert_eq!(rr.next_worker(), 1);
    assert_eq!(rr.dispatch(&workers, chunk(1)).ok(), Some(1));
    assert_eq!(rr.next_worker(), 0);
    match rr.dispatch(&workers, chunk(2)) {
        Err(c) => assert_eq!(c.chunk_id, 2),
        Ok(w) => panic!("full worker {} took a chunk", w),
    }
    assert_eq!(rr.next_worker(), 0);
    assert_eq!(rx1.recv().unwrap().chunk_id, 1);
    assert_eq!(rr.dispatch(&workers, chunk(3)).ok(), Some(1));
    assert_eq!(rx0.recv().unwrap().chunk_id, 0);
}

#[test]
fn busy_worker_is_skipped() {
    let (tx0, _rx0) = mpsc::sync_channel::<AudioChunk>(0);
    let (tx1, rx1) = mpsc::sync_channel::<AudioChunk>(1);
    let (tx2, _rx2) = mpsc::sync_channel::<AudioChunk>(1);
    let workers = vec![tx0, tx1, tx2];
    let mut rr = RoundRobin::new(3);
    assert_eq!(rr.dispatch(&workers, chunk(0)).ok(), Some(1));
    assert_eq!(rr.next_worker(), 2);
    assert_eq!(rx1.recv().unwrap().chunk_id, 0);
}

#[test]
fn disconnected_workers_refuse() {
    let (tx0, rx0) = mpsc::sync_channel::<AudioChunk>(4);
    drop(rx0);
    let workers = vec![tx0];
    let mut rr = RoundRobin::new(1);
    assert!(rr.dispatch(&workers, chunk(8)).is_err());
}

#[test]
fn attempts_wrap_round() {
    let (tx0, _r0) = mpsc::sync_channel::<AudioChunk>(0);
    let (tx1, _r1) = mpsc::sync_channel::<AudioChunk>(0);
    let (tx2, r2) = mpsc::sync_channel::<AudioChunk>(1);
    let workers = vec![tx0, tx1, tx2];
    let mut rr = RoundRobin::new(3);
    assert_eq!(rr.dispatch(&workers, chunk(0)).ok(), Some(2));
    assert_eq!(rr.next_worker(), 0);
    r2.recv().unwrap();
    assert_eq!(rr.worker_for_attempt(0), 0);
    assert_eq!(rr.worker_for_attempt(2), 2);
    let mut rr2 = RoundRobin::new(3);
    let (a, _ra) = mpsc::sync_channel::<AudioChunk>(0);
    let (b, rb) = mpsc::sync_channel::<AudioChunk>(1);
    let (c, _rc) = mpsc::sync_channel::<AudioChunk>(1);
    let w2 = vec![a, b, c];
    assert_eq!(rr2.dispatch(&w2, chunk(1)).ok(), Some(1));
    rb.recv().unwrap();
    assert_eq!(rr2.worker_for_attempt(0), 2);
    assert_eq!(rr2.worker_for_attempt(1), 0);
    assert_eq!(rr2.worker_for_attempt(2), 1);
}

#[test]
fn all_accepting_workers_take_turns() {
    let (tx0, rx0) = mpsc::sync_channel::<AudioChunk>(2);
    let (tx1, rx1) = mpsc::sync_channel::<AudioChunk>(2);
    let (tx2, rx2) = mpsc::sync_channel::<AudioChunk>(2);
    let workers = vec![tx0, tx1, tx2];
    let mut rr = RoundRobin::new(3);
    for id in 0..4 {
        assert_eq!(rr.dispatch(&workers, chunk(id)).ok(), Some((id % 3) as usize));
    }
    let got = |rx: &mpsc::Receiver<AudioChunk>| rx.try_iter().map(|c| c.chunk_id).collect::<Vec<_>>();
    assert_eq!(got(&rx0), vec![0, 3]);
    assert_eq!(got(&rx1), vec![1]);
    assert_eq!(got(&rx2), vec![2]);
}

#[test]
fn after_offer_steps() {
    let mut rr = RoundRobin::new(3);
    assert_eq!(rr.after_offer(0, false), OfferStep::TryNext(1));
    assert_eq!(rr.after_offer(1, false), OfferStep::TryNext(2));
    assert_eq!(rr.after_offer(2, false), OfferStep::GiveUp);
    assert_eq!(rr.next_worker(), 0);
    assert_eq!(rr.after_offer(1, true), OfferStep::Taken(1));
    assert_eq!(rr.next_worker(), 2);
    assert_eq!(rr.after_offer(0, false), OfferStep::TryNext(0));
    assert_eq!(rr.after_offer(1, true), OfferStep::Taken(0));
    assert_eq!(rr.next_worker(), 1);
    let mut last = RoundRobin::new(2);
    assert_eq!(last.after_offer(1, true), OfferStep::Taken(1));
    assert_eq!(last.next_worker(), 0);
}
