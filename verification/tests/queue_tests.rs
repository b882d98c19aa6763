use std::sync::mpsc;

use audio_transcription::chunking::AudioChunk;
use audio_transcription::queue::{queue_for_transcription, result_of_offer, Offer};
use audio_transcription::results::ChunkOutcome;

fn chunk(id: u64) -> AudioChunk {
    AudioChunk { chunk_id: id, start_ms: id * 1000, end_ms: id * 1000 + 1000, samples: vec![1; 3] }
}

#[test]
fn taken_chunk_reports_nothing() {
    let (tx, rx) = mpsc::sync_channel::<AudioChunk>(1);
    assert!(queue_for_transcription(&tx, chunk(1)).is_none());
    assert_eq!(rx.recv().unwrap().chunk_id, 1);
}

#[test]
fn full_queue_drops_with_queue_full() {
    let (tx, _rx) = mpsc::sync_channel::<AudioChunk>(1);
    assert!(queue_for_transcription(&tx, chunk(1)).is_none());
    let dropped = queue_for_transcription(&tx, chunk(2)).unwrap();
    assert_eq!((dropped.chunk_id, dropped.start_ms, dropped.end_ms), (2, 2000, 3000));
    assert_eq!(dropped.outcome, ChunkOutcome::Dropped("Transcription queue full".to_string()));
}

#[test]
fn closed_queue_drops_with_queue_disconnected() {
    let (tx, rx) = mpsc::sync_channel::<AudioChunk>(1);
    drop(rx);
    let dropped = queue_for_transcription(&tx, chunk(7)).unwrap();
    assert_eq!(dropped.chunk_id, 7);
    assert_eq!(dropped.outcome, ChunkOutcome::Dropped("Transcription queue disconnected".to_string()));
}

#[test]
fn offers_map_to_results() {
    assert!(result_of_offer(Offer::Taken).is_none());
    let full = result_of_offer(Offer::Full(chunk(3))).unwrap();
    assert_eq!(full.outcome, ChunkOutcome::Dropped("Transcription queue full".to_string()));
    let gone = result_of_offer(Offer::Disconnected(chunk(4))).unwrap();
    assert_eq!((gone.chunk_id, gone.start_ms, gone.end_ms), (4, 4000, 5000));
    assert_eq!(gone.outcome, ChunkOutcome::Dropped("Transcription queue disconnected".to_string()));
}
