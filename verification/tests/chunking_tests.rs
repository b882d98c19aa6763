use audio_transcription::chunking::{
    route_chunk, transcription_result, AudioChunk, ChunkAssembler, ChunkRoute, CHUNK_SAMPLES,
};
use audio_transcription::results::ChunkOutcome;
use audio_transcription::vad::VadState;

#[test]
fn push_cuts_full_chunks_and_keeps_the_rest() {
    let mut a = ChunkAssembler::new();
    let samples: Vec<i16> = (0..40000).map(|i| (i % 1000) as i16).collect();
    let chunks = a.push(&samples);
    assert_eq!(chunks.len(), 2);
    assert_eq!(chunks[0].chunk_id, 0);
    assert_eq!(chunks[0].start_ms, 0);
    assert_eq!(chunks[0].end_ms, 1000);
    assert_eq!(chunks[1].chunk_id, 1);
    assert_eq!(chunks[1].start_ms, 1000);
    assert_eq!(chunks[1].end_ms, 2000);
    assert_eq!(chunks[0].samples[..], samples[..CHUNK_SAMPLES]);
    assert_eq!(chunks[1].samples[..], samples[CHUNK_SAMPLES..2 * CHUNK_SAMPLES]);
    assert_eq!(a.buffered_len(), 8000);
    assert_eq!(a.next_chunk_id(), 2);

    let last = a.finish().unwrap();
    assert_eq!(last.chunk_id, 2);
    assert_eq!(last.start_ms, 2000);
    assert_eq!(last.end_ms, 2500);
    assert_eq!(last.samples[..], samples[2 * CHUNK_SAMPLES..]);
    assert_eq!(a.buffered_len(), 0);
    assert!(a.finish().is_none());
}

#[test]
fn small_pushes_accumulate() {
    let mut a = ChunkAssembler::new();
    let mut all = Vec::new();
    let mut cut = Vec::new();
    for round in 0..7 {
        let piece: Vec<i16> = (0..5000).map(|i| (i + round) as i16).collect();
        all.extend_from_slice(&piece);
        for c in a.push(&piece) {
            cut.extend_from_slice(&c.samples);
        }
    }
    assert_eq!(cut.len(), 32000);
    assert_eq!(a.buffered_len(), 3000);
    cut.extend_from_slice(&a.finish().unwrap().samples);
    assert_eq!(cut, all);
}

#[test]
fn tiny_final_chunk_lasts_one_millisecond() {
    let mut a = ChunkAssembler::new();
    assert!(a.push(&[1; 10]).is_empty());
    let last = a.finish().unwrap();
    assert_eq!(last.start_ms, 0);
    assert_eq!(last.end_ms, 1);
}

#[test]
fn process_raw_converts_then_chunks() {
    let mut a = ChunkAssembler::new();
    // Stereo at 32 kHz: 64000 interleaved samples give 32000 frames, 16000 at 16 kHz.
    let raw: Vec<i16> = (0..64000).map(|i| if i % 2 == 0 { 100 } else { 300 }).collect();
    assert!(a.accepts(raw.len(), 2, 32000));
    let chunks = a.process_raw(&raw, 2, 32000);
    assert_eq!(chunks.len(), 1);
    assert!(chunks[0].samples.iter().all(|s| *s == 200));
    assert_eq!(a.buffered_len(), 0);
}

#[test]
fn accepts_rejects_zero_rate() {
    let a = ChunkAssembler::new();
    assert!(!a.accepts(10, 1, 0));
    assert!(a.accepts(0, 1, 0));
    assert!(a.accepts(1, 2, 0));
}

fn chunk(id: u64, level: i16) -> AudioChunk {
    AudioChunk { chunk_id: id, start_ms: id * 1000, end_ms: id * 1000 + 1000, samples: vec![level; 100] }
}

#[test]
fn silent_chunk_is_skipped() {
    let mut vad = VadState::new();
    match route_chunk(chunk(4, 10), &mut vad) {
        ChunkRoute::Skip(r) => {
            assert_eq!(r.chunk_id, 4);
            assert_eq!(r.start_ms, 4000);
            assert_eq!(r.end_ms, 5000);
            assert_eq!(r.outcome, ChunkOutcome::Skipped("Silence detected by VAD".to_string()));
        }
        ChunkRoute::Transcribe(_) => panic!("silence was sent for transcription"),
    }
}

#[test]
fn speech_chunk_is_transcribed() {
    let mut vad = VadState::new();
    match route_chunk(chunk(0, 5000), &mut vad) {
        ChunkRoute::Transcribe(c) => assert_eq!(c.chunk_id, 0),
        ChunkRoute::Skip(_) => panic!("speech was skipped"),
    }
    assert!(vad.is_speech_active());
}

#[test]
fn transcription_result_keeps_chunk_place() {
    let c = chunk(9, 0);
    let ok = transcription_result(&c, Ok("hello".to_string()));
    assert_eq!((ok.chunk_id, ok.start_ms, ok.end_ms), (9, 9000, 10000));
    assert_eq!(ok.outcome, ChunkOutcome::Transcript("hello".to_string()));
    let err = transcription_result(&c, Err("boom".to_string()));
    assert_eq!(err.outcome, ChunkOutcome::Error("boom".to_string()));
}
