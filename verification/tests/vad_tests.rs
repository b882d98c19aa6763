use audio_transcription::vad::{detect_voice_activity, rms_reaches, VadState};

fn chunk(level: i16) -> Vec<i16> {
    vec![level; 160]
}

#[test]
fn silence_stays_silent() {
    let mut vad = VadState::new();
    assert!(!detect_voice_activity(&chunk(100), &mut vad));
    assert!(!vad.is_speech_active());
    assert_eq!(vad.silent_chunk_count(), 0);
}

#[test]
fn start_threshold_is_inclusive() {
    let mut vad = VadState::new();
    assert!(!detect_voice_activity(&chunk(799), &mut vad));
    assert!(detect_voice_activity(&chunk(800), &mut vad));
}

#[test]
fn continue_threshold_keeps_speech() {
    let mut vad = VadState::new();
    assert!(detect_voice_activity(&chunk(-1000), &mut vad));
    assert!(detect_voice_activity(&chunk(500), &mut vad));
    assert_eq!(vad.silent_chunk_count(), 0);
    assert!(detect_voice_activity(&chunk(499), &mut vad));
    assert_eq!(vad.silent_chunk_count(), 1);
    assert!(detect_voice_activity(&chunk(600), &mut vad));
    assert_eq!(vad.silent_chunk_count(), 0);
}

#[test]
fn speech_ends_after_three_quiet_chunks() {
    let mut vad = VadState::new();
    assert!(detect_voice_activity(&chunk(2000), &mut vad));
    assert!(detect_voice_activity(&chunk(0), &mut vad));
    assert!(detect_voice_activity(&chunk(0), &mut vad));
    assert!(!detect_voice_activity(&chunk(0), &mut vad));
    assert_eq!(vad.silent_chunk_count(), 0);
    assert!(!detect_voice_activity(&chunk(700), &mut vad));
}

#[test]
fn empty_chunk_is_silence_and_keeps_state() {
    let mut vad = VadState::new();
    assert!(detect_voice_activity(&chunk(900), &mut vad));
    assert!(detect_voice_activity(&chunk(0), &mut vad));
    assert!(!detect_voice_activity(&[], &mut vad));
    assert!(vad.is_speech_active());
    assert_eq!(vad.silent_chunk_count(), 1);
}

#[test]
fn rms_is_exact() {
    // RMS of [600, 1000] is sqrt(680000) ~ 824.6.
    assert!(rms_reaches(&[600, 1000], 800));
    assert!(!rms_reaches(&[600, 1000], 825));
    assert!(rms_reaches(&[i16::MIN], 32768));
}
