use audio_transcription::control::{
    capture_step, contains_bytes, is_stop_command, CaptureAction, CaptureEvent,
};

#[test]
fn stop_command_is_recognised() {
    assert!(is_stop_command("{\"command\": \"stop\"}"));
    assert!(is_stop_command("  {\"command\":\"stop\"}\n"));
    assert!(is_stop_command("{\"stop\": 1, \"command\": 0}"));
}

#[test]
fn other_lines_are_not_stop() {
    assert!(!is_stop_command("{\"command\": \"start\"}"));
    assert!(!is_stop_command("{command: stop}"));
    assert!(!is_stop_command(""));
    assert!(!is_stop_command("\"stop\""));
}

#[test]
fn byte_search() {
    assert!(contains_bytes(b"abcabd", b"abd"));
    assert!(!contains_bytes(b"abcab", b"abd"));
    assert!(contains_bytes(b"abc", b""));
    assert!(contains_bytes(b"", b""));
    assert!(!contains_bytes(b"ab", b"abc"));
}

#[test]
fn capture_loop_decisions() {
    assert_eq!(capture_step(CaptureEvent::Samples, false), CaptureAction::Process);
    assert_eq!(capture_step(CaptureEvent::Samples, true), CaptureAction::Process);
    assert_eq!(capture_step(CaptureEvent::Timeout, false), CaptureAction::Wait);
    assert_eq!(capture_step(CaptureEvent::Timeout, true), CaptureAction::Drain);
    assert_eq!(capture_step(CaptureEvent::Disconnected, false), CaptureAction::Drain);
}
