use audio_transcription::transcribe::{
    classify_reply, RetryPolicy, RetryStep, TranscriptionReply, TranscriptionResponse,
    MAX_TRANSCRIPTION_ATTEMPTS,
};

fn reply(text: Option<&str>, error: Option<&str>) -> TranscriptionResponse {
    TranscriptionResponse { text: text.map(|s| s.to_string()), error: error.map(|s| s.to_string()) }
}

#[test]
fn failed_status_wins() {
    assert_eq!(classify_reply(false, Ok(reply(Some("hi"), None))), TranscriptionReply::HttpFailure);
    assert_eq!(classify_reply(false, Err("bad json".to_string())), TranscriptionReply::HttpFailure);
}

#[test]
fn unparsable_body() {
    assert_eq!(
        classify_reply(true, Err("expected value".to_string())),
        TranscriptionReply::Unreadable("expected value".to_string())
    );
}

#[test]
fn service_error_wins_over_text() {
    assert_eq!(
        classify_reply(true, Ok(reply(Some("hi"), Some("quota")))),
        TranscriptionReply::ServiceError("quota".to_string())
    );
}

#[test]
fn text_or_empty() {
    assert_eq!(
        classify_reply(true, Ok(reply(Some("hello"), None))),
        TranscriptionReply::Transcript("hello".to_string())
    );
    assert_eq!(classify_reply(true, Ok(reply(None, None))), TranscriptionReply::Transcript(String::new()));
}

#[test]
fn retries_back_off_then_give_up() {
    let mut p = RetryPolicy::new();
    assert_eq!(p.attempt(), 1);
    assert_eq!(p.last_error(), "Unknown transcription error");
    assert_eq!(p.on_failure("e1".to_string()), RetryStep::RetryAfterSeconds(1));
    assert_eq!(p.attempt(), 2);
    assert_eq!(p.on_failure("e2".to_string()), RetryStep::RetryAfterSeconds(2));
    assert_eq!(p.attempt(), MAX_TRANSCRIPTION_ATTEMPTS);
    assert_eq!(p.on_failure("e3".to_string()), RetryStep::GiveUp("e3".to_string()));
    assert_eq!(p.last_error(), "e3");
}
