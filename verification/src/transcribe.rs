//! Decisions around a transcription request: how a reply is read, and when a
//! failed request is retried.
use vstd::prelude::*;

verus! {

/// Number of times a chunk is sent to the transcription service before its
/// transcription is given up.
pub const MAX_TRANSCRIPTION_ATTEMPTS: usize = 3;

/// The fields of the transcription service's JSON reply.
#[derive(Debug, PartialEq, Eq)]
pub struct TranscriptionResponse {
    pub text: Option<String>,
    pub error: Option<String>,
}

/// How a reply of the transcription service reads.
#[derive(Debug, PartialEq, Eq)]
pub enum TranscriptionReply {
    /// The HTTP status was not a success.
    HttpFailure,
    /// The body was not a valid reply; the parser said this.
    Unreadable(String),
    /// The service reported this error.
    ServiceError(String),
    /// The service returned this transcript.
    Transcript(String),
}

/// Reads a reply of the transcription service, from whether its HTTP status
/// was a success and from parsing its body (the parsed fields, or the
/// parser's error message).
///
/// A failed status decides first, then a body that did not parse, then an
/// error reported by the service; otherwise the reply is its text, or the
/// empty text when it has none.
pub fn classify_reply(status_success: bool, parsed: Result<TranscriptionResponse, String>) -> (reply:
    TranscriptionReply)
    ensures
        !status_success ==> reply is HttpFailure,
        status_success ==> match parsed {
            Err(e) => reply == TranscriptionReply::Unreadable(e),
            Ok(r) => match r.error {
                Some(e) => reply == TranscriptionReply::ServiceError(e),
                None => match r.text {
                    Some(t) => reply == TranscriptionReply::Transcript(t),
                    None => reply matches TranscriptionReply::Transcript(t) && t@ == Seq::<char>::empty(),
                },
            },
        },
{
    if !status_success {
        return TranscriptionReply::HttpFailure;
    }
    match parsed {
        Err(e) => TranscriptionReply::Unreadable(e),
        Ok(r) => match r.error {
            Some(e) => TranscriptionReply::ServiceError(e),
            None => match r.text {
                Some(t) => TranscriptionReply::Transcript(t),
                None => TranscriptionReply::Transcript(String::new()),
            },
        },
    }
}

/// What to do after a failed attempt.
#[derive(Debug, PartialEq, Eq)]
pub enum RetryStep {
    /// Wait this many seconds, then try again.
    RetryAfterSeconds(u64),
    /// Stop, and report this error.
    GiveUp(String),
}

/// Counts the attempts at transcribing one chunk and keeps the last error.
pub struct RetryPolicy {
    attempt: usize,
    last_error: String,
}

impl View for RetryPolicy {
    type V = (nat, Seq<char>);

    /// The number of the current attempt (from 1) and the last error seen.
    closed spec fn view(&self) -> (nat, Seq<char>) {
        (self.attempt as nat, self.last_error@)
    }
}

impl RetryPolicy {
    #[verifier::type_invariant]
    spec fn attempt_in_range(self) -> bool {
        1 <= self.attempt <= MAX_TRANSCRIPTION_ATTEMPTS
    }

    /// The policy before the first attempt: attempt 1, and a placeholder
    /// error for a failure that reports none.
    pub fn new() -> (p: Self)
        ensures
            p@.0 == 1,
            p@.1 == "Unknown transcription error"@,
    {
        RetryPolicy { attempt: 1, last_error: "Unknown transcription error".to_owned() }
    }

    /// The number of the current attempt, from 1.
    pub fn attempt(&self) -> (n: usize)
        ensures
            n == self@.0,
            1 <= n <= MAX_TRANSCRIPTION_ATTEMPTS,
    {
        proof {
            use_type_invariant(self);
        }
        self.attempt
    }

    /// The last error seen.
    pub fn last_error(&self) -> (e: String)
        ensures
            e@ == self@.1,
    {
        self.last_error.clone()
    }

    /// Records that the current attempt failed with `error`.
    ///
    /// Before the last allowed attempt the answer is to wait as many seconds
    /// as the number of the failed attempt and try again; after the last one
    /// it is to give up with `error`.
    pub fn on_failure(&mut self, error: String) -> (step: RetryStep)
        ensures
            final(self)@.1 == error@,
            old(self)@.0 < MAX_TRANSCRIPTION_ATTEMPTS ==> {
                &&& step == RetryStep::RetryAfterSeconds(old(self)@.0 as u64)
                &&& final(self)@.0 == old(self)@.0 + 1
            },
            old(self)@.0 == MAX_TRANSCRIPTION_ATTEMPTS ==> {
                &&& step matches RetryStep::GiveUp(e) && e@ == error@
                &&& final(self)@.0 == old(self)@.0
            },
    {
        proof {
            use_type_invariant(&*self);
        }
        let attempt = self.attempt;
        if attempt < MAX_TRANSCRIPTION_ATTEMPTS {
            *self = RetryPolicy { attempt: attempt + 1, last_error: error };
            RetryStep::RetryAfterSeconds(attempt as u64)
        } else {
            let reported = error.clone();
            *self = RetryPolicy { attempt, last_error: error };
            RetryStep::GiveUp(reported)
        }
    }
}

} // verus!
