//! Commands that the controlling process sends on standard input.
use vstd::prelude::*;
use vstd::string::StringSliceAdditionalSpecFns;

verus! {

/// Whether `needle` occurs in `hay` as a run of consecutive bytes.
pub open spec fn has_infix(hay: Seq<u8>, needle: Seq<u8>) -> bool {
    exists|i: int|
        0 <= i && i + needle.len() <= hay.len() && #[trigger] hay.subrange(i, i + needle.len())
            == needle
}

/// Whether `needle` occurs in `hay` as a run of consecutive bytes.
pub fn contains_bytes(hay: &[u8], needle: &[u8]) -> (found: bool)
    ensures
        found == has_infix(hay@, needle@),
{
    let h = hay.len();
    let n = needle.len();
    if n > h {
        proof {
            assert forall|i: int| 0 <= i && i + needle@.len() <= hay@.len() implies #[trigger] hay@.subrange(i, i + needle@.len()) != needle@ by {}
        }
        return false;
    }
    let mut start: usize = 0;
    while start <= h - n
        invariant
            h == hay@.len(),
            n == needle@.len(),
            n <= h,
            start <= h - n + 1,
            forall|i: int| 0 <= i < start ==> #[trigger] hay@.subrange(i, i + n) != needle@,
        decreases h - n + 1 - start,
    {
        let mut k: usize = 0;
        while k < n && hay[start + k] == needle[k]
            invariant
                h == hay@.len(),
                n == needle@.len(),
                start + n <= h,
                k <= n,
                forall|j: int| 0 <= j < k ==> hay@[start + j] == needle@[j],
            decreases n - k,
        {
            k = k + 1;
        }
        if k == n {
            assert(hay@.subrange(start as int, start + n) =~= needle@);
            return true;
        }
        assert(hay@.subrange(start as int, start + n)[k as int] != needle@[k as int]);
        start = start + 1;
    }
    false
}

/// Whether a line read from standard input is the stop command: it mentions
/// both `"command"` and `"stop"`, quotes included.
///
/// Surrounding whitespace makes no difference, as neither text begins or
/// ends with whitespace.
pub fn is_stop_command(line: &str) -> (stop: bool)
    ensures
        stop == (has_infix(line.spec_bytes(), "\"command\"".spec_bytes()) && has_infix(
            line.spec_bytes(),
            "\"stop\"".spec_bytes(),
        )),
{
    let bytes = line.as_bytes();
    contains_bytes(bytes, "\"command\"".as_bytes()) && contains_bytes(bytes, "\"stop\"".as_bytes())
}

/// What happened while waiting for captured audio.
#[derive(Clone, Copy, Debug, PartialEq, Eq)]
pub enum CaptureEvent {
    /// A buffer of samples arrived.
    Samples,
    /// Nothing arrived within the wait.
    Timeout,
    /// The capture side has closed the queue.
    Disconnected,
}

/// What the audio-processing loop does next.
#[derive(Clone, Copy, Debug, PartialEq, Eq)]
pub enum CaptureAction {
    /// Convert and chunk the buffer that arrived, then wait again.
    Process,
    /// Wait again.
    Wait,
    /// Leave the loop: take what is still queued, then cut the final chunk.
    Drain,
}

/// The audio-processing loop's decision on an event: a buffer is processed;
/// a timeout ends the loop once a stop has been requested and otherwise
/// waits again; a closed queue ends the loop.
pub fn capture_step(event: CaptureEvent, stop_requested: bool) -> (action: CaptureAction)
    ensures
        action == match event {
            CaptureEvent::Samples => CaptureAction::Process,
            CaptureEvent::Timeout => if stop_requested {
                CaptureAction::Drain
            } else {
                CaptureAction::Wait
            },
            CaptureEvent::Disconnected => CaptureAction::Drain,
        },
{
    match event {
        CaptureEvent::Samples => CaptureAction::Process,
        CaptureEvent::Timeout => if stop_requested {
            CaptureAction::Drain
        } else {
            CaptureAction::Wait
        },
        CaptureEvent::Disconnected => CaptureAction::Drain,
    }
}

} // verus!
