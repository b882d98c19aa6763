//! Offering chunks to bounded queues without blocking, and what a refusal
//! is reported as.
use vstd::prelude::*;
use std::sync::mpsc::{SyncSender, TrySendError};
use crate::chunking::AudioChunk;
use crate::results::{dropped_result, drop_message, ChunkOutcome, DropReason, TranscriptionResult};

verus! {

#[verifier::external_type_specification]
#[verifier::external_body]
#[verifier::reject_recursive_types(T)]
pub struct ExSyncSender<T>(SyncSender<T>);

/// What became of a chunk offered to a bounded queue.
#[derive(Debug, PartialEq, Eq)]
pub enum Offer {
    /// The queue took the chunk.
    Taken,
    /// The queue was full; the chunk comes back.
    Full(AudioChunk),
    /// The queue's receiver is gone; the chunk comes back.
    Disconnected(AudioChunk),
}

/// The record of one offer: which queue was offered the chunk, and whether
/// it took it. Only an actual offer (`offer_chunk`) makes one.
pub struct OfferReceipt {
    queue: Ghost<SyncSender<AudioChunk>>,
    taken: bool,
}

impl OfferReceipt {
    /// The queue that was offered the chunk.
    pub closed spec fn queue(&self) -> SyncSender<AudioChunk> {
        self.queue@
    }

    /// Whether that queue took the chunk.
    pub closed spec fn taken(&self) -> bool {
        self.taken
    }

    /// Whether the queue took the chunk.
    pub fn was_taken(&self) -> (t: bool)
        ensures
            t == self.taken(),
    {
        self.taken
    }
}

/// Offers `chunk` to a bounded queue without blocking, through
/// `std::sync::mpsc::SyncSender::try_send`, and records the offer.
///
/// Whether the queue takes the chunk depends on how full it is and on
/// whether its receiver still exists, so nothing is promised of which
/// outcome comes back. What is claimed: on refusal (`TrySendError::Full` or
/// `TrySendError::Disconnected`) the standard library hands the value back
/// unchanged; and the receipt names the queue that `try_send` was called on
/// and says whether the call succeeded.
#[verifier::external_body]
pub(crate) fn offer_chunk(queue: &SyncSender<AudioChunk>, chunk: AudioChunk) -> (r: (OfferReceipt, Offer))
    ensures
        r.0.queue() == *queue,
        r.0.taken() <==> r.1 is Taken,
        r.1 matches Offer::Full(c) ==> c == chunk,
        r.1 matches Offer::Disconnected(c) ==> c == chunk,
{
    let (taken, offer) = match queue.try_send(chunk) {
        Ok(()) => (true, Offer::Taken),
        Err(TrySendError::Full(c)) => (false, Offer::Full(c)),
        Err(TrySendError::Disconnected(c)) => (false, Offer::Disconnected(c)),
    };
    (OfferReceipt { queue: Ghost(*queue), taken }, offer)
}

/// Whether `r` reports `c` as dropped for `reason`: it carries the chunk's
/// id and times and the reason's message.
pub open spec fn reports_drop(r: TranscriptionResult, c: AudioChunk, reason: DropReason) -> bool {
    &&& r.chunk_id == c.chunk_id
    &&& r.start_ms == c.start_ms
    &&& r.end_ms == c.end_ms
    &&& r.outcome matches ChunkOutcome::Dropped(m) && m@ == drop_message(reason)
}

/// What an offer to the transcription queue is reported as: nothing when
/// the queue took the chunk; otherwise the chunk is dropped, with reason
/// `QueueFull` for a full queue and `QueueDisconnected` for a closed one.
pub fn result_of_offer(offer: Offer) -> (dropped: Option<TranscriptionResult>)
    ensures
        match offer {
            Offer::Taken => dropped is None,
            Offer::Full(c) => dropped matches Some(r) && reports_drop(r, c, DropReason::QueueFull),
            Offer::Disconnected(c) => dropped matches Some(r) && reports_drop(
                r,
                c,
                DropReason::QueueDisconnected,
            ),
        },
{
    match offer {
        Offer::Taken => None,
        Offer::Full(c) => Some(dropped_result(c.chunk_id, c.start_ms, c.end_ms, DropReason::QueueFull)),
        Offer::Disconnected(c) => Some(
            dropped_result(c.chunk_id, c.start_ms, c.end_ms, DropReason::QueueDisconnected),
        ),
    }
}

/// Offers `chunk` to the transcription queue without blocking. When the
/// queue takes it nothing comes back; when the queue refuses it the chunk is
/// dropped and the result to report comes back: the chunk's id and times,
/// with the reason that the queue was full or was closed.
pub fn queue_for_transcription(queue: &SyncSender<AudioChunk>, chunk: AudioChunk) -> (dropped:
    Option<TranscriptionResult>)
    ensures
        dropped matches Some(r) ==> reports_drop(r, chunk, DropReason::QueueFull) || reports_drop(
            r,
            chunk,
            DropReason::QueueDisconnected,
        ),
{
    let (_receipt, offer) = offer_chunk(queue, chunk);
    result_of_offer(offer)
}

} // verus!
