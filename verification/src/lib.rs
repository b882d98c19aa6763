//! Audio preparation, voice-activity detection, chunking and result ordering
//! for a speech-transcription pipeline.
#![allow(unused_imports)]

use vstd::prelude::*;

pub mod pcm;
pub mod wav;
pub mod vad;
pub mod results;
pub mod chunking;
pub mod queue;
pub mod dispatch;
pub mod transcribe;
pub mod control;

verus! {

/// Sample rate, in Hz, of the audio that is chunked and transcribed.
pub const TARGET_SAMPLE_RATE: u32 = 16000;

/// The parts joined in order.
pub open spec fn concat_all<T>(parts: Seq<Seq<T>>) -> Seq<T>
    decreases parts.len(),
{
    if parts.len() == 0 {
        Seq::empty()
    } else {
        concat_all(parts.drop_last()) + parts.last()
    }
}

} // verus!
