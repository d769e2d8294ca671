//! The decisions of the real-time transport. The ring itself is shared
//! between the generator thread and the host's audio callback, so the
//! loops around it live outside the library; each loop asks these
//! functions what to do with the counts it read.

use vstd::prelude::*;
use crate::BUFFER_SIZE;

verus! {

/// Interleaved stereo samples per block: two per frame.
pub const BLOCK_SAMPLES: usize = 512;

/// What the generator does next.
#[derive(PartialEq, Eq, Structural, Copy, Clone, Debug)]
pub enum GeneratorAction {
    /// Evaluate one block and push its samples into the ring.
    RunBlock,
    /// Park until the audio callback signals again.
    Park,
}

/// What the audio callback does with its output slice.
#[derive(PartialEq, Eq, Structural, Copy, Clone, Debug)]
pub enum CallbackAction {
    /// Pop exactly the requested samples from the ring.
    PopSamples,
    /// Underrun: write zeros over the whole slice.
    WriteZeros,
}

/// The generator runs a block exactly when the ring has room for one
/// whole interleaved stereo block; otherwise it parks.
pub fn generator_decision(free_samples: usize) -> (r: GeneratorAction)
    ensures
        r == GeneratorAction::RunBlock <==> free_samples >= 2 * BUFFER_SIZE,
        r == GeneratorAction::Park <==> free_samples < 2 * BUFFER_SIZE,
{
    if free_samples >= 2 * BUFFER_SIZE {
        GeneratorAction::RunBlock
    } else {
        GeneratorAction::Park
    }
}

/// The callback pops exactly when the ring holds everything it was asked
/// for; on any shortfall it writes silence instead. Either way it then
/// unparks the generator.
pub fn callback_decision(available_samples: usize, needed_samples: usize) -> (r: CallbackAction)
    ensures
        r == CallbackAction::PopSamples <==> available_samples >= needed_samples,
        r == CallbackAction::WriteZeros <==> available_samples < needed_samples,
{
    if available_samples >= needed_samples {
        CallbackAction::PopSamples
    } else {
        CallbackAction::WriteZeros
    }
}

/// Whether a negotiated stream format is the one the engine requires:
/// stereo, 44100 Hz, and a callback of exactly one block of frames. Any
/// other format is a fatal startup error for the adapter.
pub fn stream_format_ok(channels: u16, sample_rate: u32, frames_per_callback: usize) -> (r: bool)
    ensures
        r <==> channels == 2 && sample_rate == 44100 && frames_per_callback == BUFFER_SIZE,
{
    channels == 2 && sample_rate == 44100 && frames_per_callback == BUFFER_SIZE
}

} // verus!
