use vstd::prelude::*;

verus! {

/// Number of frames processed per pull of the audio graph.
pub const AUDIO_UNIT_SIZE: usize = 64;

} // verus!
