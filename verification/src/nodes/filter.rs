use vstd::prelude::*;

verus! {

/// Supported biquad filter types.
#[derive(Debug, Clone, Copy, PartialEq, Eq, Structural)]
pub enum FilterType {
    /// Low-pass filter: allows frequencies below the cutoff to pass.
    LowPass,
    /// High-pass filter: allows frequencies above the cutoff to pass.
    HighPass,
    /// Band-pass filter: allows frequencies within a range around the cutoff to pass.
    BandPass,
}

} // verus!
