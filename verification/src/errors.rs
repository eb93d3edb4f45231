//! Error kinds surfaced by the fingerprinting pipeline.

use vstd::prelude::*;

verus! {

/// A client-input failure of the fingerprinting pipeline.
#[derive(Clone, Copy, Debug, PartialEq, Eq, Structural)]
pub enum FingerprintError {
    /// The decoded signal held no samples at all.
    EmptyInput,
    /// The signal was shorter than one analysis window after resampling,
    /// so no spectrogram frame could be produced.
    TooShort,
}

impl FingerprintError {
    /// A short description of the error.
    pub fn message(&self) -> (r: &'static str)
        ensures
            self is EmptyInput ==> r@ == "empty audio samples"@,
            self is TooShort ==> r@ == "audio clip too short for analysis"@,
    {
        match self {
            FingerprintError::EmptyInput => "empty audio samples",
            FingerprintError::TooShort => "audio clip too short for analysis",
        }
    }
}

} // verus!
