//! Acoustic fingerprinting and matching for short audio clips.
//!
//! The pipeline turns PCM audio into a compact landmark-hash signature and
//! compares signatures with a Jaccard similarity score.  All arithmetic in
//! this crate is exact integer arithmetic: samples are fixed-point values,
//! spectrogram magnitudes are quantized to integer units, and similarity
//! scores are rationals kept as numerator/denominator pairs.

pub mod audio;
pub mod errors;
pub mod fingerprint;
pub mod matcher;
pub mod peaks;
pub mod similarity;
pub mod spectrogram;
pub mod wav;
