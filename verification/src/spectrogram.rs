//! Short-time spectral analysis parameters, framing, and the magnitude
//! spectrogram.
//!
//! Frames of `WINDOW_SIZE` samples are taken every `HOP_SIZE` samples; a
//! transform stage turns each frame into `FREQ_BINS` magnitudes.  A
//! magnitude is stored as an integer in units of `1 / MAG_SCALE`, so the
//! absolute peak floor of one tenth is exactly `MAG_FLOOR` units.

use vstd::prelude::*;
use crate::errors::FingerprintError;

verus! {

/// Analysis sample rate after downsampling, in Hz.
pub const SAMPLE_RATE: u32 = 11025;

/// Assumed source sample rate, in Hz.
pub const SOURCE_RATE: u32 = 44100;

/// Samples per analysis frame.
pub const WINDOW_SIZE: usize = 1024;

/// Samples between successive frame starts.
pub const HOP_SIZE: usize = 512;

/// Frequency bins retained per frame (the lower half of the transform).
pub const FREQ_BINS: usize = 512;

/// Integer magnitude units per unit of real magnitude.
pub const MAG_SCALE: u64 = 10_000_000;

/// Absolute magnitude floor for peak picking: one tenth, in magnitude units.
pub const MAG_FLOOR: u64 = 1_000_000;

/// Number of frames produced from a signal of `n` samples; a signal
/// shorter than one window yields none.
pub open spec fn spec_frame_count(n: int) -> int {
    if n < WINDOW_SIZE {
        0
    } else {
        (n - WINDOW_SIZE) / (HOP_SIZE as int) + 1
    }
}

/// Number of analysis frames for a signal of `n` samples, or `TooShort`
/// when no frame fits.
pub fn frame_count(n: usize) -> (r: Result<usize, FingerprintError>)
    ensures
        n >= WINDOW_SIZE ==> r is Ok && r->Ok_0 == spec_frame_count(n as int),
        n < WINDOW_SIZE ==> r is Err && r->Err_0 == FingerprintError::TooShort,
{
    if n < WINDOW_SIZE {
        Err(FingerprintError::TooShort)
    } else {
        Ok((n - WINDOW_SIZE) / HOP_SIZE + 1)
    }
}

/// The frame at index `k`: the window of `WINDOW_SIZE` consecutive
/// samples starting at `k * HOP_SIZE`.
pub fn extract_frame(samples: &Vec<i32>, k: usize) -> (r: Vec<i32>)
    requires
        0 <= k < spec_frame_count(samples@.len() as int),
    ensures
        r@ == samples@.subrange(
            k as int * HOP_SIZE as int,
            k as int * HOP_SIZE as int + WINDOW_SIZE as int,
        ),
{
    let n: usize = samples.len();
    proof {
        let fc = spec_frame_count(n as int);
        vstd::arithmetic::mul::lemma_mul_inequality(k as int, fc - 1, HOP_SIZE as int);
        assert((fc - 1) * HOP_SIZE <= n - WINDOW_SIZE) by {
            vstd::arithmetic::div_mod::lemma_fundamental_div_mod(
                n as int - WINDOW_SIZE,
                HOP_SIZE as int,
            );
            vstd::arithmetic::div_mod::lemma_mod_bound(n as int - WINDOW_SIZE, HOP_SIZE as int);
            assert((fc - 1) * (HOP_SIZE as int) == (HOP_SIZE as int) * (fc - 1))
                by (nonlinear_arith);
        }
        assert(k as int * HOP_SIZE as int <= n - WINDOW_SIZE);
    }
    let start: usize = k * HOP_SIZE;
    let mut out: Vec<i32> = Vec::new();
    let mut i: usize = 0;
    while i < WINDOW_SIZE
        invariant
            0 <= i <= WINDOW_SIZE,
            start == k as int * HOP_SIZE as int,
            start + WINDOW_SIZE <= samples@.len(),
            samples@.len() <= usize::MAX,
            out@ =~= samples@.subrange(start as int, start as int + i as int),
        decreases WINDOW_SIZE - i,
    {
        out.push(samples[start + i]);
        proof {
            assert(out@ =~= samples@.subrange(start as int, start as int + i as int + 1));
        }
        i += 1;
    }
    out
}

/// A magnitude time-frequency matrix: one row of `FREQ_BINS` magnitude
/// units per frame, in frame order.
pub struct Spectrogram {
    pub(crate) frames: Vec<Vec<u64>>,
}

impl Spectrogram {
    /// The matrix as a sequence of frame rows.
    pub closed spec fn view(&self) -> Seq<Seq<u64>> {
        self.frames@.map_values(|row: Vec<u64>| row@)
    }

    /// Every frame row holds exactly `FREQ_BINS` magnitudes.
    pub open spec fn wf(&self) -> bool {
        forall|t: int| 0 <= t < self@.len() ==> (#[trigger] self@[t]).len() == FREQ_BINS
    }

    /// Build a spectrogram from frame rows of magnitudes; fails when some
    /// row does not hold exactly `FREQ_BINS` entries.
    pub fn from_frames(frames: Vec<Vec<u64>>) -> (r: Option<Spectrogram>)
        ensures
            r is Some ==> {
                &&& r->0.wf()
                &&& r->0@ == frames@.map_values(|row: Vec<u64>| row@)
            },
            r is Some <==> forall|t: int|
                0 <= t < frames@.len() ==> (#[trigger] frames@[t])@.len() == FREQ_BINS,
    {
        let mut t: usize = 0;
        while t < frames.len()
            invariant
                0 <= t <= frames@.len(),
                forall|u: int| 0 <= u < t ==> (#[trigger] frames@[u])@.len() == FREQ_BINS,
            decreases frames@.len() - t,
        {
            if frames[t].len() != FREQ_BINS {
                return None;
            }
            t += 1;
        }
        let s = Spectrogram { frames };
        proof {
            assert(forall|u: int| 0 <= u < s@.len() ==> (#[trigger] s@[u]).len() == FREQ_BINS);
        }
        Some(s)
    }

    /// Number of frames.
    pub fn num_frames(&self) -> (r: usize)
        ensures
            r == self@.len(),
    {
        self.frames.len()
    }

    /// The stored magnitude at frequency bin `f` of frame `t`, in
    /// magnitude units.
    pub fn magnitude(&self, f: usize, t: usize) -> (r: u64)
        requires
            self.wf(),
            t < self@.len(),
            f < FREQ_BINS,
        ensures
            r == self@[t as int][f as int],
    {
        proof {
            assert(self@[t as int] == self.frames@[t as int]@);
        }
        self.frames[t][f]
    }
}

} // verus!
