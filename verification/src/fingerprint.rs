//! Landmark-pair hashing and the audio fingerprint.
//!
//! Peaks are paired with the next few peaks in their ranked order; a pair
//! whose forward time gap lies within the pairing window is packed into a
//! 32-bit landmark hash: the anchor's frequency bin in the high 16 bits,
//! the paired peak's frequency bin truncated to 8 bits, and the time gap
//! in the low 8 bits.

use vstd::prelude::*;
use crate::peaks::SpectralPeak;
use crate::peaks::find_spectral_peaks;
use crate::peaks::valid_peak_selection;
use crate::spectrogram::Spectrogram;

verus! {

/// How many following peaks are considered as partners of each anchor.
pub const PAIR_FANOUT: usize = 5;

/// Largest forward time gap, in frames, of a stored pair.
pub const MAX_TIME_DELTA: usize = 10;

/// A compact, content-derived signature of one audio clip.
#[derive(Clone, Debug)]
pub struct AudioFingerprint {
    /// Landmark hashes; duplicates may occur and order carries no meaning.
    pub hashes: Vec<u32>,
    /// Length of the source signal in samples at the source rate.
    pub duration_samples: u64,
}

/// The pair `(a, b)` lies in the pairing window: `b` is not earlier than
/// `a` and at most `MAX_TIME_DELTA` frames later.
pub open spec fn pair_ok(a: SpectralPeak, b: SpectralPeak) -> bool {
    a.time_frame <= b.time_frame <= a.time_frame + MAX_TIME_DELTA
}

/// The packed landmark hash of an accepted pair.
pub open spec fn hash_of_pair(a: SpectralPeak, b: SpectralPeak) -> u32 {
    ((a.freq_bin as u32) << 16u32) | (((b.freq_bin as u32) & 0xffu32) << 8u32) | ((b.time_frame
        - a.time_frame) as u32)
}

/// One past the last candidate partner index of the anchor at `i`.
pub open spec fn anchor_limit(ps: Seq<SpectralPeak>, i: int) -> int {
    if ps.len() <= i + PAIR_FANOUT {
        ps.len() as int
    } else {
        i + PAIR_FANOUT + 1
    }
}

/// Hashes emitted for anchor `i` from partner indices `j` upward.
pub open spec fn hashes_from_anchor(ps: Seq<SpectralPeak>, i: int, j: int) -> Seq<u32>
    decreases anchor_limit(ps, i) - j,
{
    if j < i + 1 || j >= anchor_limit(ps, i) {
        Seq::empty()
    } else if pair_ok(ps[i], ps[j]) {
        seq![hash_of_pair(ps[i], ps[j])] + hashes_from_anchor(ps, i, j + 1)
    } else {
        hashes_from_anchor(ps, i, j + 1)
    }
}

/// Hashes emitted for all anchors from index `i` upward.
pub open spec fn hashes_from(ps: Seq<SpectralPeak>, i: int) -> Seq<u32>
    decreases ps.len() - i,
{
    if i < 0 || i >= ps.len() {
        Seq::empty()
    } else {
        hashes_from_anchor(ps, i, i + 1) + hashes_from(ps, i + 1)
    }
}

/// All landmark hashes of a ranked peak list.
pub open spec fn landmark_hashes(ps: Seq<SpectralPeak>) -> Seq<u32> {
    hashes_from(ps, 0)
}

/// Pair every peak with the next up-to-`PAIR_FANOUT` peaks of the ranked
/// list and emit the packed hash of each pair whose forward time gap is
/// between zero and `MAX_TIME_DELTA` frames.
pub fn generate_hashes(peaks: &Vec<SpectralPeak>) -> (r: Vec<u32>)
    ensures
        r@ == landmark_hashes(peaks@),
{
    let ghost ps = peaks@;
    let mut out: Vec<u32> = Vec::new();
    let n = peaks.len();
    let mut i: usize = 0;
    while i < n
        invariant
            n == ps.len(),
            ps == peaks@,
            0 <= i <= n,
            landmark_hashes(ps) == out@ + hashes_from(ps, i as int),
        decreases n - i,
    {
        let mut j: usize = i + 1;
        while j < n && j - i <= PAIR_FANOUT
            invariant
                n == ps.len(),
                ps == peaks@,
                0 <= i < n,
                i + 1 <= j,
                j <= anchor_limit(ps, i as int),
                landmark_hashes(ps) == out@ + hashes_from_anchor(ps, i as int, j as int)
                    + hashes_from(ps, i as int + 1),
            decreases n - j,
        {
            let a = peaks[i];
            let b = peaks[j];
            let ghost pre = out@;
            if a.time_frame <= b.time_frame && b.time_frame - a.time_frame <= MAX_TIME_DELTA {
                let dt: u32 = (b.time_frame - a.time_frame) as u32;
                let h: u32 = ((a.freq_bin as u32) << 16u32) | (((b.freq_bin as u32) & 0xffu32)
                    << 8u32) | dt;
                proof {
                    assert(h == hash_of_pair(ps[i as int], ps[j as int]));
                }
                out.push(h);
                proof {
                    assert(hashes_from_anchor(ps, i as int, j as int) == seq![
                        hash_of_pair(ps[i as int], ps[j as int]),
                    ] + hashes_from_anchor(ps, i as int, j as int + 1));
                    assert(pre + hashes_from_anchor(ps, i as int, j as int) =~= out@
                        + hashes_from_anchor(ps, i as int, j as int + 1));
                    assert(landmark_hashes(ps) =~= out@ + hashes_from_anchor(
                        ps,
                        i as int,
                        j as int + 1,
                    ) + hashes_from(ps, i as int + 1));
                }
            } else {
                proof {
                    assert(!pair_ok(ps[i as int], ps[j as int]));
                    assert(hashes_from_anchor(ps, i as int, j as int) == hashes_from_anchor(
                        ps,
                        i as int,
                        j as int + 1,
                    ));
                }
            }
            j += 1;
        }
        proof {
            assert(j as int == anchor_limit(ps, i as int));
            assert(hashes_from_anchor(ps, i as int, j as int) =~= Seq::<u32>::empty());
            assert(out@ + Seq::<u32>::empty() =~= out@);
            assert(hashes_from(ps, i as int) == hashes_from_anchor(ps, i as int, i as int + 1)
                + hashes_from(ps, i as int + 1));
        }
        i += 1;
    }
    proof {
        assert(hashes_from(ps, n as int) =~= Seq::<u32>::empty());
        assert(out@ + Seq::<u32>::empty() =~= out@);
        assert(out@ =~= landmark_hashes(ps));
    }
    out
}

/// Every emitted hash is the packed hash of a pair of peaks of the list,
/// in ranked order and within the pairing window.
pub proof fn lemma_hash_pair_window(ps: Seq<SpectralPeak>, k: int)
    requires
        0 <= k < landmark_hashes(ps).len(),
    ensures
        exists|i: int, j: int|
            0 <= i < j < ps.len() && j <= i + PAIR_FANOUT && #[trigger] pair_ok(ps[i], ps[j])
                && landmark_hashes(ps)[k] == hash_of_pair(ps[i], ps[j]),
{
    lemma_hashes_from_pairs(ps, 0, k);
}

proof fn lemma_hashes_from_pairs(ps: Seq<SpectralPeak>, i0: int, k: int)
    requires
        0 <= i0,
        0 <= k < hashes_from(ps, i0).len(),
    ensures
        exists|i: int, j: int|
            i0 <= i < j < ps.len() && j <= i + PAIR_FANOUT && #[trigger] pair_ok(ps[i], ps[j])
                && hashes_from(ps, i0)[k] == hash_of_pair(ps[i], ps[j]),
    decreases ps.len() - i0,
{
    let head = hashes_from_anchor(ps, i0, i0 + 1);
    if k < head.len() {
        lemma_anchor_pairs(ps, i0, i0 + 1, k);
    } else {
        lemma_hashes_from_pairs(ps, i0 + 1, k - head.len());
    }
}

proof fn lemma_anchor_pairs(ps: Seq<SpectralPeak>, i: int, j0: int, k: int)
    requires
        0 <= i < j0,
        0 <= k < hashes_from_anchor(ps, i, j0).len(),
    ensures
        exists|j: int|
            j0 <= j < ps.len() && j <= i + PAIR_FANOUT && #[trigger] pair_ok(ps[i], ps[j])
                && hashes_from_anchor(ps, i, j0)[k] == hash_of_pair(ps[i], ps[j]),
    decreases anchor_limit(ps, i) - j0,
{
    if j0 >= anchor_limit(ps, i) {
    } else if pair_ok(ps[i], ps[j0]) {
        if k == 0 {
        } else {
            lemma_anchor_pairs(ps, i, j0 + 1, k - 1);
        }
    } else {
        lemma_anchor_pairs(ps, i, j0 + 1, k);
    }
}

/// At most `PAIR_FANOUT` hashes arise from each anchor.
pub proof fn lemma_landmark_hashes_len(ps: Seq<SpectralPeak>)
    ensures
        landmark_hashes(ps).len() <= PAIR_FANOUT * ps.len(),
{
    lemma_hashes_from_len(ps, 0);
}

proof fn lemma_hashes_from_len(ps: Seq<SpectralPeak>, i0: int)
    requires
        0 <= i0 <= ps.len(),
    ensures
        hashes_from(ps, i0).len() <= PAIR_FANOUT * (ps.len() - i0),
    decreases ps.len() - i0,
{
    if i0 >= ps.len() {
    } else {
        lemma_anchor_len(ps, i0, i0 + 1);
        lemma_hashes_from_len(ps, i0 + 1);
        assert(PAIR_FANOUT * (ps.len() - i0) == PAIR_FANOUT + PAIR_FANOUT * (ps.len() - i0 - 1))
            by (nonlinear_arith);
    }
}

proof fn lemma_anchor_len(ps: Seq<SpectralPeak>, i: int, j0: int)
    requires
        0 <= i < j0,
    ensures
        hashes_from_anchor(ps, i, j0).len() <= if anchor_limit(ps, i) - j0 >= 0 {
            anchor_limit(ps, i) - j0
        } else {
            0
        },
    decreases anchor_limit(ps, i) - j0,
{
    if j0 >= anchor_limit(ps, i) {
    } else {
        lemma_anchor_len(ps, i, j0 + 1);
    }
}

/// Fingerprint a clip from its spectrogram: pick the spectral peaks, hash
/// the peak pairs, and record the clip length.
pub fn fingerprint_from_spectrogram(spect: &Spectrogram, source_len: u64) -> (r:
    AudioFingerprint)
    requires
        spect.wf(),
    ensures
        r.duration_samples == source_len,
        exists|ps: Seq<SpectralPeak>|
            #[trigger] valid_peak_selection(spect@, ps) && r.hashes@ == landmark_hashes(ps),
        r.hashes@.len() <= PAIR_FANOUT * crate::peaks::MAX_PEAKS,
{
    let peaks = find_spectral_peaks(spect);
    let hashes = generate_hashes(&peaks);
    proof {
        lemma_landmark_hashes_len(peaks@);
        vstd::arithmetic::mul::lemma_mul_inequality(
            peaks@.len() as int,
            crate::peaks::MAX_PEAKS as int,
            PAIR_FANOUT as int,
        );
        assert(PAIR_FANOUT * peaks@.len() == peaks@.len() * PAIR_FANOUT) by (nonlinear_arith);
        assert(crate::peaks::MAX_PEAKS * PAIR_FANOUT == PAIR_FANOUT * crate::peaks::MAX_PEAKS)
            by (nonlinear_arith);
    }
    AudioFingerprint { hashes, duration_samples: source_len }
}

} // verus!
