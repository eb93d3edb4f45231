//! Spectral peak extraction: strict 4-neighbor local maxima above an
//! absolute floor, capped to the `MAX_PEAKS` largest magnitudes.

use vstd::prelude::*;
use vstd::seq_lib::group_to_multiset_ensures;
use crate::spectrogram::Spectrogram;
use crate::spectrogram::FREQ_BINS;
use crate::spectrogram::MAG_FLOOR;

verus! {

/// Upper bound on the number of peaks retained per clip.
pub const MAX_PEAKS: usize = 200;

/// A prominent time-frequency cell of a spectrogram.
#[derive(Clone, Copy, Debug, PartialEq, Eq, Structural)]
pub struct SpectralPeak {
    pub freq_bin: usize,
    pub time_frame: usize,
    /// Stored magnitude of the cell, in magnitude units.
    pub magnitude: u64,
}

/// The cell `(f, t)` of the grid `g` is an accepted peak: an interior
/// cell above the floor that strictly exceeds its four orthogonal
/// neighbors.
pub open spec fn is_peak_cell(g: Seq<Seq<u64>>, f: int, t: int) -> bool {
    &&& 0 < t && t + 1 < g.len()
    &&& 0 < f && f + 1 < FREQ_BINS
    &&& g[t][f] > MAG_FLOOR
    &&& g[t][f] > g[t][f - 1]
    &&& g[t][f] > g[t][f + 1]
    &&& g[t][f] > g[t - 1][f]
    &&& g[t][f] > g[t + 1][f]
}

/// The peak `p` records an accepted cell of `g` together with that
/// cell's stored magnitude.
pub open spec fn peak_of(g: Seq<Seq<u64>>, p: SpectralPeak) -> bool {
    &&& is_peak_cell(g, p.freq_bin as int, p.time_frame as int)
    &&& p.magnitude == g[p.time_frame as int][p.freq_bin as int]
}

/// Magnitudes never increase along the sequence.
pub open spec fn sorted_desc(s: Seq<SpectralPeak>) -> bool {
    forall|i: int, j: int| 0 <= i <= j < s.len() ==> s[i].magnitude >= s[j].magnitude
}

/// Scan order of cells: frame-major, then frequency.
pub open spec fn cell_before(a: SpectralPeak, b: SpectralPeak) -> bool {
    ||| a.time_frame < b.time_frame
    ||| (a.time_frame == b.time_frame && a.freq_bin < b.freq_bin)
}

/// The peak list holds an entry for the cell `(f, t)`.
pub open spec fn has_cell(s: Seq<SpectralPeak>, f: int, t: int) -> bool {
    exists|i: int|
        0 <= i < s.len() && (#[trigger] s[i]).freq_bin == f && s[i].time_frame == t
}

/// Every accepted cell of `g` in scan order strictly before `(cf, ct)`
/// has an entry in `s`.
spec fn scanned_up_to(g: Seq<Seq<u64>>, s: Seq<SpectralPeak>, cf: int, ct: int) -> bool {
    forall|f: int, t: int|
        #[trigger] is_peak_cell(g, f, t) && (t < ct || (t == ct && f < cf)) ==> has_cell(s, f, t)
}

/// A peak list as the picker returns it: at most `MAX_PEAKS` distinct
/// accepted cells with their stored magnitudes, ranked by magnitude
/// descending; complete when under the cap, and otherwise omitting only
/// cells whose magnitude does not exceed the smallest retained one.
pub open spec fn valid_peak_selection(g: Seq<Seq<u64>>, s: Seq<SpectralPeak>) -> bool {
    &&& s.len() <= MAX_PEAKS
    &&& forall|i: int| 0 <= i < s.len() ==> peak_of(g, #[trigger] s[i])
    &&& sorted_desc(s)
    &&& forall|i: int, j: int| 0 <= i < j < s.len() ==> s[i] != s[j]
    &&& s.len() < MAX_PEAKS ==> forall|f: int, t: int|
        #[trigger] is_peak_cell(g, f, t) ==> has_cell(s, f, t)
    &&& s.len() == MAX_PEAKS ==> forall|f: int, t: int|
        #[trigger] is_peak_cell(g, f, t) ==> has_cell(s, f, t) || g[t][f] <= s[
            MAX_PEAKS - 1
        ].magnitude
}

/// Collect every accepted peak cell of the spectrogram, in scan order.
fn collect_peaks(spect: &Spectrogram) -> (r: Vec<SpectralPeak>)
    requires
        spect.wf(),
    ensures
        forall|i: int| 0 <= i < r@.len() ==> peak_of(spect@, #[trigger] r@[i]),
        forall|f: int, t: int|
            #[trigger] is_peak_cell(spect@, f, t) ==> has_cell(r@, f, t),
        forall|i: int, j: int| 0 <= i < j < r@.len() ==> cell_before(#[trigger] r@[i], #[trigger] r@[j]),
{
    let ghost g = spect@;
    let mut peaks: Vec<SpectralPeak> = Vec::new();
    let tframes = spect.num_frames();
    let mut t: usize = 1;
    while t + 1 < tframes
        invariant
            spect.wf(),
            g == spect@,
            tframes == g.len(),
            1 <= t,
            t == 1 || t < tframes,
            forall|i: int| 0 <= i < peaks@.len() ==> peak_of(g, #[trigger] peaks@[i]),
            scanned_up_to(g, peaks@, 1, t as int),
            forall|i: int|
                0 <= i < peaks@.len() ==> (#[trigger] peaks@[i]).time_frame < t,
            forall|i: int, j: int|
                0 <= i < j < peaks@.len() ==> cell_before(#[trigger] peaks@[i], #[trigger] peaks@[j]),
        decreases tframes - t,
    {
        let mut f: usize = 1;
        while f + 1 < FREQ_BINS
            invariant
                spect.wf(),
                g == spect@,
                tframes == g.len(),
                1 <= t && t + 1 < tframes,
                1 <= f <= FREQ_BINS,
                forall|i: int| 0 <= i < peaks@.len() ==> peak_of(g, #[trigger] peaks@[i]),
                scanned_up_to(g, peaks@, f as int, t as int),
                forall|i: int|
                    0 <= i < peaks@.len() ==> (#[trigger] peaks@[i]).time_frame < t || (
                    peaks@[i].time_frame == t && peaks@[i].freq_bin < f),
                forall|i: int, j: int|
                    0 <= i < j < peaks@.len() ==> cell_before(#[trigger] peaks@[i], #[trigger] peaks@[j]),
            decreases FREQ_BINS - f,
        {
            let cur = spect.magnitude(f, t);
            if cur > MAG_FLOOR && cur > spect.magnitude(f - 1, t) && cur > spect.magnitude(
                f + 1,
                t,
            ) && cur > spect.magnitude(f, t - 1) && cur > spect.magnitude(f, t + 1) {
                let p = SpectralPeak { freq_bin: f, time_frame: t, magnitude: cur };
                proof {
                    assert(is_peak_cell(g, f as int, t as int));
                }
                let ghost prev = peaks@;
                peaks.push(p);
                proof {
                    assert(peaks@[peaks@.len() - 1].freq_bin == f as int && peaks@[peaks@.len()
                        - 1].time_frame == t as int);
                    assert(has_cell(peaks@, f as int, t as int));
                    assert forall|ff: int, tt: int| has_cell(prev, ff, tt) implies has_cell(
                        peaks@,
                        ff,
                        tt,
                    ) by {
                        let i = choose|i: int|
                            0 <= i < prev.len() && (#[trigger] prev[i]).freq_bin == ff
                                && prev[i].time_frame == tt;
                        assert(peaks@[i] == prev[i]);
                    }
                }
            } else {
                proof {
                    assert(!is_peak_cell(g, f as int, t as int));
                }
            }
            f += 1;
        }
        proof {
            assert forall|ff: int, tt: int|
                #[trigger] is_peak_cell(g, ff, tt) && (tt < t + 1 || (tt == t + 1 && ff
                    < 1)) implies has_cell(peaks@, ff, tt) by {
                if tt == t as int {
                    assert(ff + 1 < FREQ_BINS);
                    assert(f >= FREQ_BINS - 1);
                }
            }
        }
        t += 1;
    }
    proof {
        assert forall|f: int, tt: int| #[trigger] is_peak_cell(g, f, tt) implies has_cell(
            peaks@,
            f,
            tt,
        ) by {
            assert(tt + 1 < tframes);
            assert(tframes <= t + 1);
            assert(tt < t as int);
        }
    }
    peaks
}

/// Extract the `MAX_PEAKS` largest peaks, largest first; the second
/// list holds whatever was not retained.
fn select_top_peaks(input: Vec<SpectralPeak>) -> (r: (Vec<SpectralPeak>, Vec<SpectralPeak>))
    ensures
        r.0@.to_multiset().add(r.1@.to_multiset()) == input@.to_multiset(),
        r.0@.len() + r.1@.len() == input@.len(),
        r.0@.len() == if input@.len() < MAX_PEAKS {
            input@.len()
        } else {
            MAX_PEAKS as nat
        },
        sorted_desc(r.0@),
        forall|i: int, j: int|
            0 <= i < r.0@.len() && 0 <= j < r.1@.len() ==> (#[trigger] r.0@[i]).magnitude
                >= (#[trigger] r.1@[j]).magnitude,
{
    broadcast use group_to_multiset_ensures;

    let mut work = input;
    let mut out: Vec<SpectralPeak> = Vec::new();
    let ghost orig = work@;
    proof {
        assert(out@.to_multiset().add(work@.to_multiset()) =~= orig.to_multiset());
    }
    while work.len() > 0 && out.len() < MAX_PEAKS
        invariant
            out@.to_multiset().add(work@.to_multiset()) == orig.to_multiset(),
            out@.len() + work@.len() == orig.len(),
            out@.len() <= MAX_PEAKS,
            sorted_desc(out@),
            forall|i: int, j: int|
                0 <= i < out@.len() && 0 <= j < work@.len() ==> (#[trigger] out@[i]).magnitude
                    >= (#[trigger] work@[j]).magnitude,
        decreases work@.len(),
    {
        let mut mi: usize = 0;
        let mut j: usize = 1;
        while j < work.len()
            invariant
                0 < work@.len(),
                mi < j <= work@.len(),
                forall|l: int| 0 <= l < j ==> (#[trigger] work@[l]).magnitude
                    <= work@[mi as int].magnitude,
            decreases work@.len() - j,
        {
            if work[j].magnitude > work[mi].magnitude {
                mi = j;
            }
            j += 1;
        }
        let ghost pre = work@;
        let ghost preout = out@;
        let p = work.remove(mi);
        out.push(p);
        proof {
            broadcast use vstd::multiset::group_multiset_axioms;

            pre.to_multiset_ensures();
            preout.to_multiset_ensures();
            assert(pre.contains(pre[mi as int]));
            assert(pre.to_multiset().count(p) > 0);
            assert(work@.to_multiset() =~= pre.to_multiset().remove(p));
            assert(out@.to_multiset() =~= preout.to_multiset().insert(p));
            assert(out@.to_multiset().add(work@.to_multiset()) =~= orig.to_multiset());
            assert forall|i: int, jj: int|
                0 <= i < out@.len() && 0 <= jj < work@.len() implies (#[trigger] out@[i]).magnitude
                >= (#[trigger] work@[jj]).magnitude by {
                assert(work@[jj] == pre[jj] || work@[jj] == pre[jj + 1]);
            }
        }
    }
    (out, work)
}

/// Select the spectral peaks of a spectrogram: every interior cell above
/// the floor that strictly exceeds its four orthogonal neighbors, ranked
/// by magnitude descending and capped to the `MAX_PEAKS` largest.
///
/// When fewer than `MAX_PEAKS` cells are accepted, every accepted cell is
/// returned; otherwise each accepted cell is either returned or has a
/// magnitude no larger than the smallest returned one.
pub fn find_spectral_peaks(spect: &Spectrogram) -> (r: Vec<SpectralPeak>)
    requires
        spect.wf(),
    ensures
        r@.len() <= MAX_PEAKS,
        forall|i: int| 0 <= i < r@.len() ==> peak_of(spect@, #[trigger] r@[i]),
        sorted_desc(r@),
        forall|i: int, j: int| 0 <= i < j < r@.len() ==> r@[i] != r@[j],
        r@.len() < MAX_PEAKS ==> forall|f: int, t: int|
            #[trigger] is_peak_cell(spect@, f, t) ==> has_cell(r@, f, t),
        r@.len() == MAX_PEAKS ==> forall|f: int, t: int|
            #[trigger] is_peak_cell(spect@, f, t) ==> has_cell(r@, f, t) || spect@[t][f] <= r@[
                MAX_PEAKS - 1
            ].magnitude,
        valid_peak_selection(spect@, r@),
{
    broadcast use group_to_multiset_ensures;

    let ghost g = spect@;
    let collected = collect_peaks(spect);
    let ghost coll = collected@;
    proof {
        assert forall|i: int, j: int| 0 <= i < j < coll.len() implies coll[i] != coll[j] by {
            assert(cell_before(coll[i], coll[j]));
        }
        coll.lemma_multiset_has_no_duplicates();
    }
    let (r, rest) = select_top_peaks(collected);
    let ghost top = r@;
    let ghost lo = rest@;
    proof {
        broadcast use vstd::multiset::group_multiset_axioms;

        // Each retained entry is one of the collected peaks.
        assert forall|i: int| 0 <= i < top.len() implies peak_of(g, #[trigger] top[i]) by {
            assert(top.to_multiset().contains(top[i]));
            assert(coll.to_multiset().count(top[i]) > 0);
            assert(coll.contains(top[i]));
            let k = choose|k: int| 0 <= k < coll.len() && coll[k] == top[i];
            assert(peak_of(g, coll[k]));
        }
        // The retained entries stay distinct.
        assert forall|x: SpectralPeak| top.to_multiset().contains(x) implies top.to_multiset().count(
            x,
        ) == 1 by {
            assert(coll.to_multiset().count(x) > 0);
            assert(coll.contains(x));
            assert(coll.to_multiset().count(x) == 1);
        }
        top.lemma_multiset_has_no_duplicates_conv();
        // Every accepted cell is either retained or outweighed by every
        // retained entry.
        assert forall|f: int, t: int| #[trigger] is_peak_cell(g, f, t) implies has_cell(top, f, t)
            || (top.len() == MAX_PEAKS && g[t][f] <= top[MAX_PEAKS - 1].magnitude) by {
            assert(has_cell(coll, f, t));
            let k = choose|k: int|
                0 <= k < coll.len() && (#[trigger] coll[k]).freq_bin == f && coll[k].time_frame
                    == t;
            let p = coll[k];
            assert(coll.to_multiset().count(p) > 0);
            assert(top.to_multiset().count(p) + lo.to_multiset().count(p) > 0);
            if top.to_multiset().count(p) > 0 {
                assert(top.contains(p));
                let m = choose|m: int| 0 <= m < top.len() && top[m] == p;
                assert(has_cell(top, f, t));
            } else {
                assert(lo.to_multiset().count(p) > 0);
                assert(lo.contains(p));
                let m = choose|m: int| 0 <= m < lo.len() && lo[m] == p;
                assert(peak_of(g, p));
                // something was left over, so the cap was reached
                assert(top.len() == MAX_PEAKS);
                assert(top[MAX_PEAKS - 1].magnitude >= lo[m].magnitude);
            }
        }
    }
    r
}

} // verus!
