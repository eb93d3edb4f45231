//! Catalog matching: score every catalog entry against a query
//! fingerprint, enforce the acceptance threshold, and rank candidates.
//!
//! Scores are exact rationals; two scores are compared by
//! cross-multiplication, and the acceptance threshold of three tenths is
//! the strict test `10 * shared > 3 * total`.

use vstd::prelude::*;
use crate::fingerprint::AudioFingerprint;
use crate::similarity::Similarity;
use crate::similarity::calculate_similarity;
use crate::similarity::sim_shared;
use crate::similarity::sim_total;

verus! {

/// A catalog entry as the matcher sees it: a stored fingerprint with its
/// label and store id.
#[derive(Clone, Debug)]
pub struct SongEntry {
    pub id: i64,
    pub title: String,
    pub artist: String,
    pub fingerprint: AudioFingerprint,
}

/// A scored candidate: the scanned position of a catalog entry and its
/// similarity with the query.
#[derive(Clone, Copy, Debug, PartialEq, Eq, Structural)]
pub struct ScoredMatch {
    pub index: usize,
    pub similarity: Similarity,
}

/// Numerator of the score of entry `e` against query `q`.
pub open spec fn score_shared(q: AudioFingerprint, e: SongEntry) -> int {
    sim_shared(q.hashes@, e.fingerprint.hashes@) as int
}

/// Denominator of the score of entry `e` against query `q`.
pub open spec fn score_total(q: AudioFingerprint, e: SongEntry) -> int {
    sim_total(q.hashes@, e.fingerprint.hashes@) as int
}

/// The entry clears the acceptance threshold: its score strictly exceeds
/// three tenths.
pub open spec fn spec_passes(q: AudioFingerprint, e: SongEntry) -> bool {
    10 * score_shared(q, e) > 3 * score_total(q, e)
}

/// The rational `n1 / d1` is strictly below `n2 / d2` (both denominators
/// positive).
pub open spec fn rat_lt(n1: int, d1: int, n2: int, d2: int) -> bool {
    n1 * d2 < n2 * d1
}

/// The candidate `m` records position `m.index` of `entries` with its
/// exact score against `q`.
pub open spec fn scored_at(q: AudioFingerprint, entries: Seq<SongEntry>, m: ScoredMatch) -> bool {
    &&& m.index < entries.len()
    &&& m.similarity.shared == score_shared(q, entries[m.index as int])
    &&& m.similarity.total == score_total(q, entries[m.index as int])
}

/// The score of entry `j` is strictly below the score of entry `k`.
pub open spec fn entry_lt(q: AudioFingerprint, entries: Seq<SongEntry>, j: int, k: int) -> bool {
    rat_lt(
        score_shared(q, entries[j]),
        score_total(q, entries[j]),
        score_shared(q, entries[k]),
        score_total(q, entries[k]),
    )
}

/// A similarity denominator is always positive.
proof fn lemma_sim_total_pos(a: Seq<u32>, b: Seq<u32>)
    ensures
        sim_total(a, b) >= 1,
{
    crate::similarity::lemma_similarity_bounds(a, b);
}

proof fn lemma_rat_le_lt_trans(an: int, ad: int, bn: int, bd: int, cn: int, cd: int)
    by (nonlinear_arith)
    requires
        ad > 0,
        bd > 0,
        cd > 0,
        an * bd <= bn * ad,
        bn * cd < cn * bd,
    ensures
        an * cd < cn * ad,
{
}

/// An entry below the threshold scores strictly below any entry above it.
proof fn lemma_threshold_separates(an: int, ad: int, bn: int, bd: int)
    by (nonlinear_arith)
    requires
        ad > 0,
        bd > 0,
        10 * an <= 3 * ad,
        10 * bn > 3 * bd,
    ensures
        an * bd < bn * ad,
{
}

/// Is the score `a` strictly below the score `b`?
fn sim_less(a: &Similarity, b: &Similarity) -> (r: bool)
    ensures
        r == rat_lt(a.shared as int, a.total as int, b.shared as int, b.total as int),
{
    proof {
        vstd::arithmetic::mul::lemma_mul_upper_bound(
            a.shared as int,
            u64::MAX as int,
            b.total as int,
            u64::MAX as int,
        );
        vstd::arithmetic::mul::lemma_mul_upper_bound(
            b.shared as int,
            u64::MAX as int,
            a.total as int,
            u64::MAX as int,
        );
    }
    (a.shared as u128) * (b.total as u128) < (b.shared as u128) * (a.total as u128)
}

/// Does the score clear the acceptance threshold of three tenths?
fn clears_threshold(s: &Similarity) -> (r: bool)
    ensures
        r == (10 * (s.shared as int) > 3 * (s.total as int)),
{
    10 * (s.shared as u128) > 3 * (s.total as u128)
}

/// Scan the whole catalog and return the best-scoring entry above the
/// acceptance threshold, or nothing when no entry clears it.  A tie at
/// the best score keeps the earliest scanned entry.
pub fn find_match(query: &AudioFingerprint, entries: &Vec<SongEntry>) -> (r: Option<ScoredMatch>)
    ensures
        r is None <==> (forall|j: int|
            0 <= j < entries@.len() ==> !spec_passes(*query, #[trigger] entries@[j])),
        r is Some ==> {
            let c = r->0;
            &&& scored_at(*query, entries@, c)
            &&& spec_passes(*query, entries@[c.index as int])
            &&& forall|j: int|
                0 <= j < entries@.len() ==> !entry_lt(*query, entries@, c.index as int, j)
            &&& forall|j: int| 0 <= j < c.index ==> entry_lt(*query, entries@, j, c.index as int)
        },
{
    let mut best: Option<ScoredMatch> = None;
    let mut i: usize = 0;
    while i < entries.len()
        invariant
            0 <= i <= entries@.len(),
            best is None ==> forall|j: int|
                0 <= j < i ==> !spec_passes(*query, #[trigger] entries@[j]),
            best is Some ==> {
                let c = best->0;
                &&& c.index < i
                &&& scored_at(*query, entries@, c)
                &&& spec_passes(*query, entries@[c.index as int])
                &&& forall|j: int| 0 <= j < i ==> !entry_lt(*query, entries@, c.index as int, j)
                &&& forall|j: int| 0 <= j < c.index ==> entry_lt(*query, entries@, j, c.index as int)
            },
        decreases entries@.len() - i,
    {
        let e = &entries[i];
        let si = calculate_similarity(query, &e.fingerprint);
        let take = if clears_threshold(&si) {
            match &best {
                None => true,
                Some(b) => sim_less(&b.similarity, &si),
            }
        } else {
            false
        };
        proof {
            let q = *query;
            let ii = i as int;
            lemma_sim_total_pos(q.hashes@, entries@[ii].fingerprint.hashes@);
            if best is None && take {
                // nothing scanned so far passed, so everything scores
                // strictly below the newly accepted entry
                assert forall|j: int| 0 <= j < ii implies entry_lt(q, entries@, j, ii)
                    && !entry_lt(q, entries@, ii, j) by {
                    assert(!spec_passes(q, entries@[j]));
                    lemma_sim_total_pos(q.hashes@, entries@[j].fingerprint.hashes@);
                    lemma_threshold_separates(
                        score_shared(q, entries@[j]),
                        score_total(q, entries@[j]),
                        score_shared(q, entries@[ii]),
                        score_total(q, entries@[ii]),
                    );
                }
            }
            if best is Some {
                let c = best->0;
                let ci = c.index as int;
                if take {
                    // the new entry strictly beats the old best, hence
                    // everything scanned so far
                    assert forall|j: int| 0 <= j < ii implies entry_lt(q, entries@, j, ii)
                        && !entry_lt(q, entries@, ii, j) by {
                        assert(!entry_lt(q, entries@, ci, j));
                        lemma_sim_total_pos(q.hashes@, entries@[j].fingerprint.hashes@);
                        lemma_sim_total_pos(q.hashes@, entries@[ci].fingerprint.hashes@);
                        lemma_rat_le_lt_trans(
                            score_shared(q, entries@[j]),
                            score_total(q, entries@[j]),
                            score_shared(q, entries@[ci]),
                            score_total(q, entries@[ci]),
                            score_shared(q, entries@[ii]),
                            score_total(q, entries@[ii]),
                        );
                    }
                } else {
                    // the old best is still unbeaten
                    if 10 * (si.shared as int) <= 3 * (si.total as int) {
                        lemma_sim_total_pos(q.hashes@, entries@[ci].fingerprint.hashes@);
                        lemma_threshold_separates(
                            score_shared(q, entries@[ii]),
                            score_total(q, entries@[ii]),
                            score_shared(q, entries@[ci]),
                            score_total(q, entries@[ci]),
                        );
                    }
                    assert(!entry_lt(q, entries@, ci, ii));
                }
            }
        }
        if take {
            best = Some(ScoredMatch { index: i, similarity: si });
        }
        i += 1;
    }
    best
}

/// Scan the whole catalog and return every entry above the acceptance
/// threshold, ranked by score descending; entries with equal scores keep
/// their scan order.
#[verifier::loop_isolation(false)]
pub fn find_all_matches(query: &AudioFingerprint, entries: &Vec<SongEntry>) -> (r: Vec<
    ScoredMatch,
>)
    ensures
        forall|k: int|
            0 <= k < r@.len() ==> scored_at(*query, entries@, #[trigger] r@[k]) && spec_passes(
                *query,
                entries@[r@[k].index as int],
            ),
        forall|j: int|
            0 <= j < entries@.len() && spec_passes(*query, #[trigger] entries@[j]) ==> exists|k: int|
                0 <= k < r@.len() && (#[trigger] r@[k]).index == j,
        forall|k1: int, k2: int| 0 <= k1 < k2 < r@.len() ==> r@[k1].index != r@[k2].index,
        forall|k1: int, k2: int|
            0 <= k1 < k2 < r@.len() ==> !rat_lt(
                r@[k1].similarity.shared as int,
                r@[k1].similarity.total as int,
                r@[k2].similarity.shared as int,
                r@[k2].similarity.total as int,
            ),
        forall|k1: int, k2: int|
            0 <= k1 < k2 < r@.len() && !rat_lt(
                r@[k2].similarity.shared as int,
                r@[k2].similarity.total as int,
                r@[k1].similarity.shared as int,
                r@[k1].similarity.total as int,
            ) ==> r@[k1].index < r@[k2].index,
{
    let mut out: Vec<ScoredMatch> = Vec::new();
    let mut i: usize = 0;
    while i < entries.len()
        invariant
            0 <= i <= entries@.len(),
            forall|k: int|
                0 <= k < out@.len() ==> scored_at(*query, entries@, #[trigger] out@[k])
                    && out@[k].index < i && spec_passes(*query, entries@[out@[k].index as int]),
            forall|j: int|
                0 <= j < i && spec_passes(*query, #[trigger] entries@[j]) ==> exists|k: int|
                    0 <= k < out@.len() && (#[trigger] out@[k]).index == j,
            forall|k1: int, k2: int| 0 <= k1 < k2 < out@.len() ==> out@[k1].index != out@[k2].index,
            forall|k1: int, k2: int|
                0 <= k1 < k2 < out@.len() ==> !rat_lt(
                    out@[k1].similarity.shared as int,
                    out@[k1].similarity.total as int,
                    out@[k2].similarity.shared as int,
                    out@[k2].similarity.total as int,
                ),
            forall|k1: int, k2: int|
                0 <= k1 < k2 < out@.len() ==> out@[k1].index < out@[k2].index || rat_lt(
                    out@[k2].similarity.shared as int,
                    out@[k2].similarity.total as int,
                    out@[k1].similarity.shared as int,
                    out@[k1].similarity.total as int,
                ),
        decreases entries@.len() - i,
    {
        let e = &entries[i];
        let si = calculate_similarity(query, &e.fingerprint);
        if clears_threshold(&si) {
            let m = ScoredMatch { index: i, similarity: si };
            let mut p: usize = 0;
            while p < out.len() && !sim_less(&out[p].similarity, &si)
                invariant
                    0 <= p <= out@.len(),
                    forall|k: int|
                        0 <= k < p ==> !rat_lt(
                            out@[k].similarity.shared as int,
                            out@[k].similarity.total as int,
                            si.shared as int,
                            si.total as int,
                        ),
                decreases out@.len() - p,
            {
                p += 1;
            }
            let ghost pre = out@;
            out.insert(p, m);
            proof {
                let q = *query;
                assert(out@ == pre.insert(p as int, m));
                assert(forall|k: int| 0 <= k < p ==> out@[k] == pre[k]);
                assert(out@[p as int] == m);
                assert(forall|k: int| p < k < out@.len() ==> out@[k] == pre[k - 1]);
                // entries past the insertion point score strictly below
                // the new candidate
                if p < pre.len() {
                    assert forall|k: int| p <= k < pre.len() implies rat_lt(
                        pre[k].similarity.shared as int,
                        pre[k].similarity.total as int,
                        si.shared as int,
                        si.total as int,
                    ) by {
                        if k > p {
                            assert(scored_at(q, entries@, pre[k]));
                            assert(scored_at(q, entries@, pre[p as int]));
                            assert(!rat_lt(
                                pre[p as int].similarity.shared as int,
                                pre[p as int].similarity.total as int,
                                pre[k].similarity.shared as int,
                                pre[k].similarity.total as int,
                            ));
                            lemma_sim_total_pos(
                                q.hashes@,
                                entries@[pre[k].index as int].fingerprint.hashes@,
                            );
                            lemma_sim_total_pos(
                                q.hashes@,
                                entries@[pre[p as int].index as int].fingerprint.hashes@,
                            );
                            lemma_rat_le_lt_trans(
                                pre[k].similarity.shared as int,
                                pre[k].similarity.total as int,
                                pre[p as int].similarity.shared as int,
                                pre[p as int].similarity.total as int,
                                si.shared as int,
                                si.total as int,
                            );
                        }
                    }
                }
                // old witnesses survive the insertion
                assert forall|j: int|
                    0 <= j < i + 1 && spec_passes(q, #[trigger] entries@[j]) implies exists|k: int|
                    0 <= k < out@.len() && (#[trigger] out@[k]).index == j by {
                    if j == i as int {
                        assert(out@[p as int].index == j);
                    } else {
                        let k0 = choose|k0: int|
                            0 <= k0 < pre.len() && (#[trigger] pre[k0]).index == j;
                        if k0 < p {
                            assert(out@[k0].index == j);
                        } else {
                            assert(out@[k0 + 1].index == j);
                        }
                    }
                }
            }
        }
        i += 1;
    }
    out
}

} // verus!
