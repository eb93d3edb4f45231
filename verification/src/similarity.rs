//! The similarity score of two fingerprints: the Jaccard coefficient of
//! their deduplicated hash sets, kept as an exact rational.

use vstd::prelude::*;
use vstd::seq_lib::seq_to_set_is_finite;
use vstd::set::group_set_axioms;
use vstd::set_lib::lemma_len_subset;
use crate::fingerprint::AudioFingerprint;

verus! {

/// Number of distinct hashes the two lists share.
pub open spec fn inter_count(a: Seq<u32>, b: Seq<u32>) -> nat {
    a.to_set().intersect(b.to_set()).len()
}

/// Number of distinct hashes occurring in either list.
pub open spec fn union_count(a: Seq<u32>, b: Seq<u32>) -> nat {
    a.to_set().union(b.to_set()).len()
}

/// Numerator of the similarity score: zero when either list is empty,
/// else the intersection size.
pub open spec fn sim_shared(a: Seq<u32>, b: Seq<u32>) -> nat {
    if a.len() == 0 || b.len() == 0 {
        0
    } else {
        inter_count(a, b)
    }
}

/// Denominator of the similarity score: one when either list is empty,
/// else the union size.
pub open spec fn sim_total(a: Seq<u32>, b: Seq<u32>) -> nat {
    if a.len() == 0 || b.len() == 0 {
        1
    } else {
        union_count(a, b)
    }
}

/// An exact similarity score: the rational `shared / total`, with
/// `0 <= shared <= total` and `total >= 1`, so the score always lies in
/// `[0, 1]`.
#[derive(Clone, Copy, Debug, PartialEq, Eq, Structural)]
pub struct Similarity {
    pub shared: usize,
    pub total: usize,
}

impl Similarity {
    /// The score is a well-formed rational in `[0, 1]`.
    pub open spec fn wf(self) -> bool {
        self.shared <= self.total && self.total >= 1
    }

    /// The score of exactly zero.
    pub fn zero() -> (r: Similarity)
        ensures
            r.shared == 0 && r.total == 1,
            r.wf(),
    {
        Similarity { shared: 0, total: 1 }
    }
}

/// Does `v` hold `x`?
fn contains_val(v: &Vec<u32>, x: u32) -> (r: bool)
    ensures
        r == v@.contains(x),
{
    let mut i: usize = 0;
    while i < v.len()
        invariant
            0 <= i <= v@.len(),
            forall|k: int| 0 <= k < i ==> v@[k] != x,
        decreases v@.len() - i,
    {
        if v[i] == x {
            return true;
        }
        i += 1;
    }
    proof {
        assert(!v@.contains(x));
    }
    false
}

/// Append to `acc` each value of `v` not yet present in `acc`, keeping
/// `acc` duplicate-free while growing the set it holds by the values of
/// `v`.
fn extend_unique(acc: &mut Vec<u32>, v: &Vec<u32>)
    requires
        old(acc)@.no_duplicates(),
    ensures
        final(acc)@.no_duplicates(),
        final(acc)@.to_set() == old(acc)@.to_set().union(v@.to_set()),
{
    broadcast use group_set_axioms, seq_to_set_is_finite;

    let ghost base = acc@;
    let mut i: usize = 0;
    while i < v.len()
        invariant
            0 <= i <= v@.len(),
            acc@.no_duplicates(),
            acc@.to_set() == base.to_set().union(v@.take(i as int).to_set()),
        decreases v@.len() - i,
    {
        let x = v[i];
        let ghost pre = acc@;
        if !contains_val(acc, x) {
            acc.push(x);
            proof {
                assert(acc@ == pre.push(x));
                assert(acc@.no_duplicates()) by {
                    assert(forall|k: int| 0 <= k < pre.len() ==> acc@[k] == pre[k]);
                    assert(!pre.contains(x));
                }
                assert(acc@.to_set() =~= pre.to_set().insert(x)) by {
                    assert forall|y: u32| acc@.contains(y) implies pre.to_set().insert(
                        x,
                    ).contains(y) by {
                        let k = choose|k: int| 0 <= k < acc@.len() && acc@[k] == y;
                        if k < pre.len() {
                            assert(pre.contains(y));
                        }
                    }
                    assert forall|y: u32| pre.to_set().insert(x).contains(y) implies acc@.contains(
                        y,
                    ) by {
                        if y == x {
                            assert(acc@[acc@.len() - 1] == x);
                        } else {
                            let k = choose|k: int| 0 <= k < pre.len() && pre[k] == y;
                            assert(acc@[k] == y);
                        }
                    }
                }
            }
        }
        proof {
            assert(v@.take(i as int + 1).drop_last() =~= v@.take(i as int));
            assert(v@.take(i as int + 1).last() == v@[i as int]);
            assert(v@.take(i as int + 1).to_set() =~= v@.take(i as int).to_set().insert(x)) by {
                let s = v@.take(i as int + 1);
                assert forall|y: u32| s.to_set().contains(y) implies v@.take(
                    i as int,
                ).to_set().insert(x).contains(y) by {
                    let k = choose|k: int| 0 <= k < s.len() && s[k] == y;
                    if k < i {
                        assert(v@.take(i as int).contains(y));
                    }
                }
                assert forall|y: u32| v@.take(i as int).to_set().insert(x).contains(
                    y,
                ) implies s.to_set().contains(y) by {
                    if y == x {
                        assert(s[i as int] == x);
                    } else {
                        let k = choose|k: int| 0 <= k < i && v@.take(i as int)[k] == y;
                        assert(s[k] == y);
                    }
                }
            }
            assert(acc@.to_set() =~= base.to_set().union(v@.take(i as int + 1).to_set()));
        }
        i += 1;
    }
    proof {
        assert(v@.take(v@.len() as int) =~= v@);
    }
}

/// Count how many entries of the duplicate-free list `u` occur in `b`:
/// exactly the size of the intersection of the two hash sets.
fn count_common(u: &Vec<u32>, b: &Vec<u32>) -> (r: usize)
    requires
        u@.no_duplicates(),
    ensures
        r == u@.to_set().intersect(b@.to_set()).len(),
        r <= u@.len(),
{
    broadcast use group_set_axioms, seq_to_set_is_finite;

    let mut cnt: usize = 0;
    let mut i: usize = 0;
    proof {
        assert(u@.take(0).to_set().intersect(b@.to_set()) =~= Set::<u32>::empty());
    }
    while i < u.len()
        invariant
            0 <= i <= u@.len(),
            u@.no_duplicates(),
            cnt <= i,
            cnt == u@.take(i as int).to_set().intersect(b@.to_set()).len(),
        decreases u@.len() - i,
    {
        let x = u[i];
        proof {
            assert(u@.take(i as int + 1).drop_last() =~= u@.take(i as int));
            assert(u@.take(i as int + 1).last() == u@[i as int]);
            let tprev = u@.take(i as int).to_set();
            let tnext = u@.take(i as int + 1).to_set();
            assert(tnext =~= tprev.insert(x)) by {
                let s = u@.take(i as int + 1);
                assert forall|y: u32| s.to_set().contains(y) implies tprev.insert(x).contains(
                    y,
                ) by {
                    let k = choose|k: int| 0 <= k < s.len() && s[k] == y;
                    if k < i {
                        assert(u@.take(i as int).contains(y));
                    }
                }
                assert forall|y: u32| tprev.insert(x).contains(y) implies s.to_set().contains(
                    y,
                ) by {
                    if y == x {
                        assert(s[i as int] == x);
                    } else {
                        let k = choose|k: int| 0 <= k < i && u@.take(i as int)[k] == y;
                        assert(s[k] == y);
                    }
                }
            }
            assert(!tprev.contains(x)) by {
                if tprev.contains(x) {
                    let k = choose|k: int| 0 <= k < i && u@.take(i as int)[k] == x;
                    assert(u@[k] == x && u@[i as int] == x);
                }
            }
            if b@.to_set().contains(x) {
                assert(tnext.intersect(b@.to_set()) =~= tprev.intersect(b@.to_set()).insert(x));
                assert(!tprev.intersect(b@.to_set()).contains(x));
            } else {
                assert(tnext.intersect(b@.to_set()) =~= tprev.intersect(b@.to_set()));
            }
        }
        if contains_val(b, x) {
            proof {
                assert(b@.to_set().contains(x));
            }
            cnt += 1;
        } else {
            proof {
                assert(!b@.to_set().contains(x));
            }
        }
        i += 1;
    }
    proof {
        assert(u@.take(u@.len() as int) =~= u@);
    }
    cnt
}

/// The Jaccard similarity of two fingerprints: zero when either hash
/// list is empty, else the number of shared distinct hashes over the
/// number of distinct hashes overall, as an exact rational.
pub fn calculate_similarity(fingerprint1: &AudioFingerprint, fingerprint2: &AudioFingerprint)
    -> (r: Similarity)
    ensures
        r.shared == sim_shared(fingerprint1.hashes@, fingerprint2.hashes@),
        r.total == sim_total(fingerprint1.hashes@, fingerprint2.hashes@),
        r.wf(),
{
    broadcast use group_set_axioms, seq_to_set_is_finite;

    let a = &fingerprint1.hashes;
    let b = &fingerprint2.hashes;
    if a.len() == 0 || b.len() == 0 {
        return Similarity::zero();
    }
    let mut ua: Vec<u32> = Vec::new();
    proof {
        assert(ua@.to_set() =~= Set::<u32>::empty());
    }
    extend_unique(&mut ua, a);
    proof {
        assert(ua@.to_set() =~= a@.to_set());
    }
    let shared = count_common(&ua, b);
    let mut all = ua;
    extend_unique(&mut all, b);
    proof {
        assert(all@.to_set() =~= a@.to_set().union(b@.to_set()));
        all@.unique_seq_to_set();
    }
    let total = all.len();
    proof {
        let sa = a@.to_set();
        let sb = b@.to_set();
        assert(sa.intersect(sb) <= sa.union(sb));
        lemma_len_subset(sa.intersect(sb), sa.union(sb));
        assert(sa.union(sb).len() >= 1) by {
            assert(a@.len() > 0);
            assert(sa.contains(a@[0]));
            assert(sa.union(sb).contains(a@[0]));
            if sa.union(sb).len() == 0 {
                assert(sa.union(sb) =~= Set::<u32>::empty());
            }
        }
    }
    Similarity { shared, total }
}

/// A similarity score is a rational in `[0, 1]`: the shared count never
/// exceeds the total count, and the total count is positive.
pub proof fn lemma_similarity_bounds(a: Seq<u32>, b: Seq<u32>)
    ensures
        sim_shared(a, b) <= sim_total(a, b),
        sim_total(a, b) >= 1,
{
    broadcast use group_set_axioms, seq_to_set_is_finite;

    if a.len() == 0 || b.len() == 0 {
    } else {
        let sa = a.to_set();
        let sb = b.to_set();
        assert(sa.intersect(sb) <= sa.union(sb));
        lemma_len_subset(sa.intersect(sb), sa.union(sb));
        assert(sa.contains(a[0]));
        assert(sa.union(sb).contains(a[0]));
        if sa.union(sb).len() == 0 {
            assert(sa.union(sb) =~= Set::<u32>::empty());
        }
    }
}

/// A fingerprint with at least one hash has similarity exactly one with
/// itself: its shared and total hash counts coincide and are positive.
pub proof fn lemma_self_similarity(a: Seq<u32>)
    requires
        a.len() > 0,
    ensures
        sim_shared(a, a) == sim_total(a, a),
        sim_total(a, a) >= 1,
{
    broadcast use group_set_axioms, seq_to_set_is_finite;

    let s = a.to_set();
    assert(s.intersect(s) =~= s);
    assert(s.union(s) =~= s);
    assert(s.contains(a[0]));
    if s.len() == 0 {
        assert(s =~= Set::<u32>::empty());
    }
}

/// Similarity is symmetric: both the shared and the total counts ignore
/// the order of the two fingerprints.
pub proof fn lemma_similarity_symmetric(a: Seq<u32>, b: Seq<u32>)
    ensures
        sim_shared(a, b) == sim_shared(b, a),
        sim_total(a, b) == sim_total(b, a),
{
    broadcast use group_set_axioms, seq_to_set_is_finite;

    assert(a.to_set().intersect(b.to_set()) =~= b.to_set().intersect(a.to_set()));
    assert(a.to_set().union(b.to_set()) =~= b.to_set().union(a.to_set()));
}

/// Two non-empty fingerprints without a common hash have similarity
/// exactly zero.
pub proof fn lemma_disjoint_similarity(a: Seq<u32>, b: Seq<u32>)
    requires
        forall|x: u32| a.contains(x) ==> !b.contains(x),
    ensures
        sim_shared(a, b) == 0,
{
    broadcast use group_set_axioms, seq_to_set_is_finite;

    assert(a.to_set().intersect(b.to_set()) =~= Set::<u32>::empty());
}

} // verus!
