//! Gain-Based Swap Optimizer: iteratively exchanges documents between two
//! sibling partitions while the exchange reduces the estimated coding cost
//! of the split, bounded by a maximum number of passes.
//!
//! Each pass computes, for every candidate pair — one document per side —
//! the exact change of the estimated cost that exchanging the two would
//! produce, incrementally from per-neighbor occurrence counts, and swaps
//! the pair of highest gain exactly when that gain is positive: the
//! estimated cost never increases, it strictly decreases precisely when
//! some exchange would lower it, and ties are not swapped.

use crate::cost::{
    cost_term_exec, count_occ, count_side, lemma_count_occ_pos, lemma_count_occ_update,
    lemma_side_cost_upto_stable, neighbor_contrib, side_cost_upto, split_cost,
};
use crate::doc::{docs_wf, Document};
use vstd::prelude::*;
use vstd::seq_lib::to_multiset_update;

verus! {

/// Swapping two positions of a sequence keeps its multiset of values.
pub proof fn lemma_swap_multiset(s: Seq<usize>, i: int, j: int)
    requires
        0 <= i < s.len(),
        0 <= j < s.len(),
    ensures
        s.update(i, s[j]).update(j, s[i]).to_multiset() == s.to_multiset(),
{
    broadcast use to_multiset_update;
    broadcast use vstd::multiset::group_multiset_axioms;
    broadcast use vstd::seq_lib::to_multiset_contains;

    if i == j {
        assert(s.update(i, s[j]).update(j, s[i]) =~= s);
    } else {
        let s1 = s.update(i, s[j]);
        let s2 = s1.update(j, s[i]);
        assert(s.contains(s[i]));
        assert(s1[j] == s[j]);
        assert(s2.to_multiset() =~= s.to_multiset());
    }
}

/// Exchanges the values at positions `i` and `j`.
pub(crate) fn swap_ord(ord: &mut Vec<usize>, i: usize, j: usize)
    requires
        i < old(ord)@.len(),
        j < old(ord)@.len(),
    ensures
        final(ord)@ == old(ord)@.update(i as int, old(ord)@[j as int]).update(
            j as int,
            old(ord)@[i as int],
        ),
{
    let a = ord[i];
    let b = ord[j];
    ord.set(i, b);
    ord.set(j, a);
}

/// The exact change of the split's estimated cost that exchanging the
/// document at position `k` of `ord[lo..mid]` with the one at position `m`
/// of `ord[mid..hi]` would produce: positive when the exchange makes the
/// split cheaper.
pub open spec fn exchange_gain(
    docs: Seq<Document>,
    ord: Seq<usize>,
    lo: int,
    mid: int,
    hi: int,
    k: int,
    m: int,
    n: int,
) -> int {
    split_cost(docs, ord.subrange(lo, mid), ord.subrange(mid, hi), n) as int - split_cost(
        docs,
        ord.subrange(lo, mid).update(k - lo, ord[m]),
        ord.subrange(mid, hi).update(m - mid, ord[k]),
        n,
    ) as int
}

/// Some exchange of one document of `ord[lo..mid]` with one of
/// `ord[mid..hi]` strictly lowers the split's estimated cost.
pub open spec fn improving_exchange_exists(
    docs: Seq<Document>,
    ord: Seq<usize>,
    lo: int,
    mid: int,
    hi: int,
    n: int,
) -> bool {
    exists|k: int, m: int|
        lo <= k < mid && mid <= m < hi && #[trigger] exchange_gain(
            docs,
            ord,
            lo,
            mid,
            hi,
            k,
            m,
            n,
        ) > 0
}

/// The change in the split's estimated cost from exchanging document
/// `a_idx`, standing at position `pa` of the first side, with document
/// `b_idx`, standing at position `pb` of the second side.
///
/// The two posting lists are walked in lock step; a neighbor both
/// documents name crosses the split in both directions at once and
/// contributes nothing; one named by a single document changes that
/// neighbor's occurrence count on both sides by one.  The result is proved
/// equal to the exact difference of the two splits' costs.
#[verifier::rlimit(60)]
fn pair_gain(
    docs: &Vec<Document>,
    a_idx: usize,
    b_idx: usize,
    ca: &Vec<u64>,
    cb: &Vec<u64>,
    sz_a: usize,
    sz_b: usize,
    n: usize,
    Ghost(side_a): Ghost<Seq<usize>>,
    Ghost(pa): Ghost<int>,
    Ghost(side_b): Ghost<Seq<usize>>,
    Ghost(pb): Ghost<int>,
) -> (g: i128)
    requires
        a_idx < docs@.len(),
        b_idx < docs@.len(),
        docs_wf(docs@, n as int),
        n <= 0x1_0000_0000,
        sz_a == side_a.len(),
        sz_b == side_b.len(),
        sz_a <= n,
        sz_b <= n,
        ca@.len() == n,
        cb@.len() == n,
        forall|t: int| 0 <= t < n ==> (#[trigger] ca@[t]) as nat == count_occ(docs@, side_a, t),
        forall|t: int| 0 <= t < n ==> (#[trigger] cb@[t]) as nat == count_occ(docs@, side_b, t),
        forall|t: int| 0 <= t < n ==> #[trigger] ca@[t] <= sz_a,
        forall|t: int| 0 <= t < n ==> #[trigger] cb@[t] <= sz_b,
        0 <= pa < side_a.len(),
        side_a[pa] == a_idx,
        0 <= pb < side_b.len(),
        side_b[pb] == b_idx,
    ensures
        g == split_cost(docs@, side_a, side_b, n as int) as int - split_cost(
            docs@,
            side_a.update(pa, b_idx),
            side_b.update(pb, a_idx),
            n as int,
        ) as int,
{
    let ghost da = docs@[a_idx as int];
    let ghost db = docs@[b_idx as int];
    let ghost a2 = side_a.update(pa, b_idx);
    let ghost b2 = side_b.update(pb, a_idx);
    assert(a2.len() == sz_a);
    assert(b2.len() == sz_b);
    let mut g: i128 = 0;
    let alen = docs[a_idx].postings.len();
    let blen = docs[b_idx].postings.len();
    let mut i: usize = 0;
    let mut j: usize = 0;
    let ghost mut t_done: int = 0;
    while i < alen || j < blen
        invariant
            0 <= i <= alen == da.postings@.len(),
            0 <= j <= blen == db.postings@.len(),
            a_idx < docs@.len(),
            b_idx < docs@.len(),
            da == docs@[a_idx as int],
            db == docs@[b_idx as int],
            da.wf(n as int),
            db.wf(n as int),
            n <= 0x1_0000_0000,
            sz_a == side_a.len(),
            sz_b == side_b.len(),
            sz_a <= n,
            sz_b <= n,
            ca@.len() == n,
            cb@.len() == n,
            forall|t: int| 0 <= t < n ==> (#[trigger] ca@[t]) as nat == count_occ(docs@, side_a, t),
            forall|t: int| 0 <= t < n ==> (#[trigger] cb@[t]) as nat == count_occ(docs@, side_b, t),
            forall|t: int| 0 <= t < n ==> #[trigger] ca@[t] <= sz_a,
            forall|t: int| 0 <= t < n ==> #[trigger] cb@[t] <= sz_b,
            0 <= pa < side_a.len(),
            side_a[pa] == a_idx,
            0 <= pb < side_b.len(),
            side_b[pb] == b_idx,
            a2 == side_a.update(pa, b_idx),
            b2 == side_b.update(pb, a_idx),
            0 <= t_done <= n,
            forall|x: int| 0 <= x < i ==> (#[trigger] da.postings@[x]).0 < t_done,
            forall|x: int| i <= x < alen ==> (#[trigger] da.postings@[x]).0 >= t_done,
            forall|x: int| 0 <= x < j ==> (#[trigger] db.postings@[x]).0 < t_done,
            forall|x: int| j <= x < blen ==> (#[trigger] db.postings@[x]).0 >= t_done,
            g == (side_cost_upto(docs@, side_a, t_done) + side_cost_upto(
                docs@,
                side_b,
                t_done,
            )) as int - (side_cost_upto(docs@, a2, t_done) + side_cost_upto(
                docs@,
                b2,
                t_done,
            )) as int,
            -((i + j) as int) * 0x1_0000_0000_0000 <= g <= ((i + j) as int) * 0x1_0000_0000_0000,
        decreases (alen - i) + (blen - j),
    {
        let shared = i < alen && j < blen && docs[a_idx].postings[i].0 == docs[b_idx].postings[j].0;
        let take_a = i < alen && (j >= blen || docs[a_idx].postings[i].0 < docs[b_idx].postings[j].0);
        let t0: usize = if shared || take_a {
            docs[a_idx].postings[i].0
        } else {
            docs[b_idx].postings[j].0
        };
        assert(t0 < n);
        proof {
            // no neighbor id in [t_done, t0) is named by either document,
            // so both splits' costs grow alike over that span
            assert forall|u: int| t_done <= u < t0 implies count_occ(docs@, side_a, u) == count_occ(
                docs@,
                a2,
                u,
            ) && count_occ(docs@, side_b, u) == count_occ(docs@, b2, u) by {
                assert(!da.has_neighbor(u)) by {
                    assert forall|x: int| 0 <= x < alen implies (#[trigger] da.postings@[x]).0
                        != u by {
                        if x >= i {
                            if shared || take_a {
                                assert(da.postings@[x].0 >= da.postings@[i as int].0);
                            }
                        }
                    }
                }
                assert(!db.has_neighbor(u)) by {
                    assert forall|x: int| 0 <= x < blen implies (#[trigger] db.postings@[x]).0
                        != u by {
                        if x >= j {
                            if !(shared || take_a) {
                                assert(db.postings@[x].0 >= db.postings@[j as int].0);
                            } else {
                                if shared {
                                    assert(db.postings@[x].0 >= db.postings@[j as int].0);
                                } else {
                                    if j < blen {
                                        assert(db.postings@[x].0 >= db.postings@[j as int].0);
                                    }
                                }
                            }
                        }
                    }
                }
                assert(neighbor_contrib(docs@, a_idx, u) == 0);
                assert(neighbor_contrib(docs@, b_idx, u) == 0);
                lemma_count_occ_update(docs@, side_a, pa, b_idx, u);
                lemma_count_occ_update(docs@, side_b, pb, a_idx, u);
            }
            lemma_side_cost_upto_stable(docs@, side_a, a2, t_done, t0 as int);
            lemma_side_cost_upto_stable(docs@, side_b, b2, t_done, t0 as int);
            t_done = t0 as int;
        }
        if shared {
            // both documents name t0: the exchange moves one occurrence
            // each way and leaves both counts unchanged
            proof {
                assert(da.postings@[i as int].0 == t0);
                assert(db.postings@[j as int].0 == t0);
                assert(neighbor_contrib(docs@, a_idx, t0 as int) == 1);
                assert(neighbor_contrib(docs@, b_idx, t0 as int) == 1);
                lemma_count_occ_update(docs@, side_a, pa, b_idx, t0 as int);
                lemma_count_occ_update(docs@, side_b, pb, a_idx, t0 as int);
                lemma_side_cost_upto_stable(docs@, side_a, a2, t0 as int, t0 + 1);
                lemma_side_cost_upto_stable(docs@, side_b, b2, t0 as int, t0 + 1);
                t_done = t0 + 1;
            }
            i = i + 1;
            j = j + 1;
        } else if take_a {
            // only the first side's document names t0: it would leave,
            // lowering the count there and raising it across
            assert(da.postings@[i as int].0 == t0);
            proof {
                assert(docs@[side_a[pa] as int].has_neighbor(t0 as int));
                lemma_count_occ_pos(docs@, side_a, pa, t0 as int);
                assert(!db.has_neighbor(t0 as int)) by {
                    assert forall|x: int| 0 <= x < blen implies (#[trigger] db.postings@[x]).0
                        != t0 by {
                        if x >= j && j < blen {
                            assert(db.postings@[x].0 >= db.postings@[j as int].0);
                        }
                    }
                }
                assert(neighbor_contrib(docs@, a_idx, t0 as int) == 1);
                assert(neighbor_contrib(docs@, b_idx, t0 as int) == 0);
                lemma_count_occ_update(docs@, side_a, pa, b_idx, t0 as int);
                lemma_count_occ_update(docs@, side_b, pb, a_idx, t0 as int);
                assert(count_occ(docs@, a2, t0 as int) + 1 == count_occ(
                    docs@,
                    side_a,
                    t0 as int,
                ));
                assert(count_occ(docs@, b2, t0 as int) == count_occ(docs@, side_b, t0 as int) + 1);
            }
            let before = cost_term_exec(ca[t0], sz_a as u64) + cost_term_exec(cb[t0], sz_b as u64);
            let after = cost_term_exec(ca[t0] - 1, sz_a as u64) + cost_term_exec(
                cb[t0] + 1,
                sz_b as u64,
            );
            g = g + (before as i128 - after as i128);
            proof {
                t_done = t0 + 1;
            }
            i = i + 1;
        } else {
            // only the second side's document names t0
            assert(j < blen);
            assert(db.postings@[j as int].0 == t0);
            proof {
                assert(docs@[side_b[pb] as int].has_neighbor(t0 as int));
                lemma_count_occ_pos(docs@, side_b, pb, t0 as int);
                assert(!da.has_neighbor(t0 as int)) by {
                    assert forall|x: int| 0 <= x < alen implies (#[trigger] da.postings@[x]).0
                        != t0 by {
                        if x >= i && i < alen {
                            assert(da.postings@[x].0 >= da.postings@[i as int].0);
                        }
                    }
                }
                assert(neighbor_contrib(docs@, a_idx, t0 as int) == 0);
                assert(neighbor_contrib(docs@, b_idx, t0 as int) == 1);
                lemma_count_occ_update(docs@, side_a, pa, b_idx, t0 as int);
                lemma_count_occ_update(docs@, side_b, pb, a_idx, t0 as int);
                assert(count_occ(docs@, a2, t0 as int) == count_occ(docs@, side_a, t0 as int) + 1);
                assert(count_occ(docs@, b2, t0 as int) + 1 == count_occ(
                    docs@,
                    side_b,
                    t0 as int,
                ));
            }
            let before = cost_term_exec(ca[t0], sz_a as u64) + cost_term_exec(cb[t0], sz_b as u64);
            let after = cost_term_exec(ca[t0] + 1, sz_a as u64) + cost_term_exec(
                cb[t0] - 1,
                sz_b as u64,
            );
            g = g + (before as i128 - after as i128);
            proof {
                t_done = t0 + 1;
            }
            j = j + 1;
        }
    }
    proof {
        // past the last posting of either document, the two splits' costs
        // grow alike up to the whole universe
        assert forall|u: int| t_done <= u < n implies count_occ(docs@, side_a, u) == count_occ(
            docs@,
            a2,
            u,
        ) && count_occ(docs@, side_b, u) == count_occ(docs@, b2, u) by {
            assert(!da.has_neighbor(u)) by {
                assert forall|x: int| 0 <= x < alen implies (#[trigger] da.postings@[x]).0 != u by {}
            }
            assert(!db.has_neighbor(u)) by {
                assert forall|x: int| 0 <= x < blen implies (#[trigger] db.postings@[x]).0 != u by {}
            }
            assert(neighbor_contrib(docs@, a_idx, u) == 0);
            assert(neighbor_contrib(docs@, b_idx, u) == 0);
            lemma_count_occ_update(docs@, side_a, pa, b_idx, u);
            lemma_count_occ_update(docs@, side_b, pb, a_idx, u);
        }
        lemma_side_cost_upto_stable(docs@, side_a, a2, t_done, n as int);
        lemma_side_cost_upto_stable(docs@, side_b, b2, t_done, n as int);
    }
    g
}

/// The candidate pair — one document of `ord[lo..mid]`, one of
/// `ord[mid..hi]` — whose exchange gains the most, with that gain: no
/// other pair's exchange gains more.
fn best_pair(
    docs: &Vec<Document>,
    ord: &Vec<usize>,
    ca: &Vec<u64>,
    cb: &Vec<u64>,
    lo: usize,
    mid: usize,
    hi: usize,
    n: usize,
) -> (res: (usize, usize, i128))
    requires
        lo < mid < hi <= ord@.len(),
        ord@.len() <= n,
        n <= 0x1_0000_0000,
        docs_wf(docs@, n as int),
        forall|k: int| lo <= k < hi ==> #[trigger] ord@[k] < docs@.len(),
        ca@.len() == n,
        cb@.len() == n,
        forall|t: int|
            0 <= t < n ==> (#[trigger] ca@[t]) as nat == count_occ(
                docs@,
                ord@.subrange(lo as int, mid as int),
                t,
            ),
        forall|t: int|
            0 <= t < n ==> (#[trigger] cb@[t]) as nat == count_occ(
                docs@,
                ord@.subrange(mid as int, hi as int),
                t,
            ),
        forall|t: int| 0 <= t < n ==> #[trigger] ca@[t] <= mid - lo,
        forall|t: int| 0 <= t < n ==> #[trigger] cb@[t] <= hi - mid,
    ensures
        lo <= res.0 < mid,
        mid <= res.1 < hi,
        res.2 == exchange_gain(
            docs@,
            ord@,
            lo as int,
            mid as int,
            hi as int,
            res.0 as int,
            res.1 as int,
            n as int,
        ),
        forall|k: int, m: int|
            lo <= k < mid && mid <= m < hi ==> #[trigger] exchange_gain(
                docs@,
                ord@,
                lo as int,
                mid as int,
                hi as int,
                k,
                m,
                n as int,
            ) <= res.2,
{
    let ghost side_a = ord@.subrange(lo as int, mid as int);
    let ghost side_b = ord@.subrange(mid as int, hi as int);
    let sz_a = mid - lo;
    let sz_b = hi - mid;
    assert(side_a[0] == ord@[lo as int]);
    assert(side_b[0] == ord@[mid as int]);
    let mut best_a: usize = lo;
    let mut best_b: usize = mid;
    let mut best_gain: i128 = pair_gain(
        docs,
        ord[lo],
        ord[mid],
        ca,
        cb,
        sz_a,
        sz_b,
        n,
        Ghost(side_a),
        Ghost(0),
        Ghost(side_b),
        Ghost(0),
    );
    assert(best_gain == exchange_gain(
        docs@,
        ord@,
        lo as int,
        mid as int,
        hi as int,
        lo as int,
        mid as int,
        n as int,
    ));
    let mut k: usize = lo;
    while k < mid
        invariant
            lo < mid < hi <= ord@.len(),
            ord@.len() <= n,
            n <= 0x1_0000_0000,
            docs_wf(docs@, n as int),
            forall|k2: int| lo <= k2 < hi ==> #[trigger] ord@[k2] < docs@.len(),
            ca@.len() == n,
            cb@.len() == n,
            forall|t: int| 0 <= t < n ==> (#[trigger] ca@[t]) as nat == count_occ(docs@, side_a, t),
            forall|t: int| 0 <= t < n ==> (#[trigger] cb@[t]) as nat == count_occ(docs@, side_b, t),
            forall|t: int| 0 <= t < n ==> #[trigger] ca@[t] <= sz_a,
            forall|t: int| 0 <= t < n ==> #[trigger] cb@[t] <= sz_b,
            sz_a == mid - lo,
            sz_b == hi - mid,
            side_a == ord@.subrange(lo as int, mid as int),
            side_b == ord@.subrange(mid as int, hi as int),
            lo <= best_a < mid,
            mid <= best_b < hi,
            best_gain == exchange_gain(
                docs@,
                ord@,
                lo as int,
                mid as int,
                hi as int,
                best_a as int,
                best_b as int,
                n as int,
            ),
            forall|k2: int, m2: int|
                lo <= k2 < k && mid <= m2 < hi ==> #[trigger] exchange_gain(
                    docs@,
                    ord@,
                    lo as int,
                    mid as int,
                    hi as int,
                    k2,
                    m2,
                    n as int,
                ) <= best_gain,
            lo <= k <= mid,
        decreases mid - k,
    {
        let mut m: usize = mid;
        while m < hi
            invariant
                lo < mid < hi <= ord@.len(),
                ord@.len() <= n,
                n <= 0x1_0000_0000,
                docs_wf(docs@, n as int),
                forall|k2: int| lo <= k2 < hi ==> #[trigger] ord@[k2] < docs@.len(),
                ca@.len() == n,
                cb@.len() == n,
                forall|t: int|
                    0 <= t < n ==> (#[trigger] ca@[t]) as nat == count_occ(docs@, side_a, t),
                forall|t: int|
                    0 <= t < n ==> (#[trigger] cb@[t]) as nat == count_occ(docs@, side_b, t),
                forall|t: int| 0 <= t < n ==> #[trigger] ca@[t] <= sz_a,
                forall|t: int| 0 <= t < n ==> #[trigger] cb@[t] <= sz_b,
                sz_a == mid - lo,
                sz_b == hi - mid,
                side_a == ord@.subrange(lo as int, mid as int),
                side_b == ord@.subrange(mid as int, hi as int),
                lo <= best_a < mid,
                mid <= best_b < hi,
                best_gain == exchange_gain(
                    docs@,
                    ord@,
                    lo as int,
                    mid as int,
                    hi as int,
                    best_a as int,
                    best_b as int,
                    n as int,
                ),
                forall|k2: int, m2: int|
                    lo <= k2 < k && mid <= m2 < hi ==> #[trigger] exchange_gain(
                        docs@,
                        ord@,
                        lo as int,
                        mid as int,
                        hi as int,
                        k2,
                        m2,
                        n as int,
                    ) <= best_gain,
                forall|m2: int|
                    mid <= m2 < m ==> #[trigger] exchange_gain(
                        docs@,
                        ord@,
                        lo as int,
                        mid as int,
                        hi as int,
                        k as int,
                        m2,
                        n as int,
                    ) <= best_gain,
                lo <= k < mid,
                mid <= m <= hi,
            decreases hi - m,
        {
            assert(side_a[k - lo] == ord@[k as int]);
            assert(side_b[m - mid] == ord@[m as int]);
            let g = pair_gain(
                docs,
                ord[k],
                ord[m],
                ca,
                cb,
                sz_a,
                sz_b,
                n,
                Ghost(side_a),
                Ghost(k - lo),
                Ghost(side_b),
                Ghost(m - mid),
            );
            assert(g == exchange_gain(
                docs@,
                ord@,
                lo as int,
                mid as int,
                hi as int,
                k as int,
                m as int,
                n as int,
            ));
            if g > best_gain {
                best_gain = g;
                best_a = k;
                best_b = m;
            }
            m = m + 1;
        }
        k = k + 1;
    }
    (best_a, best_b, best_gain)
}

/// One optimizer pass over the split of `ord[lo..hi]` at `mid`: computes
/// the exact gain of every candidate exchange, and swaps the pair of
/// highest gain exactly when that gain is positive.
///
/// The pass improves the split precisely when some exchange would strictly
/// lower its estimated cost, and then lowers the cost by exactly the best
/// exchange's gain; a tie, or a split no exchange improves, leaves the
/// order untouched.  Only `ord[lo..hi]` is touched and the multiset of its
/// entries is preserved.
pub fn swap_pass(
    docs: &Vec<Document>,
    ord: &mut Vec<usize>,
    lo: usize,
    mid: usize,
    hi: usize,
    n: usize,
) -> (improved: bool)
    requires
        lo <= mid <= hi <= old(ord)@.len(),
        old(ord)@.len() <= n,
        n <= 0x1_0000_0000,
        docs_wf(docs@, n as int),
        forall|k: int| lo <= k < hi ==> #[trigger] old(ord)@[k] < docs@.len(),
    ensures
        final(ord)@.len() == old(ord)@.len(),
        forall|k: int|
            0 <= k < old(ord)@.len() && !(lo <= k < hi) ==> #[trigger] final(ord)@[k] == old(
                ord,
            )@[k],
        final(ord)@.subrange(lo as int, hi as int).to_multiset() == old(ord)@.subrange(
            lo as int,
            hi as int,
        ).to_multiset(),
        forall|k: int| lo <= k < hi ==> #[trigger] final(ord)@[k] < docs@.len(),
        improved == improving_exchange_exists(
            docs@,
            old(ord)@,
            lo as int,
            mid as int,
            hi as int,
            n as int,
        ),
        split_cost(
            docs@,
            final(ord)@.subrange(lo as int, mid as int),
            final(ord)@.subrange(mid as int, hi as int),
            n as int,
        ) <= split_cost(
            docs@,
            old(ord)@.subrange(lo as int, mid as int),
            old(ord)@.subrange(mid as int, hi as int),
            n as int,
        ),
        improved ==> split_cost(
            docs@,
            final(ord)@.subrange(lo as int, mid as int),
            final(ord)@.subrange(mid as int, hi as int),
            n as int,
        ) < split_cost(
            docs@,
            old(ord)@.subrange(lo as int, mid as int),
            old(ord)@.subrange(mid as int, hi as int),
            n as int,
        ),
        !improved ==> final(ord)@ == old(ord)@,
{
    if mid - lo == 0 || hi - mid == 0 {
        // an empty side leaves nothing to exchange: the optimizer is a
        // no-op
        proof {
            if improving_exchange_exists(docs@, ord@, lo as int, mid as int, hi as int, n as int) {
                let (k, m) = choose|k: int, m: int|
                    lo <= k < mid && mid <= m < hi && #[trigger] exchange_gain(
                        docs@,
                        ord@,
                        lo as int,
                        mid as int,
                        hi as int,
                        k,
                        m,
                        n as int,
                    ) > 0;
            }
        }
        return false;
    }
    let ca = count_side(docs, ord, lo, mid, n);
    let cb = count_side(docs, ord, mid, hi, n);
    let (best_a, best_b, gain) = best_pair(docs, ord, &ca, &cb, lo, mid, hi, n);
    if gain <= 0 {
        // the best exchange gains nothing: none does, and a tie is never
        // swapped
        proof {
            if improving_exchange_exists(docs@, ord@, lo as int, mid as int, hi as int, n as int) {
                let (k, m) = choose|k: int, m: int|
                    lo <= k < mid && mid <= m < hi && #[trigger] exchange_gain(
                        docs@,
                        ord@,
                        lo as int,
                        mid as int,
                        hi as int,
                        k,
                        m,
                        n as int,
                    ) > 0;
                assert(exchange_gain(
                    docs@,
                    ord@,
                    lo as int,
                    mid as int,
                    hi as int,
                    k,
                    m,
                    n as int,
                ) <= gain);
            }
        }
        return false;
    }
    proof {
        assert(improving_exchange_exists(
            docs@,
            ord@,
            lo as int,
            mid as int,
            hi as int,
            n as int,
        )) by {
            assert(exchange_gain(
                docs@,
                ord@,
                lo as int,
                mid as int,
                hi as int,
                best_a as int,
                best_b as int,
                n as int,
            ) > 0);
        }
    }
    swap_ord(ord, best_a, best_b);
    proof {
        let before = old(ord)@;
        let a_side = before.subrange(lo as int, mid as int);
        let b_side = before.subrange(mid as int, hi as int);
        // the swap realizes exactly the best exchange, so the new split
        // costs exactly the old cost minus the gain
        assert(ord@.subrange(lo as int, mid as int) =~= a_side.update(
            best_a - lo,
            before[best_b as int],
        ));
        assert(ord@.subrange(mid as int, hi as int) =~= b_side.update(
            best_b - mid,
            before[best_a as int],
        ));
        let s = before.subrange(lo as int, hi as int);
        let cur = ord@.subrange(lo as int, hi as int);
        assert(cur =~= s.update(best_a - lo, s[best_b - lo]).update(best_b - lo, s[best_a - lo]));
        lemma_swap_multiset(s, best_a - lo, best_b - lo);
    }
    assert forall|k: int| lo <= k < hi implies #[trigger] ord@[k] < docs@.len() by {}
    true
}

/// The Gain-Based Swap Optimizer: runs up to `iterations` swap passes over
/// the split of `ord[lo..hi]` at `mid`, stopping early after a pass without
/// an improving exchange.
///
/// The estimated coding cost of the split never increases, and it strictly
/// decreases whenever at least one pass is allowed and some single
/// exchange would strictly lower the seed split's cost.  Only
/// `ord[lo..hi]` is touched and the multiset of its entries is preserved.
pub fn swap_optimizer(
    docs: &Vec<Document>,
    ord: &mut Vec<usize>,
    lo: usize,
    mid: usize,
    hi: usize,
    n: usize,
    iterations: usize,
)
    requires
        lo <= mid <= hi <= old(ord)@.len(),
        old(ord)@.len() <= n,
        n <= 0x1_0000_0000,
        docs_wf(docs@, n as int),
        forall|k: int| lo <= k < hi ==> #[trigger] old(ord)@[k] < docs@.len(),
    ensures
        final(ord)@.len() == old(ord)@.len(),
        forall|k: int|
            0 <= k < old(ord)@.len() && !(lo <= k < hi) ==> #[trigger] final(ord)@[k] == old(
                ord,
            )@[k],
        final(ord)@.subrange(lo as int, hi as int).to_multiset() == old(ord)@.subrange(
            lo as int,
            hi as int,
        ).to_multiset(),
        forall|k: int| lo <= k < hi ==> #[trigger] final(ord)@[k] < docs@.len(),
        split_cost(
            docs@,
            final(ord)@.subrange(lo as int, mid as int),
            final(ord)@.subrange(mid as int, hi as int),
            n as int,
        ) <= split_cost(
            docs@,
            old(ord)@.subrange(lo as int, mid as int),
            old(ord)@.subrange(mid as int, hi as int),
            n as int,
        ),
        iterations >= 1 && improving_exchange_exists(
            docs@,
            old(ord)@,
            lo as int,
            mid as int,
            hi as int,
            n as int,
        ) ==> split_cost(
            docs@,
            final(ord)@.subrange(lo as int, mid as int),
            final(ord)@.subrange(mid as int, hi as int),
            n as int,
        ) < split_cost(
            docs@,
            old(ord)@.subrange(lo as int, mid as int),
            old(ord)@.subrange(mid as int, hi as int),
            n as int,
        ),
{
    let ghost ord0 = ord@;
    let mut it: usize = 0;
    let mut done = false;
    while it < iterations && !done
        invariant
            lo <= mid <= hi <= ord0.len(),
            ord0.len() <= n,
            n <= 0x1_0000_0000,
            docs_wf(docs@, n as int),
            ord@.len() == ord0.len(),
            forall|k: int|
                0 <= k < ord0.len() && !(lo <= k < hi) ==> #[trigger] ord@[k] == ord0[k],
            ord@.subrange(lo as int, hi as int).to_multiset() == ord0.subrange(
                lo as int,
                hi as int,
            ).to_multiset(),
            forall|k: int| lo <= k < hi ==> #[trigger] ord@[k] < docs@.len(),
            split_cost(
                docs@,
                ord@.subrange(lo as int, mid as int),
                ord@.subrange(mid as int, hi as int),
                n as int,
            ) <= split_cost(
                docs@,
                ord0.subrange(lo as int, mid as int),
                ord0.subrange(mid as int, hi as int),
                n as int,
            ),
            it == 0 ==> ord@ == ord0,
            done ==> it >= 1,
            it >= 1 && improving_exchange_exists(
                docs@,
                ord0,
                lo as int,
                mid as int,
                hi as int,
                n as int,
            ) ==> split_cost(
                docs@,
                ord@.subrange(lo as int, mid as int),
                ord@.subrange(mid as int, hi as int),
                n as int,
            ) < split_cost(
                docs@,
                ord0.subrange(lo as int, mid as int),
                ord0.subrange(mid as int, hi as int),
                n as int,
            ),
        decreases iterations - it,
    {
        let improved = swap_pass(docs, ord, lo, mid, hi, n);
        if !improved {
            done = true;
        }
        it = it + 1;
    }
}

} // verus!
