//! Estimated coding cost of a two-partition split.
//!
//! For each neighbor id, its occurrences on one side of the split are
//! estimated to take `f * (bits(sz) + 1 - bits(f))` bits, where `f` is the
//! number of documents on that side naming the neighbor and `sz` the side's
//! size: an integer stand-in for the standard `f * (log2(sz / f) + 1)`
//! gap-coding estimate, cheapest when a neighbor's occurrences cluster
//! entirely on one side.  The cost of a split is the sum of both sides'
//! estimates over the whole neighbor universe.

use crate::doc::{docs_wf, Document};
use vstd::arithmetic::mul::lemma_mul_upper_bound;
use vstd::arithmetic::power2::{lemma2_to64, pow2};
use vstd::prelude::*;

verus! {

/// The number of binary digits of `x`: 0 for 0, otherwise
/// `floor(log2(x)) + 1`.
pub open spec fn bits(x: nat) -> nat
    decreases x,
{
    if x == 0 {
        0
    } else {
        1 + bits(x / 2)
    }
}

/// Estimated bits to code `f` occurrences of one neighbor on a side of
/// `sz` documents: roughly one length marker plus a gap of `log2(sz / f)`
/// bits per occurrence.  The final branch only keeps the value total; it is
/// never reached when `f <= sz`.
pub open spec fn cost_term(f: nat, sz: nat) -> nat {
    if f == 0 {
        0
    } else if bits(f) <= bits(sz) {
        f * ((bits(sz) + 1 - bits(f)) as nat)
    } else {
        f
    }
}

/// How many documents of the side `side` (a sequence of indices into
/// `docs`) name `t` as a neighbor.
pub open spec fn count_occ(docs: Seq<Document>, side: Seq<usize>, t: int) -> nat
    decreases side.len(),
{
    if side.len() == 0 {
        0
    } else {
        count_occ(docs, side.drop_last(), t) + if docs[side.last() as int].has_neighbor(t) {
            1nat
        } else {
            0nat
        }
    }
}

/// The side's estimated coding cost summed over neighbor ids below `t`.
pub open spec fn side_cost_upto(docs: Seq<Document>, side: Seq<usize>, t: int) -> nat
    decreases t,
{
    if t <= 0 {
        0
    } else {
        side_cost_upto(docs, side, t - 1) + cost_term(count_occ(docs, side, t - 1), side.len())
    }
}

/// The estimated coding cost of one side over a universe of `n` neighbor
/// ids.
pub open spec fn side_cost(docs: Seq<Document>, side: Seq<usize>, n: int) -> nat {
    side_cost_upto(docs, side, n)
}

/// The estimated coding cost of the split of `docs` into the two sides `a`
/// and `b`, over a universe of `n` neighbor ids.
pub open spec fn split_cost(docs: Seq<Document>, a: Seq<usize>, b: Seq<usize>, n: int) -> nat {
    side_cost(docs, a, n) + side_cost(docs, b, n)
}

/// `bits` is bounded by the exponent of any power of two above its
/// argument.
pub proof fn lemma_bits_bound(x: nat, k: nat)
    requires
        x < pow2(k),
    ensures
        bits(x) <= k,
    decreases x,
{
    if x > 0 {
        if k == 0 {
            assert(pow2(0) == 1) by {
                lemma2_to64();
            }
        } else {
            assert(pow2(k) == 2 * pow2((k - 1) as nat)) by {
                vstd::arithmetic::power2::lemma_pow2_unfold(k);
            }
            lemma_bits_bound(x / 2, (k - 1) as nat);
        }
    }
}

/// What one document contributes to a side's count of neighbor `t`.
pub open spec fn neighbor_contrib(docs: Seq<Document>, v: usize, t: int) -> nat {
    if docs[v as int].has_neighbor(t) {
        1nat
    } else {
        0nat
    }
}

/// Taking one document out of a side takes its contribution out of the
/// count.
pub proof fn lemma_count_occ_remove(docs: Seq<Document>, s: Seq<usize>, i: int, t: int)
    requires
        0 <= i < s.len(),
    ensures
        count_occ(docs, s, t) == count_occ(docs, s.remove(i), t) + neighbor_contrib(docs, s[i], t),
    decreases s.len(),
{
    if i == s.len() - 1 {
        assert(s.remove(i) =~= s.drop_last());
    } else {
        lemma_count_occ_remove(docs, s.drop_last(), i, t);
        assert(s.remove(i).drop_last() =~= s.drop_last().remove(i));
        assert(s.remove(i).last() == s.last());
    }
}

/// Replacing the document at one position of a side trades its
/// contribution for the new document's.
pub proof fn lemma_count_occ_update(docs: Seq<Document>, s: Seq<usize>, i: int, v: usize, t: int)
    requires
        0 <= i < s.len(),
    ensures
        count_occ(docs, s.update(i, v), t) + neighbor_contrib(docs, s[i], t) == count_occ(
            docs,
            s,
            t,
        ) + neighbor_contrib(docs, v, t),
{
    lemma_count_occ_remove(docs, s, i, t);
    lemma_count_occ_remove(docs, s.update(i, v), i, t);
    assert(s.update(i, v).remove(i) =~= s.remove(i));
    assert(s.update(i, v)[i] == v);
}

/// Sides with the same multiset of documents count every neighbor alike.
pub proof fn lemma_count_occ_multiset(docs: Seq<Document>, s1: Seq<usize>, s2: Seq<usize>, t: int)
    requires
        s1.to_multiset() == s2.to_multiset(),
    ensures
        count_occ(docs, s1, t) == count_occ(docs, s2, t),
    decreases s1.len(),
{
    broadcast use vstd::seq_lib::group_to_multiset_ensures;
    broadcast use vstd::multiset::group_multiset_axioms;

    if s1.len() == 0 {
        vstd::seq_lib::to_multiset_len(s1);
        vstd::seq_lib::to_multiset_len(s2);
    } else {
        let x = s1.last();
        let s1p = s1.drop_last();
        assert(s1p.push(x) =~= s1);
        assert(s1p.push(x).to_multiset() == s1p.to_multiset().insert(x));
        assert(s1.contains(x));
        assert(s2.to_multiset().count(x) > 0);
        assert(s2.contains(x));
        let i = choose|i: int| 0 <= i < s2.len() && s2[i] == x;
        let s2p = s2.remove(i);
        assert(s2.remove(i).to_multiset() == s2.to_multiset().remove(s2[i]));
        assert(s1p.to_multiset() =~= s1.to_multiset().remove(x));
        lemma_count_occ_multiset(docs, s1p, s2p, t);
        lemma_count_occ_remove(docs, s2, i, t);
    }
}

/// Sides with the same multiset of documents have the same estimated cost:
/// the cost depends on a side only through its per-neighbor counts and its
/// size.
pub proof fn lemma_side_cost_upto_multiset(
    docs: Seq<Document>,
    s1: Seq<usize>,
    s2: Seq<usize>,
    t: int,
)
    requires
        s1.to_multiset() == s2.to_multiset(),
    ensures
        side_cost_upto(docs, s1, t) == side_cost_upto(docs, s2, t),
    decreases t,
{
    vstd::seq_lib::to_multiset_len(s1);
    vstd::seq_lib::to_multiset_len(s2);
    if t > 0 {
        lemma_side_cost_upto_multiset(docs, s1, s2, t - 1);
        lemma_count_occ_multiset(docs, s1, s2, t - 1);
    }
}

/// Over a span of neighbor ids where two sides of equal size count alike,
/// their costs grow alike.
pub proof fn lemma_side_cost_upto_stable(
    docs: Seq<Document>,
    s1: Seq<usize>,
    s2: Seq<usize>,
    t1: int,
    t2: int,
)
    requires
        0 <= t1 <= t2,
        s1.len() == s2.len(),
        forall|u: int| t1 <= u < t2 ==> count_occ(docs, s1, u) == count_occ(docs, s2, u),
    ensures
        side_cost_upto(docs, s1, t2) - side_cost_upto(docs, s1, t1) == side_cost_upto(docs, s2, t2)
            - side_cost_upto(docs, s2, t1),
    decreases t2 - t1,
{
    if t2 > t1 {
        lemma_side_cost_upto_stable(docs, s1, s2, t1, t2 - 1);
        assert(count_occ(docs, s1, t2 - 1) == count_occ(docs, s2, t2 - 1));
    }
}

/// A document of the side naming `t` makes the side's count positive.
pub proof fn lemma_count_occ_pos(docs: Seq<Document>, side: Seq<usize>, p: int, t: int)
    requires
        0 <= p < side.len(),
        docs[side[p] as int].has_neighbor(t),
    ensures
        count_occ(docs, side, t) >= 1,
    decreases side.len(),
{
    if p < side.len() - 1 {
        assert(side.drop_last()[p] == side[p]);
        lemma_count_occ_pos(docs, side.drop_last(), p, t);
    }
}

/// Whether the document names `t` among its first `j` postings.
pub open spec fn has_prefix_neighbor(d: Document, j: int, t: int) -> bool {
    exists|i: int| 0 <= i < j && i < d.postings@.len() && (#[trigger] d.postings@[i]).0 == t
}

/// The number of binary digits of `x`, 0 for 0.
pub fn bits_exec(x: u64) -> (b: u64)
    ensures
        b == bits(x as nat),
        b <= 64,
{
    proof {
        lemma2_to64();
        vstd::arithmetic::power2::lemma2_to64_rest();
        lemma_bits_bound(x as nat, 64);
    }
    let mut v: u64 = x;
    let mut b: u64 = 0;
    while v > 0
        invariant
            b + bits(v as nat) == bits(x as nat),
            bits(x as nat) <= 64,
        decreases v,
    {
        v = v / 2;
        b = b + 1;
    }
    b
}

/// The estimated coding cost of `f` occurrences of one neighbor on a side
/// of `sz` documents.
pub fn cost_term_exec(f: u64, sz: u64) -> (r: u64)
    requires
        f <= 0x2_0000_0000,
        sz <= 0x2_0000_0000,
    ensures
        r == cost_term(f as nat, sz as nat),
        r < 0x4000_0000_0000,
{
    proof {
        lemma2_to64();
        vstd::arithmetic::power2::lemma2_to64_rest();
        assert(pow2(34) == 0x4_0000_0000);
        lemma_bits_bound(f as nat, 34);
        lemma_bits_bound(sz as nat, 34);
    }
    if f == 0 {
        0
    } else {
        let bf = bits_exec(f);
        let bs = bits_exec(sz);
        if bf <= bs {
            proof {
                assert(bf >= 1);
                lemma_mul_upper_bound(f as int, 0x2_0000_0000, (bs + 1 - bf) as int, 35);
            }
            f * (bs + 1 - bf)
        } else {
            f
        }
    }
}

/// Counts, for every neighbor id below `n`, how many documents of the side
/// `ord[lo..hi]` name it.
pub fn count_side(docs: &Vec<Document>, ord: &Vec<usize>, lo: usize, hi: usize, n: usize) -> (c:
    Vec<u64>)
    requires
        lo <= hi <= ord@.len(),
        ord@.len() <= n,
        n <= 0x1_0000_0000,
        docs_wf(docs@, n as int),
        forall|k: int| lo <= k < hi ==> #[trigger] ord@[k] < docs@.len(),
    ensures
        c@.len() == n,
        forall|t: int|
            0 <= t < n ==> (#[trigger] c@[t]) as nat == count_occ(
                docs@,
                ord@.subrange(lo as int, hi as int),
                t,
            ),
        forall|t: int| 0 <= t < n ==> #[trigger] c@[t] <= hi - lo,
{
    let mut c: Vec<u64> = vec![0u64; n];
    assert forall|t: int| 0 <= t < n implies (#[trigger] c@[t]) as nat == count_occ(
        docs@,
        ord@.subrange(lo as int, lo as int),
        t,
    ) by {
        assert(ord@.subrange(lo as int, lo as int) =~= Seq::<usize>::empty());
    }
    let mut k: usize = lo;
    while k < hi
        invariant
            lo <= k <= hi <= ord@.len(),
            ord@.len() <= n,
            n <= 0x1_0000_0000,
            docs_wf(docs@, n as int),
            forall|k2: int| lo <= k2 < hi ==> #[trigger] ord@[k2] < docs@.len(),
            c@.len() == n,
            forall|t: int|
                0 <= t < n ==> (#[trigger] c@[t]) as nat == count_occ(
                    docs@,
                    ord@.subrange(lo as int, k as int),
                    t,
                ),
            forall|t: int| 0 <= t < n ==> #[trigger] c@[t] <= k - lo,
        decreases hi - k,
    {
        let d_idx = ord[k];
        let ghost c0 = c@;
        let ghost dd = docs@[d_idx as int];
        let plen = docs[d_idx].postings.len();
        let mut j: usize = 0;
        while j < plen
            invariant
                0 <= j <= plen == dd.postings@.len(),
                d_idx < docs@.len(),
                dd == docs@[d_idx as int],
                dd.wf(n as int),
                n <= 0x1_0000_0000,
                c@.len() == n == c0.len(),
                lo <= k < hi,
                forall|t: int|
                    0 <= t < n ==> (#[trigger] c@[t]) as nat == c0[t] as nat + (
                    if has_prefix_neighbor(dd, j as int, t) {
                        1nat
                    } else {
                        0nat
                    }),
                forall|t: int| 0 <= t < n ==> #[trigger] c0[t] <= k - lo,
            decreases plen - j,
        {
            let t0 = docs[d_idx].postings[j].0;
            assert(dd.postings@[j as int].0 == t0);
            assert(t0 < n);
            assert(!has_prefix_neighbor(dd, j as int, t0 as int)) by {
                assert forall|i: int| 0 <= i < j implies (#[trigger] dd.postings@[i]).0 != t0 by {
                    assert(dd.postings@[i].0 < dd.postings@[j as int].0);
                }
            }
            let cur = c[t0];
            c.set(t0, cur + 1);
            assert forall|t: int| 0 <= t < n implies (#[trigger] c@[t]) as nat == c0[t] as nat + (
            if has_prefix_neighbor(dd, j + 1, t) {
                1nat
            } else {
                0nat
            }) by {
                if t == t0 {
                    assert(has_prefix_neighbor(dd, j + 1, t0 as int));
                } else {
                    if has_prefix_neighbor(dd, j + 1, t) {
                        let i = choose|i: int|
                            0 <= i < j + 1 && i < dd.postings@.len() && (
                            #[trigger] dd.postings@[i]).0 == t;
                        assert(i != j);
                        assert(has_prefix_neighbor(dd, j as int, t));
                    }
                }
            }
            j = j + 1;
        }
        assert forall|t: int| 0 <= t < n implies (#[trigger] c@[t]) as nat == count_occ(
            docs@,
            ord@.subrange(lo as int, (k + 1) as int),
            t,
        ) by {
            assert(ord@.subrange(lo as int, (k + 1) as int).drop_last() =~= ord@.subrange(
                lo as int,
                k as int,
            ));
            assert(ord@.subrange(lo as int, (k + 1) as int).last() == ord@[k as int]);
            assert(has_prefix_neighbor(dd, plen as int, t) == dd.has_neighbor(t));
        }
        k = k + 1;
    }
    c
}

/// The estimated coding cost of the split of `ord[lo..hi]` at `mid`, over a
/// universe of `n` neighbor ids: the value of `split_cost` on the two
/// sides.
pub fn split_cost_exec(
    docs: &Vec<Document>,
    ord: &Vec<usize>,
    lo: usize,
    mid: usize,
    hi: usize,
    n: usize,
) -> (r: u128)
    requires
        lo <= mid <= hi <= ord@.len(),
        ord@.len() <= n,
        n <= 0x1_0000_0000,
        docs_wf(docs@, n as int),
        forall|k: int| lo <= k < hi ==> #[trigger] ord@[k] < docs@.len(),
    ensures
        r == split_cost(
            docs@,
            ord@.subrange(lo as int, mid as int),
            ord@.subrange(mid as int, hi as int),
            n as int,
        ),
{
    let ca = count_side(docs, ord, lo, mid, n);
    let cb = count_side(docs, ord, mid, hi, n);
    let sza: u64 = (mid - lo) as u64;
    let szb: u64 = (hi - mid) as u64;
    let ghost suba = ord@.subrange(lo as int, mid as int);
    let ghost subb = ord@.subrange(mid as int, hi as int);
    assert(suba.len() == mid - lo);
    assert(subb.len() == hi - mid);
    let mut acc: u128 = 0;
    let mut t: usize = 0;
    while t < n
        invariant
            0 <= t <= n <= 0x1_0000_0000,
            ca@.len() == n,
            cb@.len() == n,
            sza == suba.len(),
            szb == subb.len(),
            sza <= 0x1_0000_0000,
            szb <= 0x1_0000_0000,
            forall|u: int|
                0 <= u < n ==> (#[trigger] ca@[u]) as nat == count_occ(docs@, suba, u) && ca@[u]
                    <= sza,
            forall|u: int|
                0 <= u < n ==> (#[trigger] cb@[u]) as nat == count_occ(docs@, subb, u) && cb@[u]
                    <= szb,
            acc == side_cost_upto(docs@, suba, t as int) + side_cost_upto(docs@, subb, t as int),
            acc <= (t as int) * 0x8000_0000_0000,
        decreases n - t,
    {
        let ta = cost_term_exec(ca[t], sza);
        let tb = cost_term_exec(cb[t], szb);
        acc = acc + ta as u128 + tb as u128;
        t = t + 1;
    }
    acc
}

} // verus!
