//! Recursive Bisector: splits a document range into two (near-)equal
//! halves, improves the split with the swap optimizer, and recurses into
//! each half until a leaf-size or depth bound is reached, optionally
//! stabilizing each leaf by sorting it by original id.

use crate::cost::{lemma_side_cost_upto_multiset, split_cost};
use crate::doc::{docs_wf, Document};
use crate::optimizer::{improving_exchange_exists, lemma_swap_multiset, swap_optimizer, swap_ord};
use crate::planner::{leaf_sizes, seq_sum};
use vstd::prelude::*;

verus! {

/// The original id of the document that position `k` of the order names.
pub open spec fn org_at(docs: Seq<Document>, ord: Seq<usize>, k: int) -> int {
    docs[ord[k] as int].original_id as int
}

/// The documents named by `ord[lo..hi]` appear in ascending order of
/// original id.
pub open spec fn sorted_by_org(docs: Seq<Document>, ord: Seq<usize>, lo: int, hi: int) -> bool {
    forall|a: int, b: int|
        lo <= a < b < hi ==> #[trigger] org_at(docs, ord, a) <= #[trigger] org_at(docs, ord, b)
}

/// Starting at position `lo`, the order is divided into consecutive leaves
/// of the given sizes and each leaf is sorted by original id.
pub open spec fn leaves_sorted(
    docs: Seq<Document>,
    ord: Seq<usize>,
    lo: int,
    sizes: Seq<int>,
) -> bool
    decreases sizes.len(),
{
    if sizes.len() == 0 {
        true
    } else {
        sorted_by_org(docs, ord, lo, lo + sizes[0]) && leaves_sorted(
            docs,
            ord,
            lo + sizes[0],
            sizes.drop_first(),
        )
    }
}

/// Positions `p` and `q`, counted from the start of a run of leaves of the
/// given sizes, fall into the same leaf.
pub open spec fn in_same_leaf(sizes: Seq<int>, p: int, q: int) -> bool
    decreases sizes.len(),
{
    if sizes.len() == 0 {
        false
    } else if p < sizes[0] || q < sizes[0] {
        0 <= p < sizes[0] && 0 <= q < sizes[0]
    } else {
        in_same_leaf(sizes.drop_first(), p - sizes[0], q - sizes[0])
    }
}

/// Sharing a leaf does not depend on the order of the two positions.
pub proof fn lemma_in_same_leaf_sym(sizes: Seq<int>, p: int, q: int)
    ensures
        in_same_leaf(sizes, p, q) == in_same_leaf(sizes, q, p),
    decreases sizes.len(),
{
    if sizes.len() > 0 && !(p < sizes[0] || q < sizes[0]) {
        lemma_in_same_leaf_sym(sizes.drop_first(), p - sizes[0], q - sizes[0]);
    }
}

/// Within one leaf of a run of sorted leaves, positions order their
/// documents' original ids.
pub proof fn lemma_leaves_sorted_same_leaf(
    docs: Seq<Document>,
    ord: Seq<usize>,
    lo: int,
    sizes: Seq<int>,
    p: int,
    q: int,
)
    requires
        leaves_sorted(docs, ord, lo, sizes),
        forall|x: int| 0 <= x < sizes.len() ==> sizes[x] >= 0,
        in_same_leaf(sizes, p - lo, q - lo),
        p < q,
    ensures
        org_at(docs, ord, p) <= org_at(docs, ord, q),
    decreases sizes.len(),
{
    if sizes.len() > 0 {
        if p - lo < sizes[0] || q - lo < sizes[0] {
            assert(sorted_by_org(docs, ord, lo, lo + sizes[0]));
        } else {
            assert(p - (lo + sizes[0]) == p - lo - sizes[0]);
            lemma_leaves_sorted_same_leaf(docs, ord, lo + sizes[0], sizes.drop_first(), p, q);
        }
    }
}

/// Dropping the first element subtracts it from the sum.
pub proof fn lemma_seq_sum_drop_first(s: Seq<int>)
    requires
        s.len() > 0,
    ensures
        seq_sum(s) == s[0] + seq_sum(s.drop_first()),
    decreases s.len(),
{
    if s.len() == 1 {
        assert(s.drop_last() =~= Seq::<int>::empty());
        assert(s.drop_first() =~= Seq::<int>::empty());
    } else {
        lemma_seq_sum_drop_first(s.drop_last());
        assert(s.drop_last().drop_first() =~= s.drop_first().drop_last());
        assert(s.drop_first().last() == s.last());
        assert(s.drop_last()[0] == s[0]);
    }
}

/// A sum of nonnegative elements is nonnegative.
pub proof fn lemma_seq_sum_nonneg(s: Seq<int>)
    requires
        forall|i: int| 0 <= i < s.len() ==> s[i] >= 0,
    ensures
        seq_sum(s) >= 0,
    decreases s.len(),
{
    if s.len() > 0 {
        lemma_seq_sum_nonneg(s.drop_last());
    }
}

/// Two runs of sorted leaves laid out one after the other form one run.
proof fn lemma_leaves_sorted_concat(
    docs: Seq<Document>,
    ord: Seq<usize>,
    lo: int,
    s1: Seq<int>,
    s2: Seq<int>,
)
    requires
        leaves_sorted(docs, ord, lo, s1),
        leaves_sorted(docs, ord, lo + seq_sum(s1), s2),
    ensures
        leaves_sorted(docs, ord, lo, s1 + s2),
    decreases s1.len(),
{
    if s1.len() == 0 {
        assert(s1 + s2 =~= s2);
        assert(seq_sum(s1) == 0);
    } else {
        lemma_seq_sum_drop_first(s1);
        lemma_leaves_sorted_concat(docs, ord, lo + s1[0], s1.drop_first(), s2);
        assert((s1 + s2).drop_first() =~= s1.drop_first() + s2);
        assert((s1 + s2)[0] == s1[0]);
    }
}

/// Sorted leaves only depend on the positions they cover: an order that
/// agrees there keeps them.
proof fn lemma_leaves_sorted_frame(
    docs: Seq<Document>,
    ord1: Seq<usize>,
    ord2: Seq<usize>,
    lo: int,
    sizes: Seq<int>,
)
    requires
        leaves_sorted(docs, ord1, lo, sizes),
        forall|i: int| 0 <= i < sizes.len() ==> sizes[i] >= 0,
        forall|k: int| lo <= k < lo + seq_sum(sizes) ==> ord1[k] == ord2[k],
    ensures
        leaves_sorted(docs, ord2, lo, sizes),
    decreases sizes.len(),
{
    if sizes.len() > 0 {
        lemma_seq_sum_drop_first(sizes);
        lemma_seq_sum_nonneg(sizes.drop_first());
        assert forall|a: int, b: int| lo <= a < b < lo + sizes[0] implies #[trigger] org_at(
            docs,
            ord2,
            a,
        ) <= #[trigger] org_at(docs, ord2, b) by {
            assert(org_at(docs, ord1, a) <= org_at(docs, ord1, b));
            assert(ord1[a] == ord2[a]);
            assert(ord1[b] == ord2[b]);
        }
        lemma_leaves_sorted_frame(docs, ord1, ord2, lo + sizes[0], sizes.drop_first());
    }
}

/// Stable in-place insertion sort of `ord[lo..hi]` by ascending original
/// id of the named documents.  Touches only `ord[lo..hi]` and preserves
/// the multiset of its entries.
pub fn sort_range_by_org(docs: &Vec<Document>, ord: &mut Vec<usize>, lo: usize, hi: usize)
    requires
        lo <= hi <= old(ord)@.len(),
        forall|k: int| lo <= k < hi ==> #[trigger] old(ord)@[k] < docs@.len(),
    ensures
        final(ord)@.len() == old(ord)@.len(),
        forall|k: int|
            0 <= k < old(ord)@.len() && !(lo <= k < hi) ==> #[trigger] final(ord)@[k] == old(
                ord,
            )@[k],
        final(ord)@.subrange(lo as int, hi as int).to_multiset() == old(ord)@.subrange(
            lo as int,
            hi as int,
        ).to_multiset(),
        forall|k: int| lo <= k < hi ==> #[trigger] final(ord)@[k] < docs@.len(),
        sorted_by_org(docs@, final(ord)@, lo as int, hi as int),
{
    let ghost ord0 = ord@;
    if hi - lo < 2 {
        return ;
    }
    let mut i: usize = lo + 1;
    while i < hi
        invariant
            lo < i <= hi <= ord@.len(),
            ord@.len() == ord0.len(),
            forall|k: int| 0 <= k < ord0.len() && !(lo <= k < hi) ==> #[trigger] ord@[k] == ord0[k],
            ord@.subrange(lo as int, hi as int).to_multiset() == ord0.subrange(
                lo as int,
                hi as int,
            ).to_multiset(),
            forall|k: int| lo <= k < hi ==> #[trigger] ord@[k] < docs@.len(),
            sorted_by_org(docs@, ord@, lo as int, i as int),
        decreases hi - i,
    {
        let mut j: usize = i;
        while j > lo && docs[ord[j - 1]].original_id > docs[ord[j]].original_id
            invariant
                lo <= j <= i < hi <= ord@.len(),
                ord@.len() == ord0.len(),
                forall|k: int|
                    0 <= k < ord0.len() && !(lo <= k < hi) ==> #[trigger] ord@[k] == ord0[k],
                ord@.subrange(lo as int, hi as int).to_multiset() == ord0.subrange(
                    lo as int,
                    hi as int,
                ).to_multiset(),
                forall|k: int| lo <= k < hi ==> #[trigger] ord@[k] < docs@.len(),
                forall|a: int, b: int|
                    lo <= a < b <= i && b != j ==> #[trigger] org_at(docs@, ord@, a)
                        <= #[trigger] org_at(docs@, ord@, b),
            decreases j,
        {
            let ghost prev = ord@;
            swap_ord(ord, j - 1, j);
            proof {
                let ps = prev.subrange(lo as int, hi as int);
                let cs = ord@.subrange(lo as int, hi as int);
                assert(cs =~= ps.update(j - 1 - lo, ps[j - lo]).update(j - lo, ps[j - 1 - lo]));
                lemma_swap_multiset(ps, j - 1 - lo, j - lo);
                assert(org_at(docs@, ord@, j - 1) == org_at(docs@, prev, j as int));
                assert(org_at(docs@, ord@, j as int) == org_at(docs@, prev, j - 1));
                assert forall|a: int, b: int| lo <= a < b <= i && b != j - 1 implies #[trigger] org_at(
                    docs@,
                    ord@,
                    a,
                ) <= #[trigger] org_at(docs@, ord@, b) by {
                    if b == j {
                        if a < j - 1 {
                            assert(org_at(docs@, prev, a) <= org_at(docs@, prev, j - 1));
                        }
                    } else if b > j {
                        if a == j - 1 {
                            assert(org_at(docs@, prev, j as int) <= org_at(docs@, prev, b));
                        } else if a == j {
                            assert(org_at(docs@, prev, j - 1) <= org_at(docs@, prev, b));
                        } else {
                            assert(org_at(docs@, prev, a) <= org_at(docs@, prev, b));
                        }
                    } else {
                        assert(org_at(docs@, prev, a) <= org_at(docs@, prev, b));
                    }
                }
            }
            j = j - 1;
        }
        assert forall|a: int, b: int| lo <= a < b <= i implies #[trigger] org_at(docs@, ord@, a)
            <= #[trigger] org_at(docs@, ord@, b) by {
            if b == j {
                if j > lo {
                    assert(org_at(docs@, ord@, j - 1) <= org_at(docs@, ord@, j as int));
                    if a < j - 1 {
                        assert(org_at(docs@, ord@, a) <= org_at(docs@, ord@, j - 1));
                    }
                }
            }
        }
        i = i + 1;
    }
}

/// Orders that preserve the multiset of two adjacent ranges preserve the
/// multiset of their union.
proof fn lemma_ms_two_ranges(s1: Seq<usize>, s2: Seq<usize>, lo: int, mid: int, hi: int)
    requires
        0 <= lo <= mid <= hi <= s1.len(),
        s1.len() == s2.len(),
        s1.subrange(lo, mid).to_multiset() == s2.subrange(lo, mid).to_multiset(),
        s1.subrange(mid, hi).to_multiset() == s2.subrange(mid, hi).to_multiset(),
    ensures
        s1.subrange(lo, hi).to_multiset() == s2.subrange(lo, hi).to_multiset(),
{
    assert(s1.subrange(lo, hi) =~= s1.subrange(lo, mid) + s1.subrange(mid, hi));
    assert(s2.subrange(lo, hi) =~= s2.subrange(lo, mid) + s2.subrange(mid, hi));
    vstd::seq_lib::lemma_multiset_commutative(s1.subrange(lo, mid), s1.subrange(mid, hi));
    vstd::seq_lib::lemma_multiset_commutative(s2.subrange(lo, mid), s2.subrange(mid, hi));
}

/// Recursive Graph Bisection over the documents named by `ord[lo..hi]`.
///
/// A range of at most `min_partition_size` documents, or one reached
/// deeper than `max_depth`, is a leaf: it is sorted by ascending original id
/// when `sort_leaf` is set and left as received otherwise.  Any other range
/// splits into contiguous halves of `len / 2` and `len - len / 2`
/// documents, runs the swap optimizer for up to `iterations` passes on the
/// split, and recurses left then right, so the concatenation of the two
/// processed halves becomes the new order of the range.
///
/// Only `ord[lo..hi]` is touched and the multiset of its entries is
/// preserved: no document is duplicated or dropped.  With `sort_leaf` set,
/// the range ends up divided into the leaves that the Partition Size
/// Planner computes for its size, each sorted by original id.
pub fn recursive_graph_bisection(
    docs: &Vec<Document>,
    ord: &mut Vec<usize>,
    lo: usize,
    hi: usize,
    n: usize,
    iterations: usize,
    min_partition_size: usize,
    max_depth: usize,
    depth: usize,
    sort_leaf: bool,
)
    requires
        lo <= hi <= old(ord)@.len(),
        old(ord)@.len() <= n,
        n <= 0x1_0000_0000,
        docs_wf(docs@, n as int),
        forall|k: int| lo <= k < hi ==> #[trigger] old(ord)@[k] < docs@.len(),
        min_partition_size >= 1,
        max_depth < usize::MAX,
    ensures
        final(ord)@.len() == old(ord)@.len(),
        forall|k: int|
            0 <= k < old(ord)@.len() && !(lo <= k < hi) ==> #[trigger] final(ord)@[k] == old(
                ord,
            )@[k],
        final(ord)@.subrange(lo as int, hi as int).to_multiset() == old(ord)@.subrange(
            lo as int,
            hi as int,
        ).to_multiset(),
        forall|k: int| lo <= k < hi ==> #[trigger] final(ord)@[k] < docs@.len(),
        sort_leaf ==> leaves_sorted(
            docs@,
            final(ord)@,
            lo as int,
            leaf_sizes(
                (hi - lo) as int,
                depth as int,
                min_partition_size as int,
                max_depth as int,
            ),
        ),
        // a range that splits comes out at most as expensive at its top
        // split as it went in, and strictly cheaper when the optimizer ran
        // and the seed admitted an improving exchange
        hi - lo > min_partition_size && depth <= max_depth ==> split_cost(
            docs@,
            final(ord)@.subrange(lo as int, lo + (hi - lo) / 2),
            final(ord)@.subrange(lo + (hi - lo) / 2, hi as int),
            n as int,
        ) <= split_cost(
            docs@,
            old(ord)@.subrange(lo as int, lo + (hi - lo) / 2),
            old(ord)@.subrange(lo + (hi - lo) / 2, hi as int),
            n as int,
        ),
        hi - lo > min_partition_size && depth <= max_depth && iterations >= 1
            && improving_exchange_exists(
            docs@,
            old(ord)@,
            lo as int,
            lo + (hi - lo) / 2,
            hi as int,
            n as int,
        ) ==> split_cost(
            docs@,
            final(ord)@.subrange(lo as int, lo + (hi - lo) / 2),
            final(ord)@.subrange(lo + (hi - lo) / 2, hi as int),
            n as int,
        ) < split_cost(
            docs@,
            old(ord)@.subrange(lo as int, lo + (hi - lo) / 2),
            old(ord)@.subrange(lo + (hi - lo) / 2, hi as int),
            n as int,
        ),
    decreases hi - lo,
{
    let len = hi - lo;
    let ghost sizes = leaf_sizes(
        len as int,
        depth as int,
        min_partition_size as int,
        max_depth as int,
    );
    if len <= min_partition_size || depth > max_depth {
        assert(sizes =~= seq![len as int]);
        if sort_leaf {
            sort_range_by_org(docs, ord, lo, hi);
            proof {
                assert(sizes.drop_first() =~= Seq::<int>::empty());
                assert(leaves_sorted(docs@, ord@, lo + sizes[0], sizes.drop_first()));
                assert(sorted_by_org(docs@, ord@, lo as int, hi as int));
                assert(leaves_sorted(docs@, ord@, lo as int, sizes));
            }
        }
        return ;
    }
    let mid = lo + len / 2;
    let ghost left_sizes = leaf_sizes(
        (len / 2) as int,
        (depth + 1) as int,
        min_partition_size as int,
        max_depth as int,
    );
    let ghost right_sizes = leaf_sizes(
        (len - len / 2) as int,
        (depth + 1) as int,
        min_partition_size as int,
        max_depth as int,
    );
    assert(sizes == left_sizes + right_sizes);
    swap_optimizer(docs, ord, lo, mid, hi, n, iterations);
    let ghost ord1 = ord@;
    recursive_graph_bisection(
        docs,
        ord,
        lo,
        mid,
        n,
        iterations,
        min_partition_size,
        max_depth,
        depth + 1,
        sort_leaf,
    );
    let ghost ord2 = ord@;
    proof {
        assert(ord2.subrange(mid as int, hi as int) =~= ord1.subrange(mid as int, hi as int));
        lemma_ms_two_ranges(ord1, ord2, lo as int, mid as int, hi as int);
    }
    recursive_graph_bisection(
        docs,
        ord,
        mid,
        hi,
        n,
        iterations,
        min_partition_size,
        max_depth,
        depth + 1,
        sort_leaf,
    );
    let ghost ord3 = ord@;
    proof {
        assert(ord3.subrange(lo as int, mid as int) =~= ord2.subrange(lo as int, mid as int));
        lemma_ms_two_ranges(ord2, ord3, lo as int, mid as int, hi as int);
        // the recursions permute within each side of the top split, which
        // keeps the split's cost exactly
        lemma_side_cost_upto_multiset(
            docs@,
            ord1.subrange(lo as int, mid as int),
            ord2.subrange(lo as int, mid as int),
            n as int,
        );
        lemma_side_cost_upto_multiset(
            docs@,
            ord2.subrange(mid as int, hi as int),
            ord3.subrange(mid as int, hi as int),
            n as int,
        );
        assert(split_cost(
            docs@,
            ord3.subrange(lo as int, mid as int),
            ord3.subrange(mid as int, hi as int),
            n as int,
        ) == split_cost(
            docs@,
            ord1.subrange(lo as int, mid as int),
            ord1.subrange(mid as int, hi as int),
            n as int,
        ));
        if sort_leaf {
            lemma_leaf_sizes_sum_pos(left_sizes, (len / 2) as int, (depth + 1) as int,
                min_partition_size as int, max_depth as int);
            lemma_leaves_sorted_frame(docs@, ord2, ord3, lo as int, left_sizes);
            lemma_leaves_sorted_concat(docs@, ord3, lo as int, left_sizes, right_sizes);
        }
    }
}

/// Two sequences with the same multiset of values have the same multiset
/// of mapped values.
pub proof fn lemma_map_values_multiset<A, B>(s1: Seq<A>, s2: Seq<A>, f: spec_fn(A) -> B)
    requires
        s1.to_multiset() == s2.to_multiset(),
    ensures
        s1.map_values(f).to_multiset() == s2.map_values(f).to_multiset(),
    decreases s1.len(),
{
    broadcast use vstd::seq_lib::group_to_multiset_ensures;
    broadcast use vstd::multiset::group_multiset_axioms;

    if s1.len() == 0 {
        vstd::seq_lib::to_multiset_len(s1);
        vstd::seq_lib::to_multiset_len(s2);
        assert(s2.len() == 0);
        assert(s1.map_values(f) =~= Seq::<B>::empty());
        assert(s2.map_values(f) =~= Seq::<B>::empty());
    } else {
        let x = s1.last();
        let s1p = s1.drop_last();
        assert(s1p.push(x) =~= s1);
        assert(s1p.push(x).to_multiset() == s1p.to_multiset().insert(x));
        assert(s1.contains(x));
        assert(s2.to_multiset().count(x) > 0);
        assert(s2.contains(x));
        let i = choose|i: int| 0 <= i < s2.len() && s2[i] == x;
        let s2p = s2.remove(i);
        assert(s2.remove(i).to_multiset() == s2.to_multiset().remove(s2[i]));
        assert(s1p.to_multiset() =~= s1.to_multiset().remove(x));
        assert(s1p.to_multiset() == s2p.to_multiset());
        lemma_map_values_multiset(s1p, s2p, f);
        assert(s1p.map_values(f).push(f(x)) =~= s1.map_values(f));
        assert(s1p.map_values(f).push(f(x)).to_multiset() == s1p.map_values(
            f,
        ).to_multiset().insert(f(x)));
        assert(s2p.map_values(f) =~= s2.map_values(f).remove(i));
        assert(s2.map_values(f).remove(i).to_multiset() == s2.map_values(
            f,
        ).to_multiset().remove(s2.map_values(f)[i]));
        assert(s2.map_values(f)[i] == f(x));
        assert(s2.map_values(f).contains(f(x)));
        assert(s2.map_values(f).to_multiset().count(f(x)) > 0);
        assert(s1.map_values(f).to_multiset() =~= s2.map_values(f).to_multiset());
    }
}

/// No-duplication: a reordering of document indices that keeps their
/// multiset — as every run of the bisector and the optimizer does — keeps
/// the multiset of the documents' original ids: each id occurs across the
/// leaves exactly as often as in the input.
pub proof fn lemma_org_id_multiset_preserved(
    docs: Seq<Document>,
    ord1: Seq<usize>,
    ord2: Seq<usize>,
)
    requires
        ord1.to_multiset() == ord2.to_multiset(),
    ensures
        ord1.map_values(|v: usize| docs[v as int].original_id).to_multiset() == ord2.map_values(
            |v: usize| docs[v as int].original_id,
        ).to_multiset(),
{
    lemma_map_values_multiset(ord1, ord2, |v: usize| docs[v as int].original_id);
}

/// The leaf sizes of a nonempty range are positive and sum to its size.
proof fn lemma_leaf_sizes_sum_pos(
    sizes: Seq<int>,
    size: int,
    depth: int,
    min_size: int,
    max_depth: int,
)
    requires
        size >= 1,
        sizes == leaf_sizes(size, depth, min_size, max_depth),
    ensures
        seq_sum(sizes) == size,
        forall|i: int| 0 <= i < sizes.len() ==> sizes[i] >= 1,
{
    crate::planner::lemma_leaf_sizes_sum(size, depth, min_size, max_depth);
    crate::planner::lemma_leaf_sizes_pos(size, depth, min_size, max_depth);
}

} // verus!
