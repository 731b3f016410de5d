//! Partition Size Planner: the ordered sizes of the leaves that recursive
//! halving of `n` elements produces under a `(min_partition_size, max_depth)`
//! policy, and their prefix-sum cluster boundaries.

use vstd::prelude::*;

verus! {

/// The leaf sizes that recursive halving of `size` elements at `depth`
/// produces, left to right.  A range is a leaf iff `size <= min_size` or
/// `depth > max_depth`; otherwise it splits into `size / 2` (floor) and the
/// rest, left branch emitted before the right one.  The root is at depth 1,
/// so up to `max_depth` levels of halving happen: at `max_depth == 1` the
/// root still splits once and its halves are leaves.
///
/// The `size <= 1` guard only serves termination: whenever `min_size >= 1`
/// it is implied by `size <= min_size`.
pub open spec fn leaf_sizes(size: int, depth: int, min_size: int, max_depth: int) -> Seq<int>
    decreases size,
{
    if size <= 1 || size <= min_size || depth > max_depth {
        seq![size]
    } else {
        leaf_sizes(size / 2, depth + 1, min_size, max_depth) + leaf_sizes(
            size - size / 2,
            depth + 1,
            min_size,
            max_depth,
        )
    }
}

/// Sum of a sequence of integers.
pub open spec fn seq_sum(s: Seq<int>) -> int
    decreases s.len(),
{
    if s.len() == 0 {
        0
    } else {
        seq_sum(s.drop_last()) + s.last()
    }
}

/// A sequence of `usize` values as mathematical integers.
pub open spec fn to_ints(s: Seq<usize>) -> Seq<int> {
    s.map_values(|x: usize| x as int)
}

/// The planner's output: the running prefix sums of the leaf sizes of `n`
/// elements, an empty sequence when `n == 0`.
pub open spec fn plan_boundaries(n: int, min_size: int, max_depth: int) -> Seq<int> {
    if n == 0 {
        Seq::empty()
    } else {
        prefix_sums(leaf_sizes(n, 1, min_size, max_depth))
    }
}

/// The running prefix sums of a sequence: element `i` is the sum of the
/// first `i + 1` elements.
pub open spec fn prefix_sums(s: Seq<int>) -> Seq<int> {
    Seq::new(s.len(), |i: int| seq_sum(s.take(i + 1)))
}

/// Sums distribute over concatenation.
pub proof fn lemma_seq_sum_concat(a: Seq<int>, b: Seq<int>)
    ensures
        seq_sum(a + b) == seq_sum(a) + seq_sum(b),
    decreases b.len(),
{
    if b.len() == 0 {
        assert(a + b =~= a);
    } else {
        lemma_seq_sum_concat(a, b.drop_last());
        assert((a + b).drop_last() =~= a + b.drop_last());
        assert((a + b).last() == b.last());
    }
}

/// A prefix of one more element adds that element to the sum.
pub proof fn lemma_seq_sum_take_succ(s: Seq<int>, i: int)
    requires
        0 <= i < s.len(),
    ensures
        seq_sum(s.take(i + 1)) == seq_sum(s.take(i)) + s[i],
{
    assert(s.take(i + 1).drop_last() =~= s.take(i));
    assert(s.take(i + 1).last() == s[i]);
}

/// Size conservation: the leaf sizes of a range sum exactly to its size.
/// In particular every split emits two sides whose sizes add up to the
/// size of the input.
pub proof fn lemma_leaf_sizes_sum(size: int, depth: int, min_size: int, max_depth: int)
    ensures
        seq_sum(leaf_sizes(size, depth, min_size, max_depth)) == size,
    decreases size,
{
    let sizes = leaf_sizes(size, depth, min_size, max_depth);
    if size <= 1 || size <= min_size || depth > max_depth {
        assert(sizes =~= seq![size]);
        assert(sizes.drop_last() =~= Seq::<int>::empty());
        assert(seq_sum(sizes.drop_last()) == 0);
        assert(seq_sum(sizes) == seq_sum(sizes.drop_last()) + sizes.last());
    } else {
        let l = leaf_sizes(size / 2, depth + 1, min_size, max_depth);
        let r = leaf_sizes(size - size / 2, depth + 1, min_size, max_depth);
        lemma_leaf_sizes_sum(size / 2, depth + 1, min_size, max_depth);
        lemma_leaf_sizes_sum(size - size / 2, depth + 1, min_size, max_depth);
        lemma_seq_sum_concat(l, r);
    }
}

/// A nonempty range yields at least one leaf and every leaf size is at
/// least 1; the number of leaves never exceeds the range size.
pub proof fn lemma_leaf_sizes_pos(size: int, depth: int, min_size: int, max_depth: int)
    requires
        size >= 1,
    ensures
        leaf_sizes(size, depth, min_size, max_depth).len() >= 1,
        leaf_sizes(size, depth, min_size, max_depth).len() <= size,
        forall|i: int|
            0 <= i < leaf_sizes(size, depth, min_size, max_depth).len() ==> leaf_sizes(
                size,
                depth,
                min_size,
                max_depth,
            )[i] >= 1,
    decreases size,
{
    if size <= 1 || size <= min_size || depth > max_depth {
    } else {
        lemma_leaf_sizes_pos(size / 2, depth + 1, min_size, max_depth);
        lemma_leaf_sizes_pos(size - size / 2, depth + 1, min_size, max_depth);
    }
}

/// Boundary monotonicity: for `n >= 1` the planner's boundaries are a
/// strictly increasing sequence whose last element equals `n`; `plan(0)` is
/// empty.
pub proof fn lemma_plan_boundaries(n: int, min_size: int, max_depth: int)
    requires
        n >= 0,
    ensures
        n == 0 ==> plan_boundaries(n, min_size, max_depth).len() == 0,
        n >= 1 ==> plan_boundaries(n, min_size, max_depth).len() >= 1,
        forall|i: int, j: int|
            0 <= i < j < plan_boundaries(n, min_size, max_depth).len() ==> plan_boundaries(
                n,
                min_size,
                max_depth,
            )[i] < plan_boundaries(n, min_size, max_depth)[j],
        n >= 1 ==> plan_boundaries(n, min_size, max_depth).last() == n,
{
    if n >= 1 {
        let sizes = leaf_sizes(n, 1, min_size, max_depth);
        let bounds = plan_boundaries(n, min_size, max_depth);
        lemma_leaf_sizes_pos(n, 1, min_size, max_depth);
        lemma_leaf_sizes_sum(n, 1, min_size, max_depth);
        assert forall|i: int, j: int| 0 <= i < j < bounds.len() implies bounds[i] < bounds[j] by {
            lemma_prefix_sums_increasing(sizes, i, j);
        }
        assert(sizes.take(sizes.len() as int) =~= sizes);
        assert(bounds.last() == seq_sum(sizes));
    }
}

/// Helper: prefix sums of a sequence of positive elements grow strictly.
proof fn lemma_prefix_sums_increasing(sizes: Seq<int>, i: int, j: int)
    requires
        0 <= i < j < sizes.len(),
        forall|k: int| 0 <= k < sizes.len() ==> sizes[k] >= 1,
    ensures
        prefix_sums(sizes)[i] < prefix_sums(sizes)[j],
    decreases j - i,
{
    lemma_seq_sum_take_succ(sizes, j);
    if i == j - 1 {
    } else {
        lemma_prefix_sums_increasing(sizes, i, j - 1);
    }
}

/// Emits the leaf sizes of a range of `size` elements at `depth`, appending
/// them to `out` left to right.
fn emit_leaf_sizes(size: usize, depth: usize, min_size: usize, max_depth: usize, out: &mut Vec<
    usize,
>)
    requires
        size >= 1,
        min_size >= 1,
        max_depth < usize::MAX,
    ensures
        to_ints(final(out)@) == to_ints(old(out)@) + leaf_sizes(
            size as int,
            depth as int,
            min_size as int,
            max_depth as int,
        ),
    decreases size,
{
    if size <= min_size || depth > max_depth {
        out.push(size);
        assert(to_ints(out@) =~= to_ints(old(out)@) + seq![size as int]);
    } else {
        let left = size / 2;
        let ghost mid = out@;
        emit_leaf_sizes(left, depth + 1, min_size, max_depth, out);
        let ghost mid2 = out@;
        emit_leaf_sizes(size - left, depth + 1, min_size, max_depth, out);
        assert(to_ints(out@) =~= to_ints(old(out)@) + leaf_sizes(
            size as int,
            depth as int,
            min_size as int,
            max_depth as int,
        ));
    }
}

/// Partition Size Planner: the ordered, cumulative leaf boundaries that a
/// recursive halving of `n` elements produces under the given policy.
///
/// The output is strictly increasing and its last element equals `n`; for
/// `n == 0` it is empty.
pub fn compute_partitions_size(n: usize, min_partition_size: usize, max_depth: usize) -> (out: Vec<
    usize,
>)
    requires
        min_partition_size >= 1,
        max_depth >= 1,
        max_depth < usize::MAX,
    ensures
        to_ints(out@) == plan_boundaries(n as int, min_partition_size as int, max_depth as int),
        forall|i: int, j: int| 0 <= i < j < out@.len() ==> out@[i] < out@[j],
        n == 0 ==> out@.len() == 0,
        n >= 1 ==> out@.len() >= 1 && out@[out@.len() - 1] == n,
{
    let mut out: Vec<usize> = Vec::new();
    if n == 0 {
        assert(to_ints(out@) =~= Seq::<int>::empty());
        return out;
    }
    emit_leaf_sizes(n, 1, min_partition_size, max_depth, &mut out);
    let ghost sizes = leaf_sizes(n as int, 1, min_partition_size as int, max_depth as int);
    assert(to_ints(out@) =~= sizes);
    proof {
        lemma_leaf_sizes_pos(n as int, 1, min_partition_size as int, max_depth as int);
        lemma_leaf_sizes_sum(n as int, 1, min_partition_size as int, max_depth as int);
    }
    assert forall|j: int| 0 <= j < out@.len() implies out@[j] as int == sizes[j] by {
        assert(to_ints(out@)[j] == out@[j] as int);
    }
    let mut previous: usize = 0;
    let mut i: usize = 0;
    let len = out.len();
    while i < len
        invariant
            len == out@.len() == sizes.len(),
            0 <= i <= len,
            forall|j: int| i <= j < len ==> #[trigger] out@[j] as int == sizes[j],
            forall|j: int| 0 <= j < i ==> #[trigger] out@[j] as int == seq_sum(sizes.take(j + 1)),
            previous as int == seq_sum(sizes.take(i as int)),
            previous <= n,
            seq_sum(sizes) == n as int,
            forall|k: int| 0 <= k < sizes.len() ==> sizes[k] >= 1,
        decreases len - i,
    {
        proof {
            lemma_seq_sum_take_succ(sizes, i as int);
            lemma_sum_take_le(sizes, i + 1);
        }
        let boundary = previous + out[i];
        out.set(i, boundary);
        previous = boundary;
        i = i + 1;
    }
    proof {
        lemma_plan_boundaries(n as int, min_partition_size as int, max_depth as int);
    }
    let ghost bounds = plan_boundaries(n as int, min_partition_size as int, max_depth as int);
    assert(to_ints(out@) =~= bounds);
    assert forall|i: int, j: int| 0 <= i < j < out@.len() implies out@[i] < out@[j] by {
        assert(to_ints(out@)[i] == out@[i] as int);
        assert(to_ints(out@)[j] == out@[j] as int);
    }
    assert(out@[out@.len() - 1] as int == bounds.last());
    out
}

/// The sum of a prefix of a sequence of nonnegative elements is at most the
/// total sum.
proof fn lemma_sum_take_le(s: Seq<int>, i: int)
    requires
        0 <= i <= s.len(),
        forall|k: int| 0 <= k < s.len() ==> s[k] >= 0,
    ensures
        seq_sum(s.take(i)) <= seq_sum(s),
    decreases s.len() - i,
{
    if i == s.len() {
        assert(s.take(i) =~= s);
    } else {
        lemma_seq_sum_take_succ(s, i);
        lemma_sum_take_le(s, i + 1);
    }
}

} // verus!
