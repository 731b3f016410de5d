//! The reordering engine's entry point: builds one document per node from
//! the adjacency lists, seeds the order by descending degree, runs the
//! recursive bisector over the documents with at least one edge, and turns
//! the final order into a permutation of node ids.

use crate::bisect::recursive_graph_bisection;
use crate::doc::{distinct_original_ids, docs_wf, Document};
use crate::perm::{build_permutation, is_permutation, lemma_org_ids_cover};
use crate::optimizer::{lemma_swap_multiset, swap_ord};
use vstd::prelude::*;

verus! {

/// A well-formed adjacency list over `n` nodes: strictly ascending
/// successor ids, all below `n`.
pub open spec fn adj_wf(adj: Seq<usize>, n: int) -> bool {
    &&& forall|i: int| 0 <= i < adj.len() ==> (#[trigger] adj[i]) < n
    &&& forall|i: int, j: int| 0 <= i < j < adj.len() ==> adj[i] < adj[j]
}

/// A well-formed graph: one adjacency list per node, each well formed over
/// the node count.
pub open spec fn graph_wf(adjs: Seq<Vec<usize>>) -> bool {
    forall|i: int| 0 <= i < adjs.len() ==> adj_wf((#[trigger] adjs[i])@, adjs.len() as int)
}

/// The degree of the document that position `k` of the order names.
pub open spec fn deg_at(docs: Seq<Document>, ord: Seq<usize>, k: int) -> int {
    docs[ord[k] as int].postings@.len() as int
}

/// The nodes with at least one outgoing edge.
pub open spec fn nonempty_set(adjs: Seq<Vec<usize>>) -> Set<usize> {
    Set::new(|v: usize| v < adjs.len() && adjs[v as int]@.len() > 0)
}

/// How many nodes have at least one outgoing edge: the number of documents
/// that take part in bisection.
pub open spec fn nonempty_count(adjs: Seq<Vec<usize>>) -> nat {
    nonempty_set(adjs).len()
}

/// Stable in-place insertion sort of the whole order by descending degree
/// of the named documents, the seed ordering of the first split.
pub fn sort_by_degree_desc(docs: &Vec<Document>, ord: &mut Vec<usize>)
    requires
        forall|k: int| 0 <= k < old(ord)@.len() ==> (#[trigger] old(ord)@[k]) < docs@.len(),
    ensures
        final(ord)@.len() == old(ord)@.len(),
        final(ord)@.to_multiset() == old(ord)@.to_multiset(),
        forall|k: int| 0 <= k < final(ord)@.len() ==> (#[trigger] final(ord)@[k]) < docs@.len(),
        forall|a: int, b: int|
            0 <= a < b < final(ord)@.len() ==> #[trigger] deg_at(docs@, final(ord)@, a)
                >= #[trigger] deg_at(docs@, final(ord)@, b),
{
    let ghost ord0 = ord@;
    let len = ord.len();
    if len < 2 {
        return ;
    }
    let mut i: usize = 1;
    while i < len
        invariant
            0 < i <= len == ord@.len(),
            ord@.len() == ord0.len(),
            ord@.to_multiset() == ord0.to_multiset(),
            forall|k: int| 0 <= k < ord@.len() ==> (#[trigger] ord@[k]) < docs@.len(),
            forall|a: int, b: int|
                0 <= a < b < i ==> #[trigger] deg_at(docs@, ord@, a) >= #[trigger] deg_at(
                    docs@,
                    ord@,
                    b,
                ),
        decreases len - i,
    {
        let mut j: usize = i;
        while j > 0 && docs[ord[j - 1]].postings.len() < docs[ord[j]].postings.len()
            invariant
                0 <= j <= i < len == ord@.len(),
                ord@.len() == ord0.len(),
                ord@.to_multiset() == ord0.to_multiset(),
                forall|k: int| 0 <= k < ord@.len() ==> (#[trigger] ord@[k]) < docs@.len(),
                forall|a: int, b: int|
                    0 <= a < b <= i && b != j ==> #[trigger] deg_at(docs@, ord@, a)
                        >= #[trigger] deg_at(docs@, ord@, b),
            decreases j,
        {
            let ghost prev = ord@;
            swap_ord(ord, j - 1, j);
            proof {
                assert(ord@ =~= prev.update(j - 1, prev[j as int]).update(j as int, prev[j - 1]));
                lemma_swap_multiset(prev, j - 1, j as int);
                assert(deg_at(docs@, ord@, j - 1) == deg_at(docs@, prev, j as int));
                assert(deg_at(docs@, ord@, j as int) == deg_at(docs@, prev, j - 1));
                assert forall|a: int, b: int|
                    0 <= a < b <= i && b != j - 1 implies #[trigger] deg_at(docs@, ord@, a)
                    >= #[trigger] deg_at(docs@, ord@, b) by {
                    if b == j {
                        if a < j - 1 {
                            assert(deg_at(docs@, prev, a) >= deg_at(docs@, prev, j - 1));
                        }
                    } else if b > j {
                        if a == j - 1 {
                            assert(deg_at(docs@, prev, j as int) >= deg_at(docs@, prev, b));
                        } else if a == j {
                            assert(deg_at(docs@, prev, j - 1) >= deg_at(docs@, prev, b));
                        } else {
                            assert(deg_at(docs@, prev, a) >= deg_at(docs@, prev, b));
                        }
                    } else {
                        assert(deg_at(docs@, prev, a) >= deg_at(docs@, prev, b));
                    }
                }
            }
            j = j - 1;
        }
        assert forall|a: int, b: int| 0 <= a < b <= i implies #[trigger] deg_at(docs@, ord@, a)
            >= #[trigger] deg_at(docs@, ord@, b) by {
            if b == j {
                if j > 0 {
                    assert(deg_at(docs@, ord@, j - 1) >= deg_at(docs@, ord@, j as int));
                    if a < j - 1 {
                        assert(deg_at(docs@, ord@, a) >= deg_at(docs@, ord@, j - 1));
                    }
                }
            }
        }
        i = i + 1;
    }
}

/// Recursive graph bisection over a graph given as adjacency lists: the
/// permutation mapping each original node id to its new id.
///
/// One document is built per node; documents are seeded in descending
/// degree order; only documents with at least one edge take part in the
/// recursive bisection; nodes with empty adjacency receive the new ids
/// after all processed documents.  The result is a bijection on
/// `[0, adjs.len())`.
///
/// The node count is capped at `2^32` so that the optimizer's integer
/// cost estimates cannot overflow their 64-bit words.
pub fn reorder(
    adjs: &Vec<Vec<usize>>,
    iterations: usize,
    min_partition_size: usize,
    max_depth: usize,
    sort_leaf: bool,
) -> (perm: Vec<usize>)
    requires
        adjs@.len() <= 0x1_0000_0000,
        graph_wf(adjs@),
        min_partition_size >= 1,
        max_depth >= 1,
        max_depth < usize::MAX,
    ensures
        perm@.len() == adjs@.len(),
        is_permutation(perm@),
        forall|i: int, j: int|
            0 <= i < adjs@.len() && 0 <= j < adjs@.len() && (#[trigger] adjs@[i])@.len() == 0 && (
            #[trigger] adjs@[j])@.len() > 0 ==> perm@[i] > perm@[j],
        // leaf determinism: with sorted leaves, any two nodes with edges
        // whose new ids fall into the same planner leaf of the bisected
        // prefix keep their ascending order
        sort_leaf ==> forall|i: int, j: int|
            0 <= i < j < adjs@.len() && (#[trigger] adjs@[i])@.len() > 0 && (
            #[trigger] adjs@[j])@.len() > 0 && crate::bisect::in_same_leaf(
                crate::planner::leaf_sizes(
                    nonempty_count(adjs@) as int,
                    1,
                    min_partition_size as int,
                    max_depth as int,
                ),
                perm@[i] as int,
                perm@[j] as int,
            ) ==> perm@[i] < perm@[j],
        // in particular, a run whose bounds make the whole range one leaf
        // keeps every pair of nodes with edges in ascending order
        sort_leaf && min_partition_size >= adjs@.len() ==> forall|i: int, j: int|
            0 <= i < j < adjs@.len() && (#[trigger] adjs@[i])@.len() > 0 && (
            #[trigger] adjs@[j])@.len() > 0 ==> perm@[i] < perm@[j],
{
    let n = adjs.len();
    let mut docs: Vec<Document> = Vec::new();
    let mut i: usize = 0;
    while i < n
        invariant
            0 <= i <= n == adjs@.len() <= 0x1_0000_0000,
            graph_wf(adjs@),
            docs@.len() == i,
            forall|m: int|
                0 <= m < i ==> (#[trigger] docs@[m]).original_id == m && docs@[m].wf(n as int)
                    && docs@[m].postings@.len() == adjs@[m]@.len(),
        decreases n - i,
    {
        let d = Document::new(i, &adjs[i]);
        proof {
            assert(adj_wf(adjs@[i as int]@, n as int));
            assert forall|a: int, b: int|
                0 <= a < b < d.postings@.len() implies (#[trigger] d.postings@[a]).0 < (
            #[trigger] d.postings@[b]).0 by {
                assert(d.postings@[a] == (adjs@[i as int]@[a], 1u32));
                assert(d.postings@[b] == (adjs@[i as int]@[b], 1u32));
            }
            assert forall|a: int| 0 <= a < d.postings@.len() implies (#[trigger] d.postings@[a]).0
                < n by {
                assert(d.postings@[a] == (adjs@[i as int]@[a], 1u32));
            }
            assert(d.wf(n as int));
        }
        docs.push(d);
        i = i + 1;
    }
    let mut ord: Vec<usize> = Vec::new();
    let mut k: usize = 0;
    while k < n
        invariant
            0 <= k <= n,
            ord@.len() == k,
            forall|m: int| 0 <= m < k ==> (#[trigger] ord@[m]) as int == m,
        decreases n - k,
    {
        ord.push(k);
        k = k + 1;
    }
    let ghost ord_id = ord@;
    assert(ord_id.no_duplicates());
    sort_by_degree_desc(&docs, &mut ord);
    let ghost ord1 = ord@;
    proof {
        ord_id.lemma_multiset_has_no_duplicates();
        ord1.lemma_multiset_has_no_duplicates_conv();
    }
    let mut nne: usize = 0;
    while nne < n && docs[ord[nne]].postings.len() > 0
        invariant
            0 <= nne <= n == ord@.len() == docs@.len(),
            ord@ == ord1,
            forall|k2: int| 0 <= k2 < ord@.len() ==> (#[trigger] ord@[k2]) < docs@.len(),
            forall|a: int, b: int|
                0 <= a < b < ord@.len() ==> #[trigger] deg_at(docs@, ord@, a) >= #[trigger] deg_at(
                    docs@,
                    ord@,
                    b,
                ),
            forall|k2: int| 0 <= k2 < nne ==> deg_at(docs@, ord1, k2) > 0,
        decreases n - nne,
    {
        nne = nne + 1;
    }
    assert forall|k2: int| nne <= k2 < n implies deg_at(docs@, ord1, k2) == 0 by {
        if nne < n {
            assert(deg_at(docs@, ord1, nne as int) == 0);
            if k2 > nne {
                assert(deg_at(docs@, ord1, nne as int) >= deg_at(docs@, ord1, k2));
            }
        }
    }
    recursive_graph_bisection(
        &docs,
        &mut ord,
        0,
        nne,
        n,
        iterations,
        min_partition_size,
        max_depth,
        1,
        sort_leaf,
    );
    let ghost ord2 = ord@;
    proof {
        assert(ord2.subrange(nne as int, n as int) =~= ord1.subrange(nne as int, n as int));
        assert(ord1.subrange(0, nne as int).to_multiset().add(
            ord1.subrange(nne as int, n as int).to_multiset(),
        ) == ord2.subrange(0, nne as int).to_multiset().add(
            ord2.subrange(nne as int, n as int).to_multiset(),
        ));
        assert(ord1 =~= ord1.subrange(0, nne as int) + ord1.subrange(nne as int, n as int));
        assert(ord2 =~= ord2.subrange(0, nne as int) + ord2.subrange(nne as int, n as int));
        vstd::seq_lib::lemma_multiset_commutative(
            ord1.subrange(0, nne as int),
            ord1.subrange(nne as int, n as int),
        );
        vstd::seq_lib::lemma_multiset_commutative(
            ord2.subrange(0, nne as int),
            ord2.subrange(nne as int, n as int),
        );
        assert(ord2.to_multiset() == ord1.to_multiset());
        ord1.lemma_multiset_has_no_duplicates();
        ord2.lemma_multiset_has_no_duplicates_conv();
        assert(ord2.no_duplicates());
    }
    proof {
        // the scan found exactly the documents with an edge: `nne` is the
        // number of nodes with nonempty adjacency
        broadcast use vstd::set::group_set_axioms;

        let prefix = ord1.subrange(0, nne as int);
        assert(prefix.no_duplicates()) by {
            assert forall|a: int, b: int|
                0 <= a < prefix.len() && 0 <= b < prefix.len() && a != b implies prefix[a]
                != prefix[b] by {
                assert(prefix[a] == ord1[a]);
                assert(prefix[b] == ord1[b]);
            }
        }
        prefix.unique_seq_to_set();
        vstd::seq_lib::seq_to_set_is_finite(prefix);
        assert(prefix.to_set() =~= nonempty_set(adjs@)) by {
            assert forall|x: usize| prefix.to_set().contains(x) implies nonempty_set(
                adjs@,
            ).contains(x) by {
                assert(prefix.contains(x));
                let w = choose|w: int| 0 <= w < prefix.len() && prefix[w] == x;
                assert(prefix[w] == ord1[w]);
                assert(deg_at(docs@, ord1, w) > 0);
                assert(docs@[x as int].postings@.len() == adjs@[x as int]@.len());
            }
            assert forall|x: usize| nonempty_set(adjs@).contains(x) implies prefix.to_set(
            ).contains(x) by {
                assert(docs@[x as int].postings@.len() == adjs@[x as int]@.len());
                let kx = lemma_org_ids_cover(docs@, ord1, x as int);
                assert(docs@[ord1[kx] as int].original_id == ord1[kx]);
                assert(ord1[kx] as int == x as int);
                if kx >= nne {
                    assert(deg_at(docs@, ord1, kx) == 0);
                }
                assert(prefix[kx] == x);
                assert(prefix.contains(x));
            }
        }
        assert(nonempty_count(adjs@) == nne);
    }
    let perm = build_permutation(&docs, &ord);
    proof {
        assert forall|i2: int, j2: int|
            0 <= i2 < adjs@.len() && 0 <= j2 < adjs@.len() && (#[trigger] adjs@[i2])@.len() == 0
                && (#[trigger] adjs@[j2])@.len() > 0 implies perm@[i2] > perm@[j2] by {
            let ki = lemma_org_ids_cover(docs@, ord@, i2);
            let kj = lemma_org_ids_cover(docs@, ord@, j2);
            assert(docs@[ord@[ki] as int].original_id == ord@[ki]);
            assert(ord@[ki] as int == i2);
            assert(ord@[kj] as int == j2);
            assert(perm@[i2] as int == ki);
            assert(perm@[j2] as int == kj);
            assert(docs@[i2].postings@.len() == 0);
            assert(docs@[j2].postings@.len() > 0);
            if ki < nne {
                // positions below `nne` still name documents with an edge
                let s1g = ord1.subrange(0, nne as int);
                let s2g = ord2.subrange(0, nne as int);
                assert(s2g[ki] == ord@[ki]);
                assert(s2g.contains(s2g[ki]));
                vstd::seq_lib::to_multiset_contains(s2g, s2g[ki]);
                vstd::seq_lib::to_multiset_contains(s1g, s2g[ki]);
                assert(s1g.contains(s2g[ki]));
                let w = choose|w: int| 0 <= w < s1g.len() && s1g[w] == s2g[ki];
                assert(deg_at(docs@, ord1, w) > 0);
                assert(docs@[ord@[ki] as int].postings@.len() > 0);
            }
            if kj >= nne {
                // positions from `nne` on keep the documents without edges
                assert(ord2[kj] == ord1[kj]);
                assert(deg_at(docs@, ord1, kj) == 0);
            }
        }
        if sort_leaf {
            // within any leaf of the bisected prefix, positions ascend by
            // original id
            let sizes_run = crate::planner::leaf_sizes(
                nne as int,
                1,
                min_partition_size as int,
                max_depth as int,
            );
            assert forall|i2: int, j2: int|
                0 <= i2 < j2 < adjs@.len() && (#[trigger] adjs@[i2])@.len() > 0 && (
                #[trigger] adjs@[j2])@.len() > 0 && crate::bisect::in_same_leaf(
                    sizes_run,
                    perm@[i2] as int,
                    perm@[j2] as int,
                ) implies perm@[i2] < perm@[j2] by {
                let ki = lemma_org_ids_cover(docs@, ord@, i2);
                let kj = lemma_org_ids_cover(docs@, ord@, j2);
                assert(ord@[ki] as int == i2);
                assert(ord@[kj] as int == j2);
                assert(perm@[i2] as int == ki);
                assert(perm@[j2] as int == kj);
                if nne == 0 {
                    assert(sizes_run =~= seq![0int]);
                } else {
                    crate::planner::lemma_leaf_sizes_pos(
                        nne as int,
                        1,
                        min_partition_size as int,
                        max_depth as int,
                    );
                }
                assert forall|x: int| 0 <= x < sizes_run.len() implies sizes_run[x] >= 0 by {}
                assert(crate::bisect::leaves_sorted(docs@, ord2, 0, sizes_run));
                if kj < ki {
                    crate::bisect::lemma_in_same_leaf_sym(sizes_run, ki, kj);
                    crate::bisect::lemma_leaves_sorted_same_leaf(
                        docs@,
                        ord2,
                        0,
                        sizes_run,
                        kj,
                        ki,
                    );
                    assert(crate::bisect::org_at(docs@, ord2, kj) == j2);
                    assert(crate::bisect::org_at(docs@, ord2, ki) == i2);
                }
                if kj == ki {
                    assert(i2 == j2);
                }
            }
        }
        if sort_leaf && min_partition_size >= n {
            // the whole bisected range is one leaf, sorted by original id
            let sizes = crate::planner::leaf_sizes(
                nne as int,
                1,
                min_partition_size as int,
                max_depth as int,
            );
            assert(sizes =~= seq![nne as int]);
            assert(crate::bisect::sorted_by_org(docs@, ord2, 0, nne as int));
            assert forall|i2: int, j2: int|
                0 <= i2 < j2 < adjs@.len() && (#[trigger] adjs@[i2])@.len() > 0 && (
                #[trigger] adjs@[j2])@.len() > 0 implies perm@[i2] < perm@[j2] by {
                let ki = lemma_org_ids_cover(docs@, ord@, i2);
                let kj = lemma_org_ids_cover(docs@, ord@, j2);
                assert(ord@[ki] as int == i2);
                assert(ord@[kj] as int == j2);
                assert(perm@[i2] as int == ki);
                assert(perm@[j2] as int == kj);
                assert(docs@[i2].postings@.len() > 0);
                assert(docs@[j2].postings@.len() > 0);
                if ki >= nne {
                    assert(ord2[ki] == ord1[ki]);
                    assert(deg_at(docs@, ord1, ki) == 0);
                }
                if kj >= nne {
                    assert(ord2[kj] == ord1[kj]);
                    assert(deg_at(docs@, ord1, kj) == 0);
                }
                assert(ki < nne && kj < nne);
                if kj < ki {
                    assert(crate::bisect::org_at(docs@, ord2, kj) <= crate::bisect::org_at(
                        docs@,
                        ord2,
                        ki,
                    ));
                }
                if kj == ki {
                    assert(i2 == j2);
                }
            }
        }
    }
    perm
}

} // verus!
