//! Permutation Builder: converts the final document order into a dense
//! mapping from original node id to new node id, and the proof that the
//! mapping is a bijection.

use crate::doc::{distinct_original_ids, Document};
use vstd::prelude::*;
use vstd::set_lib::{lemma_int_range, lemma_subset_equality, set_int_range};

verus! {

/// Some position of `s` holds the value `v`.
pub open spec fn contains_value(s: Seq<usize>, v: int) -> bool {
    exists|i: int| 0 <= i < s.len() && (#[trigger] s[i]) as int == v
}

/// `s` is a permutation of `[0, s.len())`: every value in that range
/// appears exactly once.
pub open spec fn is_permutation(s: Seq<usize>) -> bool {
    &&& forall|i: int| 0 <= i < s.len() ==> (#[trigger] s[i]) < s.len()
    &&& forall|i: int, j: int| 0 <= i < j < s.len() ==> s[i] != s[j]
    &&& forall|v: int| 0 <= v < s.len() ==> #[trigger] contains_value(s, v)
}

/// Pigeonhole step for the bijection proof: an order without duplicates
/// over documents with pairwise distinct original ids below `n == docs.len()`
/// names every id in `[0, n)`.
pub proof fn lemma_org_ids_cover(docs: Seq<Document>, ord: Seq<usize>, v: int) -> (k: int)
    requires
        ord.len() == docs.len(),
        forall|k: int| 0 <= k < ord.len() ==> (#[trigger] ord[k]) < docs.len(),
        ord.no_duplicates(),
        distinct_original_ids(docs),
        forall|i: int| 0 <= i < docs.len() ==> (#[trigger] docs[i]).original_id < docs.len(),
        0 <= v < docs.len(),
    ensures
        0 <= k < ord.len(),
        docs[ord[k] as int].original_id as int == v,
{
    broadcast use vstd::set::group_set_axioms;

    let n = docs.len() as int;
    let vals: Seq<int> = Seq::new(ord.len(), |k: int| docs[ord[k] as int].original_id as int);
    assert(vals.no_duplicates()) by {
        assert forall|i: int, j: int|
            0 <= i < vals.len() && 0 <= j < vals.len() && i != j implies vals[i] != vals[j] by {
            assert(ord[i] != ord[j]);
            if ord[i] < ord[j] {
                assert(docs[ord[i] as int].original_id != docs[ord[j] as int].original_id);
            } else {
                assert(docs[ord[j] as int].original_id != docs[ord[i] as int].original_id);
            }
        }
    }
    vals.unique_seq_to_set();
    vstd::seq_lib::seq_to_set_is_finite(vals);
    lemma_int_range(0, n);
    assert(vals.to_set().subset_of(set_int_range(0, n))) by {
        assert forall|x: int| vals.to_set().contains(x) implies set_int_range(0, n).contains(
            x,
        ) by {
            assert(vals.contains(x));
            let w = choose|w: int| 0 <= w < vals.len() && vals[w] == x;
            assert(0 <= vals[w] < n);
        }
    }
    lemma_subset_equality(vals.to_set(), set_int_range(0, n));
    assert(set_int_range(0, n).contains(v));
    assert(vals.to_set().contains(v));
    assert(vals.contains(v));
    let k = choose|k: int| 0 <= k < vals.len() && vals[k] == v;
    k
}

/// With an order that drops and duplicates nothing, a dense table mapping
/// each document's original id to its position in the order is a bijection
/// on `[0, docs.len())`.
pub proof fn lemma_perm_bijective(docs: Seq<Document>, ord: Seq<usize>, perm: Seq<usize>)
    requires
        ord.len() == docs.len(),
        perm.len() == docs.len(),
        forall|k: int| 0 <= k < ord.len() ==> (#[trigger] ord[k]) < docs.len(),
        ord.no_duplicates(),
        distinct_original_ids(docs),
        forall|i: int| 0 <= i < docs.len() ==> (#[trigger] docs[i]).original_id < docs.len(),
        forall|k: int|
            0 <= k < ord.len() ==> (#[trigger] perm[docs[ord[k] as int].original_id as int]) as int
                == k,
    ensures
        is_permutation(perm),
{
    let n = docs.len() as int;
    assert forall|i: int| 0 <= i < n implies (#[trigger] perm[i]) < n by {
        let k = lemma_org_ids_cover(docs, ord, i);
        assert(perm[i] as int == k);
    }
    assert forall|i: int, j: int| 0 <= i < j < n implies perm[i] != perm[j] by {
        let ki = lemma_org_ids_cover(docs, ord, i);
        let kj = lemma_org_ids_cover(docs, ord, j);
        assert(perm[i] as int == ki);
        assert(perm[j] as int == kj);
        if ki == kj {
            assert(docs[ord[ki] as int].original_id as int == i);
            assert(docs[ord[kj] as int].original_id as int == j);
        }
    }
    assert forall|v: int| 0 <= v < n implies #[trigger] contains_value(perm, v) by {
        let kv = lemma_org_ids_cover(docs, ord, v);
        assert(perm[docs[ord[kv] as int].original_id as int] as int == kv);
        let slot = docs[ord[v] as int].original_id as int;
        assert(perm[slot] as int == v);
        assert(0 <= slot < n);
        assert((perm[slot]) as int == v);
    }
}

/// Permutation Builder: `perm[original_id] = new_id`, where `new_id` is the
/// document's position in the final order `ord`.  The result is a bijection
/// on `[0, docs.len())`.
pub fn build_permutation(docs: &Vec<Document>, ord: &Vec<usize>) -> (perm: Vec<usize>)
    requires
        ord@.len() == docs@.len(),
        forall|k: int| 0 <= k < ord@.len() ==> (#[trigger] ord@[k]) < docs@.len(),
        ord@.no_duplicates(),
        distinct_original_ids(docs@),
        forall|i: int| 0 <= i < docs@.len() ==> (#[trigger] docs@[i]).original_id < docs@.len(),
    ensures
        perm@.len() == docs@.len(),
        forall|k: int|
            0 <= k < ord@.len() ==> (#[trigger] perm@[docs@[ord@[k] as int].original_id as int])
                as int == k,
        is_permutation(perm@),
{
    let n = docs.len();
    let mut perm: Vec<usize> = vec![0usize; n];
    let mut k: usize = 0;
    while k < n
        invariant
            n == docs@.len() == ord@.len() == perm@.len(),
            0 <= k <= n,
            forall|k2: int| 0 <= k2 < ord@.len() ==> (#[trigger] ord@[k2]) < docs@.len(),
            ord@.no_duplicates(),
            distinct_original_ids(docs@),
            forall|i: int|
                0 <= i < docs@.len() ==> (#[trigger] docs@[i]).original_id < docs@.len(),
            forall|k2: int|
                0 <= k2 < k ==> (#[trigger] perm@[docs@[ord@[k2] as int].original_id as int])
                    as int == k2,
        decreases n - k,
    {
        let d_idx = ord[k];
        let slot = docs[d_idx].original_id;
        let ghost prev = perm@;
        perm.set(slot, k);
        assert forall|k2: int|
            0 <= k2 < k + 1 implies (#[trigger] perm@[docs@[ord@[k2] as int].original_id as int])
            as int == k2 by {
            if k2 < k {
                let slot2 = docs@[ord@[k2] as int].original_id as int;
                assert(ord@[k2] != ord@[k as int]);
                if ord@[k2] < ord@[k as int] {
                    assert(docs@[ord@[k2] as int].original_id != docs@[ord@[k as int] as int].original_id);
                } else {
                    assert(docs@[ord@[k as int] as int].original_id != docs@[ord@[k2] as int].original_id);
                }
                assert(slot2 != slot as int);
                assert(perm@[slot2] == prev[slot2]);
            }
        }
        k = k + 1;
    }
    proof {
        lemma_perm_bijective(docs@, ord@, perm@);
    }
    perm
}

} // verus!
