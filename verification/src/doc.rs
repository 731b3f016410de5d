//! Document Model: the in-memory representation of one graph node's
//! adjacency list as a weighted posting list, plus bookkeeping fields used
//! by the reordering engine.

use vstd::prelude::*;

verus! {

/// One document per graph node: its outgoing edges as (neighbor id, weight)
/// pairs with strictly ascending neighbor ids, the node's identifier before
/// reordering, and two scratch fields.
pub struct Document {
    /// Ordered (neighbor id, weight) pairs; ids are original node ids,
    /// strictly ascending; the default construction gives each edge its own
    /// entry with weight 1.
    pub postings: Vec<(usize, u32)>,
    /// The node's identifier before reordering; immutable once created.
    pub original_id: usize,
    /// Scratch used by the swap optimizer to rank candidate moves; not
    /// meaningful outside an active optimization.
    pub gain: i64,
    /// The leaf the document was finally placed into; negative while
    /// unassigned.
    pub leaf_id: i64,
}

impl Document {
    /// Whether the document names `t` as a neighbor.
    pub open spec fn has_neighbor(self, t: int) -> bool {
        exists|i: int| 0 <= i < self.postings@.len() && (#[trigger] self.postings@[i]).0 == t
    }

    /// Well-formedness against a universe of `n` nodes: the original id and
    /// every neighbor id lie below `n`, and neighbor ids strictly ascend.
    pub open spec fn wf(self, n: int) -> bool {
        &&& self.original_id < n
        &&& forall|i: int|
            0 <= i < self.postings@.len() ==> (#[trigger] self.postings@[i]).0 < n
        &&& forall|i: int, j: int|
            0 <= i < j < self.postings@.len() ==> (#[trigger] self.postings@[i]).0 < (
            #[trigger] self.postings@[j]).0
    }

    /// Builds the document of node `original_id` from its successor list,
    /// one posting of weight 1 per edge, gain cleared and no leaf assigned.
    pub fn new(original_id: usize, neighbors: &Vec<usize>) -> (d: Document)
        ensures
            d.original_id == original_id,
            d.gain == 0,
            d.leaf_id == -1,
            d.postings@.len() == neighbors@.len(),
            forall|i: int|
                0 <= i < neighbors@.len() ==> #[trigger] d.postings@[i] == (neighbors@[i], 1u32),
    {
        let mut postings: Vec<(usize, u32)> = Vec::new();
        let mut i: usize = 0;
        let len = neighbors.len();
        while i < len
            invariant
                len == neighbors@.len(),
                0 <= i <= len,
                postings@.len() == i,
                forall|j: int|
                    0 <= j < i ==> #[trigger] postings@[j] == (neighbors@[j], 1u32),
            decreases len - i,
        {
            postings.push((neighbors[i], 1u32));
            i = i + 1;
        }
        Document { postings, original_id, gain: 0, leaf_id: -1 }
    }
}

/// Every document in `docs` is well formed against a universe of `n` nodes.
pub open spec fn docs_wf(docs: Seq<Document>, n: int) -> bool {
    forall|i: int| 0 <= i < docs.len() ==> (#[trigger] docs[i]).wf(n)
}

/// The original ids of `docs` are pairwise distinct.
pub open spec fn distinct_original_ids(docs: Seq<Document>) -> bool {
    forall|i: int, j: int|
        0 <= i < j < docs.len() ==> (#[trigger] docs[i]).original_id != (
        #[trigger] docs[j]).original_id
}

} // verus!
