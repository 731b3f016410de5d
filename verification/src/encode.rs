//! Byte layouts of the engine's output files.
//!
//! The permutation file is a flat sequence of 64-bit big-endian words, one
//! per node.  The cluster file prepends the permutation length, and appends
//! the number of clusters followed by the cumulative cluster boundaries,
//! all as 64-bit big-endian words.  The flat "bin" adjacency dump is
//! little-endian: an 8-byte fingerprint, the node count as 4 bytes, one
//! 8-byte offset per node, the arc count as 8 bytes, and one 4-byte word
//! per arc.  Writing the bytes to disk is left to the caller.

use vstd::prelude::*;

verus! {

/// Byte `i` (0 = most significant) of the big-endian encoding of `x`.
pub open spec fn be_byte(x: u64, i: int) -> u8 {
    ((x >> (((7 - i) * 8) as u64)) & 0xff) as u8
}

/// The 8 bytes of `x`, big endian.
pub open spec fn u64_be_bytes(x: u64) -> Seq<u8> {
    Seq::new(8, |i: int| be_byte(x, i))
}

/// Byte `i` (0 = least significant) of the little-endian encoding of `x`.
pub open spec fn le_byte(x: u64, i: int) -> u8 {
    ((x >> ((i * 8) as u64)) & 0xff) as u8
}

/// The 8 bytes of `x`, little endian.
pub open spec fn u64_le_bytes(x: u64) -> Seq<u8> {
    Seq::new(8, |i: int| le_byte(x, i))
}

/// The 4 bytes of `x`, little endian.
pub open spec fn u32_le_bytes(x: u32) -> Seq<u8> {
    Seq::new(4, |i: int| le_byte(x as u64, i))
}

/// A sequence of words, each as 8 big-endian bytes.
pub open spec fn words_be(s: Seq<usize>) -> Seq<u8>
    decreases s.len(),
{
    if s.len() == 0 {
        Seq::empty()
    } else {
        words_be(s.drop_last()) + u64_be_bytes(s.last() as u64)
    }
}

/// A sequence of words, each as 8 little-endian bytes.
pub open spec fn words_le64(s: Seq<u64>) -> Seq<u8>
    decreases s.len(),
{
    if s.len() == 0 {
        Seq::empty()
    } else {
        words_le64(s.drop_last()) + u64_le_bytes(s.last())
    }
}

/// A sequence of words, each as 4 little-endian bytes.
pub open spec fn words_le32(s: Seq<u32>) -> Seq<u8>
    decreases s.len(),
{
    if s.len() == 0 {
        Seq::empty()
    } else {
        words_le32(s.drop_last()) + u32_le_bytes(s.last())
    }
}

/// Appends the 8 big-endian bytes of `x`.
fn push_be_u64(out: &mut Vec<u8>, x: u64)
    ensures
        final(out)@ == old(out)@ + u64_be_bytes(x),
{
    out.push(((x >> 56) & 0xff) as u8);
    out.push(((x >> 48) & 0xff) as u8);
    out.push(((x >> 40) & 0xff) as u8);
    out.push(((x >> 32) & 0xff) as u8);
    out.push(((x >> 24) & 0xff) as u8);
    out.push(((x >> 16) & 0xff) as u8);
    out.push(((x >> 8) & 0xff) as u8);
    out.push((x & 0xff) as u8);
    assert(out@ =~= old(out)@ + u64_be_bytes(x)) by {
        assert(x & 0xff == x >> 0 & 0xff) by (bit_vector);
    }
}

/// Appends the 8 little-endian bytes of `x`.
fn push_le_u64(out: &mut Vec<u8>, x: u64)
    ensures
        final(out)@ == old(out)@ + u64_le_bytes(x),
{
    out.push((x & 0xff) as u8);
    out.push(((x >> 8) & 0xff) as u8);
    out.push(((x >> 16) & 0xff) as u8);
    out.push(((x >> 24) & 0xff) as u8);
    out.push(((x >> 32) & 0xff) as u8);
    out.push(((x >> 40) & 0xff) as u8);
    out.push(((x >> 48) & 0xff) as u8);
    out.push(((x >> 56) & 0xff) as u8);
    assert(out@ =~= old(out)@ + u64_le_bytes(x)) by {
        assert(x & 0xff == x >> 0 & 0xff) by (bit_vector);
    }
}

/// Appends the 4 little-endian bytes of `x`.
fn push_le_u32(out: &mut Vec<u8>, x: u32)
    ensures
        final(out)@ == old(out)@ + u32_le_bytes(x),
{
    out.push((x & 0xff) as u8);
    out.push(((x >> 8) & 0xff) as u8);
    out.push(((x >> 16) & 0xff) as u8);
    out.push(((x >> 24) & 0xff) as u8);
    assert(out@ =~= old(out)@ + u32_le_bytes(x)) by {
        assert(x & 0xff == x >> 0 & 0xff) by (bit_vector);
        assert(forall|i: u32| 0 < i < 32 ==> ((x >> i) & 0xff) as u64 == ((x as u64) >> (
        i as u64)) & 0xff) by (bit_vector);
    }
}

/// Appends one 64-bit big-endian word per entry of `s[..upto]`.
fn push_words_be(out: &mut Vec<u8>, s: &Vec<usize>)
    ensures
        final(out)@ == old(out)@ + words_be(s@),
{
    let mut i: usize = 0;
    let len = s.len();
    let ghost base = out@;
    while i < len
        invariant
            0 <= i <= len == s@.len(),
            out@ == base + words_be(s@.take(i as int)),
        decreases len - i,
    {
        push_be_u64(out, s[i] as u64);
        proof {
            assert(s@.take(i + 1).drop_last() =~= s@.take(i as int));
            assert(s@.take(i + 1).last() == s@[i as int]);
            assert(out@ =~= base + words_be(s@.take(i + 1)));
        }
        i = i + 1;
    }
    assert(s@.take(len as int) =~= s@);
}

/// The permutation file: word `i` holds `perm[i]`, the new id of original
/// node `i`, as 8 big-endian bytes.
pub fn encode_perm(perm: &Vec<usize>) -> (out: Vec<u8>)
    ensures
        out@ == words_be(perm@),
        out@.len() == 8 * perm@.len(),
{
    let mut out: Vec<u8> = Vec::new();
    push_words_be(&mut out, perm);
    assert(out@ =~= words_be(perm@));
    proof {
        lemma_words_be_len(perm@);
    }
    out
}

/// Each word of the encoding takes 8 bytes.
pub proof fn lemma_words_be_len(s: Seq<usize>)
    ensures
        words_be(s).len() == 8 * s.len(),
    decreases s.len(),
{
    if s.len() > 0 {
        lemma_words_be_len(s.drop_last());
    }
}

/// The cluster file: the permutation length, the permutation itself, the
/// number of clusters, and the cumulative cluster boundaries, all as
/// 64-bit big-endian words.
///
/// The last boundary must equal the permutation length exactly; a caller
/// holding boundaries that do not cover the permutation has no valid file
/// to write.
pub fn encode_cluster_file(perm: &Vec<usize>, boundaries: &Vec<usize>) -> (out: Vec<u8>)
    requires
        boundaries@.len() > 0 ==> boundaries@.last() == perm@.len(),
        boundaries@.len() == 0 ==> perm@.len() == 0,
    ensures
        out@ == u64_be_bytes(perm@.len() as u64) + words_be(perm@) + u64_be_bytes(
            boundaries@.len() as u64,
        ) + words_be(boundaries@),
{
    let mut out: Vec<u8> = Vec::new();
    push_be_u64(&mut out, perm.len() as u64);
    push_words_be(&mut out, perm);
    push_be_u64(&mut out, boundaries.len() as u64);
    push_words_be(&mut out, boundaries);
    assert(out@ =~= u64_be_bytes(perm@.len() as u64) + words_be(perm@) + u64_be_bytes(
        boundaries@.len() as u64,
    ) + words_be(boundaries@));
    out
}

/// The flat adjacency dump: arcs of each node stored consecutively, with
/// one offset per node marking where its list begins.
pub struct BinGraph {
    /// `offsets[i]` is the index into `arcs` of node `i`'s first arc.
    pub offsets: Vec<u64>,
    /// The destination of every arc, lists laid out in node order.
    pub arcs: Vec<u32>,
}

impl BinGraph {
    /// An empty dump, ready to receive the adjacency list of node 0.
    pub fn new() -> (g: BinGraph)
        ensures
            g.offsets@.len() == 0,
            g.arcs@.len() == 0,
    {
        BinGraph { offsets: Vec::new(), arcs: Vec::new() }
    }

    /// Appends the adjacency list of the next node.  Lists must arrive in
    /// node order: `node_index` must equal the number of lists received so
    /// far, and every successor must fit the 4-byte arc word.
    pub fn add_list(&mut self, node_index: usize, successors: &Vec<usize>)
        requires
            node_index == old(self).offsets@.len(),
            forall|i: int|
                0 <= i < successors@.len() ==> (#[trigger] successors@[i]) < 0x1_0000_0000,
            old(self).arcs@.len() + successors@.len() <= usize::MAX,
        ensures
            final(self).offsets@ == old(self).offsets@.push(old(self).arcs@.len() as u64),
            final(self).arcs@ == old(self).arcs@ + successors@.map_values(|x: usize| x as u32),
    {
        let total_arcs = self.arcs.len();
        self.offsets.push(total_arcs as u64);
        let ghost base = self.arcs@;
        let ghost offs = self.offsets@;
        let mut i: usize = 0;
        let len = successors.len();
        while i < len
            invariant
                0 <= i <= len == successors@.len(),
                self.offsets@ == offs,
                forall|k: int|
                    0 <= k < successors@.len() ==> (#[trigger] successors@[k]) < 0x1_0000_0000,
                base.len() + len <= usize::MAX,
                self.arcs@ == base + successors@.take(i as int).map_values(|x: usize| x as u32),
            decreases len - i,
        {
            self.arcs.push(successors[i] as u32);
            proof {
                assert(self.arcs@ =~= base + successors@.take(i + 1).map_values(
                    |x: usize| x as u32,
                ));
            }
            i = i + 1;
        }
        assert(successors@.take(len as int) =~= successors@);
    }

    /// The bytes of the dump: an 8-byte little-endian fingerprint naming
    /// the word widths, the node count as 4 bytes, the per-node offsets as
    /// 8 bytes each, the arc count as 8 bytes, and each arc as 4 bytes.
    pub fn to_bytes(&self) -> (out: Vec<u8>)
        requires
            self.offsets@.len() < 0x1_0000_0000,
    ensures
        out@ == u64_le_bytes(132u64) + u32_le_bytes(self.offsets@.len() as u32) + words_le64(
            self.offsets@,
        ) + u64_le_bytes(self.arcs@.len() as u64) + words_le32(self.arcs@),
    {
        let mut out: Vec<u8> = Vec::new();
        // 8 bytes per offset word and 4 per arc word: (8 << 4) | 4
        push_le_u64(&mut out, 132u64);
        push_le_u32(&mut out, self.offsets.len() as u32);
        let mut i: usize = 0;
        let olen = self.offsets.len();
        let ghost base = out@;
        while i < olen
            invariant
                0 <= i <= olen == self.offsets@.len(),
                out@ == base + words_le64(self.offsets@.take(i as int)),
            decreases olen - i,
        {
            push_le_u64(&mut out, self.offsets[i]);
            proof {
                assert(self.offsets@.take(i + 1).drop_last() =~= self.offsets@.take(i as int));
                assert(out@ =~= base + words_le64(self.offsets@.take(i + 1)));
            }
            i = i + 1;
        }
        assert(self.offsets@.take(olen as int) =~= self.offsets@);
        push_le_u64(&mut out, self.arcs.len() as u64);
        let mut j: usize = 0;
        let alen = self.arcs.len();
        let ghost base2 = out@;
        while j < alen
            invariant
                0 <= j <= alen == self.arcs@.len(),
                out@ == base2 + words_le32(self.arcs@.take(j as int)),
            decreases alen - j,
        {
            push_le_u32(&mut out, self.arcs[j]);
            proof {
                assert(self.arcs@.take(j + 1).drop_last() =~= self.arcs@.take(j as int));
                assert(out@ =~= base2 + words_le32(self.arcs@.take(j + 1)));
            }
            j = j + 1;
        }
        assert(self.arcs@.take(alen as int) =~= self.arcs@);
        assert(out@ =~= u64_le_bytes(132u64) + u32_le_bytes(self.offsets@.len() as u32)
            + words_le64(self.offsets@) + u64_le_bytes(self.arcs@.len() as u64) + words_le32(
            self.arcs@,
        ));
        out
    }
}

} // verus!
