//! Trusted boundary to the outside crates: `smallvec` (witness storage and
//! sparse boundary columns), `arrayvec` (inline frame and premise buffers)
//! and `blake3` (witness digests).
//!
//! Every item here is believed by Verus without proof; each doc comment says
//! what is claimed of the outside function.
use arrayvec::ArrayVec;
use smallvec::SmallVec;
use vstd::prelude::*;

use crate::signal::NodeId;

verus! {

/// Witness storage: a `smallvec` vector of bytes, inline up to 512 bytes.
///
/// Verus cannot declare `SmallVec` itself (its parameter is bounded by an
/// outside trait), so the vector sits in this opaque struct.
#[derive(Debug)]
#[verifier::external_body]
pub struct Witness {
    inner: SmallVec<[u8; 512]>,
}

/// The outside fixed-capacity vector of `arrayvec`.
#[verifier::external_type_specification]
#[verifier::external_body]
#[verifier::reject_recursive_types(T)]
pub struct ExArrayVec<T, const CAP: usize>(ArrayVec<T, CAP>);

/// The bytes held by a witness buffer, in order.
pub uninterp spec fn witness_bytes(w: Witness) -> Seq<u8>;

/// The bytes held by an inline frame buffer, in order.
pub uninterp spec fn frame_bytes(a: ArrayVec<u8, 512>) -> Seq<u8>;

/// The hashes held by an inline premise buffer, in order.
pub uninterp spec fn premise_items(a: ArrayVec<[u8; 32], 4>) -> Seq<[u8; 32]>;

/// The BLAKE3 digest (32 bytes) of a byte sequence.
pub uninterp spec fn blake3_digest(data: Seq<u8>) -> Seq<u8>;

impl Clone for Witness {
    /// `SmallVec::clone`: a copy holding the same bytes.
    #[verifier::external_body]
    fn clone(&self) -> (c: Witness)
        ensures
            witness_bytes(c) == witness_bytes(*self),
    {
        Witness { inner: self.inner.clone() }
    }
}

impl Witness {
    /// `SmallVec::from_slice`: the new vector holds a copy of the slice.
    #[verifier::external_body]
    pub fn from_slice(s: &[u8]) -> (w: Witness)
        ensures
            witness_bytes(w) == s@,
    {
        Witness { inner: SmallVec::from_slice(s) }
    }

    /// `SmallVec::from_vec`: the new vector holds the elements of the `Vec`, in order.
    #[verifier::external_body]
    pub fn from_vec(v: Vec<u8>) -> (w: Witness)
        ensures
            witness_bytes(w) == v@,
    {
        Witness { inner: SmallVec::from_vec(v) }
    }

    /// `SmallVec::as_slice`: a view of all the bytes, in order.
    #[verifier::external_body]
    pub fn as_slice(&self) -> (s: &[u8])
        ensures
            s@ == witness_bytes(*self),
    {
        self.inner.as_slice()
    }
}

/// `ArrayVec::new`: an empty buffer.
#[verifier::external_body]
pub fn frames_new() -> (a: ArrayVec<u8, 512>)
    ensures
        frame_bytes(a) == Seq::<u8>::empty(),
{
    ArrayVec::new()
}

/// `ArrayVec::len`: the number of bytes held.
#[verifier::external_body]
pub fn frames_len(a: &ArrayVec<u8, 512>) -> (n: usize)
    ensures
        n == frame_bytes(*a).len(),
        n <= 512,
{
    a.len()
}

/// `ArrayVec::push`: appends one byte; the buffer must not be full (it panics then).
#[verifier::external_body]
pub fn frames_push(a: &mut ArrayVec<u8, 512>, byte: u8)
    requires
        frame_bytes(*old(a)).len() < 512,
    ensures
        frame_bytes(*final(a)) == frame_bytes(*old(a)).push(byte),
{
    a.push(byte)
}

/// `ArrayVec::as_slice`: a view of all the bytes, in order.
#[verifier::external_body]
pub fn frames_as_slice(a: &ArrayVec<u8, 512>) -> (s: &[u8])
    ensures
        s@ == frame_bytes(*a),
{
    a.as_slice()
}

/// `ArrayVec::new`: an empty premise buffer.
#[verifier::external_body]
pub fn premises_new() -> (a: ArrayVec<[u8; 32], 4>)
    ensures
        premise_items(a) == Seq::<[u8; 32]>::empty(),
{
    ArrayVec::new()
}

/// `ArrayVec::len`: the number of premises held.
#[verifier::external_body]
pub fn premises_len(a: &ArrayVec<[u8; 32], 4>) -> (n: usize)
    ensures
        n == premise_items(*a).len(),
        n <= 4,
{
    a.len()
}

/// `ArrayVec::push`: appends one premise; the buffer must not be full (it panics then).
#[verifier::external_body]
pub fn premises_push(a: &mut ArrayVec<[u8; 32], 4>, premise: [u8; 32])
    requires
        premise_items(*old(a)).len() < 4,
    ensures
        premise_items(*final(a)) == premise_items(*old(a)).push(premise),
{
    a.push(premise)
}

/// `ArrayVec::as_slice`: a view of all the premises, in order.
#[verifier::external_body]
pub fn premises_as_slice(a: &ArrayVec<[u8; 32], 4>) -> (s: &[[u8; 32]])
    ensures
        s@ == premise_items(*a),
{
    a.as_slice()
}

/// `blake3::hash(data).as_bytes()`: the 32-byte BLAKE3 digest of `data`.
#[verifier::external_body]
pub fn blake3_hash(data: &[u8]) -> (h: [u8; 32])
    ensures
        h@ == blake3_digest(data@),
{
    *blake3::hash(data).as_bytes()
}


/// Sparse boundary column storage: a `smallvec` vector of edge indices,
/// inline up to 8 entries.
#[derive(Debug)]
#[verifier::external_body]
pub struct SparseCol {
    inner: SmallVec<[u32; 8]>,
}

/// The edge indices held by a sparse column, in order.
pub uninterp spec fn sparse_items(c: SparseCol) -> Seq<u32>;

impl SparseCol {
    /// `SmallVec::new`: an empty vector.
    #[verifier::external_body]
    pub(crate) fn new() -> (c: SparseCol)
        ensures
            sparse_items(c) == Seq::<u32>::empty(),
    {
        SparseCol { inner: SmallVec::new() }
    }

    /// `SmallVec::push`: appends one index.
    #[verifier::external_body]
    pub(crate) fn push(&mut self, x: u32)
        ensures
            sparse_items(*final(self)) == sparse_items(*old(self)).push(x),
    {
        self.inner.push(x)
    }

    /// `SmallVec::as_slice`: a view of all the indices, in order.
    #[verifier::external_body]
    pub(crate) fn as_slice(&self) -> (s: &[u32])
        ensures
            s@ == sparse_items(*self),
    {
        self.inner.as_slice()
    }
}


/// Curvature seed list: a `smallvec` vector of `(node, degree)` pairs,
/// inline up to 8 entries.
#[derive(Debug)]
#[verifier::external_body]
pub struct SeedList {
    inner: SmallVec<[(NodeId, usize); 8]>,
}

/// The seeds held by a seed list, in order.
pub uninterp spec fn seed_items(s: SeedList) -> Seq<(NodeId, usize)>;

impl SeedList {
    /// `SmallVec::new`: an empty vector.
    #[verifier::external_body]
    pub(crate) fn new() -> (s: SeedList)
        ensures
            seed_items(s) == Seq::<(NodeId, usize)>::empty(),
    {
        SeedList { inner: SmallVec::new() }
    }

    /// `SmallVec::as_slice`: a view of all the seeds, in order.
    #[verifier::external_body]
    pub(crate) fn as_slice(&self) -> (s: &[(NodeId, usize)])
        ensures
            s@ == seed_items(*self),
    {
        self.inner.as_slice()
    }

    /// `SmallVec::insert`: places `x` at `index`, shifting the rest right;
    /// the index must not exceed the length (it panics then).
    #[verifier::external_body]
    pub(crate) fn insert(&mut self, index: usize, x: (NodeId, usize))
        requires
            index <= seed_items(*old(self)).len(),
        ensures
            seed_items(*final(self)) == seed_items(*old(self)).insert(index as int, x),
    {
        self.inner.insert(index, x)
    }

    /// `SmallVec::truncate`: keeps the first `len` seeds (all of them when
    /// there are fewer).
    #[verifier::external_body]
    pub(crate) fn truncate(&mut self, len: usize)
        ensures
            seed_items(*final(self)) == if len < seed_items(*old(self)).len() {
                seed_items(*old(self)).take(len as int)
            } else {
                seed_items(*old(self))
            },
    {
        self.inner.truncate(len)
    }
}

/// Layer-0 adjacency storage of one HNSW node: a `smallvec` vector of packed
/// `(neighbour, slab)` words, inline up to 32 entries.
#[derive(Debug)]
#[verifier::external_body]
pub struct PackedList {
    inner: SmallVec<[u64; 32]>,
}

/// The packed words held by a layer-0 list, in order.
pub uninterp spec fn packed_items(l: PackedList) -> Seq<u64>;

impl Clone for PackedList {
    /// `SmallVec::clone`: a copy holding the same words.
    #[verifier::external_body]
    fn clone(&self) -> (c: PackedList)
        ensures
            packed_items(c) == packed_items(*self),
    {
        PackedList { inner: self.inner.clone() }
    }
}

impl PackedList {
    /// `SmallVec::new`: an empty vector.
    #[verifier::external_body]
    pub(crate) fn new() -> (l: PackedList)
        ensures
            packed_items(l) == Seq::<u64>::empty(),
    {
        PackedList { inner: SmallVec::new() }
    }

    /// `SmallVec::as_slice`: a view of all the words, in order.
    #[verifier::external_body]
    pub(crate) fn as_slice(&self) -> (s: &[u64])
        ensures
            s@ == packed_items(*self),
    {
        self.inner.as_slice()
    }

    /// `SmallVec::insert`: places `x` at `index`, shifting the rest right;
    /// the index must not exceed the length (it panics then).
    #[verifier::external_body]
    pub(crate) fn insert(&mut self, index: usize, x: u64)
        requires
            index <= packed_items(*old(self)).len(),
        ensures
            packed_items(*final(self)) == packed_items(*old(self)).insert(index as int, x),
    {
        self.inner.insert(index, x)
    }

    /// `SmallVec::remove`: takes out the word at `index`, shifting the rest
    /// left; the index must be in bounds (it panics otherwise).
    #[verifier::external_body]
    pub(crate) fn remove(&mut self, index: usize) -> (x: u64)
        requires
            index < packed_items(*old(self)).len(),
        ensures
            x == packed_items(*old(self))[index as int],
            packed_items(*final(self)) == packed_items(*old(self)).remove(index as int),
    {
        self.inner.remove(index)
    }

    /// `SmallVec::clear`: removes every word.
    #[verifier::external_body]
    pub(crate) fn clear(&mut self)
        ensures
            packed_items(*final(self)) == Seq::<u64>::empty(),
    {
        self.inner.clear()
    }
}


/// Layer-0 block groups of one HNSW node: a `smallvec` vector of
/// `(block, lane mask)` pairs, inline up to 4 entries.
#[derive(Debug)]
#[verifier::external_body]
pub struct GroupList {
    inner: SmallVec<[(u32, u8); 4]>,
}

/// The `(block, lane mask)` pairs held by a group list, in order.
pub uninterp spec fn group_items(l: GroupList) -> Seq<(u32, u8)>;

impl Clone for GroupList {
    /// `SmallVec::clone`: a copy holding the same pairs.
    #[verifier::external_body]
    fn clone(&self) -> (c: GroupList)
        ensures
            group_items(c) == group_items(*self),
    {
        GroupList { inner: self.inner.clone() }
    }
}

impl GroupList {
    /// `SmallVec::new`: an empty vector.
    #[verifier::external_body]
    pub(crate) fn new() -> (l: GroupList)
        ensures
            group_items(l) == Seq::<(u32, u8)>::empty(),
    {
        GroupList { inner: SmallVec::new() }
    }

    /// `SmallVec::as_slice`: a view of all the pairs, in order.
    #[verifier::external_body]
    pub(crate) fn as_slice(&self) -> (s: &[(u32, u8)])
        ensures
            s@ == group_items(*self),
    {
        self.inner.as_slice()
    }

    /// `SmallVec::insert`: places `x` at `index`, shifting the rest right;
    /// the index must not exceed the length (it panics then).
    #[verifier::external_body]
    pub(crate) fn insert(&mut self, index: usize, x: (u32, u8))
        requires
            index <= group_items(*old(self)).len(),
        ensures
            group_items(*final(self)) == group_items(*old(self)).insert(index as int, x),
    {
        self.inner.insert(index, x)
    }

    /// `SmallVec::remove`: takes out the pair at `index`, shifting the rest
    /// left; the index must be in bounds (it panics otherwise).
    #[verifier::external_body]
    pub(crate) fn remove(&mut self, index: usize) -> (x: (u32, u8))
        requires
            index < group_items(*old(self)).len(),
        ensures
            x == group_items(*old(self))[index as int],
            group_items(*final(self)) == group_items(*old(self)).remove(index as int),
    {
        self.inner.remove(index)
    }

    /// Assignment through `SmallVec`'s mutable indexing: replaces the pair at
    /// `index`, which must be in bounds (it panics otherwise).
    #[verifier::external_body]
    pub(crate) fn set(&mut self, index: usize, x: (u32, u8))
        requires
            index < group_items(*old(self)).len(),
        ensures
            group_items(*final(self)) == group_items(*old(self)).update(index as int, x),
    {
        self.inner[index] = x;
    }

    /// `SmallVec::clear`: removes every pair.
    #[verifier::external_body]
    pub(crate) fn clear(&mut self)
        ensures
            group_items(*final(self)) == Seq::<(u32, u8)>::empty(),
    {
        self.inner.clear()
    }
}


/// Upper-layer adjacency of one HNSW node at one layer: a `smallvec` vector
/// of neighbour indices, inline up to 16 entries.
#[derive(Debug)]
#[verifier::external_body]
pub struct UpperList {
    inner: SmallVec<[u32; 16]>,
}

/// The neighbour indices held by an upper-layer list, in order.
pub uninterp spec fn upper_items(l: UpperList) -> Seq<u32>;

impl Clone for UpperList {
    /// `SmallVec::clone`: a copy holding the same indices.
    #[verifier::external_body]
    fn clone(&self) -> (c: UpperList)
        ensures
            upper_items(c) == upper_items(*self),
    {
        UpperList { inner: self.inner.clone() }
    }
}

impl UpperList {
    /// `SmallVec::new`: an empty vector.
    #[verifier::external_body]
    pub(crate) fn new() -> (l: UpperList)
        ensures
            upper_items(l) == Seq::<u32>::empty(),
    {
        UpperList { inner: SmallVec::new() }
    }

    /// `SmallVec::as_slice`: a view of all the indices, in order.
    #[verifier::external_body]
    pub(crate) fn as_slice(&self) -> (s: &[u32])
        ensures
            s@ == upper_items(*self),
    {
        self.inner.as_slice()
    }

    /// `SmallVec::insert`: places `x` at `index`, shifting the rest right;
    /// the index must not exceed the length (it panics then).
    #[verifier::external_body]
    pub(crate) fn insert(&mut self, index: usize, x: u32)
        requires
            index <= upper_items(*old(self)).len(),
        ensures
            upper_items(*final(self)) == upper_items(*old(self)).insert(index as int, x),
    {
        self.inner.insert(index, x)
    }

    /// `SmallVec::remove`: takes out the index at `index`, shifting the rest
    /// left; the position must be in bounds (it panics otherwise).
    #[verifier::external_body]
    pub(crate) fn remove(&mut self, index: usize) -> (x: u32)
        requires
            index < upper_items(*old(self)).len(),
        ensures
            x == upper_items(*old(self))[index as int],
            upper_items(*final(self)) == upper_items(*old(self)).remove(index as int),
    {
        self.inner.remove(index)
    }

    /// `SmallVec::clear`: removes every index.
    #[verifier::external_body]
    pub(crate) fn clear(&mut self)
        ensures
            upper_items(*final(self)) == Seq::<u32>::empty(),
    {
        self.inner.clear()
    }
}

} // verus!
