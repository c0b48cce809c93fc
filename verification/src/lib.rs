//! 32-bit hashing algorithms for targets where 64-bit arithmetic is costly.
//!
//! Two hashers are provided, both reachable through the [`Hasher`] trait:
//!
//! - [`FnvHasher`], the Fowler-Noll-Vo 1a hash: one xor and one multiply per
//!   byte, no internal buffering.
//! - [`Murmur3Hasher`], a streaming `MurmurHash3` (x86, 32-bit, seed 0): data
//!   may arrive in writes of any size and alignment, and the result is
//!   bit-identical to hashing the whole stream in one call.
//!
//! Every operation is total: `write` accepts any byte slice (including an
//! empty one) and `finish32` may be called at any point, any number of times,
//! without disturbing the stream being hashed.

use vstd::prelude::*;

pub mod fnv;
pub mod murmur3;

pub use crate::fnv::FnvHasher;
pub use crate::murmur3::Murmur3Hasher;

verus! {

/// A 32-bit hasher: an accumulator for a stream of bytes delivered through
/// any number of `write` calls, read out with `finish32`.
///
/// The contract makes the central guarantee of this crate explicit: the value
/// of `finish32` is a function (`Self::hash_of`) of the concatenation of all
/// bytes written so far — nothing else. In particular it does not depend on
/// how the stream was split across `write` calls, and reading the hash (a
/// shared borrow) can neither change it nor disturb later writes.
pub trait Hasher: Sized {
    /// The hasher's internal state is well formed.
    spec fn inv(&self) -> bool;

    /// The whole byte stream written so far, across all `write` calls.
    spec fn bytes(&self) -> Seq<u8>;

    /// The 32-bit hash this algorithm assigns to a byte stream.
    spec fn hash_of(s: Seq<u8>) -> u32;

    /// Append `data` to the stream being hashed. Any length is accepted;
    /// an empty slice leaves the stream unchanged.
    fn write(&mut self, data: &[u8])
        requires
            old(self).inv(),
        ensures
            final(self).inv(),
            final(self).bytes() == old(self).bytes() + data@,
    ;

    /// The 32-bit hash of everything written so far, as if it had arrived in
    /// a single `write`. Read-only and therefore idempotent.
    fn finish32(&self) -> (r: u32)
        requires
            self.inv(),
        ensures
            r == Self::hash_of(self.bytes()),
    ;

    /// `finish32` zero-extended to 64 bits, for callers that expect a wide
    /// hash value.
    fn finish(&self) -> (r: u64)
        requires
            self.inv(),
        ensures
            r == Self::hash_of(self.bytes()) as u64,
    ;
}

/// The concatenation of a sequence of byte chunks.
pub open spec fn concat_chunks(chunks: Seq<Vec<u8>>) -> Seq<u8> {
    chunks.map_values(|chunk: Vec<u8>| chunk@).flatten()
}

/// Concatenating one more chunk extends the flattened stream by that chunk.
proof fn lemma_concat_chunks_step(chunks: Seq<Vec<u8>>, i: int)
    requires
        0 <= i < chunks.len(),
    ensures
        concat_chunks(chunks.take(i + 1)) == concat_chunks(chunks.take(i)) + chunks[i]@,
{
    let views = |chunk: Vec<u8>| chunk@;
    assert(chunks.take(i + 1).map_values(views) =~= chunks.take(i).map_values(views).push(
        chunks[i]@,
    ));
    chunks.take(i).map_values(views).lemma_flatten_push(chunks[i]@);
}

/// Streaming equivalence: feeding the chunks one `write` at a time hashes
/// their concatenation. The result is pinned by the concatenated stream
/// alone, so every way of partitioning the same bytes — all-empty chunks,
/// single bytes, or one chunk holding everything — yields the same hash.
pub fn hash_of_chunks<H: Hasher>(h: &mut H, chunks: &Vec<Vec<u8>>) -> (r: u32)
    requires
        old(h).inv(),
    ensures
        final(h).inv(),
        final(h).bytes() == old(h).bytes() + concat_chunks(chunks@),
        r == H::hash_of(old(h).bytes() + concat_chunks(chunks@)),
{
    let mut i: usize = 0;
    proof {
        assert(chunks@.take(0).map_values(|chunk: Vec<u8>| chunk@) =~= Seq::<Seq<u8>>::empty());
        assert(h.bytes() + concat_chunks(chunks@.take(0)) =~= h.bytes());
    }
    while i < chunks.len()
        invariant
            i <= chunks@.len(),
            h.inv(),
            h.bytes() == old(h).bytes() + concat_chunks(chunks@.take(i as int)),
        decreases chunks@.len() - i,
    {
        h.write(chunks[i].as_slice());
        proof {
            lemma_concat_chunks_step(chunks@, i as int);
        }
        i = i + 1;
    }
    proof {
        assert(chunks@.take(chunks@.len() as int) =~= chunks@);
    }
    h.finish32()
}

/// Idempotence: `finish32` borrows the hasher immutably and its result is a
/// function of the stream, so two reads with no write in between are equal.
pub fn finish32_twice<H: Hasher>(h: &H) -> (r: (u32, u32))
    requires
        h.inv(),
    ensures
        r.0 == r.1,
{
    (h.finish32(), h.finish32())
}

/// Continuation: a `finish32` call leaves the hasher exactly as it was, so a
/// later `write` extends the same logical stream, and the final hash is that
/// of the whole concatenation.
pub fn write_after_finish32<H: Hasher>(h: &mut H, data: &[u8]) -> (r: (u32, u32))
    requires
        old(h).inv(),
    ensures
        final(h).inv(),
        final(h).bytes() == old(h).bytes() + data@,
        r.0 == H::hash_of(old(h).bytes()),
        r.1 == H::hash_of(old(h).bytes() + data@),
{
    let mid: u32 = h.finish32();
    h.write(data);
    let end: u32 = h.finish32();
    (mid, end)
}

} // verus!
