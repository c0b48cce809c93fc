//! 32-bit Fowler-Noll-Vo hashing (the FNV-1a variant).

use vstd::prelude::*;

use crate::Hasher;

verus! {

/// The FNV-1a offset basis: the accumulator's starting value.
pub const BASIS: u32 = 0x811c9dc5;

/// The FNV prime: the accumulator is multiplied by it after every byte.
pub const PRIME: u32 = 0x1000193;

/// One FNV-1a step: xor the byte into the accumulator, then multiply by the
/// FNV prime with wrapping 32-bit multiplication.
pub open spec fn fnv1a_step(state: u32, byte: u8) -> u32 {
    (state ^ (byte as u32)).wrapping_mul(PRIME)
}

/// The accumulator reached from `state` after folding in every byte of `s`,
/// left to right.
pub open spec fn fnv1a_fold(state: u32, s: Seq<u8>) -> u32
    decreases s.len(),
{
    if s.len() == 0 {
        state
    } else {
        fnv1a_fold(fnv1a_step(state, s[0]), s.skip(1))
    }
}

/// The FNV-1a hash of a whole byte stream.
pub open spec fn fnv1a(s: Seq<u8>) -> u32 {
    fnv1a_fold(BASIS, s)
}

/// Folding is compositional: the accumulator after `a + b` is the accumulator
/// after `a`, continued with `b`. This is why hashing a stream in pieces
/// equals hashing it in one piece.
pub proof fn lemma_fnv1a_fold_append(state: u32, a: Seq<u8>, b: Seq<u8>)
    ensures
        fnv1a_fold(state, a + b) == fnv1a_fold(fnv1a_fold(state, a), b),
    decreases a.len(),
{
    if a.len() == 0 {
        assert(a + b =~= b);
    } else {
        assert((a + b).skip(1) =~= a.skip(1) + b);
        lemma_fnv1a_fold_append(fnv1a_step(state, a[0]), a.skip(1), b);
    }
}

/// One more byte at the end of the stream folds into the accumulator as one
/// more step.
pub proof fn lemma_fnv1a_fold_push(state: u32, s: Seq<u8>, byte: u8)
    ensures
        fnv1a_fold(state, s.push(byte)) == fnv1a_step(fnv1a_fold(state, s), byte),
{
    lemma_fnv1a_fold_append(state, s, seq![byte]);
    assert(s + seq![byte] =~= s.push(byte));
    let mid = fnv1a_fold(state, s);
    assert(seq![byte][0] == byte);
    assert(seq![byte].skip(1) =~= Seq::<u8>::empty());
    assert(fnv1a_fold(mid, seq![byte]) == fnv1a_fold(fnv1a_step(mid, byte), seq![byte].skip(1)));
    assert(fnv1a_fold(fnv1a_step(mid, byte), Seq::<u8>::empty()) == fnv1a_step(mid, byte));
}

/// Hashing the empty stream leaves the accumulator at the offset basis.
pub proof fn lemma_fnv1a_empty()
    ensures
        fnv1a(Seq::<u8>::empty()) == 0x811c9dc5,
{
}

/// 32-bit Fowler-Noll-Vo hasher (the FNV-1a variant).
pub struct FnvHasher {
    state: u32,
    written: Ghost<Seq<u8>>,
}

impl Default for FnvHasher {
    /// A fresh hasher: the accumulator at the offset basis, nothing written.
    fn default() -> (r: Self)
        ensures
            r.inv(),
            r.bytes() == Seq::<u8>::empty(),
    {
        FnvHasher { state: BASIS, written: Ghost(Seq::empty()) }
    }
}

impl Hasher for FnvHasher {
    closed spec fn inv(&self) -> bool {
        self.state == fnv1a(self.written@)
    }

    closed spec fn bytes(&self) -> Seq<u8> {
        self.written@
    }

    open spec fn hash_of(s: Seq<u8>) -> u32 {
        fnv1a(s)
    }

    fn write(&mut self, data: &[u8]) {
        let mut i: usize = 0;
        while i < data.len()
            invariant
                i <= data@.len(),
                self.inv(),
                self.written@ == old(self).written@ + data@.take(i as int),
            decreases data@.len() - i,
        {
            let byte = data[i];
            proof {
                lemma_fnv1a_fold_push(BASIS, self.written@, byte);
                assert(data@.take(i as int).push(byte) =~= data@.take(i + 1));
            }
            self.state = self.state ^ (byte as u32);
            self.state = self.state.wrapping_mul(PRIME);
            self.written = Ghost(self.written@.push(byte));
            i = i + 1;
        }
        proof {
            assert(data@.take(data@.len() as int) =~= data@);
        }
    }

    fn finish32(&self) -> (r: u32) {
        self.state
    }

    fn finish(&self) -> (r: u64) {
        self.finish32() as u64
    }
}

} // verus!
