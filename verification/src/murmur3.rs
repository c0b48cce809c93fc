//! Streaming 32-bit `MurmurHash3` (the x86 variant, seed 0).
//!
//! The stream is mixed one complete little-endian 4-byte block at a time; the
//! 0 to 3 bytes that do not yet complete a block are carried in a small fixed
//! buffer until later writes complete them. A final avalanche mix folds in
//! the trailing fragment and the total byte count.

use vstd::prelude::*;
use vstd::arithmetic::div_mod::lemma_fundamental_div_mod;
use vstd::arithmetic::div_mod::lemma_fundamental_div_mod_converse_mod;
use vstd::slice::slice_subrange;

use crate::Hasher;

verus! {

/// First multiplicative constant of the block mix.
pub const C1: u32 = 0xcc9e2d51;

/// Second multiplicative constant of the block mix.
pub const C2: u32 = 0x1b873593;

/// Rotation applied between the two block-mix multiplications.
pub const R1: u32 = 15;

/// A 32-bit word rotated left by `r` bits.
pub open spec fn rotl(x: u32, r: u32) -> u32
    recommends
        0 < r < 32,
{
    (x << r) | (x >> ((32 - r) as u32))
}

/// Four bytes read as one little-endian 32-bit word.
pub open spec fn word_le(b0: u8, b1: u8, b2: u8, b3: u8) -> u32 {
    (b0 as u32) | ((b1 as u32) << 8) | ((b2 as u32) << 16) | ((b3 as u32) << 24)
}

/// Steps 1 to 3 of the block mix: multiply by `C1`, rotate left by `R1`,
/// multiply by `C2` (wrapping 32-bit multiplications).
pub open spec fn pre_mix_spec(k: u32) -> u32 {
    rotl(k.wrapping_mul(C1), R1).wrapping_mul(C2)
}

/// The full block mix: fold one complete block `k` into the running state.
pub open spec fn mix_block(state: u32, k: u32) -> u32 {
    5u32.wrapping_mul(rotl(state ^ pre_mix_spec(k), 13)).wrapping_add(0xe6546b64)
}

/// The running state after mixing every complete 4-byte block of `s` into
/// `state`, left to right. A trailing fragment of 1 to 3 bytes is not part of
/// any block and is ignored here; `finish32` folds it in separately.
pub open spec fn blocks_state(state: u32, s: Seq<u8>) -> u32
    decreases s.len(),
{
    if s.len() < 4 {
        state
    } else {
        blocks_state(mix_block(state, word_le(s[0], s[1], s[2], s[3])), s.skip(4))
    }
}

/// The trailing 1 to 3 bytes assembled into a partial little-endian block.
pub open spec fn tail_word(t: Seq<u8>) -> u32
    recommends
        t.len() <= 3,
{
    if t.len() == 3 {
        (t[0] as u32) | ((t[1] as u32) << 8) | ((t[2] as u32) << 16)
    } else if t.len() == 2 {
        (t[0] as u32) | ((t[1] as u32) << 8)
    } else if t.len() == 1 {
        t[0] as u32
    } else {
        0
    }
}

/// The finalization (avalanche) mix: fold the total byte count into the state
/// and spread every bit's influence over the whole word.
pub open spec fn final_mix(state: u32, processed: u32) -> u32 {
    let h0 = state ^ processed;
    let h1 = h0 ^ (h0 >> 16);
    let h2 = h1.wrapping_mul(0x85ebca6b);
    let h3 = h2 ^ (h2 >> 13);
    let h4 = h3.wrapping_mul(0xc2b2ae35);
    h4 ^ (h4 >> 16)
}

/// One-shot `MurmurHash3` (x86, 32 bits, seed 0) of a whole byte stream:
/// mix every complete block, xor in the pre-mixed trailing fragment if there
/// is one, then apply the finalization mix with the byte count (which the
/// hasher accumulates modulo 2^32).
pub open spec fn murmur3(s: Seq<u8>) -> u32 {
    let tail = s.skip((s.len() - s.len() % 4) as int);
    let body = blocks_state(0, s);
    let pre = if tail.len() == 0 {
        body
    } else {
        body ^ pre_mix_spec(tail_word(tail))
    };
    final_mix(pre, (s.len() % 0x1_0000_0000) as u32)
}

/// Block mixing is compositional: with `a` made of complete blocks (a length
/// that is a multiple of 4), mixing `a + b` equals mixing `a` and continuing
/// with `b`. This is why a stream hashed in pieces equals the stream hashed
/// in one piece.
pub proof fn lemma_blocks_state_append(state: u32, a: Seq<u8>, b: Seq<u8>)
    requires
        a.len() % 4 == 0,
    ensures
        blocks_state(state, a + b) == blocks_state(blocks_state(state, a), b),
    decreases a.len(),
{
    if a.len() == 0 {
        assert(a + b =~= b);
    } else {
        assert(a.len() >= 4);
        assert((a + b).skip(4) =~= a.skip(4) + b);
        assert((a + b)[0] == a[0]);
        assert((a + b)[1] == a[1]);
        assert((a + b)[2] == a[2]);
        assert((a + b)[3] == a[3]);
        assert(a.skip(4).len() % 4 == 0);
        lemma_blocks_state_append(mix_block(state, word_le(a[0], a[1], a[2], a[3])), a.skip(4), b);
    }
}

/// Hashing the empty stream yields 0: no blocks, no tail, and the
/// finalization mix of an all-zero state is 0.
pub proof fn lemma_murmur3_empty()
    ensures
        murmur3(Seq::<u8>::empty()) == 0,
{
    let s = Seq::<u8>::empty();
    assert(s.skip(0) =~= s);
    assert(0u32 ^ 0u32 == 0u32) by (bit_vector);
    assert(0u32 >> 16 == 0u32) by (bit_vector);
    assert(0u32 >> 13 == 0u32) by (bit_vector);
    assert(0u32.wrapping_mul(0x85ebca6b) == 0);
    assert(0u32.wrapping_mul(0xc2b2ae35) == 0);
}

/// Splitting a stream at a block boundary: a trailing fragment shorter than
/// a block leaves the state alone, so the state after the whole stream is the
/// state after its complete-blocks prefix.
proof fn lemma_blocks_state_cut(state: u32, s: Seq<u8>, cut: int)
    requires
        0 <= cut <= s.len(),
        cut % 4 == 0,
        s.len() - cut < 4,
    ensures
        blocks_state(state, s) == blocks_state(state, s.take(cut)),
{
    lemma_blocks_state_append(state, s.take(cut), s.skip(cut));
    assert(s.take(cut) + s.skip(cut) =~= s);
}

/// A stream's length splits as a complete-blocks prefix plus its length
/// modulo 4.
proof fn lemma_mod4_split(start: int, idx: int)
    requires
        0 <= start,
        idx == start % 4,
    ensures
        (start - idx) % 4 == 0,
{
    lemma_fundamental_div_mod(start, 4);
    lemma_fundamental_div_mod_converse_mod(start - idx, 4, start / 4, 0);
}

/// Adding `extra` bytes to a stream whose length is `base`, with `base` on a
/// block boundary and `extra` short of a block, puts the length at `extra`
/// past the last block boundary.
proof fn lemma_mod4_add_short(base: int, extra: int)
    requires
        0 <= base,
        base % 4 == 0,
        0 <= extra < 4,
    ensures
        (base + extra) % 4 == extra,
{
    lemma_fundamental_div_mod(base, 4);
    lemma_fundamental_div_mod_converse_mod(base + extra, 4, base / 4, extra);
}

/// A single complete block mixes in one step.
proof fn lemma_blocks_state_single(state: u32, blk: Seq<u8>)
    requires
        blk.len() == 4,
    ensures
        blocks_state(state, blk) == mix_block(state, word_le(blk[0], blk[1], blk[2], blk[3])),
{
    reveal_with_fuel(blocks_state, 2);
    assert(blk.skip(4) =~= Seq::<u8>::empty());
}

/// One mixing step moves the complete-blocks boundary forward by one block:
/// folding the block at position `p` into the state for the first `p` bytes
/// gives the state for the first `p + 4` bytes.
proof fn lemma_mix_step(state: u32, s: Seq<u8>, p: int)
    requires
        0 <= p,
        p + 4 <= s.len(),
        p % 4 == 0,
        state == blocks_state(0, s.take(p)),
    ensures
        blocks_state(0, s.take(p + 4)) == mix_block(state, word_le(s[p], s[p + 1], s[p + 2], s[p + 3])),
        (p + 4) % 4 == 0,
{
    let blk = s.subrange(p, p + 4);
    assert(s.take(p) + blk =~= s.take(p + 4));
    lemma_blocks_state_append(0, s.take(p), blk);
    lemma_blocks_state_single(state, blk);
    assert(blk[0] == s[p] && blk[1] == s[p + 1] && blk[2] == s[p + 2] && blk[3] == s[p + 3]);
    lemma_mod4_add_block(p);
}

/// Moving the boundary one whole block forward keeps it on a block boundary.
proof fn lemma_mod4_add_block(base: int)
    requires
        0 <= base,
        base % 4 == 0,
    ensures
        (base + 4) % 4 == 0,
{
    lemma_fundamental_div_mod(base, 4);
    lemma_fundamental_div_mod_converse_mod(base + 4, 4, base / 4 + 1, 0);
}

/// Accumulating the byte count with wrapping 32-bit addition tracks the
/// stream's length modulo 2^32.
proof fn lemma_processed_wraps(p: u32, t: u32, start: int, dlen: int)
    requires
        0 <= start,
        0 <= dlen,
        p == start % 0x1_0000_0000,
        t == dlen % 0x1_0000_0000,
    ensures
        p.wrapping_add(t) == (start + dlen) % 0x1_0000_0000,
{
    let m = 0x1_0000_0000int;
    lemma_fundamental_div_mod(start, m);
    lemma_fundamental_div_mod(dlen, m);
    if p + t > u32::MAX {
        lemma_fundamental_div_mod_converse_mod(start + dlen, m, start / m + dlen / m + 1, p + t - m);
    } else {
        lemma_fundamental_div_mod_converse_mod(start + dlen, m, start / m + dlen / m, p + t);
    }
}

/// Steps 1 to 3 of the block mix, applied to a complete block as soon as it
/// is available, and to the trailing fragment in `finish32`.
pub fn pre_mix(block: u32) -> (r: u32)
    ensures
        r == pre_mix_spec(block),
{
    let k = block.wrapping_mul(C1);
    let k = (k << R1) | (k >> (32 - R1));
    k.wrapping_mul(C2)
}

/// How many bytes of the carry buffer hold a pending block fragment: 0 to 3.
/// A complete block never stays buffered, so 4 is not a state.
#[derive(Clone, Copy)]
pub enum Index {
    _0,
    _1,
    _2,
    _3,
}

impl Index {
    /// The number of pending bytes this index denotes.
    pub open spec fn value(self) -> int {
        match self {
            Index::_0 => 0,
            Index::_1 => 1,
            Index::_2 => 2,
            Index::_3 => 3,
        }
    }

    /// The index as a `usize`.
    pub fn usize(self) -> (r: usize)
        ensures
            r == self.value(),
    {
        match self {
            Index::_0 => 0,
            Index::_1 => 1,
            Index::_2 => 2,
            Index::_3 => 3,
        }
    }
}

impl From<usize> for Index {
    /// The byte count `x` reduced to its position within a 4-byte block.
    fn from(x: usize) -> (r: Self) {
        match x % 4 {
            0 => Index::_0,
            1 => Index::_1,
            2 => Index::_2,
            _ => Index::_3,
        }
    }
}

impl vstd::std_specs::convert::FromSpecImpl<usize> for Index {
    open spec fn obeys_from_spec() -> bool {
        true
    }

    open spec fn from_spec(x: usize) -> Index {
        if x % 4 == 0 {
            Index::_0
        } else if x % 4 == 1 {
            Index::_1
        } else if x % 4 == 2 {
            Index::_2
        } else {
            Index::_3
        }
    }
}

/// The running combined hash value: reflects exactly the complete blocks
/// consumed so far, never any buffered fragment.
struct State(u32);

impl State {
    /// Fold one complete little-endian block into the running state.
    fn process_block(&mut self, k: u32)
        ensures
            final(self).0 == mix_block(old(self).0, k),
    {
        self.0 = self.0 ^ pre_mix(k);
        self.0 = 5u32.wrapping_mul((self.0 << 13) | (self.0 >> 19)).wrapping_add(0xe6546b64);
    }
}

/// 32-bit `MurmurHash3` hasher.
///
/// Accepts data in writes of any size and fragmentation and yields a result
/// bit-identical to hashing the same bytes in one shot, while buffering at
/// most 3 bytes between writes.
pub struct Murmur3Hasher {
    buf: [u8; 4],
    index: Index,
    processed: u32,
    state: State,
    written: Ghost<Seq<u8>>,
}

impl Murmur3Hasher {
    /// Append `data` to the carry buffer behind the pending bytes. Only the
    /// buffer and the index change; a full block (4 pending bytes) leaves the
    /// index back at zero.
    fn push(&mut self, data: &[u8])
        requires
            old(self).index.value() + data@.len() <= 4,
        ensures
            final(self).index.value() == (old(self).index.value() + data@.len()) % 4,
            forall|j: int|
                0 <= j < old(self).index.value() ==> final(self).buf@[j] == old(self).buf@[j],
            forall|j: int|
                old(self).index.value() <= j < old(self).index.value() + data@.len()
                    ==> #[trigger] final(self).buf@[j] == data@[j - old(self).index.value()],
            final(self).state.0 == old(self).state.0,
            final(self).processed == old(self).processed,
            final(self).written == old(self).written,
    {
        let start = self.index.usize();
        let len = data.len();
        let mut i: usize = 0;
        while i < len
            invariant
                i <= len,
                len == data@.len(),
                start == old(self).index.value(),
                start + len <= 4,
                forall|j: int| 0 <= j < start ==> self.buf@[j] == old(self).buf@[j],
                forall|j: int|
                    start <= j < start + i ==> #[trigger] self.buf@[j] == data@[j - start],
                self.index == old(self).index,
                self.state.0 == old(self).state.0,
                self.processed == old(self).processed,
                self.written == old(self).written,
            decreases len - i,
        {
            self.buf[start + i] = data[i];
            i = i + 1;
        }
        self.index = Index::from(start + len);
    }

    /// Mix every complete 4-byte block of `data[off..]` into the running
    /// state, as soon as each is available, leaving fewer than 4 bytes
    /// unconsumed. `start` is the position of `data`'s first byte within the
    /// whole stream written so far; `start + off` sits on a block boundary.
    fn mix_full_blocks(&mut self, data: &[u8], off: usize, Ghost(start): Ghost<int>) -> (end: usize)
        requires
            off <= data@.len(),
            0 <= start,
            old(self).written@.len() == start + data@.len(),
            forall|j: int| 0 <= j < data@.len() ==> old(self).written@[start + j] == data@[j],
            (start + off) % 4 == 0,
            old(self).state.0 == blocks_state(0, old(self).written@.take(start + off)),
        ensures
            off <= end <= data@.len(),
            data@.len() - end < 4,
            (start + end) % 4 == 0,
            final(self).state.0 == blocks_state(0, final(self).written@.take(start + end)),
            final(self).written == old(self).written,
            final(self).processed == old(self).processed,
            final(self).index == old(self).index,
            final(self).buf == old(self).buf,
    {
        let dlen = data.len();
        let mut off = off;
        while dlen - off >= 4
            invariant
                off <= dlen,
                dlen == data@.len(),
                0 <= start,
                self.written@.len() == start + dlen,
                forall|j: int| 0 <= j < dlen ==> self.written@[start + j] == data@[j],
                (start + off) % 4 == 0,
                self.state.0 == blocks_state(0, self.written@.take(start + off)),
                self.written == old(self).written,
                self.processed == old(self).processed,
                self.index == old(self).index,
                self.buf == old(self).buf,
            decreases dlen - off,
        {
            let b0 = data[off];
            let b1 = data[off + 1];
            let b2 = data[off + 2];
            let b3 = data[off + 3];
            let k = (b0 as u32) | ((b1 as u32) << 8) | ((b2 as u32) << 16) | ((b3 as u32) << 24);
            proof {
                let s = self.written@;
                let p = start + off;
                lemma_mix_step(self.state.0, s, p);
                assert(k == word_le(s[p], s[p + 1], s[p + 2], s[p + 3]));
            }
            self.state.process_block(k);
            off = off + 4;
        }
        off
    }

    /// Fold an input too short to complete the pending block into the carry
    /// buffer. `start` is the position of `data`'s first byte within the
    /// whole stream written so far.
    fn extend_carry(&mut self, data: &[u8], Ghost(start): Ghost<int>)
        requires
            0 <= start,
            old(self).written@.len() == start + data@.len(),
            forall|j: int| 0 <= j < data@.len() ==> old(self).written@[start + j] == data@[j],
            1 <= old(self).index.value() <= 3,
            old(self).index.value() == start % 4,
            old(self).index.value() + data@.len() < 4,
            forall|j: int|
                0 <= j < old(self).index.value() ==> #[trigger] old(self).buf@[j]
                    == old(self).written@[start - old(self).index.value() + j],
            old(self).state.0 == blocks_state(
                0,
                old(self).written@.take(start - old(self).index.value()),
            ),
            old(self).processed == old(self).written@.len() % 0x1_0000_0000,
        ensures
            final(self).inv(),
            final(self).written == old(self).written,
    {
        let ghost s = self.written@;
        let ghost idx = self.index.value();
        let ghost bstart = start - idx;
        self.push(data);
        proof {
            let dlen = data@.len() as int;
            lemma_mod4_split(start, idx);
            lemma_mod4_add_short(bstart, idx + dlen);
            lemma_blocks_state_cut(0, s, bstart);
            assert forall|j: int| 0 <= j < s.len() % 4 implies #[trigger] self.buf@[j] == s[s.len()
                - s.len() % 4 + j] by {
                if j >= idx {
                    assert(self.buf@[j] == data@[j - idx]);
                }
            }
        }
    }

    /// Complete the pending block with exactly the input bytes it still
    /// needs, and mix it. Returns how many input bytes were consumed.
    fn complete_block(&mut self, data: &[u8], Ghost(start): Ghost<int>) -> (used: usize)
        requires
            0 <= start,
            old(self).written@.len() == start + data@.len(),
            forall|j: int| 0 <= j < data@.len() ==> old(self).written@[start + j] == data@[j],
            1 <= old(self).index.value() <= 3,
            old(self).index.value() == start % 4,
            old(self).index.value() + data@.len() >= 4,
            forall|j: int|
                0 <= j < old(self).index.value() ==> #[trigger] old(self).buf@[j]
                    == old(self).written@[start - old(self).index.value() + j],
            old(self).state.0 == blocks_state(
                0,
                old(self).written@.take(start - old(self).index.value()),
            ),
        ensures
            used == 4 - old(self).index.value(),
            (start + used) % 4 == 0,
            final(self).state.0 == blocks_state(0, final(self).written@.take(start + used)),
            final(self).index.value() == 0,
            final(self).written == old(self).written,
            final(self).processed == old(self).processed,
    {
        let ghost s = self.written@;
        let ghost idx = self.index.value();
        let ghost bstart = start - idx;
        let need = 4 - self.index.usize();
        self.push(slice_subrange(data, 0, need));
        let k = (self.buf[0] as u32) | ((self.buf[1] as u32) << 8) | ((self.buf[2] as u32) << 16)
            | ((self.buf[3] as u32) << 24);
        proof {
            lemma_mod4_split(start, idx);
            let blk = s.subrange(bstart, bstart + 4);
            assert forall|j: int| 0 <= j < 4 implies self.buf@[j] == blk[j] by {
                if j >= idx {
                    assert(self.buf@[j] == data@.subrange(0, 4 - idx)[j - idx]);
                    assert(self.buf@[j] == data@[j - idx]);
                }
            }
            assert(k == word_le(blk[0], blk[1], blk[2], blk[3]));
            lemma_blocks_state_append(0, s.take(bstart), blk);
            lemma_blocks_state_single(blocks_state(0, s.take(bstart)), blk);
            assert(s.take(bstart) + blk =~= s.take(bstart + 4));
            lemma_mod4_add_block(bstart);
        }
        self.state.process_block(k);
        self.index = Index::_0;
        need
    }

    /// Stash the trailing fragment (0 to 3 bytes past the last complete
    /// block) in the carry buffer, leaving the hasher well formed for the
    /// whole stream written so far.
    fn stash_tail(&mut self, data: &[u8], off: usize, Ghost(start): Ghost<int>)
        requires
            off <= data@.len(),
            data@.len() - off < 4,
            0 <= start,
            old(self).written@.len() == start + data@.len(),
            forall|j: int| 0 <= j < data@.len() ==> old(self).written@[start + j] == data@[j],
            (start + off) % 4 == 0,
            old(self).index.value() == 0,
            old(self).state.0 == blocks_state(0, old(self).written@.take(start + off)),
            old(self).processed == old(self).written@.len() % 0x1_0000_0000,
        ensures
            final(self).inv(),
            final(self).written == old(self).written,
    {
        let ghost s = self.written@;
        let ghost p: int = start + off;
        let dlen = data.len();
        let rem = dlen - off;
        self.push(slice_subrange(data, off, dlen));
        proof {
            lemma_mod4_add_short(p, rem as int);
            assert(s.len() % 4 == rem);
            lemma_blocks_state_cut(0, s, p);
            assert forall|j: int| 0 <= j < s.len() % 4 implies #[trigger] self.buf@[j] == s[s.len()
                - s.len() % 4 + j] by {
                assert(self.buf@[j] == data@.subrange(off as int, dlen as int)[j]);
                assert(self.buf@[j] == data@[off + j]);
            }
        }
    }
}

impl Default for Murmur3Hasher {
    /// A fresh hasher: zero mixing state, zero bytes processed, empty carry.
    fn default() -> (r: Self)
        ensures
            r.inv(),
            r.bytes() == Seq::<u8>::empty(),
    {
        Murmur3Hasher {
            buf: [0u8; 4],
            index: Index::_0,
            processed: 0,
            state: State(0),
            written: Ghost(Seq::empty()),
        }
    }
}

impl Hasher for Murmur3Hasher {
    closed spec fn inv(&self) -> bool {
        let s = self.written@;
        &&& self.index.value() == s.len() % 4
        &&& self.processed == s.len() % 0x1_0000_0000
        &&& self.state.0 == blocks_state(0, s)
        &&& forall|j: int|
            0 <= j < s.len() % 4 ==> #[trigger] self.buf@[j] == s[s.len() - s.len() % 4 + j]
    }

    closed spec fn bytes(&self) -> Seq<u8> {
        self.written@
    }

    open spec fn hash_of(s: Seq<u8>) -> u32 {
        murmur3(s)
    }

    fn write(&mut self, data: &[u8]) {
        let dlen = data.len();
        let ghost w: Seq<u8> = self.written@;
        let ghost s: Seq<u8> = w + data@;
        let ghost start: int = w.len() as int;

        let t = #[verifier::truncate] (dlen as u32);
        proof {
            assert(dlen as u32 == (dlen as int) % 0x1_0000_0000) by (bit_vector);
            lemma_processed_wraps(self.processed, t, start, dlen as int);
        }
        self.processed = self.processed.wrapping_add(t);
        self.written = Ghost(s);

        let idx = self.index.usize();
        let ghost bstart: int = start - idx;
        proof {
            lemma_mod4_split(start, idx as int);
            assert(w.take(bstart) =~= s.take(bstart));
            lemma_blocks_state_cut(0, w, bstart);
            assert forall|j: int| 0 <= j < data@.len() implies s[start + j] == data@[j] by {}
            assert forall|j: int| 0 <= j < idx implies #[trigger] self.buf@[j] == s[bstart
                + j] by {
                assert(self.buf@[j] == w[bstart + j]);
            }
        }
        let mut off: usize = 0;

        if idx != 0 {
            if dlen < 4 - idx {
                // The input does not complete a block: it only joins the carry.
                self.extend_carry(data, Ghost(start));
                return ;
            }
            off = self.complete_block(data, Ghost(start));
        }

        // Mix every complete block available in the remaining input.
        let off = self.mix_full_blocks(data, off, Ghost(start));

        // Stash the trailing fragment (0 to 3 bytes) in the carry buffer.
        self.stash_tail(data, off, Ghost(start));
    }

    fn finish32(&self) -> (r: u32) {
        let ghost s = self.written@;
        let ghost tail = s.skip((s.len() - s.len() % 4) as int);
        let h = match self.index {
            Index::_0 => self.state.0,
            Index::_1 => {
                let k = self.buf[0] as u32;
                proof {
                    assert(tail.len() == 1);
                    assert(k == tail_word(tail));
                }
                self.state.0 ^ pre_mix(k)
            },
            Index::_2 => {
                let k = (self.buf[0] as u32) | ((self.buf[1] as u32) << 8);
                proof {
                    assert(tail.len() == 2);
                    assert(k == tail_word(tail));
                }
                self.state.0 ^ pre_mix(k)
            },
            Index::_3 => {
                let k = (self.buf[0] as u32) | ((self.buf[1] as u32) << 8) | ((self.buf[2] as u32)
                    << 16);
                proof {
                    assert(tail.len() == 3);
                    assert(k == tail_word(tail));
                }
                self.state.0 ^ pre_mix(k)
            },
        };
        let h = h ^ self.processed;
        let h = h ^ (h >> 16);
        let h = h.wrapping_mul(0x85ebca6b);
        let h = h ^ (h >> 13);
        let h = h.wrapping_mul(0xc2b2ae35);
        let h = h ^ (h >> 16);
        h
    }

    fn finish(&self) -> (r: u64) {
        self.finish32() as u64
    }
}

} // verus!
