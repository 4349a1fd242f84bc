//! The byte cipher: XOR of a buffer against the keystream, resumable at
//! any byte offset within an entry's data region.
//!
//! Byte `i` of a region (counted from the region's start, not from the
//! start of any particular buffer) is XORed with byte `i % 4` of the
//! generator state reached after `i / 4` advances from the region's seed.
//! The cipher advances in 4-byte strides, so a read that stops between
//! word boundaries must keep using the unused bytes of the word the
//! generator is currently sitting on; [`CipherStream`] tracks that.

use vstd::prelude::*;

use crate::keystream::magic_at;

verus! {

/// Byte `k` (little-endian, `k < 4`) of the word `w`.
pub open spec fn byte_of(w: u32, k: nat) -> u8
    recommends
        k < 4,
{
    ((w >> ((8 * k) as u32)) & 0xff) as u8
}

/// The keystream byte applied at offset `i` of a region seeded with `seed`.
pub open spec fn key_byte(seed: u32, i: nat) -> u8 {
    byte_of(magic_at(seed, i / 4), i % 4)
}

/// The cipher of `b` when its first byte sits at offset `start` of a
/// region seeded with `seed`. Used identically for encode and decode.
pub open spec fn cipher_seq(b: Seq<u8>, seed: u32, start: nat) -> Seq<u8> {
    Seq::new(b.len(), |j: int| b[j] ^ key_byte(seed, (start + j) as nat))
}

/// A cipher session over one entry's data region: the current generator
/// word, the count of bytes already produced, and the region's seed.
pub struct CipherStream {
    pub magic: u32,
    pub pos: u64,
    pub seed: Ghost<u32>,
}

impl CipherStream {
    /// The generator word matches the position: `pos / 4` advances made.
    pub open spec fn wf(self) -> bool {
        self.magic == magic_at(self.seed@, (self.pos as nat) / 4)
    }

    /// Start a session at the beginning of a region seeded with `seed`.
    pub fn new(seed: u32) -> (s: Self)
        ensures
            s.wf(),
            s.seed@ == seed,
            s.pos == 0,
    {
        CipherStream { magic: seed, pos: 0, seed: Ghost(seed) }
    }

    /// Cipher the next `buf.len()` bytes of the region in place,
    /// resuming at whatever byte offset the session last stopped at.
    pub fn apply(&mut self, buf: &mut Vec<u8>)
        requires
            old(self).wf(),
            old(self).pos + old(buf).len() <= u64::MAX,
        ensures
            final(self).wf(),
            final(self).seed == old(self).seed,
            final(self).pos == old(self).pos + old(buf)@.len(),
            final(buf)@ == cipher_seq(old(buf)@, old(self).seed@, old(self).pos as nat),
    {
        let ghost seed = self.seed@;
        let ghost pos0 = self.pos as nat;
        let ghost orig = buf@;
        let n = buf.len();
        let mut i: usize = 0;
        while i < n
            invariant
                i <= n,
                n == buf.len() == orig.len(),
                pos0 + n <= u64::MAX,
                self.seed@ == seed,
                self.pos == pos0 + i,
                self.magic == magic_at(seed, (self.pos as nat) / 4),
                forall|j: int| 0 <= j < i ==> buf@[j] == orig[j] ^ key_byte(seed, (pos0 + j) as nat),
                forall|j: int| i <= j < n ==> buf@[j] == orig[j],
            decreases n - i,
        {
            let k: u32 = (self.pos % 4) as u32;
            proof {
                assert((self.pos % 4) as nat == (self.pos as nat) % 4);
                assert(key_byte(seed, self.pos as nat) == byte_of(self.magic, k as nat));
            }
            let b = buf[i] ^ (((self.magic >> (8 * k)) & 0xff) as u8);
            buf.set(i, b);
            proof {
                lemma_quarter_step(self.pos as int);
            }
            self.pos = self.pos + 1;
            if self.pos % 4 == 0 {
                let _ = crate::keystream::advance_magic(&mut self.magic);
            }
            i = i + 1;
        }
        proof {
            assert(buf@ =~= cipher_seq(orig, seed, pos0));
        }
    }
}

/// How one more byte moves the word index and the offset within the word.
proof fn lemma_quarter_step(p: int)
    requires
        p >= 0,
    ensures
        p % 4 == 3 ==> (p + 1) / 4 == p / 4 + 1 && (p + 1) % 4 == 0,
        p % 4 < 3 ==> (p + 1) / 4 == p / 4 && (p + 1) % 4 == p % 4 + 1,
{
    vstd::arithmetic::div_mod::lemma_fundamental_div_mod(p, 4);
    if p % 4 == 3 {
        vstd::arithmetic::div_mod::lemma_fundamental_div_mod_converse(p + 1, 4, p / 4 + 1, 0);
    } else {
        vstd::arithmetic::div_mod::lemma_fundamental_div_mod_converse(p + 1, 4, p / 4, p % 4 + 1);
    }
}

/// Cipher a whole buffer as one region starting at its seed: the mode
/// used for entry data written or extracted in one piece.
pub fn cipher_data(buf: &mut Vec<u8>, seed: u32)
    ensures
        final(buf)@ == cipher_seq(old(buf)@, seed, 0),
{
    let mut stream = CipherStream::new(seed);
    stream.apply(buf);
}

/// The cipher is a self-inverse: applying the same keystream twice, from
/// the same region offset, restores every byte sequence.
pub proof fn lemma_cipher_self_inverse(b: Seq<u8>, seed: u32, start: nat)
    ensures
        cipher_seq(cipher_seq(b, seed, start), seed, start) == b,
{
    let c = cipher_seq(b, seed, start);
    assert forall|j: int| 0 <= j < b.len() implies cipher_seq(c, seed, start)[j] == b[j] by {
        let k = key_byte(seed, (start + j) as nat);
        let x = b[j];
        assert((x ^ k) ^ k == x) by (bit_vector);
    }
    assert(cipher_seq(c, seed, start) =~= b);
}

/// Ciphering a region in consecutive chunks gives the same bytes as
/// ciphering it whole: the keystream depends only on seed and offset,
/// never on how reads were split.
pub proof fn lemma_cipher_chunked(b: Seq<u8>, seed: u32, start: nat, k: int)
    requires
        0 <= k <= b.len(),
    ensures
        cipher_seq(b, seed, start) == cipher_seq(b.take(k), seed, start) + cipher_seq(
            b.skip(k),
            seed,
            (start + k) as nat,
        ),
{
    assert(cipher_seq(b, seed, start) =~= cipher_seq(b.take(k), seed, start) + cipher_seq(
        b.skip(k),
        seed,
        (start + k) as nat,
    ));
}

/// The bytes of consecutive chunks, each ciphered at its own cumulative
/// offset within the region: what a sequence of bounded reads produces.
pub open spec fn cipher_chunks(chunks: Seq<Seq<u8>>, seed: u32, start: nat) -> Seq<u8>
    decreases chunks.len(),
{
    if chunks.len() == 0 {
        Seq::empty()
    } else {
        cipher_seq(chunks[0], seed, start) + cipher_chunks(
            chunks.skip(1),
            seed,
            (start + chunks[0].len()) as nat,
        )
    }
}

/// Any split into consecutive sub-buffers ciphers to the same bytes as
/// the whole region in one piece, however the lengths fall against the
/// 4-byte stride.
pub proof fn lemma_cipher_any_chunking(chunks: Seq<Seq<u8>>, seed: u32, start: nat)
    ensures
        cipher_chunks(chunks, seed, start) == cipher_seq(chunks.flatten(), seed, start),
    decreases chunks.len(),
{
    if chunks.len() == 0 {
        assert(chunks.flatten() =~= Seq::<u8>::empty());
        assert(cipher_chunks(chunks, seed, start) =~= cipher_seq(chunks.flatten(), seed, start));
    } else {
        let head = chunks[0];
        let k = head.len() as int;
        lemma_cipher_any_chunking(chunks.skip(1), seed, (start + k) as nat);
        assert(chunks.flatten() == chunks.first() + chunks.drop_first().flatten());
        assert(chunks.drop_first() =~= chunks.skip(1));
        let flat = chunks.flatten();
        assert(flat.take(k) =~= head);
        assert(flat.skip(k) =~= chunks.skip(1).flatten());
        lemma_cipher_chunked(flat, seed, start, k);
    }
}

} // verus!
