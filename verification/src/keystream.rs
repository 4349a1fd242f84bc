//! The linear-congruential keystream generator driving the archive cipher.
//!
//! The format uses two variants: multiplier 7 with increment 3 for the
//! per-word and per-byte obfuscation of table fields, names and data, and
//! multiplier 9 with increment 3, applied once to derive the table-wide
//! magic of the modern layout. Both wrap modulo 2^32.

use vstd::prelude::*;

verus! {

/// One step of the general-purpose generator: `m * 7 + 3`, wrapping.
pub open spec fn next_magic(m: u32) -> u32 {
    vstd::wrapping::u32_specs::wrapping_add(vstd::wrapping::u32_specs::wrapping_mul(m, 7), 3)
}

/// One step of the table-level generator of the modern layout: `m * 9 + 3`, wrapping.
pub open spec fn next_magic9(m: u32) -> u32 {
    vstd::wrapping::u32_specs::wrapping_add(vstd::wrapping::u32_specs::wrapping_mul(m, 9), 3)
}

/// Generator state after `n` advances of the 7/3 generator from `seed`.
pub open spec fn magic_at(seed: u32, n: nat) -> u32
    decreases n,
{
    if n == 0 {
        seed
    } else {
        next_magic(magic_at(seed, (n - 1) as nat))
    }
}

/// Consume one keystream word: returns the current state and steps the
/// generator, exactly as the word-level cipher does for every field.
pub fn advance_magic(magic: &mut u32) -> (prev: u32)
    ensures
        prev == *old(magic),
        *final(magic) == next_magic(*old(magic)),
{
    let prev = *magic;
    *magic = magic.wrapping_mul(7).wrapping_add(3);
    prev
}

/// Advancing `m + n` times equals advancing `n` times from the state
/// reached after `m` advances: a decode session may resume anywhere.
pub proof fn lemma_magic_at_add(seed: u32, m: nat, n: nat)
    ensures
        magic_at(seed, m + n) == magic_at(magic_at(seed, m), n),
    decreases n,
{
    if n > 0 {
        lemma_magic_at_add(seed, m, (n - 1) as nat);
    }
}

} // verus!
