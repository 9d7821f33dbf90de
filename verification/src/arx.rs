//! Word-level helpers shared by the Salsa20 and ChaCha20 cores: 32-bit
//! wrapping addition, left rotation, the SIGMA constant, the split of the
//! 64-bit block counter, and word/byte packing.

use vstd::prelude::*;

verus! {

use crate::bytes::le_nat;
use crate::bytes::le_bytes;
use crate::bytes::lemma_le_bytes_len;
use vstd::arithmetic::div_mod::lemma_div_denominator;

/// "expand 32-byte k" as four little-endian 32-bit words.
pub const SIGMA0: u32 = 0x61707865;

pub const SIGMA1: u32 = 0x3320646e;

pub const SIGMA2: u32 = 0x79622d32;

pub const SIGMA3: u32 = 0x6b206574;

/// 32-bit wrapping addition.
pub open spec fn wadd(a: u32, b: u32) -> u32 {
    if a + b > u32::MAX {
        (a + b - 0x1_0000_0000) as u32
    } else {
        (a + b) as u32
    }
}

/// 32-bit left rotation by `n` places, 0 < n < 32.
pub open spec fn rotl(x: u32, n: u32) -> u32
    recommends
        0 < n < 32,
{
    (x << n) | (x >> ((32 - n) as u32))
}

#[inline(always)]
pub fn wadd_e(a: u32, b: u32) -> (r: u32)
    ensures
        r == wadd(a, b),
{
    a.wrapping_add(b)
}

#[inline(always)]
pub fn rotl_e(x: u32, n: u32) -> (r: u32)
    requires
        0 < n < 32,
    ensures
        r == rotl(x, n),
{
    (x << n) | (x >> (32 - n))
}

/// The 32-bit words of a byte sequence, 4 little-endian bytes each.
pub open spec fn le32_words(b: Seq<u8>) -> Seq<u32> {
    Seq::new(b.len() / 4, |i: int| le_nat(b.subrange(4 * i, 4 * i + 4)) as u32)
}

/// Little-endian serialization of a word sequence.
pub open spec fn bytes_of_words(ws: Seq<u32>) -> Seq<u8>
    decreases ws.len(),
{
    if ws.len() == 0 {
        Seq::empty()
    } else {
        bytes_of_words(ws.drop_last()) + le_bytes(ws.last() as nat, 4)
    }
}

pub proof fn lemma_bytes_of_words_len(ws: Seq<u32>)
    ensures
        bytes_of_words(ws).len() == 4 * ws.len(),
    decreases ws.len(),
{
    if ws.len() > 0 {
        lemma_bytes_of_words_len(ws.drop_last());
        lemma_le_bytes_len(ws.last() as nat, 4);
    }
}

/// How many 64-byte blocks a generator consumes for `amount` keystream
/// bytes.
pub open spec fn nblocks(amount: nat) -> nat
    decreases amount,
{
    if amount == 0 {
        0
    } else if amount > 64 {
        1 + nblocks((amount - 64) as nat)
    } else {
        1
    }
}

/// The block count grows at most linearly: one block per 64 bytes plus one.
pub proof fn lemma_nblocks_le(n: nat)
    ensures
        nblocks(n) <= n / 64 + 1,
    decreases n,
{
    if n > 64 {
        lemma_nblocks_le((n - 64) as nat);
        assert(((n - 64) as nat) / 64 + 1 == n / 64) by {
            vstd::arithmetic::div_mod::lemma_hoist_over_denominator((n - 64) as int, 1, 64);
        }
    }
}

/// The low and high 32-bit words of a 64-bit block counter.
pub open spec fn lo32(c: int) -> u32 {
    (c % 0x1_0000_0000) as u32
}

pub open spec fn hi32(c: int) -> u32 {
    ((c / 0x1_0000_0000) % 0x1_0000_0000) as u32
}

/// Truncation and shift of a `u64` counter give its two state words.
pub proof fn lemma_ctr_words(c: u64)
    ensures
        c as u32 == lo32(c as int),
        (c >> 32) as u32 == hi32(c as int),
{
    assert(c as u32 == (c % 0x1_0000_0000) as u32 && (c >> 32) as u32 == ((c / 0x1_0000_0000)
        % 0x1_0000_0000) as u32) by (bit_vector);
}

/// Appends the 4 little-endian bytes of one word.
pub fn push_word(v: &mut Vec<u8>, w: u32)
    ensures
        final(v)@ == old(v)@ + le_bytes(w as nat, 4),
{
    crate::bytes::push_le(v, w as u64, 4);
}

/// The 4 little-endian bytes of one word, lowest first.
pub fn word_to_bytes(w: u32) -> (r: (u8, u8, u8, u8))
    ensures
        seq![r.0, r.1, r.2, r.3] == le_bytes(w as nat, 4),
{
    let r = (
        (w % 0x100) as u8,
        ((w / 0x100) % 0x100) as u8,
        ((w / 0x1_0000) % 0x100) as u8,
        ((w / 0x100_0000) % 0x100) as u8,
    );
    proof {
        let x = w as nat;
        lemma_div_denominator(x as int, 256, 256);
        lemma_div_denominator(x as int, 65536, 256);
        assert(x / 256 / 256 == x / 65536);
        assert(x / 65536 / 256 == x / 16777216);
        assert(le_bytes(x / 16777216 / 256, 0nat) =~= Seq::<u8>::empty());
        assert(le_bytes(x / 16777216, 1) =~= seq![((x / 16777216) % 256) as u8]);
        assert(le_bytes(x / 65536, 2) =~= seq![
            ((x / 65536) % 256) as u8,
            ((x / 16777216) % 256) as u8,
        ]);
        assert(le_bytes(x / 256, 3) =~= seq![
            ((x / 256) % 256) as u8,
            ((x / 65536) % 256) as u8,
            ((x / 16777216) % 256) as u8,
        ]);
        assert(le_bytes(x, 4) =~= seq![
            (x % 256) as u8,
            ((x / 256) % 256) as u8,
            ((x / 65536) % 256) as u8,
            ((x / 16777216) % 256) as u8,
        ]);
        assert(seq![r.0, r.1, r.2, r.3] =~= le_bytes(x, 4));
    }
    r
}

} // verus!
