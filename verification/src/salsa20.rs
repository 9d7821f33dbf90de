//! The Salsa20 block function and the XSalsa20 keystream generator.
//!
//! The block function maps a 64-byte state (sixteen 32-bit little-endian
//! words) through twenty rounds of add-rotate-xor operations and adds the
//! original state back in.  `XSalsa20` turns it into a keystream indexed by a
//! 64-bit block counter.

use vstd::prelude::*;

verus! {

use crate::arx::SIGMA0;
use crate::arx::SIGMA1;
use crate::arx::SIGMA2;
use crate::arx::SIGMA3;
use crate::arx::wadd;
use crate::arx::rotl;
use crate::arx::wadd_e;
use crate::arx::rotl_e;
use crate::arx::lo32;
use crate::arx::hi32;
use crate::arx::le32_words;
use crate::arx::bytes_of_words;
use crate::arx::lemma_bytes_of_words_len;
use crate::arx::lemma_ctr_words;
use crate::arx::push_word;
use crate::arx::nblocks;

/// One Salsa20 quarter-round on `(a, b, c, d)`.
pub open spec fn spec_quarter_round(t: (u32, u32, u32, u32)) -> (u32, u32, u32, u32) {
    let z1 = t.1 ^ rotl(wadd(t.0, t.3), 7);
    let z2 = t.2 ^ rotl(wadd(z1, t.0), 9);
    let z3 = t.3 ^ rotl(wadd(z2, z1), 13);
    let z0 = t.0 ^ rotl(wadd(z3, z2), 18);
    (z0, z1, z2, z3)
}

/// The row round: quarter-rounds over the four rows, each rotated in place.
pub open spec fn spec_row_round(s: Seq<u32>) -> Seq<u32>
    recommends
        s.len() == 16,
{
    let q1 = spec_quarter_round((s[0], s[1], s[2], s[3]));
    let q2 = spec_quarter_round((s[5], s[6], s[7], s[4]));
    let q3 = spec_quarter_round((s[10], s[11], s[8], s[9]));
    let q4 = spec_quarter_round((s[15], s[12], s[13], s[14]));
    seq![
        q1.0,
        q1.1,
        q1.2,
        q1.3,
        q2.3,
        q2.0,
        q2.1,
        q2.2,
        q3.2,
        q3.3,
        q3.0,
        q3.1,
        q4.1,
        q4.2,
        q4.3,
        q4.0,
    ]
}

/// The column round: quarter-rounds over the four columns, each rotated.
pub open spec fn spec_column_round(s: Seq<u32>) -> Seq<u32>
    recommends
        s.len() == 16,
{
    let q0 = spec_quarter_round((s[0], s[4], s[8], s[12]));
    let q1 = spec_quarter_round((s[5], s[9], s[13], s[1]));
    let q2 = spec_quarter_round((s[10], s[14], s[2], s[6]));
    let q3 = spec_quarter_round((s[15], s[3], s[7], s[11]));
    seq![
        q0.0,
        q1.3,
        q2.2,
        q3.1,
        q0.1,
        q1.0,
        q2.3,
        q3.2,
        q0.2,
        q1.1,
        q2.0,
        q3.3,
        q0.3,
        q1.2,
        q2.1,
        q3.0,
    ]
}

/// A double round: column round then row round.
pub open spec fn spec_double_round(s: Seq<u32>) -> Seq<u32>
    recommends
        s.len() == 16,
{
    spec_row_round(spec_column_round(s))
}

/// `n` double rounds applied to `s`.
pub open spec fn spec_rounds(s: Seq<u32>, n: nat) -> Seq<u32>
    decreases n,
{
    if n == 0 {
        s
    } else {
        spec_double_round(spec_rounds(s, (n - 1) as nat))
    }
}

/// The Salsa20 block function: ten double rounds plus the final addition of
/// the original state.
pub open spec fn spec_salsa20(s: Seq<u32>) -> Seq<u32>
    recommends
        s.len() == 16,
{
    let r = spec_rounds(s, 10);
    Seq::new(16, |i: int| wadd(r[i], s[i]))
}

pub fn quarter_round(i: (u32, u32, u32, u32)) -> (r: (u32, u32, u32, u32))
    ensures
        r == spec_quarter_round(i),
{
    let z1 = i.1 ^ rotl_e(wadd_e(i.0, i.3), 7);
    let z2 = i.2 ^ rotl_e(wadd_e(z1, i.0), 9);
    let z3 = i.3 ^ rotl_e(wadd_e(z2, z1), 13);
    let z0 = i.0 ^ rotl_e(wadd_e(z3, z2), 18);
    (z0, z1, z2, z3)
}

pub fn row_round(i: [u32; 16]) -> (r: [u32; 16])
    ensures
        r@ == spec_row_round(i@),
{
    let q1 = quarter_round((i[0], i[1], i[2], i[3]));
    let q2 = quarter_round((i[5], i[6], i[7], i[4]));
    let q3 = quarter_round((i[10], i[11], i[8], i[9]));
    let q4 = quarter_round((i[15], i[12], i[13], i[14]));
    let r = [
        q1.0,
        q1.1,
        q1.2,
        q1.3,
        q2.3,
        q2.0,
        q2.1,
        q2.2,
        q3.2,
        q3.3,
        q3.0,
        q3.1,
        q4.1,
        q4.2,
        q4.3,
        q4.0,
    ];
    proof {
        assert(r@ =~= spec_row_round(i@));
    }
    r
}

pub fn column_round(i: [u32; 16]) -> (r: [u32; 16])
    ensures
        r@ == spec_column_round(i@),
{
    let q0 = quarter_round((i[0], i[4], i[8], i[12]));
    let q1 = quarter_round((i[5], i[9], i[13], i[1]));
    let q2 = quarter_round((i[10], i[14], i[2], i[6]));
    let q3 = quarter_round((i[15], i[3], i[7], i[11]));
    let r = [
        q0.0,
        q1.3,
        q2.2,
        q3.1,
        q0.1,
        q1.0,
        q2.3,
        q3.2,
        q0.2,
        q1.1,
        q2.0,
        q3.3,
        q0.3,
        q1.2,
        q2.1,
        q3.0,
    ];
    proof {
        assert(r@ =~= spec_column_round(i@));
    }
    r
}

pub fn double_round(i: [u32; 16]) -> (r: [u32; 16])
    ensures
        r@ == spec_double_round(i@),
{
    row_round(column_round(i))
}

/// The raw Salsa20 block function.
pub fn salsa20(input: [u32; 16]) -> (r: [u32; 16])
    ensures
        r@ == spec_salsa20(input@),
{
    let buf = salsa20_rounds(input);
    let r = [
        wadd_e(buf[0], input[0]),
        wadd_e(buf[1], input[1]),
        wadd_e(buf[2], input[2]),
        wadd_e(buf[3], input[3]),
        wadd_e(buf[4], input[4]),
        wadd_e(buf[5], input[5]),
        wadd_e(buf[6], input[6]),
        wadd_e(buf[7], input[7]),
        wadd_e(buf[8], input[8]),
        wadd_e(buf[9], input[9]),
        wadd_e(buf[10], input[10]),
        wadd_e(buf[11], input[11]),
        wadd_e(buf[12], input[12]),
        wadd_e(buf[13], input[13]),
        wadd_e(buf[14], input[14]),
        wadd_e(buf[15], input[15]),
    ];
    proof {
        assert(r@ =~= spec_salsa20(input@));
    }
    r
}

/// The twenty rounds without the final state addition, as key derivation
/// uses them.
pub(crate) fn salsa20_rounds(input: [u32; 16]) -> (r: [u32; 16])
    ensures
        r@ == spec_rounds(input@, 10),
{
    let mut buf = input;
    let mut k: usize = 0;
    while k < 10
        invariant
            k <= 10,
            buf@ == spec_rounds(input@, k as nat),
        decreases 10 - k,
    {
        buf = double_round(buf);
        k = k + 1;
    }
    buf
}

/// The Salsa20 input state for a given key, nonce and block counter.
pub open spec fn salsa_state(key: Seq<u32>, nonce: Seq<u32>, c: int) -> Seq<u32>
    recommends
        key.len() == 8,
        nonce.len() == 2,
{
    seq![
        SIGMA0,
        key[0],
        key[1],
        key[2],
        key[3],
        SIGMA1,
        nonce[0],
        nonce[1],
        lo32(c),
        hi32(c),
        SIGMA2,
        key[4],
        key[5],
        key[6],
        key[7],
        SIGMA3,
    ]
}

/// The 64 keystream bytes of block `c`.
pub open spec fn salsa_block_bytes(key: Seq<u32>, nonce: Seq<u32>, c: int) -> Seq<u8> {
    bytes_of_words(spec_salsa20(salsa_state(key, nonce, c)))
}

/// `amount` keystream bytes starting at block `c`, laid out exactly as the
/// generator emits them: whole blocks while more than one block remains,
/// then the prefix of one final block.
pub open spec fn salsa_stream(key: Seq<u32>, nonce: Seq<u32>, c: int, amount: nat) -> Seq<u8>
    decreases amount,
{
    if amount == 0 {
        Seq::empty()
    } else if amount > 64 {
        salsa_block_bytes(key, nonce, c) + salsa_stream(key, nonce, c + 1, (amount - 64) as nat)
    } else {
        salsa_block_bytes(key, nonce, c).take(amount as int)
    }
}

pub proof fn lemma_salsa_block_len(key: Seq<u32>, nonce: Seq<u32>, c: int)
    ensures
        salsa_block_bytes(key, nonce, c).len() == 64,
{
    lemma_bytes_of_words_len(spec_salsa20(salsa_state(key, nonce, c)));
}

pub proof fn lemma_salsa_stream_len(key: Seq<u32>, nonce: Seq<u32>, c: int, amount: nat)
    ensures
        salsa_stream(key, nonce, c, amount).len() == amount,
    decreases amount,
{
    if amount == 0 {
    } else if amount > 64 {
        lemma_salsa_block_len(key, nonce, c);
        lemma_salsa_stream_len(key, nonce, c + 1, (amount - 64) as nat);
    } else {
        lemma_salsa_block_len(key, nonce, c);
    }
}

/// The XSalsa20 keystream generator: a 256-bit key as eight words, a 64-bit
/// nonce as two words, and a 64-bit block counter.
pub struct XSalsa20 {
    key: [u32; 8],
    nonce: [u32; 2],
    ctr: u64,
}

impl XSalsa20 {
    /// The key as state words.
    pub closed spec fn key_words(&self) -> Seq<u32> {
        self.key@
    }

    /// The nonce as state words.
    pub closed spec fn nonce_words(&self) -> Seq<u32> {
        self.nonce@
    }

    /// The next block counter value.
    pub closed spec fn counter(&self) -> u64 {
        self.ctr
    }

    /// Creates a generator over `key` and `nonce`, starting at block `ctr`.
    pub fn new(key: [u8; 32], nonce: [u8; 8], ctr: u64) -> (r: XSalsa20)
        ensures
            r.key_words() == le32_words(key@),
            r.nonce_words() == le32_words(nonce@),
            r.counter() == ctr,
    {
        let ks = key.as_slice();
        let ns = nonce.as_slice();
        let r = XSalsa20 {
            ctr,
            nonce: [crate::bytes::load32(ns, 0), crate::bytes::load32(ns, 4)],
            key: [
                crate::bytes::load32(ks, 0),
                crate::bytes::load32(ks, 4),
                crate::bytes::load32(ks, 8),
                crate::bytes::load32(ks, 12),
                crate::bytes::load32(ks, 16),
                crate::bytes::load32(ks, 20),
                crate::bytes::load32(ks, 24),
                crate::bytes::load32(ks, 28),
            ],
        };
        proof {
            assert(r.key@ =~= le32_words(key@));
            assert(r.nonce@ =~= le32_words(nonce@));
        }
        r
    }

    /// Emits the 64 bytes of the current block and advances the counter.
    /// Fails exactly when the counter cannot be advanced.
    pub fn generate_block(&mut self) -> (r: Option<Vec<u8>>)
        ensures
            final(self).key_words() == old(self).key_words(),
            final(self).nonce_words() == old(self).nonce_words(),
            r is Some <==> old(self).counter() < u64::MAX,
            r is Some ==> final(self).counter() == old(self).counter() + 1 && (r->0)@
                == salsa_block_bytes(
                old(self).key_words(),
                old(self).nonce_words(),
                old(self).counter() as int,
            ),
            r is None ==> final(self).counter() == old(self).counter(),
    {
        if self.ctr == u64::MAX {
            return None;
        }
        let input: [u32; 16] = [
            SIGMA0,
            self.key[0],
            self.key[1],
            self.key[2],
            self.key[3],
            SIGMA1,
            self.nonce[0],
            self.nonce[1],
            self.ctr as u32,
            (self.ctr >> 32) as u32,
            SIGMA2,
            self.key[4],
            self.key[5],
            self.key[6],
            self.key[7],
            SIGMA3,
        ];
        proof {
            lemma_ctr_words(self.ctr);
            assert(input@ =~= salsa_state(self.key_words(), self.nonce_words(), self.ctr as int));
        }
        let output = salsa20(input);
        self.ctr = self.ctr + 1;
        let mut out: Vec<u8> = Vec::new();
        let mut k: usize = 0;
        proof {
            assert(out@ =~= bytes_of_words(output@.take(0)));
        }
        while k < 16
            invariant
                k <= 16,
                out@ == bytes_of_words(output@.take(k as int)),
            decreases 16 - k,
        {
            push_word(&mut out, output[k]);
            proof {
                assert(output@.take(k + 1).drop_last() =~= output@.take(k as int));
                assert(output@.take(k + 1).last() == output@[k as int]);
            }
            k = k + 1;
        }
        proof {
            assert(output@.take(16) =~= output@);
        }
        Some(out)
    }

    /// Emits `amount` keystream bytes.  Fails exactly when they would need
    /// the counter to advance past its maximum.
    pub fn generate(&mut self, amount: usize) -> (r: Option<Vec<u8>>)
        ensures
            final(self).key_words() == old(self).key_words(),
            final(self).nonce_words() == old(self).nonce_words(),
            r is Some <==> nblocks(amount as nat) <= u64::MAX - old(self).counter(),
            r is Some ==> (r->0)@ == salsa_stream(
                old(self).key_words(),
                old(self).nonce_words(),
                old(self).counter() as int,
                amount as nat,
            ) && final(self).counter() == old(self).counter() + nblocks(amount as nat),
            r is None ==> final(self).counter() == u64::MAX,
    {
        let ghost c0 = self.counter() as int;
        let ghost total = amount as nat;
        let mut data: Vec<u8> = Vec::new();
        let mut rem: usize = amount;
        proof {
            assert(salsa_stream(self.key_words(), self.nonce_words(), c0, total) =~= data@
                + salsa_stream(self.key_words(), self.nonce_words(), c0, total));
        }
        while rem > 64
            invariant
                self.key_words() == old(self).key_words(),
                self.nonce_words() == old(self).nonce_words(),
                rem <= amount,
                self.counter() as int == c0 + nblocks(total) - nblocks(rem as nat),
                nblocks(rem as nat) <= nblocks(total),
                salsa_stream(self.key_words(), self.nonce_words(), c0, total) == data@
                    + salsa_stream(
                    self.key_words(),
                    self.nonce_words(),
                    self.counter() as int,
                    rem as nat,
                ),
            decreases rem,
        {
            let ghost cur = self.counter() as int;
            let block = match self.generate_block() {
                Some(b) => b,
                None => {
                    proof {
                        assert(nblocks(rem as nat) == 1 + nblocks((rem - 64) as nat));
                        assert(nblocks((rem - 64) as nat) >= 1);
                        assert(cur == u64::MAX);
                        assert(cur == c0 + nblocks(total) - nblocks(rem as nat));
                        assert(nblocks(total) == u64::MAX - c0 + nblocks(rem as nat));
                    }
                    return None;
                },
            };
            proof {
                assert(salsa_stream(self.key_words(), self.nonce_words(), cur, rem as nat)
                    == salsa_block_bytes(self.key_words(), self.nonce_words(), cur) + salsa_stream(
                    self.key_words(),
                    self.nonce_words(),
                    cur + 1,
                    (rem - 64) as nat,
                ));
                assert((data@ + block@) + salsa_stream(
                    self.key_words(),
                    self.nonce_words(),
                    cur + 1,
                    (rem - 64) as nat,
                ) =~= data@ + (block@ + salsa_stream(
                    self.key_words(),
                    self.nonce_words(),
                    cur + 1,
                    (rem - 64) as nat,
                )));
            }
            let mut b = block;
            data.append(&mut b);
            rem = rem - 64;
        }
        if rem == 0 {
            proof {
                assert(salsa_stream(self.key_words(), self.nonce_words(), self.counter() as int, 0)
                    =~= Seq::<u8>::empty());
                assert(data@ + Seq::<u8>::empty() =~= data@);
            }
            return Some(data);
        }
        let ghost cur = self.counter() as int;
        let block = match self.generate_block() {
            Some(b) => b,
            None => {
                return None;
            },
        };
        proof {
            lemma_salsa_block_len(self.key_words(), self.nonce_words(), cur);
        }
        let sub = vstd::slice::slice_subrange(block.as_slice(), 0, rem);
        data.extend_from_slice(sub);
        proof {
            assert(salsa_stream(self.key_words(), self.nonce_words(), cur, rem as nat)
                == salsa_block_bytes(self.key_words(), self.nonce_words(), cur).take(rem as int));
        }
        Some(data)
    }

    /// XORs the keystream into `data` in place: encryption and decryption.
    /// On failure (counter exhaustion) `data` is left unchanged.
    pub fn crypt(&mut self, data: &mut Vec<u8>) -> (r: Option<()>)
        ensures
            final(self).key_words() == old(self).key_words(),
            final(self).nonce_words() == old(self).nonce_words(),
            r is Some <==> nblocks(old(data)@.len()) <= u64::MAX - old(self).counter(),
            r is Some ==> final(data)@ == crate::bytes::xor_bytes(
                old(data)@,
                salsa_stream(
                    old(self).key_words(),
                    old(self).nonce_words(),
                    old(self).counter() as int,
                    old(data)@.len(),
                ),
            ) && final(self).counter() == old(self).counter() + nblocks(old(data)@.len()),
            r is None ==> final(data)@ == old(data)@ && final(self).counter() == u64::MAX,
    {
        let n = data.len();
        let ks = match self.generate(n) {
            Some(k) => k,
            None => {
                return None;
            },
        };
        proof {
            lemma_salsa_stream_len(
                old(self).key_words(),
                old(self).nonce_words(),
                old(self).counter() as int,
                n as nat,
            );
        }
        let mut out: Vec<u8> = Vec::new();
        let mut i: usize = 0;
        while i < n
            invariant
                i <= n,
                n == data@.len(),
                ks@.len() == n,
                out@ == crate::bytes::xor_bytes(data@.take(i as int), ks@.take(i as int)),
            decreases n - i,
        {
            let byte = data[i] ^ ks[i];
            out.push(byte);
            proof {
                assert(out@ =~= crate::bytes::xor_bytes(data@.take(i + 1), ks@.take(i + 1)));
            }
            i = i + 1;
        }
        proof {
            assert(data@.take(n as int) =~= data@);
            assert(ks@.take(n as int) =~= ks@);
        }
        *data = out;
        Some(())
    }
}

} // verus!
