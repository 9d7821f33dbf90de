//! The ChaCha20 block function and the XChaCha20 keystream generator.
//!
//! The block function follows the RFC 7539 round structure, except that the
//! words in rows 12 and 13 hold a 64-bit little-endian block counter and the
//! last two words hold an 8-byte nonce.

use vstd::prelude::*;

verus! {

use crate::arx::SIGMA0;
use crate::arx::SIGMA1;
use crate::arx::SIGMA2;
use crate::arx::SIGMA3;
use crate::arx::wadd;
use crate::arx::rotl;
use crate::arx::wadd_e;
use crate::arx::rotl_e;
use crate::arx::lo32;
use crate::arx::hi32;
use crate::arx::le32_words;
use crate::arx::bytes_of_words;
use crate::arx::lemma_bytes_of_words_len;
use crate::arx::lemma_ctr_words;
use crate::arx::push_word;
use crate::arx::nblocks;

/// One ChaCha20 quarter-round on `(a, b, c, d)`.
pub open spec fn spec_quarter_round(a: u32, b: u32, c: u32, d: u32) -> (u32, u32, u32, u32) {
    let a1 = wadd(a, b);
    let d1 = rotl(a1 ^ d, 16);
    let c1 = wadd(c, d1);
    let b1 = rotl(b ^ c1, 12);
    let a2 = wadd(a1, b1);
    let d2 = rotl(a2 ^ d1, 8);
    let c2 = wadd(c1, d2);
    let b2 = rotl(b1 ^ c2, 7);
    (a2, b2, c2, d2)
}

/// The column round: quarter-rounds over the four columns.
pub open spec fn spec_column_round(s: Seq<u32>) -> Seq<u32>
    recommends
        s.len() == 16,
{
    let qa = spec_quarter_round(s[0], s[4], s[8], s[12]);
    let qb = spec_quarter_round(s[1], s[5], s[9], s[13]);
    let qc = spec_quarter_round(s[2], s[6], s[10], s[14]);
    let qd = spec_quarter_round(s[3], s[7], s[11], s[15]);
    seq![
        qa.0,
        qb.0,
        qc.0,
        qd.0,
        qa.1,
        qb.1,
        qc.1,
        qd.1,
        qa.2,
        qb.2,
        qc.2,
        qd.2,
        qa.3,
        qb.3,
        qc.3,
        qd.3,
    ]
}

/// The diagonal round: quarter-rounds over the four diagonals.
pub open spec fn spec_diagonal_round(s: Seq<u32>) -> Seq<u32>
    recommends
        s.len() == 16,
{
    let qa = spec_quarter_round(s[0], s[5], s[10], s[15]);
    let qb = spec_quarter_round(s[1], s[6], s[11], s[12]);
    let qc = spec_quarter_round(s[2], s[7], s[8], s[13]);
    let qd = spec_quarter_round(s[3], s[4], s[9], s[14]);
    seq![
        qa.0,
        qb.0,
        qc.0,
        qd.0,
        qd.1,
        qa.1,
        qb.1,
        qc.1,
        qc.2,
        qd.2,
        qa.2,
        qb.2,
        qb.3,
        qc.3,
        qd.3,
        qa.3,
    ]
}

/// A double round: column round then diagonal round.
pub open spec fn spec_double_round(s: Seq<u32>) -> Seq<u32>
    recommends
        s.len() == 16,
{
    spec_diagonal_round(spec_column_round(s))
}

/// `n` double rounds applied to `s`.
pub open spec fn spec_rounds(s: Seq<u32>, n: nat) -> Seq<u32>
    decreases n,
{
    if n == 0 {
        s
    } else {
        spec_double_round(spec_rounds(s, (n - 1) as nat))
    }
}

/// The ChaCha20 block function: ten double rounds plus the final addition
/// of the original state.
pub open spec fn spec_chacha20(s: Seq<u32>) -> Seq<u32>
    recommends
        s.len() == 16,
{
    let r = spec_rounds(s, 10);
    Seq::new(16, |i: int| wadd(r[i], s[i]))
}

pub fn quarter_round(a: u32, b: u32, c: u32, d: u32) -> (r: (u32, u32, u32, u32))
    ensures
        r == spec_quarter_round(a, b, c, d),
{
    let a1 = wadd_e(a, b);
    let d1 = rotl_e(a1 ^ d, 16);
    let c1 = wadd_e(c, d1);
    let b1 = rotl_e(b ^ c1, 12);
    let a2 = wadd_e(a1, b1);
    let d2 = rotl_e(a2 ^ d1, 8);
    let c2 = wadd_e(c1, d2);
    let b2 = rotl_e(b1 ^ c2, 7);
    (a2, b2, c2, d2)
}

pub fn column_round(state: [u32; 16]) -> (r: [u32; 16])
    ensures
        r@ == spec_column_round(state@),
{
    let qa = quarter_round(state[0], state[4], state[8], state[12]);
    let qb = quarter_round(state[1], state[5], state[9], state[13]);
    let qc = quarter_round(state[2], state[6], state[10], state[14]);
    let qd = quarter_round(state[3], state[7], state[11], state[15]);
    let r = [
        qa.0,
        qb.0,
        qc.0,
        qd.0,
        qa.1,
        qb.1,
        qc.1,
        qd.1,
        qa.2,
        qb.2,
        qc.2,
        qd.2,
        qa.3,
        qb.3,
        qc.3,
        qd.3,
    ];
    proof {
        assert(r@ =~= spec_column_round(state@));
    }
    r
}

pub fn diagonal_round(state: [u32; 16]) -> (r: [u32; 16])
    ensures
        r@ == spec_diagonal_round(state@),
{
    let qa = quarter_round(state[0], state[5], state[10], state[15]);
    let qb = quarter_round(state[1], state[6], state[11], state[12]);
    let qc = quarter_round(state[2], state[7], state[8], state[13]);
    let qd = quarter_round(state[3], state[4], state[9], state[14]);
    let r = [
        qa.0,
        qb.0,
        qc.0,
        qd.0,
        qd.1,
        qa.1,
        qb.1,
        qc.1,
        qc.2,
        qd.2,
        qa.2,
        qb.2,
        qb.3,
        qc.3,
        qd.3,
        qa.3,
    ];
    proof {
        assert(r@ =~= spec_diagonal_round(state@));
    }
    r
}

pub fn double_round(state: [u32; 16]) -> (r: [u32; 16])
    ensures
        r@ == spec_double_round(state@),
{
    diagonal_round(column_round(state))
}

/// The raw ChaCha20 block function.
pub fn chacha20(input: [u32; 16]) -> (r: [u32; 16])
    ensures
        r@ == spec_chacha20(input@),
{
    let buf = chacha20_rounds(input);
    let r = [
        wadd_e(buf[0], input[0]),
        wadd_e(buf[1], input[1]),
        wadd_e(buf[2], input[2]),
        wadd_e(buf[3], input[3]),
        wadd_e(buf[4], input[4]),
        wadd_e(buf[5], input[5]),
        wadd_e(buf[6], input[6]),
        wadd_e(buf[7], input[7]),
        wadd_e(buf[8], input[8]),
        wadd_e(buf[9], input[9]),
        wadd_e(buf[10], input[10]),
        wadd_e(buf[11], input[11]),
        wadd_e(buf[12], input[12]),
        wadd_e(buf[13], input[13]),
        wadd_e(buf[14], input[14]),
        wadd_e(buf[15], input[15]),
    ];
    proof {
        assert(r@ =~= spec_chacha20(input@));
    }
    r
}

/// The twenty rounds without the final state addition, as key derivation
/// uses them.
pub(crate) fn chacha20_rounds(input: [u32; 16]) -> (r: [u32; 16])
    ensures
        r@ == spec_rounds(input@, 10),
{
    let mut buf = input;
    let mut k: usize = 0;
    while k < 10
        invariant
            k <= 10,
            buf@ == spec_rounds(input@, k as nat),
        decreases 10 - k,
    {
        buf = double_round(buf);
        k = k + 1;
    }
    buf
}

/// The ChaCha20 input state for a given key, nonce and block counter.
pub open spec fn chacha_state(key: Seq<u32>, nonce: Seq<u32>, c: int) -> Seq<u32>
    recommends
        key.len() == 8,
        nonce.len() == 2,
{
    seq![
        SIGMA0,
        SIGMA1,
        SIGMA2,
        SIGMA3,
        key[0],
        key[1],
        key[2],
        key[3],
        key[4],
        key[5],
        key[6],
        key[7],
        lo32(c),
        hi32(c),
        nonce[0],
        nonce[1],
    ]
}

/// The 64 keystream bytes of block `c`.
pub open spec fn chacha_block_bytes(key: Seq<u32>, nonce: Seq<u32>, c: int) -> Seq<u8> {
    bytes_of_words(spec_chacha20(chacha_state(key, nonce, c)))
}

/// `amount` keystream bytes starting at block `c`, laid out exactly as the
/// generator emits them.
pub open spec fn chacha_stream(key: Seq<u32>, nonce: Seq<u32>, c: int, amount: nat) -> Seq<u8>
    decreases amount,
{
    if amount == 0 {
        Seq::empty()
    } else if amount > 64 {
        chacha_block_bytes(key, nonce, c) + chacha_stream(key, nonce, c + 1, (amount - 64) as nat)
    } else {
        chacha_block_bytes(key, nonce, c).take(amount as int)
    }
}

pub proof fn lemma_chacha_block_len(key: Seq<u32>, nonce: Seq<u32>, c: int)
    ensures
        chacha_block_bytes(key, nonce, c).len() == 64,
{
    lemma_bytes_of_words_len(spec_chacha20(chacha_state(key, nonce, c)));
}

pub proof fn lemma_chacha_stream_len(key: Seq<u32>, nonce: Seq<u32>, c: int, amount: nat)
    ensures
        chacha_stream(key, nonce, c, amount).len() == amount,
    decreases amount,
{
    if amount == 0 {
    } else if amount > 64 {
        lemma_chacha_block_len(key, nonce, c);
        lemma_chacha_stream_len(key, nonce, c + 1, (amount - 64) as nat);
    } else {
        lemma_chacha_block_len(key, nonce, c);
    }
}

/// The XChaCha20 keystream generator: a 256-bit key as eight words, a
/// 64-bit nonce as two words, and a 64-bit block counter.
pub struct XChacha20 {
    key: [u32; 8],
    nonce: [u32; 2],
    ctr: u64,
}

impl XChacha20 {
    /// The key as state words.
    pub closed spec fn key_words(&self) -> Seq<u32> {
        self.key@
    }

    /// The nonce as state words.
    pub closed spec fn nonce_words(&self) -> Seq<u32> {
        self.nonce@
    }

    /// The next block counter value.
    pub closed spec fn counter(&self) -> u64 {
        self.ctr
    }

    /// Creates a generator over `key` and `nonce`, starting at block `ctr`.
    pub fn new(key: [u8; 32], nonce: [u8; 8], ctr: u64) -> (r: XChacha20)
        ensures
            r.key_words() == le32_words(key@),
            r.nonce_words() == le32_words(nonce@),
            r.counter() == ctr,
    {
        let ks = key.as_slice();
        let ns = nonce.as_slice();
        let r = XChacha20 {
            ctr,
            nonce: [crate::bytes::load32(ns, 0), crate::bytes::load32(ns, 4)],
            key: [
                crate::bytes::load32(ks, 0),
                crate::bytes::load32(ks, 4),
                crate::bytes::load32(ks, 8),
                crate::bytes::load32(ks, 12),
                crate::bytes::load32(ks, 16),
                crate::bytes::load32(ks, 20),
                crate::bytes::load32(ks, 24),
                crate::bytes::load32(ks, 28),
            ],
        };
        proof {
            assert(r.key@ =~= le32_words(key@));
            assert(r.nonce@ =~= le32_words(nonce@));
        }
        r
    }

    /// Emits the 64 bytes of the current block and advances the counter.
    /// Fails exactly when the counter cannot be advanced.
    pub fn generate_block(&mut self) -> (r: Option<Vec<u8>>)
        ensures
            final(self).key_words() == old(self).key_words(),
            final(self).nonce_words() == old(self).nonce_words(),
            r is Some <==> old(self).counter() < u64::MAX,
            r is Some ==> final(self).counter() == old(self).counter() + 1 && (r->0)@
                == chacha_block_bytes(
                old(self).key_words(),
                old(self).nonce_words(),
                old(self).counter() as int,
            ),
            r is None ==> final(self).counter() == old(self).counter(),
    {
        if self.ctr == u64::MAX {
            return None;
        }
        let input: [u32; 16] = [
            SIGMA0,
            SIGMA1,
            SIGMA2,
            SIGMA3,
            self.key[0],
            self.key[1],
            self.key[2],
            self.key[3],
            self.key[4],
            self.key[5],
            self.key[6],
            self.key[7],
            self.ctr as u32,
            (self.ctr >> 32) as u32,
            self.nonce[0],
            self.nonce[1],
        ];
        proof {
            lemma_ctr_words(self.ctr);
            assert(input@ =~= chacha_state(self.key_words(), self.nonce_words(), self.ctr as int));
        }
        let output = chacha20(input);
        self.ctr = self.ctr + 1;
        let mut out: Vec<u8> = Vec::new();
        let mut k: usize = 0;
        proof {
            assert(out@ =~= bytes_of_words(output@.take(0)));
        }
        while k < 16
            invariant
                k <= 16,
                out@ == bytes_of_words(output@.take(k as int)),
            decreases 16 - k,
        {
            push_word(&mut out, output[k]);
            proof {
                assert(output@.take(k + 1).drop_last() =~= output@.take(k as int));
                assert(output@.take(k + 1).last() == output@[k as int]);
            }
            k = k + 1;
        }
        proof {
            assert(output@.take(16) =~= output@);
        }
        Some(out)
    }

    /// Emits `amount` keystream bytes.  Fails exactly when they would need
    /// the counter to advance past its maximum.
    pub fn generate(&mut self, amount: usize) -> (r: Option<Vec<u8>>)
        ensures
            final(self).key_words() == old(self).key_words(),
            final(self).nonce_words() == old(self).nonce_words(),
            r is Some <==> nblocks(amount as nat) <= u64::MAX - old(self).counter(),
            r is Some ==> (r->0)@ == chacha_stream(
                old(self).key_words(),
                old(self).nonce_words(),
                old(self).counter() as int,
                amount as nat,
            ) && final(self).counter() == old(self).counter() + nblocks(amount as nat),
            r is None ==> final(self).counter() == u64::MAX,
    {
        let ghost c0 = self.counter() as int;
        let ghost total = amount as nat;
        let mut data: Vec<u8> = Vec::new();
        let mut rem: usize = amount;
        proof {
            assert(chacha_stream(self.key_words(), self.nonce_words(), c0, total) =~= data@
                + chacha_stream(self.key_words(), self.nonce_words(), c0, total));
        }
        while rem > 64
            invariant
                self.key_words() == old(self).key_words(),
                self.nonce_words() == old(self).nonce_words(),
                rem <= amount,
                self.counter() as int == c0 + nblocks(total) - nblocks(rem as nat),
                nblocks(rem as nat) <= nblocks(total),
                chacha_stream(self.key_words(), self.nonce_words(), c0, total) == data@
                    + chacha_stream(
                    self.key_words(),
                    self.nonce_words(),
                    self.counter() as int,
                    rem as nat,
                ),
            decreases rem,
        {
            let ghost cur = self.counter() as int;
            let block = match self.generate_block() {
                Some(b) => b,
                None => {
                    proof {
                        assert(nblocks(rem as nat) == 1 + nblocks((rem - 64) as nat));
                        assert(nblocks((rem - 64) as nat) >= 1);
                    }
                    return None;
                },
            };
            proof {
                assert(chacha_stream(self.key_words(), self.nonce_words(), cur, rem as nat)
                    == chacha_block_bytes(self.key_words(), self.nonce_words(), cur)
                    + chacha_stream(
                    self.key_words(),
                    self.nonce_words(),
                    cur + 1,
                    (rem - 64) as nat,
                ));
                assert((data@ + block@) + chacha_stream(
                    self.key_words(),
                    self.nonce_words(),
                    cur + 1,
                    (rem - 64) as nat,
                ) =~= data@ + (block@ + chacha_stream(
                    self.key_words(),
                    self.nonce_words(),
                    cur + 1,
                    (rem - 64) as nat,
                )));
            }
            let mut b = block;
            data.append(&mut b);
            rem = rem - 64;
        }
        if rem == 0 {
            proof {
                assert(chacha_stream(
                    self.key_words(),
                    self.nonce_words(),
                    self.counter() as int,
                    0,
                ) =~= Seq::<u8>::empty());
                assert(data@ + Seq::<u8>::empty() =~= data@);
            }
            return Some(data);
        }
        let ghost cur = self.counter() as int;
        let block = match self.generate_block() {
            Some(b) => b,
            None => {
                return None;
            },
        };
        proof {
            lemma_chacha_block_len(self.key_words(), self.nonce_words(), cur);
        }
        let sub = vstd::slice::slice_subrange(block.as_slice(), 0, rem);
        data.extend_from_slice(sub);
        proof {
            assert(chacha_stream(self.key_words(), self.nonce_words(), cur, rem as nat)
                == chacha_block_bytes(self.key_words(), self.nonce_words(), cur).take(rem as int));
        }
        Some(data)
    }

    /// XORs the keystream into `data` in place: encryption and decryption.
    /// On failure (counter exhaustion) `data` is left unchanged.
    pub fn crypt(&mut self, data: &mut Vec<u8>) -> (r: Option<()>)
        ensures
            final(self).key_words() == old(self).key_words(),
            final(self).nonce_words() == old(self).nonce_words(),
            r is Some <==> nblocks(old(data)@.len()) <= u64::MAX - old(self).counter(),
            r is Some ==> final(data)@ == crate::bytes::xor_bytes(
                old(data)@,
                chacha_stream(
                    old(self).key_words(),
                    old(self).nonce_words(),
                    old(self).counter() as int,
                    old(data)@.len(),
                ),
            ) && final(self).counter() == old(self).counter() + nblocks(old(data)@.len()),
            r is None ==> final(data)@ == old(data)@ && final(self).counter() == u64::MAX,
    {
        let n = data.len();
        let ks = match self.generate(n) {
            Some(k) => k,
            None => {
                return None;
            },
        };
        proof {
            lemma_chacha_stream_len(
                old(self).key_words(),
                old(self).nonce_words(),
                old(self).counter() as int,
                n as nat,
            );
        }
        let mut out: Vec<u8> = Vec::new();
        let mut i: usize = 0;
        while i < n
            invariant
                i <= n,
                n == data@.len(),
                ks@.len() == n,
                out@ == crate::bytes::xor_bytes(data@.take(i as int), ks@.take(i as int)),
            decreases n - i,
        {
            let byte = data[i] ^ ks[i];
            out.push(byte);
            proof {
                assert(out@ =~= crate::bytes::xor_bytes(data@.take(i + 1), ks@.take(i + 1)));
            }
            i = i + 1;
        }
        proof {
            assert(data@.take(n as int) =~= data@);
            assert(ks@.take(n as int) =~= ks@);
        }
        *data = out;
        Some(())
    }
}

} // verus!
