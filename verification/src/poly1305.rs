//! The Poly1305 one-time message authenticator.
//!
//! The message is absorbed in 16-byte blocks, each padded with a trailing
//! 0x01 byte and folded into the accumulator as `a = (a + n) * r mod p` with
//! `p = 2^130 - 5` and a clamped multiplier `r`; the tag is the low 128 bits
//! of `a + s`.

use vstd::prelude::*;

verus! {

use crate::bytes::le_nat;
use crate::bytes::load_le;
use crate::bytes::lemma_le_nat_append;
use crate::bytes::lemma_le_nat_front;
use crate::bytes::lemma_le_nat_zeros;
use crate::poly_arith::p1305;
use crate::poly_arith::v3;
use crate::poly_arith::split_u128;
use crate::poly_arith::add3;
use crate::poly_arith::mul_3x2;
use crate::poly_arith::reduce;
use vstd::arithmetic::power2::pow2;
use vstd::arithmetic::power2::lemma2_to64;
use vstd::arithmetic::power2::lemma_pow2_adds;
use vstd::arithmetic::div_mod::lemma_mod_multiples_vanish;
use vstd::arithmetic::div_mod::lemma_small_mod;

/// The clamp mask applied to the multiplier `r`.
pub open spec fn clamp_spec(r: u128) -> u128 {
    r & 0x0ffffffc_0ffffffc_0ffffffc_0fffffff
}

/// A padded block read as an integer: its bytes little-endian, then an
/// 0x01 byte.
pub open spec fn block_int(b: Seq<u8>) -> nat {
    le_nat(b) + pow2(8 * b.len())
}

/// The accumulator after absorbing `msg` block by block starting from
/// `acc0`: 16-byte blocks, the last possibly shorter, each folded in as
/// `a = (a + n) * r mod p`.
pub open spec fn poly_blocks(acc0: nat, r: nat, msg: Seq<u8>) -> nat
    decreases msg.len(),
{
    if msg.len() == 0 {
        acc0
    } else {
        let cut = 16 * (((msg.len() - 1) as nat) / 16);
        let head = msg.take(cut as int);
        let tail = msg.skip(cut as int);
        ((poly_blocks(acc0, r, head) + block_int(tail)) * r) % p1305()
    }
}

/// The Poly1305 tag for multiplier `r`, pad `s` and message `msg`: the low
/// 128 bits of the final accumulator plus `s`.
pub open spec fn poly_tag(r: u128, s: u128, msg: Seq<u8>) -> nat {
    (poly_blocks(0, clamp_spec(r) as nat, msg) + (s as nat)) % pow2(128)
}

/// Poly1305 absorbs concatenated input exactly as sequential block
/// processing: after a whole number of 16-byte blocks, continuing with more
/// input is the same as hashing the rest from the intermediate accumulator.
pub proof fn lemma_poly_blocks_append(acc0: nat, r: nat, x: Seq<u8>, y: Seq<u8>)
    requires
        x.len() % 16 == 0,
    ensures
        poly_blocks(acc0, r, x + y) == poly_blocks(poly_blocks(acc0, r, x), r, y),
    decreases y.len(),
{
    if y.len() == 0 {
        assert(x + y =~= x);
    } else {
        let xl = x.len() as int;
        let yl = y.len() as int;
        let cuty = 16 * ((yl - 1) / 16);
        assert((xl + yl - 1) / 16 == xl / 16 + (yl - 1) / 16) by {
            vstd::arithmetic::div_mod::lemma_hoist_over_denominator(yl - 1, xl / 16, 16);
            vstd::arithmetic::div_mod::lemma_fundamental_div_mod(xl, 16);
        }
        let cut = 16 * ((xl + yl - 1) / 16);
        assert(cut == xl + cuty) by {
            vstd::arithmetic::mul::lemma_mul_is_distributive_add(16, xl / 16, (yl - 1) / 16);
            vstd::arithmetic::div_mod::lemma_fundamental_div_mod(xl, 16);
        }
        assert(0 <= cuty) by {
            vstd::arithmetic::div_mod::lemma_div_pos_is_pos(yl - 1, 16);
        }
        assert(cuty <= yl - 1) by {
            vstd::arithmetic::div_mod::lemma_fundamental_div_mod(yl - 1, 16);
            vstd::arithmetic::div_mod::lemma_mod_bound(yl - 1, 16);
        }
        assert((x + y).take(cut) =~= x + y.take(cuty));
        assert((x + y).skip(cut) =~= y.skip(cuty));
        lemma_poly_blocks_append(acc0, r, x, y.take(cuty));
    }
}

/// `pow2(128)` as a literal.
pub proof fn lemma_pow2_128()
    ensures
        pow2(128) == 0x1_0000_0000_0000_0000_0000_0000_0000_0000_nat,
{
    lemma_pow2_adds(64, 64);
    lemma2_to64();
}

/// This function clamps `r` to the multiplier format.
fn clamp(input: u128) -> (r: u128)
    ensures
        r == clamp_spec(input),
{
    input & 0x0ffffffc_0ffffffc_0ffffffc_0fffffff
}

/// Poly1305 state: the running accumulator and the `(r, s)` key pair.
pub struct Poly1305 {
    acc: (u64, u64, u64),
    r: u128,
    s: u128,
}

impl Poly1305 {
    /// The accumulator's value.
    pub closed spec fn acc_nat(&self) -> nat {
        v3(self.acc)
    }

    /// The clamped multiplier.
    pub closed spec fn r_key(&self) -> u128 {
        self.r
    }

    /// The final pad.
    pub closed spec fn s_pad(&self) -> u128 {
        self.s
    }

    /// The accumulator stays reduced and `r` stays clamped.
    pub closed spec fn wf(&self) -> bool {
        v3(self.acc) < p1305() && self.r == clamp_spec(self.r)
    }

    /// Creates a fresh authenticator; `r` is clamped here.
    pub fn new(r: u128, s: u128) -> (p: Poly1305)
        ensures
            p.wf(),
            p.acc_nat() == 0,
            p.r_key() == clamp_spec(r),
            p.s_pad() == s,
    {
        let p = Poly1305 { acc: (0, 0, 0), r: clamp(r), s };
        proof {
            assert(((r & 0x0ffffffc_0ffffffc_0ffffffc_0fffffff)
                & 0x0ffffffc_0ffffffc_0ffffffc_0fffffff) == (r
                & 0x0ffffffc_0ffffffc_0ffffffc_0fffffff)) by (bit_vector);
            assert(v3((0u64, 0u64, 0u64)) == 0);
        }
        p
    }

    /// Absorbs one block of at most 16 bytes.
    pub fn read_block(&mut self, x: &[u8])
        requires
            old(self).wf(),
            x@.len() <= 16,
        ensures
            final(self).wf(),
            final(self).r_key() == old(self).r_key(),
            final(self).s_pad() == old(self).s_pad(),
            final(self).acc_nat() == ((old(self).acc_nat() + block_int(x@)) * (old(
                self,
            ).r_key() as nat)) % p1305(),
    {
        let xlen = x.len();
        // The padded 17-byte block: x, then 0x01, then zeros.
        let mut block: Vec<u8> = Vec::new();
        let mut i: usize = 0;
        while i < xlen
            invariant
                i <= xlen,
                block@ == x@.take(i as int),
            decreases xlen - i,
        {
            block.push(x[i]);
            proof {
                assert(block@ =~= x@.take(i + 1));
            }
            i = i + 1;
        }
        proof {
            assert(x@.take(xlen as int) =~= x@);
        }
        block.push(1);
        while block.len() < 17
            invariant
                block@.len() >= xlen + 1,
                block@.len() <= 17,
                block@.subrange(0, xlen as int) == x@,
                block@[xlen as int] == 1,
                forall|j: int| xlen + 1 <= j < block@.len() ==> block@[j] == 0,
            decreases 17 - block@.len(),
        {
            block.push(0);
        }
        // The block's little-endian value is block_int(x).
        proof {
            let tail = block@.skip(xlen as int);
            assert(block@ =~= x@ + tail);
            lemma_le_nat_append(x@, tail);
            lemma_le_nat_front(tail);
            assert(tail.skip(1) =~= block@.skip(xlen + 1));
            lemma_le_nat_zeros(block@.skip(xlen + 1));
            assert(le_nat(tail) == 1);
            assert(le_nat(block@) == le_nat(x@) + pow2(8 * x@.len()) * 1);
            assert(le_nat(block@) == block_int(x@));
        }
        let bs = block.as_slice();
        let n0 = load_le(bs, 0, 8);
        let n1 = load_le(bs, 8, 8);
        let n2 = block[16] as u64;
        proof {
            let a8 = block@.subrange(0, 8);
            let b8 = block@.subrange(8, 16);
            let c1 = block@.subrange(16, 17);
            assert(block@ =~= (a8 + b8) + c1);
            lemma_le_nat_append(a8, b8);
            lemma_le_nat_append(a8 + b8, c1);
            lemma_le_nat_front(c1);
            assert(c1.skip(1) =~= Seq::<u8>::empty());
            assert(le_nat(c1) == block@[16]);
            lemma2_to64();
            lemma_pow2_128();
            assert(le_nat(a8 + b8) == n0 + pow2(64) * n1);
            assert((a8 + b8).len() == 16);
            assert(le_nat(block@) == le_nat(a8 + b8) + pow2(128) * le_nat(c1));
            assert(le_nat(block@) == n0 + pow2(64) * (n1 as nat) + pow2(128) * (n2 as nat));
            assert(pow2(64) * (n1 as nat) == (n1 as int) * 0x1_0000_0000_0000_0000) by {
                lemma2_to64();
                vstd::arithmetic::mul::lemma_mul_is_commutative(pow2(64) as int, n1 as int);
            }
            assert(pow2(128) * (n2 as nat) == (n2 as int)
                * 0x1_0000_0000_0000_0000_0000_0000_0000_0000_int) by {
                lemma_pow2_128();
                vstd::arithmetic::mul::lemma_mul_is_commutative(pow2(128) as int, n2 as int);
            }
            assert(v3((n0, n1, n2)) == le_nat(block@));
            // the last padded byte is 0 or 1, so the block value fits 129 bits
            assert(n2 <= 1);
        }
        let a = add3(self.acc, (n0, n1, n2));
        let (r0, r1) = split_u128(self.r);
        proof {
            let rv = self.r;
            assert((rv & 0x0ffffffc_0ffffffc_0ffffffc_0fffffff) == rv ==> rv
                <= 0x0ffffffc_0ffffffc_0ffffffc_0fffffff) by (bit_vector);
            assert(r1 < 0x1000_0000_0000_0000);
            assert(a.2 < 8);
        }
        let prod = mul_3x2(a, (r0, r1));
        let newacc = reduce(prod);
        proof {
            assert((r0 + (r1 as nat) * 0x1_0000_0000_0000_0000) == self.r as nat);
            assert(v3(newacc) == ((v3(old(self).acc) + block_int(x@)) * (self.r as nat))
                % p1305());
        }
        self.acc = newacc;
    }

    /// The tag for the message absorbed so far: the low 128 bits of
    /// accumulator plus pad.  The state can still absorb further blocks.
    pub fn finalize(&self) -> (t: u128)
        requires
            self.wf(),
        ensures
            t as nat == (self.acc_nat() + (self.s_pad() as nat)) % pow2(128),
    {
        let (s0, s1) = split_u128(self.s);
        let w = add3(self.acc, (s0, s1, 0));
        let t = w.0 as u128 + (w.1 as u128) * 0x1_0000_0000_0000_0000u128;
        proof {
            lemma_pow2_128();
            assert(v3(w) == t as nat + (w.2 as nat)
                * 0x1_0000_0000_0000_0000_0000_0000_0000_0000_nat);
            lemma_mod_multiples_vanish(
                w.2 as int,
                t as int,
                0x1_0000_0000_0000_0000_0000_0000_0000_0000_int,
            );
            lemma_small_mod(t as nat, 0x1_0000_0000_0000_0000_0000_0000_0000_0000_nat);
        }
        t
    }

    /// Hashes a message, one block at a time, then finalizes the output.
    pub fn hash(&mut self, data: &[u8]) -> (t: u128)
        requires
            old(self).wf(),
        ensures
            final(self).wf(),
            final(self).r_key() == old(self).r_key(),
            final(self).s_pad() == old(self).s_pad(),
            final(self).acc_nat() == poly_blocks(
                old(self).acc_nat(),
                (old(self).r_key()) as nat,
                data@,
            ),
            t as nat == (poly_blocks(old(self).acc_nat(), (old(self).r_key()) as nat, data@)
                + (old(self).s_pad() as nat)) % pow2(128),
    {
        let ghost a0 = self.acc_nat();
        let ghost rv = (self.r_key()) as nat;
        let len = data.len();
        let mut off: usize = 0;
        proof {
            assert(data@.take(0) =~= Seq::<u8>::empty());
        }
        while len - off > 16
            invariant
                off <= len,
                off % 16 == 0,
                len == data@.len(),
                self.wf(),
                self.r_key() == old(self).r_key(),
                self.s_pad() == old(self).s_pad(),
                self.acc_nat() == poly_blocks(a0, rv, data@.take(off as int)),
            decreases len - off,
        {
            let blk = vstd::slice::slice_subrange(data, off, off + 16);
            self.read_block(blk);
            proof {
                let m = data@.take(off + 16);
                assert(m.len() == off + 16);
                let cut = 16 * (((m.len() - 1) as nat) / 16);
                assert(cut == off);
                assert(m.take(off as int) =~= data@.take(off as int));
                assert(m.skip(off as int) =~= data@.subrange(off as int, off + 16));
                assert(self.acc_nat() == poly_blocks(a0, rv, m));
            }
            off = off + 16;
        }
        if len > off {
            let blk = vstd::slice::slice_subrange(data, off, len);
            self.read_block(blk);
            proof {
                let m = data@;
                assert(m.len() == len);
                let cut = 16 * (((m.len() - 1) as nat) / 16);
                assert(cut == off);
                assert(m.take(off as int) =~= data@.take(off as int));
                assert(m.skip(off as int) =~= data@.subrange(off as int, len as int));
                assert(self.acc_nat() == poly_blocks(a0, rv, m));
            }
        } else {
            proof {
                assert(data@.take(off as int) =~= data@);
            }
        }
        self.finalize()
    }

    /// Verifies a message against an expected tag.
    pub fn verify(&mut self, data: &[u8], expected: u128) -> (ok: bool)
        requires
            old(self).wf(),
        ensures
            final(self).wf(),
            ok <==> (poly_blocks(old(self).acc_nat(), (old(self).r_key()) as nat, data@) + (old(
                self,
            ).s_pad() as nat)) % pow2(128) == expected as nat,
    {
        self.hash(data) == expected
    }
}

} // verus!
