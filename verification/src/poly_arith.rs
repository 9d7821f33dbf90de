//! Fixed-width limb arithmetic for the Poly1305 accumulator.
//!
//! Values below 2^192 are held in three 64-bit limbs, products in four.
//! `reduce` brings a four-limb product back below the prime 2^130 - 5 using
//! the identity 2^130 = p + 5.

use vstd::prelude::*;

verus! {

use vstd::arithmetic::mul::lemma_mul_upper_bound;
use vstd::arithmetic::mul::lemma_mul_is_distributive_add_other_way;
use vstd::arithmetic::mul::lemma_mul_is_associative;
use vstd::arithmetic::mul::lemma_mul_is_commutative;
use vstd::arithmetic::mul::lemma_mul_is_distributive_add;
use vstd::arithmetic::div_mod::lemma_mod_multiples_vanish;
use vstd::arithmetic::div_mod::lemma_small_mod;

/// The Poly1305 prime, 2^130 - 5.
pub open spec fn p1305() -> nat {
    0x3_ffffffff_ffffffff_ffffffff_fffffffb_nat
}

/// The value of three 64-bit limbs, least significant first.
pub open spec fn v3(a: (u64, u64, u64)) -> nat {
    ((a.0 as int) + (a.1 as int) * 0x1_0000_0000_0000_0000 + (a.2 as int)
        * 0x1_0000_0000_0000_0000_0000_0000_0000_0000_int) as nat
}

/// The value of four 64-bit limbs, least significant first.
pub open spec fn v4(a: (u64, u64, u64, u64)) -> nat {
    ((a.0 as int) + (a.1 as int) * 0x1_0000_0000_0000_0000 + (a.2 as int)
        * 0x1_0000_0000_0000_0000_0000_0000_0000_0000_int + (a.3 as int)
        * 0x1_0000_0000_0000_0000_0000_0000_0000_0000_0000_0000_0000_0000_int) as nat
}

/// The low and high 64-bit halves of a 128-bit value.
pub fn split_u128(s: u128) -> (r: (u64, u64))
    ensures
        s as nat == r.0 + (r.1 as nat) * 0x1_0000_0000_0000_0000,
{
    let lo = (s & 0xffff_ffff_ffff_ffff) as u64;
    let hi = (s >> 64) as u64;
    proof {
        assert((s & 0xffff_ffff_ffff_ffff) < 0x1_0000_0000_0000_0000 && (s >> 64)
            < 0x1_0000_0000_0000_0000 && s == (s >> 64) * 0x1_0000_0000_0000_0000 + (s
            & 0xffff_ffff_ffff_ffff)) by (bit_vector);
    }
    (lo, hi)
}

/// Limb-wise addition of values whose sum stays below 2^192.
pub fn add3(a: (u64, u64, u64), b: (u64, u64, u64)) -> (r: (u64, u64, u64))
    requires
        v3(a) + v3(b) < 0x1_0000_0000_0000_0000_0000_0000_0000_0000_0000_0000_0000_0000_int,
    ensures
        v3(r) == v3(a) + v3(b),
{
    let s0 = a.0 as u128 + b.0 as u128;
    let (r0, c0) = split_u128(s0);
    let s1 = a.1 as u128 + b.1 as u128 + c0 as u128;
    let (r1, c1) = split_u128(s1);
    let s2 = a.2 as u128 + b.2 as u128 + c1 as u128;
    proof {
        assert((r0 as int) + (r1 as int) * 0x1_0000_0000_0000_0000 + (s2 as int)
            * 0x1_0000_0000_0000_0000_0000_0000_0000_0000_int == v3(a) + v3(b));
        assert(s2 < 0x1_0000_0000_0000_0000);
    }
    let r2 = s2 as u64;
    (r0, r1, r2)
}

/// Ring expansion of a three-limb by two-limb product.
proof fn lemma_mul_expand(a0: int, a1: int, a2: int, b0: int, b1: int, q: int)
    ensures
        (a0 + a1 * q + a2 * (q * q)) * (b0 + b1 * q) == a0 * b0 + (a0 * b1 + a1 * b0) * q + (a1
            * b1 + a2 * b0) * (q * q) + (a2 * b1) * ((q * q) * q),
{
    let qq = q * q;
    let ab = a0 + a1 * q + a2 * qq;
    lemma_mul_is_distributive_add(ab, b0, b1 * q);
    // ab * b0
    lemma_mul_is_distributive_add_other_way(b0, a0 + a1 * q, a2 * qq);
    lemma_mul_is_distributive_add_other_way(b0, a0, a1 * q);
    lemma_mul_is_associative(a1, q, b0);
    lemma_mul_is_commutative(q, b0);
    lemma_mul_is_associative(a1, b0, q);
    lemma_mul_is_associative(a2, qq, b0);
    lemma_mul_is_commutative(qq, b0);
    lemma_mul_is_associative(a2, b0, qq);
    assert(ab * b0 == a0 * b0 + (a1 * b0) * q + (a2 * b0) * qq);
    // ab * (b1 * q)
    lemma_mul_is_distributive_add_other_way(b1 * q, a0 + a1 * q, a2 * qq);
    lemma_mul_is_distributive_add_other_way(b1 * q, a0, a1 * q);
    lemma_mul_is_associative(a0, b1, q);
    lemma_mul_is_associative(a1 * q, b1, q);
    lemma_mul_is_associative(a1, q, b1);
    lemma_mul_is_commutative(q, b1);
    lemma_mul_is_associative(a1, b1, q);
    assert((a1 * q) * b1 == (a1 * b1) * q);
    lemma_mul_is_associative(a1 * b1, q, q);
    assert((a1 * q) * (b1 * q) == (a1 * b1) * qq);
    lemma_mul_is_associative(a2 * qq, b1, q);
    lemma_mul_is_associative(a2, qq, b1);
    lemma_mul_is_commutative(qq, b1);
    lemma_mul_is_associative(a2, b1, qq);
    assert((a2 * qq) * b1 == (a2 * b1) * qq);
    lemma_mul_is_associative(a2 * b1, qq, q);
    assert((a2 * qq) * (b1 * q) == (a2 * b1) * (qq * q));
    assert(ab * (b1 * q) == (a0 * b1) * q + (a1 * b1) * qq + (a2 * b1) * (qq * q));
    // regroup the q and q*q columns
    lemma_mul_is_distributive_add_other_way(q, a0 * b1, a1 * b0);
    lemma_mul_is_distributive_add_other_way(qq, a1 * b1, a2 * b0);
}

/// Schoolbook product of a value below 2^131 (`a.2 < 8`) and a clamped
/// multiplier below 2^124 (`b.1 < 2^60`).
pub fn mul_3x2(a: (u64, u64, u64), b: (u64, u64)) -> (r: (u64, u64, u64, u64))
    requires
        a.2 < 8,
        b.1 < 0x1000_0000_0000_0000,
    ensures
        v4(r) == v3(a) * (b.0 + (b.1 as nat) * 0x1_0000_0000_0000_0000),
{
    proof {
        lemma_mul_upper_bound(a.0 as int, 0xffff_ffff_ffff_ffff, b.0 as int, 0xffff_ffff_ffff_ffff);
        lemma_mul_upper_bound(a.0 as int, 0xffff_ffff_ffff_ffff, b.1 as int, 0xfff_ffff_ffff_ffff);
        lemma_mul_upper_bound(a.1 as int, 0xffff_ffff_ffff_ffff, b.0 as int, 0xffff_ffff_ffff_ffff);
        lemma_mul_upper_bound(a.1 as int, 0xffff_ffff_ffff_ffff, b.1 as int, 0xfff_ffff_ffff_ffff);
        lemma_mul_upper_bound(a.2 as int, 7, b.0 as int, 0xffff_ffff_ffff_ffff);
        lemma_mul_upper_bound(a.2 as int, 7, b.1 as int, 0xfff_ffff_ffff_ffff);
    }
    let p00 = (a.0 as u128) * (b.0 as u128);
    let p01 = (a.0 as u128) * (b.1 as u128);
    let p10 = (a.1 as u128) * (b.0 as u128);
    let p11 = (a.1 as u128) * (b.1 as u128);
    let p20 = (a.2 as u128) * (b.0 as u128);
    let p21 = (a.2 as u128) * (b.1 as u128);
    let (p00l, p00h) = split_u128(p00);
    let (p01l, p01h) = split_u128(p01);
    let (p10l, p10h) = split_u128(p10);
    let (p11l, p11h) = split_u128(p11);
    let (p20l, p20h) = split_u128(p20);
    let (p21l, p21h) = split_u128(p21);
    let s1 = p00h as u128 + p01l as u128 + p10l as u128;
    let (t1, k1) = split_u128(s1);
    let s2 = k1 as u128 + p01h as u128 + p10h as u128 + p11l as u128 + p20l as u128;
    let (t2, k2) = split_u128(s2);
    let s3 = k2 as u128 + p11h as u128 + p20h as u128 + p21l as u128;
    proof {
        // Limb bounds that keep the last column inside one limb.
        assert(p01h < 0x1000_0000_0000_0000);
        assert(p11h < 0x1000_0000_0000_0000);
        assert(p20h < 8);
        assert(p21h == 0 && p21l < 0x8000_0000_0000_0000);
        assert(k1 < 3);
        assert(k2 < 4);
        assert(s3 < 0x1_0000_0000_0000_0000);
        lemma_mul_expand(
            a.0 as int,
            a.1 as int,
            a.2 as int,
            b.0 as int,
            b.1 as int,
            0x1_0000_0000_0000_0000,
        );
        assert(v3(a) * (b.0 + (b.1 as nat) * 0x1_0000_0000_0000_0000) == (a.0 as int) * (b.0 as int)
            + ((a.0 as int) * (b.1 as int) + (a.1 as int) * (b.0 as int)) * 0x1_0000_0000_0000_0000
            + ((a.1 as int) * (b.1 as int) + (a.2 as int) * (b.0 as int))
            * 0x1_0000_0000_0000_0000_0000_0000_0000_0000_int + ((a.2 as int) * (b.1 as int))
            * 0x1_0000_0000_0000_0000_0000_0000_0000_0000_0000_0000_0000_0000_int);
        assert(v4((p00l, t1, t2, s3 as u64)) == v3(a) * (b.0 + (b.1 as nat)
            * 0x1_0000_0000_0000_0000));
    }
    let t3 = s3 as u64;
    (p00l, t1, t2, t3)
}

/// `(h * 2^130 + l) % p == (5 h + l) % p`: the reduction step's identity.
proof fn lemma_fold(h: nat, l: nat)
    ensures
        (h * 0x4_0000_0000_0000_0000_0000_0000_0000_0000_nat + l) % p1305() == (5 * h + l) % p1305(),
{
    let p = p1305() as int;
    assert(h * 0x4_0000_0000_0000_0000_0000_0000_0000_0000_nat == h * p1305() + 5 * h) by {
        lemma_mul_is_distributive_add(h as int, p, 5);
    }
    lemma_mod_multiples_vanish(h as int, (5 * h + l) as int, p);
    assert(p1305() * h == h * p1305()) by {
        vstd::arithmetic::mul::lemma_mul_is_commutative(p, h as int);
    }
}

/// Reduces a four-limb value modulo 2^130 - 5.
pub fn reduce(t: (u64, u64, u64, u64)) -> (r: (u64, u64, u64))
    ensures
        v3(r) == v4(t) % p1305(),
        v3(r) < p1305(),
{
    let t2 = t.2;
    let t3 = t.3;
    let h0 = (t2 >> 2) | (t3 << 62);
    let h1 = t3 >> 2;
    let l2 = t2 & 3;
    proof {
        assert(t2 == (t2 >> 2) * 4 + (t2 & 3) && (t2 >> 2) < 0x4000_0000_0000_0000 && (t2 & 3) < 4)
            by (bit_vector);
        assert(t3 == (t3 >> 2) * 4 + (t3 & 3) && (t3 >> 2) < 0x4000_0000_0000_0000 && (t3 & 3) < 4)
            by (bit_vector);
        assert(((t2 >> 2) | (t3 << 62)) == (t2 >> 2) + (t3 & 3) * 0x4000_0000_0000_0000)
            by (bit_vector);
    }
    let ghost hval: nat = ((h0 as int) + (h1 as int) * 0x1_0000_0000_0000_0000) as nat;
    let ghost lval: nat = ((t.0 as int) + (t.1 as int) * 0x1_0000_0000_0000_0000 + (l2 as int)
        * 0x1_0000_0000_0000_0000_0000_0000_0000_0000_int) as nat;
    proof {
        assert(v4(t) == hval * 0x4_0000_0000_0000_0000_0000_0000_0000_0000_nat + lval);
        lemma_fold(hval, lval);
    }
    // m = 5 * h, at most 2^128 + small, in three limbs
    let s0 = 5u128 * (h0 as u128);
    let (m0, c) = split_u128(s0);
    let s1 = 5u128 * (h1 as u128) + c as u128;
    let (m1, m2) = split_u128(s1);
    proof {
        assert(m2 < 4);
        assert(v3((m0, m1, m2 as u64)) == 5 * hval);
    }
    let u = add3((t.0, t.1, l2), (m0, m1, m2 as u64));
    proof {
        assert(v3(u) == lval + 5 * hval);
    }
    // second fold: now u < 2^131
    let u2 = u.2;
    let h2 = u2 >> 2;
    let u2l = u2 & 3;
    proof {
        assert(u2 == (u2 >> 2) * 4 + (u2 & 3) && (u2 & 3) < 4 && (u2 >> 2)
            < 0x4000_0000_0000_0000) by (bit_vector);
        assert(u.2 < 8);
        assert(h2 <= 1);
    }
    let ghost l2val: nat = ((u.0 as int) + (u.1 as int) * 0x1_0000_0000_0000_0000 + (u2l as int)
        * 0x1_0000_0000_0000_0000_0000_0000_0000_0000_int) as nat;
    proof {
        assert(v3(u) == (h2 as nat) * 0x4_0000_0000_0000_0000_0000_0000_0000_0000_nat + l2val);
        lemma_fold(h2 as nat, l2val);
    }
    let sa = u.0 as u128 + 5u128 * (h2 as u128);
    let (w0, ca) = split_u128(sa);
    let sb = u.1 as u128 + ca as u128;
    let (w1, cb) = split_u128(sb);
    let w2 = u2l + cb;
    proof {
        assert(cb <= 1);
        assert(v3((w0, w1, w2)) == l2val + 5 * (h2 as nat));
        assert(v3((w0, w1, w2)) < 0x4_0000_0000_0000_0000_0000_0000_0000_0005_nat);
    }
    let w = (w0, w1, w2);
    // single conditional subtraction of p
    let ge = w.2 > 3 || (w.2 == 3 && (w.1 > 0xffff_ffff_ffff_ffff || (w.1 == 0xffff_ffff_ffff_ffff
        && w.0 >= 0xffff_ffff_ffff_fffb)));
    proof {
        assert(ge <==> v3(w) >= p1305());
    }
    if ge {
        // w - p == w + 5 - 2^130
        let x0s = w.0 as u128 + 5;
        let (x0, cx) = split_u128(x0s);
        let x1s = w.1 as u128 + cx as u128;
        let (x1, cy) = split_u128(x1s);
        let x2 = w.2 + cy;
        proof {
            assert(cy <= 1);
            assert(x0 + (x1 as nat) * 0x1_0000_0000_0000_0000 + (x2 as nat)
                * 0x1_0000_0000_0000_0000_0000_0000_0000_0000_int == v3(w) + 5);
            assert(x2 >= 4);
        }
        let r = (x0, x1, x2 - 4);
        proof {
            assert(v3(r) == v3(w) - p1305());
            assert(v3(r) < p1305());
            assert(v3(w) % p1305() == v3(r)) by {
                lemma_mod_multiples_vanish(1, v3(r) as int, p1305() as int);
                lemma_small_mod(v3(r), p1305());
            }
        }
        r
    } else {
        proof {
            lemma_small_mod(v3(w), p1305());
        }
        w
    }
}

} // verus!
