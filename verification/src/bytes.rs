//! Little-endian byte encodings and byte-wise XOR.
//!
//! Every integer that crosses the library's byte-level interfaces (cipher
//! words, Poly1305 values, tags) is interpreted through `le_nat`, the value of
//! a byte sequence read as a little-endian integer.

use vstd::prelude::*;

verus! {

use vstd::arithmetic::power2::pow2;
use vstd::arithmetic::power2::lemma_pow2_adds;
use vstd::arithmetic::power2::lemma_pow2_strictly_increases;
use vstd::arithmetic::power2::lemma2_to64;
use vstd::arithmetic::power2::lemma2_to64_rest;
use vstd::arithmetic::mul::lemma_mul_is_distributive_add;
use vstd::arithmetic::mul::lemma_mul_is_distributive_add_other_way;
use vstd::arithmetic::mul::lemma_mul_is_associative;
use vstd::arithmetic::mul::lemma_mul_inequality;
use vstd::arithmetic::div_mod::lemma_fundamental_div_mod;
use vstd::arithmetic::div_mod::lemma_multiply_divide_lt;
use vstd::arithmetic::div_mod::lemma_div_denominator;

/// The value of a byte sequence read as a little-endian integer.
pub open spec fn le_nat(s: Seq<u8>) -> nat
    decreases s.len(),
{
    if s.len() == 0 {
        0
    } else {
        le_nat(s.drop_last()) + (s.last() as nat) * pow2(8 * (s.len() - 1) as nat)
    }
}

/// The `n` low-order bytes of `x`, little-endian first.
pub open spec fn le_bytes(x: nat, n: nat) -> Seq<u8>
    decreases n,
{
    if n == 0 {
        Seq::empty()
    } else {
        seq![(x % 256) as u8] + le_bytes(x / 256, (n - 1) as nat)
    }
}

pub proof fn lemma_le_bytes_len(x: nat, n: nat)
    ensures
        le_bytes(x, n).len() == n,
    decreases n,
{
    if n > 0 {
        lemma_le_bytes_len(x / 256, (n - 1) as nat);
    }
}

pub proof fn lemma_le_nat_bound(s: Seq<u8>)
    ensures
        le_nat(s) < pow2(8 * s.len()),
    decreases s.len(),
{
    if s.len() == 0 {
        lemma2_to64();
    } else {
        lemma_le_nat_bound(s.drop_last());
        lemma_pow2_adds(8 * (s.len() - 1) as nat, 8);
        lemma2_to64();
        // le_nat(drop_last) < pow2(8(len-1)) and last <= 255, so the sum is
        // below pow2(8(len-1)) * 256 == pow2(8 len).
        let p = pow2(8 * (s.len() - 1) as nat);
        assert((s.last() as nat) * p <= 255 * p) by {
            lemma_mul_inequality(s.last() as int, 255, p as int);
        }
        assert(p + 255 * p == 256 * p) by {
            lemma_mul_is_distributive_add_other_way(p as int, 1, 255);
        }
        assert(pow2(8 * (s.len() - 1) as nat) * pow2(8) == p * 256);
    }
}

pub proof fn lemma_le_nat_front(s: Seq<u8>)
    requires
        s.len() > 0,
    ensures
        le_nat(s) == s[0] + 256 * le_nat(s.skip(1)),
    decreases s.len(),
{
    if s.len() == 1 {
        lemma2_to64();
        assert(le_nat(Seq::<u8>::empty()) == 0);
        assert(s.drop_last() =~= Seq::<u8>::empty());
        assert(s.skip(1) =~= Seq::<u8>::empty());
        assert(le_nat(s) == le_nat(s.drop_last()) + (s.last() as nat) * pow2(0));
        assert((s.last() as nat) * 1 == s.last() as nat);
    } else {
        let t = s.drop_last();
        lemma_le_nat_front(t);
        assert(t.skip(1) =~= s.skip(1).drop_last());
        assert(s.skip(1).last() == s.last());
        let e = (8 * (s.len() - 2)) as nat;
        lemma_pow2_adds(8, e);
        lemma2_to64();
        assert(le_nat(s) == le_nat(t) + (s.last() as nat) * pow2(8 * (s.len() - 1) as nat));
        assert(le_nat(s.skip(1)) == le_nat(s.skip(1).drop_last()) + (s.skip(1).last() as nat)
            * pow2(8 * (s.skip(1).len() - 1) as nat));
        assert(8 * (s.skip(1).len() - 1) as nat == e);
        // le_nat(s) == le_nat(t) + last * pow2(8(len-1))
        //           == s[0] + 256 * le_nat(t.skip(1)) + last * 256 * pow2(8(len-2))
        assert((s.last() as nat) * pow2(8 * (s.len() - 1) as nat) == 256 * ((s.last() as nat)
            * pow2(e))) by {
            assert(pow2(8 * (s.len() - 1) as nat) == 256 * pow2(e));
            lemma_mul_is_associative(s.last() as int, 256, pow2(e) as int);
            lemma_mul_is_associative(256, s.last() as int, pow2(e) as int);
        }
        assert(256 * le_nat(t.skip(1)) + 256 * ((s.last() as nat) * pow2(e)) == 256 * (le_nat(
            t.skip(1),
        ) + (s.last() as nat) * pow2(e))) by {
            lemma_mul_is_distributive_add(
                256,
                le_nat(t.skip(1)) as int,
                ((s.last() as nat) * pow2(e)) as int,
            );
        }
    }
}

pub proof fn lemma_le_nat_append(a: Seq<u8>, b: Seq<u8>)
    ensures
        le_nat(a + b) == le_nat(a) + pow2(8 * a.len()) * le_nat(b),
    decreases b.len(),
{
    if b.len() == 0 {
        assert(a + b =~= a);
        assert(le_nat(b) == 0);
    } else {
        lemma_le_nat_append(a, b.drop_last());
        assert((a + b).drop_last() =~= a + b.drop_last());
        assert((a + b).last() == b.last());
        assert(le_nat(a + b) == le_nat((a + b).drop_last()) + ((a + b).last() as nat) * pow2(
            8 * ((a + b).len() - 1) as nat,
        ));
        assert(le_nat(b) == le_nat(b.drop_last()) + (b.last() as nat) * pow2(
            8 * (b.len() - 1) as nat,
        ));
        let pa = pow2(8 * a.len());
        let pb = pow2(8 * (b.len() - 1) as nat);
        lemma_pow2_adds(8 * a.len(), 8 * (b.len() - 1) as nat);
        // (a+b) ends with b.last() at position a.len() + b.len() - 1.
        assert((b.last() as nat) * pow2(8 * ((a + b).len() - 1) as nat) == pa * ((b.last() as nat)
            * pb)) by {
            assert(pow2(8 * ((a + b).len() - 1) as nat) == pa * pb);
            lemma_mul_is_associative(b.last() as int, pa as int, pb as int);
            lemma_mul_is_associative(pa as int, b.last() as int, pb as int);
            vstd::arithmetic::mul::lemma_mul_is_commutative(b.last() as int, pa as int);
        }
        assert(pa * le_nat(b.drop_last()) + pa * ((b.last() as nat) * pb) == pa * (le_nat(
            b.drop_last(),
        ) + (b.last() as nat) * pb)) by {
            lemma_mul_is_distributive_add(
                pa as int,
                le_nat(b.drop_last()) as int,
                ((b.last() as nat) * pb) as int,
            );
        }
    }
}

/// Reading back the bytes of `x` gives `x` when `x` fits in `n` bytes.
pub proof fn lemma_le_nat_of_le_bytes(x: nat, n: nat)
    requires
        x < pow2(8 * n),
    ensures
        le_nat(le_bytes(x, n)) == x,
    decreases n,
{
    if n == 0 {
        lemma2_to64();
    } else {
        let s = le_bytes(x, n);
        lemma_le_bytes_len(x, n);
        lemma_le_bytes_len(x / 256, (n - 1) as nat);
        lemma_le_nat_front(s);
        assert(s.skip(1) =~= le_bytes(x / 256, (n - 1) as nat));
        assert(x / 256 < pow2(8 * (n - 1) as nat)) by {
            lemma_pow2_adds(8, 8 * (n - 1) as nat);
            lemma2_to64();
            lemma_multiply_divide_lt(x as int, 256, pow2(8 * (n - 1) as nat) as int);
        }
        lemma_le_nat_of_le_bytes(x / 256, (n - 1) as nat);
        lemma_fundamental_div_mod(x as int, 256);
    }
}

/// Splitting a little-endian encoding at byte `m`.
pub proof fn lemma_le_bytes_split(x: nat, m: nat, n: nat)
    ensures
        le_bytes(x, m + n) == le_bytes(x, m) + le_bytes(x / pow2(8 * m), n),
    decreases m,
{
    if m == 0 {
        lemma2_to64();
        assert(x / 1 == x);
        assert(le_bytes(x, m + n) =~= le_bytes(x, 0nat) + le_bytes(x / pow2(0), n)) by {
            lemma_le_bytes_len(x, n);
        }
    } else {
        lemma_le_bytes_split(x / 256, (m - 1) as nat, n);
        lemma_pow2_adds(8, 8 * (m - 1) as nat);
        lemma2_to64();
        assert(x / 256 / pow2(8 * (m - 1) as nat) == x / pow2(8 * m)) by {
            vstd::arithmetic::power2::lemma_pow2_pos(8 * (m - 1) as nat);
            lemma_div_denominator(x as int, 256, pow2(8 * (m - 1) as nat) as int);
        }
        assert(seq![(x % 256) as u8] + (le_bytes(x / 256, (m - 1) as nat) + le_bytes(
            x / pow2(8 * m),
            n,
        )) =~= (seq![(x % 256) as u8] + le_bytes(x / 256, (m - 1) as nat)) + le_bytes(
            x / pow2(8 * m),
            n,
        ));
    }
}

/// Equal-length byte sequences with the same little-endian value are equal.
pub proof fn lemma_le_nat_injective(a: Seq<u8>, b: Seq<u8>)
    requires
        a.len() == b.len(),
        le_nat(a) == le_nat(b),
    ensures
        a == b,
    decreases a.len(),
{
    if a.len() == 0 {
        assert(a =~= b);
    } else {
        lemma_le_nat_front(a);
        lemma_le_nat_front(b);
        // The first byte is the value modulo 256, so it matches; recurse.
        assert(a[0] == le_nat(a) % 256 && b[0] == le_nat(b) % 256) by {
            vstd::arithmetic::div_mod::lemma_fundamental_div_mod_converse(
                le_nat(a) as int,
                256,
                le_nat(a.skip(1)) as int,
                a[0] as int,
            );
            vstd::arithmetic::div_mod::lemma_fundamental_div_mod_converse(
                le_nat(b) as int,
                256,
                le_nat(b.skip(1)) as int,
                b[0] as int,
            );
        }
        assert(le_nat(a.skip(1)) == le_nat(b.skip(1)));
        lemma_le_nat_injective(a.skip(1), b.skip(1));
        assert forall|i: int| 0 <= i < a.len() implies a[i] == b[i] by {
            if i > 0 {
                assert(a[i] == a.skip(1)[i - 1]);
                assert(b[i] == b.skip(1)[i - 1]);
            }
        }
        assert(a =~= b);
    }
}

/// An all-zero sequence reads as zero.
pub proof fn lemma_le_nat_zeros(s: Seq<u8>)
    requires
        forall|i: int| 0 <= i < s.len() ==> s[i] == 0,
    ensures
        le_nat(s) == 0,
    decreases s.len(),
{
    if s.len() > 0 {
        lemma_le_nat_zeros(s.drop_last());
    }
}

/// Pointwise XOR of two byte sequences of the same length.
pub open spec fn xor_bytes(a: Seq<u8>, b: Seq<u8>) -> Seq<u8> {
    Seq::new(a.len(), |i: int| a[i] ^ b[i])
}

/// XOR with the same mask twice gives the original sequence back.
pub proof fn lemma_xor_cancel(a: Seq<u8>, b: Seq<u8>)
    requires
        a.len() == b.len(),
    ensures
        xor_bytes(xor_bytes(a, b), b) == a,
{
    assert forall|i: int| 0 <= i < a.len() implies xor_bytes(xor_bytes(a, b), b)[i] == a[i] by {
        let x = a[i];
        let y = b[i];
        assert((x ^ y) ^ y == x) by (bit_vector);
    }
    assert(xor_bytes(xor_bytes(a, b), b) =~= a);
}

/// Loads `n <= 8` bytes of `b` starting at `i` as a little-endian integer.
pub fn load_le(b: &[u8], i: usize, n: usize) -> (r: u64)
    requires
        i + n <= b@.len(),
        n <= 8,
    ensures
        r as nat == le_nat(b@.subrange(i as int, (i + n) as int)),
{
    let mut r: u64 = 0;
    let mut j: usize = n;
    let blen = b.len();
    proof {
        assert(b@.subrange((i + n) as int, (i + n) as int) =~= Seq::<u8>::empty());
        assert(le_nat(Seq::<u8>::empty()) == 0);
    }
    while j > 0
        invariant
            i + n <= b@.len(),
            b@.len() <= usize::MAX,
            n <= 8,
            j <= n,
            r as nat == le_nat(b@.subrange((i + j) as int, (i + n) as int)),
        decreases j,
    {
        proof {
            let cur = b@.subrange((i + j) as int, (i + n) as int);
            lemma_le_nat_bound(cur);
            assert(cur.len() <= 7);
            assert(pow2(8 * cur.len()) <= pow2(56)) by {
                if 8 * cur.len() < 56 {
                    lemma_pow2_strictly_increases(8 * cur.len(), 56);
                }
            }
            lemma2_to64();
            lemma2_to64_rest();
            let s = b@.subrange((i + j - 1) as int, (i + n) as int);
            lemma_le_nat_front(s);
            assert(s.skip(1) =~= cur);
            assert(s[0] == b@[(i + j - 1) as int]);
        }
        j = j - 1;
        r = r * 256 + (b[i + j] as u64);
    }
    r
}

/// Loads 4 bytes as a little-endian `u32`.
pub fn load32(b: &[u8], i: usize) -> (r: u32)
    requires
        i + 4 <= b@.len(),
    ensures
        r as nat == le_nat(b@.subrange(i as int, i + 4)),
{
    let w = load_le(b, i, 4);
    proof {
        lemma_le_nat_bound(b@.subrange(i as int, i + 4));
        lemma2_to64();
    }
    w as u32
}

/// Loads 16 bytes as a little-endian `u128`.
pub fn load_u128(b: &[u8], i: usize) -> (r: u128)
    requires
        i + 16 <= b@.len(),
    ensures
        r as nat == le_nat(b@.subrange(i as int, i + 16)),
{
    let blen = b.len();
    let lo = load_le(b, i, 8);
    let hi = load_le(b, i + 8, 8);
    let r = lo as u128 + (hi as u128) * 0x1_0000_0000_0000_0000u128;
    proof {
        let s = b@.subrange(i as int, i + 16);
        let a = b@.subrange(i as int, i + 8);
        let c = b@.subrange(i + 8, i + 16);
        assert(s =~= a + c);
        lemma_le_nat_append(a, c);
        lemma2_to64();
        assert(lo as nat == le_nat(a));
        assert(hi as nat == le_nat(c));
        assert(le_nat(s) == le_nat(a) + pow2(64) * le_nat(c));
        assert(r as nat == le_nat(a) + 0x1_0000_0000_0000_0000 * le_nat(c));
    }
    r
}

/// Appends the `n <= 8` low-order bytes of `x`, little-endian first.
pub fn push_le(v: &mut Vec<u8>, x: u64, n: usize)
    requires
        n <= 8,
    ensures
        final(v)@ == old(v)@ + le_bytes(x as nat, n as nat),
{
    let mut cur: u64 = x;
    let mut k: usize = 0;
    proof {
        assert(v@ =~= v@ + le_bytes(x as nat, 0nat));
        lemma2_to64();
        vstd::arithmetic::div_mod::lemma_div_basics(x as int);
    }
    while k < n
        invariant
            k <= n,
            n <= 8,
            cur as nat == (x as nat) / pow2(8 * k as nat),
            v@ == old(v)@ + le_bytes(x as nat, k as nat),
        decreases n - k,
    {
        let byte = (cur & 0xff) as u8;
        proof {
            lemma2_to64();
            assert(cur & 0xff == cur % 256 && cur & 0xff < 256) by (bit_vector);
            assert(cur >> 8 == cur / 256) by (bit_vector);
            lemma_le_bytes_split(x as nat, k as nat, 1);
            lemma_le_bytes_len(x as nat, k as nat);
            assert(le_bytes((cur as nat) / 256, 0nat) =~= Seq::<u8>::empty());
            assert(le_bytes(cur as nat, 1) =~= seq![(cur % 256) as u8]);
            assert((old(v)@ + le_bytes(x as nat, k as nat)).push((cur % 256) as u8) =~= old(v)@
                + le_bytes(x as nat, (k + 1) as nat));
            // The next quotient is x / pow2(8 (k + 1)).
            assert((cur / 256) as nat == (x as nat) / pow2(8 * (k + 1) as nat)) by {
                lemma2_to64();
                lemma_pow2_adds(8 * k as nat, 8);
                vstd::arithmetic::power2::lemma_pow2_pos(8 * k as nat);
                lemma_div_denominator((x as nat) as int, pow2(8 * k as nat) as int, 256);
            }
        }
        v.push(byte);
        cur = cur >> 8;
        k = k + 1;
    }
    proof {
        assert(v@ =~= old(v)@ + le_bytes(x as nat, n as nat));
    }
}

/// Appends the `n <= 16` low-order bytes of `x`, little-endian first.
pub fn push_le_u128(v: &mut Vec<u8>, x: u128, n: usize)
    requires
        n <= 16,
    ensures
        final(v)@ == old(v)@ + le_bytes(x as nat, n as nat),
{
    let mut cur: u128 = x;
    let mut k: usize = 0;
    proof {
        assert(v@ =~= v@ + le_bytes(x as nat, 0nat));
        lemma2_to64();
        vstd::arithmetic::div_mod::lemma_div_basics(x as int);
    }
    while k < n
        invariant
            k <= n,
            n <= 16,
            cur as nat == (x as nat) / pow2(8 * k as nat),
            v@ == old(v)@ + le_bytes(x as nat, k as nat),
        decreases n - k,
    {
        let byte = (cur & 0xff) as u8;
        proof {
            lemma2_to64();
            assert(cur & 0xff == cur % 256 && cur & 0xff < 256) by (bit_vector);
            assert(cur >> 8 == cur / 256) by (bit_vector);
            lemma_le_bytes_split(x as nat, k as nat, 1);
            lemma_le_bytes_len(x as nat, k as nat);
            assert(le_bytes((cur as nat) / 256, 0nat) =~= Seq::<u8>::empty());
            assert(le_bytes(cur as nat, 1) =~= seq![(cur % 256) as u8]);
            assert((old(v)@ + le_bytes(x as nat, k as nat)).push((cur % 256) as u8) =~= old(v)@
                + le_bytes(x as nat, (k + 1) as nat));
            assert((cur / 256) as nat == (x as nat) / pow2(8 * (k + 1) as nat)) by {
                lemma2_to64();
                lemma_pow2_adds(8 * k as nat, 8);
                vstd::arithmetic::power2::lemma_pow2_pos(8 * k as nat);
                lemma_div_denominator((x as nat) as int, pow2(8 * k as nat) as int, 256);
            }
        }
        v.push(byte);
        cur = cur >> 8;
        k = k + 1;
    }
    proof {
        assert(v@ =~= old(v)@ + le_bytes(x as nat, n as nat));
    }
}

} // verus!
