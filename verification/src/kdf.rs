//! HSalsa20 and HChaCha20 subkey derivation.
//!
//! Both reuse their parent cipher's twenty rounds without the final state
//! addition and read the 32-byte subkey out of fixed output words.  The
//! extended 24-byte nonce splits into a 16-byte input for the derivation and
//! an 8-byte nonce for the stream cipher proper.

use vstd::prelude::*;

verus! {

use crate::arx::SIGMA0;
use crate::arx::SIGMA1;
use crate::arx::SIGMA2;
use crate::arx::SIGMA3;
use crate::arx::le32_words;
use crate::arx::bytes_of_words;
use crate::arx::word_to_bytes;
use crate::bytes::load32;

/// The "expand 32-byte k" constant as bytes, as HSalsa20 takes it.
pub open spec fn sigma_bytes() -> Seq<u8> {
    seq![
        0x65u8,
        0x78u8,
        0x70u8,
        0x61u8,
        0x6eu8,
        0x64u8,
        0x20u8,
        0x33u8,
        0x32u8,
        0x2du8,
        0x62u8,
        0x79u8,
        0x74u8,
        0x65u8,
        0x20u8,
        0x6bu8,
    ]
}

/// The HSalsa20 output for a 16-byte input `data`, key `k` and constant `c`:
/// twenty Salsa20 rounds without the final addition, then words
/// 0, 5, 10, 15, 6, 7, 8, 9 serialized little-endian.
pub open spec fn spec_hsalsa20(data: Seq<u8>, k: Seq<u8>, c: Seq<u8>) -> Seq<u8>
    recommends
        data.len() == 16,
        k.len() == 32,
        c.len() == 16,
{
    let cw = le32_words(c);
    let kw = le32_words(k);
    let dw = le32_words(data);
    let st = seq![
        cw[0],
        kw[0],
        kw[1],
        kw[2],
        kw[3],
        cw[1],
        dw[0],
        dw[1],
        dw[2],
        dw[3],
        cw[2],
        kw[4],
        kw[5],
        kw[6],
        kw[7],
        cw[3],
    ];
    let y = crate::salsa20::spec_rounds(st, 10);
    bytes_of_words(seq![y[0], y[5], y[10], y[15], y[6], y[7], y[8], y[9]])
}

/// The HChaCha20 output: twenty ChaCha20 rounds without the final addition
/// over the usual SIGMA / key / input layout, then words 0..3 and 12..15.
pub open spec fn spec_hchacha20(data: Seq<u8>, k: Seq<u8>) -> Seq<u8>
    recommends
        data.len() == 16,
        k.len() == 32,
{
    let kw = le32_words(k);
    let dw = le32_words(data);
    let st = seq![
        SIGMA0,
        SIGMA1,
        SIGMA2,
        SIGMA3,
        kw[0],
        kw[1],
        kw[2],
        kw[3],
        kw[4],
        kw[5],
        kw[6],
        kw[7],
        dw[0],
        dw[1],
        dw[2],
        dw[3],
    ];
    let y = crate::chacha20::spec_rounds(st, 10);
    bytes_of_words(seq![y[0], y[1], y[2], y[3], y[12], y[13], y[14], y[15]])
}

/// Serializes eight words as 32 little-endian bytes.
fn words_to_array(w: [u32; 8]) -> (r: [u8; 32])
    ensures
        r@ == bytes_of_words(w@),
{
    let b0 = word_to_bytes(w[0]);
    let b1 = word_to_bytes(w[1]);
    let b2 = word_to_bytes(w[2]);
    let b3 = word_to_bytes(w[3]);
    let b4 = word_to_bytes(w[4]);
    let b5 = word_to_bytes(w[5]);
    let b6 = word_to_bytes(w[6]);
    let b7 = word_to_bytes(w[7]);
    let r = [
        b0.0,
        b0.1,
        b0.2,
        b0.3,
        b1.0,
        b1.1,
        b1.2,
        b1.3,
        b2.0,
        b2.1,
        b2.2,
        b2.3,
        b3.0,
        b3.1,
        b3.2,
        b3.3,
        b4.0,
        b4.1,
        b4.2,
        b4.3,
        b5.0,
        b5.1,
        b5.2,
        b5.3,
        b6.0,
        b6.1,
        b6.2,
        b6.3,
        b7.0,
        b7.1,
        b7.2,
        b7.3,
    ];
    proof {
        assert(w@.take(7).drop_last() =~= w@.take(6));
        assert(w@.take(6).drop_last() =~= w@.take(5));
        assert(w@.take(5).drop_last() =~= w@.take(4));
        assert(w@.take(4).drop_last() =~= w@.take(3));
        assert(w@.take(3).drop_last() =~= w@.take(2));
        assert(w@.take(2).drop_last() =~= w@.take(1));
        assert(w@.take(1).drop_last() =~= w@.take(0));
        assert(w@.take(0) =~= Seq::<u32>::empty());
        assert(w@.drop_last() =~= w@.take(7));
        assert(w@.take(8) =~= w@);
        assert(bytes_of_words(w@.take(0)) =~= Seq::<u8>::empty());
        assert(bytes_of_words(w@.take(1)) =~= bytes_of_words(w@.take(0)) + crate::bytes::le_bytes(
            w@[0] as nat,
            4,
        ));
        assert(bytes_of_words(w@.take(2)) =~= bytes_of_words(w@.take(1)) + crate::bytes::le_bytes(
            w@[1] as nat,
            4,
        ));
        assert(bytes_of_words(w@.take(3)) =~= bytes_of_words(w@.take(2)) + crate::bytes::le_bytes(
            w@[2] as nat,
            4,
        ));
        assert(bytes_of_words(w@.take(4)) =~= bytes_of_words(w@.take(3)) + crate::bytes::le_bytes(
            w@[3] as nat,
            4,
        ));
        assert(bytes_of_words(w@.take(5)) =~= bytes_of_words(w@.take(4)) + crate::bytes::le_bytes(
            w@[4] as nat,
            4,
        ));
        assert(bytes_of_words(w@.take(6)) =~= bytes_of_words(w@.take(5)) + crate::bytes::le_bytes(
            w@[5] as nat,
            4,
        ));
        assert(bytes_of_words(w@.take(7)) =~= bytes_of_words(w@.take(6)) + crate::bytes::le_bytes(
            w@[6] as nat,
            4,
        ));
        assert(bytes_of_words(w@) =~= bytes_of_words(w@.take(7)) + crate::bytes::le_bytes(
            w@[7] as nat,
            4,
        ));
        crate::arx::lemma_bytes_of_words_len(w@);
        assert(r@ =~= bytes_of_words(w@));
    }
    r
}

/// The HSalsa20 core.
pub fn hsalsa20(data: [u8; 16], k: [u8; 32], c: [u8; 16]) -> (r: [u8; 32])
    ensures
        r@ == spec_hsalsa20(data@, k@, c@),
{
    let ds = data.as_slice();
    let ks = k.as_slice();
    let cs = c.as_slice();
    let input: [u32; 16] = [
        load32(cs, 0),
        load32(ks, 0),
        load32(ks, 4),
        load32(ks, 8),
        load32(ks, 12),
        load32(cs, 4),
        load32(ds, 0),
        load32(ds, 4),
        load32(ds, 8),
        load32(ds, 12),
        load32(cs, 8),
        load32(ks, 16),
        load32(ks, 20),
        load32(ks, 24),
        load32(ks, 28),
        load32(cs, 12),
    ];
    proof {
        assert(input@ =~= seq![
            le32_words(c@)[0],
            le32_words(k@)[0],
            le32_words(k@)[1],
            le32_words(k@)[2],
            le32_words(k@)[3],
            le32_words(c@)[1],
            le32_words(data@)[0],
            le32_words(data@)[1],
            le32_words(data@)[2],
            le32_words(data@)[3],
            le32_words(c@)[2],
            le32_words(k@)[4],
            le32_words(k@)[5],
            le32_words(k@)[6],
            le32_words(k@)[7],
            le32_words(c@)[3],
        ]);
    }
    let y = crate::salsa20::salsa20_rounds(input);
    let out = words_to_array([y[0], y[5], y[10], y[15], y[6], y[7], y[8], y[9]]);
    proof {
        let ys = crate::salsa20::spec_rounds(input@, 10);
        assert([y[0], y[5], y[10], y[15], y[6], y[7], y[8], y[9]]@ =~= seq![
            ys[0],
            ys[5],
            ys[10],
            ys[15],
            ys[6],
            ys[7],
            ys[8],
            ys[9],
        ]);
    }
    out
}

/// The HChaCha20 core.
pub fn hchacha20(data: [u8; 16], k: [u8; 32]) -> (r: [u8; 32])
    ensures
        r@ == spec_hchacha20(data@, k@),
{
    let ds = data.as_slice();
    let ks = k.as_slice();
    let input: [u32; 16] = [
        SIGMA0,
        SIGMA1,
        SIGMA2,
        SIGMA3,
        load32(ks, 0),
        load32(ks, 4),
        load32(ks, 8),
        load32(ks, 12),
        load32(ks, 16),
        load32(ks, 20),
        load32(ks, 24),
        load32(ks, 28),
        load32(ds, 0),
        load32(ds, 4),
        load32(ds, 8),
        load32(ds, 12),
    ];
    proof {
        assert(input@ =~= seq![
            SIGMA0,
            SIGMA1,
            SIGMA2,
            SIGMA3,
            le32_words(k@)[0],
            le32_words(k@)[1],
            le32_words(k@)[2],
            le32_words(k@)[3],
            le32_words(k@)[4],
            le32_words(k@)[5],
            le32_words(k@)[6],
            le32_words(k@)[7],
            le32_words(data@)[0],
            le32_words(data@)[1],
            le32_words(data@)[2],
            le32_words(data@)[3],
        ]);
    }
    let y = crate::chacha20::chacha20_rounds(input);
    let out = words_to_array([y[0], y[1], y[2], y[3], y[12], y[13], y[14], y[15]]);
    proof {
        let ys = crate::chacha20::spec_rounds(input@, 10);
        assert([y[0], y[1], y[2], y[3], y[12], y[13], y[14], y[15]]@ =~= seq![
            ys[0],
            ys[1],
            ys[2],
            ys[3],
            ys[12],
            ys[13],
            ys[14],
            ys[15],
        ]);
    }
    out
}

/// Splits the 24-byte extended nonce and derives the XSalsa20 subkey from
/// its first 16 bytes, handing back the remaining 8 bytes as short nonce.
pub fn generate_subkey(nonce: [u8; 24], key: [u8; 32]) -> (r: ([u8; 32], [u8; 8]))
    ensures
        r.0@ == spec_hsalsa20(nonce@.subrange(0, 16), key@, sigma_bytes()),
        r.1@ == nonce@.subrange(16, 24),
{
    let hnonce: [u8; 16] = [
        nonce[0],
        nonce[1],
        nonce[2],
        nonce[3],
        nonce[4],
        nonce[5],
        nonce[6],
        nonce[7],
        nonce[8],
        nonce[9],
        nonce[10],
        nonce[11],
        nonce[12],
        nonce[13],
        nonce[14],
        nonce[15],
    ];
    let sigma: [u8; 16] = [
        0x65, 0x78, 0x70, 0x61, 0x6e, 0x64, 0x20, 0x33, 0x32, 0x2d, 0x62, 0x79, 0x74, 0x65, 0x20,
        0x6b,
    ];
    proof {
        assert(hnonce@ =~= nonce@.subrange(0, 16));
        assert(sigma@ =~= sigma_bytes());
    }
    let subkey = hsalsa20(hnonce, key, sigma);
    let short: [u8; 8] = [
        nonce[16],
        nonce[17],
        nonce[18],
        nonce[19],
        nonce[20],
        nonce[21],
        nonce[22],
        nonce[23],
    ];
    proof {
        assert(short@ =~= nonce@.subrange(16, 24));
    }
    (subkey, short)
}

} // verus!
