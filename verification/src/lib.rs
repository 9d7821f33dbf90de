//! NaCl-style `secretbox` authenticated encryption over two interchangeable
//! stream ciphers, XSalsa20-Poly1305 and XChaCha20-Poly1305.
//!
//! A 32-byte key and a 24-byte nonce seal a message into `tag || ciphertext`:
//! the first 32 keystream bytes become the Poly1305 key pair, the keystream
//! from byte 32 on encrypts the message, and the tag covers the ciphertext.
//! Unsealing verifies the tag before any plaintext is released.  The byte
//! layout matches NaCl's `crypto_secretbox_xsalsa20poly1305`.

#![verifier::loop_isolation(false)]
pub mod arx;
pub mod bytes;
pub mod chacha20;
pub mod csprng;
pub mod kdf;
pub mod poly1305;
pub mod poly_arith;
pub mod salsa20;

use vstd::prelude::*;

verus! {

use crate::arx::le32_words;
use crate::arx::lemma_nblocks_le;
use crate::bytes::le_nat;
use crate::bytes::le_bytes;
use crate::bytes::xor_bytes;
use crate::bytes::load_u128;
use crate::bytes::push_le_u128;
use crate::bytes::lemma_le_bytes_len;
use crate::bytes::lemma_le_nat_bound;
use crate::csprng::CSPRNG;
use crate::kdf::spec_hsalsa20;
use crate::kdf::spec_hchacha20;
use crate::kdf::sigma_bytes;
use crate::poly1305::Poly1305;
use crate::poly1305::poly_tag;
use crate::salsa20::XSalsa20;
use crate::salsa20::salsa_stream;
use crate::salsa20::salsa_block_bytes;
use crate::chacha20::XChacha20;
use crate::chacha20::chacha_stream;
use crate::chacha20::chacha_block_bytes;
use vstd::arithmetic::power2::pow2;

/// Selects which stream cipher backs the secretbox construction.
#[derive(Copy, Clone, Debug, PartialEq, Eq, Structural)]
pub enum CipherType {
    Salsa20,
    Chacha20,
}

/// The 32-byte subkey derived from the key and the first 16 nonce bytes.
pub open spec fn spec_subkey(cipher: CipherType, key: Seq<u8>, nonce: Seq<u8>) -> Seq<u8> {
    match cipher {
        CipherType::Salsa20 => spec_hsalsa20(nonce.subrange(0, 16), key, sigma_bytes()),
        CipherType::Chacha20 => spec_hchacha20(nonce.subrange(0, 16), key),
    }
}

/// `n` keystream bytes from block `c` of the extended-nonce cipher.
pub open spec fn spec_stream(
    cipher: CipherType,
    key: Seq<u8>,
    nonce: Seq<u8>,
    c: int,
    n: nat,
) -> Seq<u8> {
    let sk = le32_words(spec_subkey(cipher, key, nonce));
    let sn = le32_words(nonce.subrange(16, 24));
    match cipher {
        CipherType::Salsa20 => salsa_stream(sk, sn, c, n),
        CipherType::Chacha20 => chacha_stream(sk, sn, c, n),
    }
}

/// Keystream block 0, whose first 32 bytes hold the Poly1305 key pair.
pub open spec fn spec_block0(cipher: CipherType, key: Seq<u8>, nonce: Seq<u8>) -> Seq<u8> {
    let sk = le32_words(spec_subkey(cipher, key, nonce));
    let sn = le32_words(nonce.subrange(16, 24));
    match cipher {
        CipherType::Salsa20 => salsa_block_bytes(sk, sn, 0),
        CipherType::Chacha20 => chacha_block_bytes(sk, sn, 0),
    }
}

/// Block 0 always holds 64 bytes.
pub proof fn lemma_block0_len(cipher: CipherType, key: Seq<u8>, nonce: Seq<u8>)
    ensures
        spec_block0(cipher, key, nonce).len() == 64,
{
    let sk = le32_words(spec_subkey(cipher, key, nonce));
    let sn = le32_words(nonce.subrange(16, 24));
    match cipher {
        CipherType::Salsa20 => crate::salsa20::lemma_salsa_block_len(sk, sn, 0),
        CipherType::Chacha20 => crate::chacha20::lemma_chacha_block_len(sk, sn, 0),
    }
}

/// The Poly1305 key pair `(r, s)`: the first 32 bytes of block 0.
pub open spec fn spec_rs(cipher: CipherType, key: Seq<u8>, nonce: Seq<u8>) -> (u128, u128) {
    let b0 = spec_block0(cipher, key, nonce);
    (le_nat(b0.subrange(0, 16)) as u128, le_nat(b0.subrange(16, 32)) as u128)
}

/// The `n` keystream bytes that encrypt the message: the stream from byte
/// 32 on, the first 32 bytes being reserved for the Poly1305 key pair.
pub open spec fn spec_msg_stream(cipher: CipherType, key: Seq<u8>, nonce: Seq<u8>, n: nat) -> Seq<
    u8,
> {
    spec_stream(cipher, key, nonce, 0, n + 32).skip(32)
}

/// The ciphertext: the message XORed with the message keystream.
pub open spec fn spec_cipher_text(
    cipher: CipherType,
    key: Seq<u8>,
    nonce: Seq<u8>,
    m: Seq<u8>,
) -> Seq<u8> {
    xor_bytes(m, spec_msg_stream(cipher, key, nonce, m.len()))
}

/// A sealed box: the 16-byte Poly1305 tag over the ciphertext, then the
/// ciphertext.
pub open spec fn spec_seal(cipher: CipherType, key: Seq<u8>, nonce: Seq<u8>, m: Seq<u8>) -> Seq<
    u8,
> {
    let rs = spec_rs(cipher, key, nonce);
    let c = spec_cipher_text(cipher, key, nonce, m);
    le_bytes(poly_tag(rs.0, rs.1, c), 16) + c
}

/// Whether `data` carries a tag that matches its ciphertext.
pub open spec fn spec_tag_ok(
    cipher: CipherType,
    key: Seq<u8>,
    nonce: Seq<u8>,
    data: Seq<u8>,
) -> bool {
    let rs = spec_rs(cipher, key, nonce);
    data.len() >= 16 && poly_tag(rs.0, rs.1, data.skip(16)) == le_nat(data.subrange(0, 16))
}

/// Authenticated opening: the plaintext when the tag matches, nothing
/// otherwise.
pub open spec fn spec_unseal(
    cipher: CipherType,
    key: Seq<u8>,
    nonce: Seq<u8>,
    data: Seq<u8>,
) -> Option<Seq<u8>> {
    if spec_tag_ok(cipher, key, nonce, data) {
        Some(
            xor_bytes(
                data.skip(16),
                spec_msg_stream(cipher, key, nonce, (data.len() - 16) as nat),
            ),
        )
    } else {
        None
    }
}

/// Round trip: unsealing a sealed box under the same key and nonce gives
/// the message back.
pub proof fn lemma_unseal_of_seal(cipher: CipherType, key: Seq<u8>, nonce: Seq<u8>, m: Seq<u8>)
    requires
        key.len() == 32,
        nonce.len() == 24,
    ensures
        spec_unseal(cipher, key, nonce, spec_seal(cipher, key, nonce, m)) == Some(m),
{
    let rs = spec_rs(cipher, key, nonce);
    let c = spec_cipher_text(cipher, key, nonce, m);
    let t = poly_tag(rs.0, rs.1, c);
    let sealed = spec_seal(cipher, key, nonce, m);
    lemma_le_bytes_len(t, 16);
    assert(sealed.skip(16) =~= c);
    assert(sealed.subrange(0, 16) =~= le_bytes(t, 16));
    assert(t < pow2(128)) by {
        vstd::arithmetic::power2::lemma_pow2_pos(128);
    }
    crate::bytes::lemma_le_nat_of_le_bytes(t, 16);
    assert(spec_tag_ok(cipher, key, nonce, sealed));
    let ks = spec_msg_stream(cipher, key, nonce, m.len());
    let skw = le32_words(spec_subkey(cipher, key, nonce));
    let snw = le32_words(nonce.subrange(16, 24));
    match cipher {
        CipherType::Salsa20 => crate::salsa20::lemma_salsa_stream_len(skw, snw, 0, m.len() + 32),
        CipherType::Chacha20 => crate::chacha20::lemma_chacha_stream_len(skw, snw, 0, m.len() + 32),
    }
    assert(ks.len() == m.len());
    crate::bytes::lemma_xor_cancel(m, ks);
    assert((sealed.len() - 16) as nat == m.len());
    assert(xor_bytes(sealed.skip(16), spec_msg_stream(cipher, key, nonce, (sealed.len() - 16) as nat))
        == m);
}

/// Tampering with the tag is caught: any sealed box whose ciphertext part
/// is intact but whose first 16 bytes differ anywhere, for instance by a
/// single flipped bit, fails authentication.
pub proof fn lemma_tampered_tag_rejected(
    cipher: CipherType,
    key: Seq<u8>,
    nonce: Seq<u8>,
    m: Seq<u8>,
    tampered: Seq<u8>,
)
    requires
        key.len() == 32,
        nonce.len() == 24,
        tampered.len() == spec_seal(cipher, key, nonce, m).len(),
        tampered.skip(16) == spec_seal(cipher, key, nonce, m).skip(16),
        tampered != spec_seal(cipher, key, nonce, m),
    ensures
        spec_unseal(cipher, key, nonce, tampered) is None,
{
    let rs = spec_rs(cipher, key, nonce);
    let c = spec_cipher_text(cipher, key, nonce, m);
    let t = poly_tag(rs.0, rs.1, c);
    let sealed = spec_seal(cipher, key, nonce, m);
    lemma_le_bytes_len(t, 16);
    assert(sealed.skip(16) =~= c);
    assert(sealed.subrange(0, 16) =~= le_bytes(t, 16));
    assert(t < pow2(128)) by {
        vstd::arithmetic::power2::lemma_pow2_pos(128);
    }
    crate::bytes::lemma_le_nat_of_le_bytes(t, 16);
    // The 16-byte prefixes differ, else the whole sequences would be equal.
    if tampered.subrange(0, 16) == sealed.subrange(0, 16) {
        assert forall|i: int| 0 <= i < tampered.len() implies tampered[i] == sealed[i] by {
            if i < 16 {
                assert(tampered[i] == tampered.subrange(0, 16)[i]);
                assert(sealed[i] == sealed.subrange(0, 16)[i]);
            } else {
                assert(tampered[i] == tampered.skip(16)[i - 16]);
                assert(sealed[i] == sealed.skip(16)[i - 16]);
            }
        }
        assert(tampered =~= sealed);
    }
    // Distinct prefixes read as distinct integers, so the check fails.
    if le_nat(tampered.subrange(0, 16)) == le_nat(sealed.subrange(0, 16)) {
        crate::bytes::lemma_le_nat_injective(tampered.subrange(0, 16), sealed.subrange(0, 16));
    }
    assert(poly_tag(rs.0, rs.1, tampered.skip(16)) == t);
    assert(!spec_tag_ok(cipher, key, nonce, tampered));
}

/// Relies on rand's `OsRng` (the operating-system generator, via getrandom):
/// returns 24 random bytes, or nothing if the generator fails.  Nothing can
/// be promised about the bytes themselves.
#[verifier::external_body]
fn os_random_nonce() -> Option<[u8; 24]> {
    let mut buf = [0u8; 24];
    match rand::RngCore::try_fill_bytes(&mut rand::rngs::OsRng, &mut buf) {
        Ok(()) => Some(buf),
        Err(_) => None,
    }
}

/// A secretbox handle: a 32-byte key and the chosen stream cipher.
#[derive(Copy, Clone, Debug, Eq, PartialEq)]
pub struct SecretBox {
    key: [u8; 32],
    cipher: CipherType,
}

impl SecretBox {
    /// The key bytes.
    pub closed spec fn key_bytes(&self) -> Seq<u8> {
        self.key@
    }

    /// The chosen cipher.
    pub closed spec fn cipher_type(&self) -> CipherType {
        self.cipher
    }

    /// Creates a new SecretBox instance.
    ///
    /// Returns None unless the passed key is exactly 32 bytes.
    pub fn new(key: &[u8], cipher: CipherType) -> (r: Option<SecretBox>)
        ensures
            r is Some <==> key@.len() == 32,
            r is Some ==> (r->0).key_bytes() == key@ && (r->0).cipher_type() == cipher,
    {
        if key.len() != 32 {
            return None;
        }
        let k: [u8; 32] = [
            key[0],
            key[1],
            key[2],
            key[3],
            key[4],
            key[5],
            key[6],
            key[7],
            key[8],
            key[9],
            key[10],
            key[11],
            key[12],
            key[13],
            key[14],
            key[15],
            key[16],
            key[17],
            key[18],
            key[19],
            key[20],
            key[21],
            key[22],
            key[23],
            key[24],
            key[25],
            key[26],
            key[27],
            key[28],
            key[29],
            key[30],
            key[31],
        ];
        proof {
            assert(k@ =~= key@);
        }
        Some(SecretBox { key: k, cipher })
    }

    /// Creates a new SecretBox instance with a key drawn from `rng`,
    /// returning the key alongside the handle.
    pub fn from_random_key<R: CSPRNG>(rng: &mut R, cipher: CipherType) -> (r: (SecretBox, [u8; 32]))
        ensures
            r.0.key_bytes() == r.1@,
            r.0.cipher_type() == cipher,
    {
        let mut buf: Vec<u8> = Vec::new();
        let mut i: usize = 0;
        while i < 32
            invariant
                buf@.len() == i,
                i <= 32,
            decreases 32 - i,
        {
            buf.push(0);
            i = i + 1;
        }
        rng.generate(&mut buf);
        let k: [u8; 32] = [
            buf[0],
            buf[1],
            buf[2],
            buf[3],
            buf[4],
            buf[5],
            buf[6],
            buf[7],
            buf[8],
            buf[9],
            buf[10],
            buf[11],
            buf[12],
            buf[13],
            buf[14],
            buf[15],
            buf[16],
            buf[17],
            buf[18],
            buf[19],
            buf[20],
            buf[21],
            buf[22],
            buf[23],
            buf[24],
            buf[25],
            buf[26],
            buf[27],
            buf[28],
            buf[29],
            buf[30],
            buf[31],
        ];
        (SecretBox { key: k, cipher }, k)
    }

    /// Runs the keystream over the NaCl-style padded buffer `zeros(32) || m`
    /// from block 0: afterwards the first 32 bytes hold the Poly1305 key
    /// pair and the rest holds `m` XOR the message keystream.
    #[verifier::rlimit(100)]
    fn crypt_padded(&self, m: &[u8], nonce: [u8; 24]) -> (r: Vec<u8>)
        ensures
            r@.len() == m@.len() + 32,
            r@.subrange(0, 32) == spec_block0(
                self.cipher_type(),
                self.key_bytes(),
                nonce@,
            ).subrange(0, 32),
            r@.skip(32) == xor_bytes(
                m@,
                spec_msg_stream(self.cipher_type(), self.key_bytes(), nonce@, m@.len()),
            ),
    {
        let ghost keyb = self.key_bytes();
        let ghost ssk = spec_subkey(self.cipher_type(), keyb, nonce@);
        let ghost skw = le32_words(ssk);
        let ghost snw = le32_words(nonce@.subrange(16, 24));
        let mut padded: Vec<u8> = Vec::new();
        let mut i: usize = 0;
        while i < 32
            invariant
                padded@.len() == i,
                i <= 32,
                forall|j: int| 0 <= j < i ==> padded@[j] == 0,
            decreases 32 - i,
        {
            padded.push(0);
            i = i + 1;
        }
        padded.extend_from_slice(m);
        let ghost before = padded@;
        // Binding the length brings its machine bound into scope.
        let plen = padded.len();
        proof {
            assert(plen == padded@.len());
            lemma_nblocks_le(padded@.len());
            vstd::arithmetic::div_mod::lemma_div_is_ordered(
                padded@.len() as int,
                0xffff_ffff_ffff_ffff_int + 32,
                64,
            );
        }
        match self.cipher {
            CipherType::Salsa20 => {
                let (subkey, snonce) = crate::kdf::generate_subkey(nonce, self.key);
                proof {
                    assert(subkey@ == ssk);
                    assert(snonce@ =~= nonce@.subrange(16, 24));
                }
                let mut cipher = XSalsa20::new(subkey, snonce, 0);
                let cr = cipher.crypt(&mut padded);
                proof {
                    assert(cr is Some);
                }
            },
            CipherType::Chacha20 => {
                let hnonce: [u8; 16] = [
                    nonce[0],
                    nonce[1],
                    nonce[2],
                    nonce[3],
                    nonce[4],
                    nonce[5],
                    nonce[6],
                    nonce[7],
                    nonce[8],
                    nonce[9],
                    nonce[10],
                    nonce[11],
                    nonce[12],
                    nonce[13],
                    nonce[14],
                    nonce[15],
                ];
                let snonce: [u8; 8] = [
                    nonce[16],
                    nonce[17],
                    nonce[18],
                    nonce[19],
                    nonce[20],
                    nonce[21],
                    nonce[22],
                    nonce[23],
                ];
                proof {
                    assert(hnonce@ =~= nonce@.subrange(0, 16));
                    assert(snonce@ =~= nonce@.subrange(16, 24));
                }
                let subkey = crate::kdf::hchacha20(hnonce, self.key);
                proof {
                    assert(subkey@ == ssk);
                }
                let mut cipher = XChacha20::new(subkey, snonce, 0);
                let cr = cipher.crypt(&mut padded);
                proof {
                    assert(cr is Some);
                }
            },
        }
        proof {
            let n = m@.len();
            let ks = spec_stream(self.cipher_type(), keyb, nonce@, 0, n + 32);
            let b0 = spec_block0(self.cipher_type(), keyb, nonce@);
            match self.cipher_type() {
                CipherType::Salsa20 => {
                    crate::salsa20::lemma_salsa_stream_len(skw, snw, 0, n + 32);
                    crate::salsa20::lemma_salsa_block_len(skw, snw, 0);
                },
                CipherType::Chacha20 => {
                    crate::chacha20::lemma_chacha_stream_len(skw, snw, 0, n + 32);
                    crate::chacha20::lemma_chacha_block_len(skw, snw, 0);
                },
            }
            assert(padded@ == xor_bytes(before, ks));
            // The first 32 stream bytes come from block 0, whichever branch
            // of the stream definition applies.
            assert(ks.subrange(0, 32) =~= b0.subrange(0, 32));
            // Zeros XOR the key-pair bytes leave them unchanged.
            assert forall|j: int| 0 <= j < 32 implies padded@[j] == b0.subrange(0, 32)[j] by {
                assert(before[j] == 0);
                let x = ks[j];
                assert((0u8 ^ x) == x) by (bit_vector);
            }
            assert(padded@.subrange(0, 32) =~= b0.subrange(0, 32));
            // The remainder is the message XOR the message keystream.
            assert(before.skip(32) =~= m@);
            assert(padded@.skip(32) =~= xor_bytes(m@, ks.skip(32)));
        }
        padded
    }

    /// Returns an encrypted and authenticated copy of the message,
    /// `tag(16) || ciphertext(|message|)`.  The key and nonce pair must be
    /// unique for every message.
    pub fn seal(&self, message: &[u8], nonce: [u8; 24]) -> (r: Vec<u8>)
        ensures
            r@ == spec_seal(self.cipher_type(), self.key_bytes(), nonce@, message@),
            r@.len() == message@.len() + 16,
    {
        let ghost keyb = self.key_bytes();
        let padded = self.crypt_padded(message, nonce);
        let plen = padded.len();
        let r128 = load_u128(padded.as_slice(), 0);
        let s128 = load_u128(padded.as_slice(), 16);
        proof {
            let rs = spec_rs(self.cipher_type(), keyb, nonce@);
            let b0 = spec_block0(self.cipher_type(), keyb, nonce@);
            lemma_block0_len(self.cipher_type(), keyb, nonce@);
            assert forall|j: int| 0 <= j < 32 implies padded@[j] == b0[j] by {
                assert(padded@.subrange(0, 32)[j] == padded@[j]);
                assert(b0.subrange(0, 32)[j] == b0[j]);
            }
            assert(padded@.subrange(0, 16) =~= b0.subrange(0, 16));
            assert(padded@.subrange(16, 32) =~= b0.subrange(16, 32));
            lemma_le_nat_bound(b0.subrange(0, 16));
            lemma_le_nat_bound(b0.subrange(16, 32));
            crate::poly1305::lemma_pow2_128();
            assert(r128 == rs.0 && s128 == rs.1);
        }
        let ct = vstd::slice::slice_subrange(padded.as_slice(), 32, plen);
        let mut poly = Poly1305::new(r128, s128);
        let tag = poly.hash(ct);
        proof {
            assert(ct@ == spec_cipher_text(self.cipher_type(), keyb, nonce@, message@));
            assert(tag as nat == poly_tag(r128, s128, ct@));
        }
        let mut out: Vec<u8> = Vec::new();
        push_le_u128(&mut out, tag, 16);
        out.extend_from_slice(ct);
        proof {
            lemma_le_bytes_len(tag as nat, 16);
        }
        out
    }

    /// Tries to authenticate and decrypt a box.  Returns the plaintext
    /// exactly when the input is at least 16 bytes and its tag matches the
    /// ciphertext under this key and nonce.
    pub fn unseal(&self, data: &[u8], nonce: [u8; 24]) -> (r: Option<Vec<u8>>)
        ensures
            r is Some <==> spec_tag_ok(self.cipher_type(), self.key_bytes(), nonce@, data@),
            r is Some ==> Some((r->0)@) == spec_unseal(
                self.cipher_type(),
                self.key_bytes(),
                nonce@,
                data@,
            ),
    {
        let ghost keyb = self.key_bytes();
        let dlen = data.len();
        if dlen < 16 {
            return None;
        }
        let ctext = vstd::slice::slice_subrange(data, 16, dlen);
        proof {
            assert(ctext@ =~= data@.skip(16));
        }
        let padded = self.crypt_padded(ctext, nonce);
        let plen = padded.len();
        let r128 = load_u128(padded.as_slice(), 0);
        let s128 = load_u128(padded.as_slice(), 16);
        proof {
            let rs = spec_rs(self.cipher_type(), keyb, nonce@);
            let b0 = spec_block0(self.cipher_type(), keyb, nonce@);
            lemma_block0_len(self.cipher_type(), keyb, nonce@);
            assert forall|j: int| 0 <= j < 32 implies padded@[j] == b0[j] by {
                assert(padded@.subrange(0, 32)[j] == padded@[j]);
                assert(b0.subrange(0, 32)[j] == b0[j]);
            }
            assert(padded@.subrange(0, 16) =~= b0.subrange(0, 16));
            assert(padded@.subrange(16, 32) =~= b0.subrange(16, 32));
            lemma_le_nat_bound(b0.subrange(0, 16));
            lemma_le_nat_bound(b0.subrange(16, 32));
            crate::poly1305::lemma_pow2_128();
            assert(r128 == rs.0 && s128 == rs.1);
        }
        // Recompute the tag over the ciphertext and compare to the stored
        // tag; reject before any plaintext is released.
        let mut poly = Poly1305::new(r128, s128);
        let tag = poly.hash(ctext);
        let given = load_u128(data, 0);
        proof {
            assert(tag as nat == poly_tag(r128, s128, data@.skip(16)));
            lemma_le_nat_bound(data@.subrange(0, 16));
            crate::poly1305::lemma_pow2_128();
        }
        if tag != given {
            return None;
        }
        let mut out: Vec<u8> = Vec::new();
        out.extend_from_slice(vstd::slice::slice_subrange(padded.as_slice(), 32, plen));
        proof {
            assert(out@ =~= padded@.skip(32));
        }
        Some(out)
    }

    /// Works like `seal`, with a freshly generated random nonce prepended:
    /// `nonce(24) || tag(16) || ciphertext`.  Fails only if the system's
    /// random generator does.
    pub fn easy_seal(&self, message: &[u8]) -> (r: Option<Vec<u8>>)
        ensures
            r is Some ==> (r->0)@.len() == message@.len() + 40 && (r->0)@.skip(24) == spec_seal(
                self.cipher_type(),
                self.key_bytes(),
                (r->0)@.subrange(0, 24),
                message@,
            ),
    {
        let nonce = match os_random_nonce() {
            Some(n) => n,
            None => {
                return None;
            },
        };
        let sealed = self.seal(message, nonce);
        let mut out: Vec<u8> = Vec::new();
        out.extend_from_slice(nonce.as_slice());
        let mut s = sealed;
        out.append(&mut s);
        proof {
            assert(out@.subrange(0, 24) =~= nonce@);
            assert(out@.skip(24) =~= spec_seal(
                self.cipher_type(),
                self.key_bytes(),
                nonce@,
                message@,
            ));
        }
        Some(out)
    }

    /// Works like `unseal`, reading the nonce from the first 24 bytes of
    /// the sealed data.  Inputs shorter than the 40-byte framing fail.
    pub fn easy_unseal(&self, data: &[u8]) -> (r: Option<Vec<u8>>)
        ensures
            r is Some <==> data@.len() >= 40 && spec_tag_ok(
                self.cipher_type(),
                self.key_bytes(),
                data@.subrange(0, 24),
                data@.skip(24),
            ),
            r is Some ==> Some((r->0)@) == spec_unseal(
                self.cipher_type(),
                self.key_bytes(),
                data@.subrange(0, 24),
                data@.skip(24),
            ),
    {
        let dlen = data.len();
        if dlen < 40 {
            return None;
        }
        let nonce: [u8; 24] = [
            data[0],
            data[1],
            data[2],
            data[3],
            data[4],
            data[5],
            data[6],
            data[7],
            data[8],
            data[9],
            data[10],
            data[11],
            data[12],
            data[13],
            data[14],
            data[15],
            data[16],
            data[17],
            data[18],
            data[19],
            data[20],
            data[21],
            data[22],
            data[23],
        ];
        proof {
            assert(nonce@ =~= data@.subrange(0, 24));
            assert(data@.subrange(24, dlen as int) =~= data@.skip(24));
        }
        self.unseal(vstd::slice::slice_subrange(data, 24, dlen), nonce)
    }
}

} // verus!
