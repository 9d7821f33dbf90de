use secretbox::poly1305::Poly1305;

#[test]
fn ietf_test_vector() {
    let s = 0x1bf54941aff6bf4afdb20dfb8a800301;
    let r = 0x0806d5400e52447c036d555408bed685;
    let message = b"Cryptographic Forum Research Group";
    let mut hasher = Poly1305::new(r, s);
    assert_eq!(
        hasher.hash(&message[..]),
        0xa927010caf8b2bc2c6365130c11d06a8
    );
}

#[test]
fn sequential_block_processing() {
    // Absorbing a whole block first, then hashing the rest, gives the same
    // tag as hashing the concatenation in one call.
    let r = 0x0806d5400e52447c036d555408bed685;
    let s = 0x1bf54941aff6bf4afdb20dfb8a800301;
    let message = b"Cryptographic Forum Research Group";
    let mut whole = Poly1305::new(r, s);
    let expected = whole.hash(&message[..]);
    let mut stepped = Poly1305::new(r, s);
    stepped.read_block(&message[..16]);
    assert_eq!(stepped.hash(&message[16..]), expected);
}

#[test]
fn tag_depends_on_every_byte() {
    let r = 0x0806d5400e52447c036d555408bed685;
    let s = 0x1bf54941aff6bf4afdb20dfb8a800301;
    let message = b"Cryptographic Forum Research Group";
    let mut hasher = Poly1305::new(r, s);
    let tag = hasher.hash(&message[..]);
    for i in 0..message.len() {
        let mut tweaked = message.to_vec();
        tweaked[i] ^= 0x01;
        let mut h = Poly1305::new(r, s);
        assert_ne!(h.hash(&tweaked[..]), tag);
    }
}

#[test]
fn empty_message_tag() {
    // With no blocks the accumulator stays zero and the tag is just s.
    let r = 0x0806d5400e52447c036d555408bed685;
    let s = 0x1bf54941aff6bf4afdb20dfb8a800301;
    let mut hasher = Poly1305::new(r, s);
    assert_eq!(hasher.hash(&[]), s);
}

#[test]
fn verify_accepts_and_rejects() {
    let r = 0x0806d5400e52447c036d555408bed685;
    let s = 0x1bf54941aff6bf4afdb20dfb8a800301;
    let message = b"Cryptographic Forum Research Group";
    let mut h1 = Poly1305::new(r, s);
    assert!(h1.verify(&message[..], 0xa927010caf8b2bc2c6365130c11d06a8));
    let mut h2 = Poly1305::new(r, s);
    assert!(!h2.verify(&message[..], 0xa927010caf8b2bc2c6365130c11d06a9));
}
