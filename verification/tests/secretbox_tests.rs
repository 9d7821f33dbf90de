use rand::RngCore;
use secretbox::csprng::CSPRNG;
use secretbox::{CipherType, SecretBox};

#[test]
fn pynacl_vector() {
    let key = b"\x1b\x27\x55\x64\x73\xe9\x85\xd4\x62\xcd\x51\x19\x7a\x9a\x46\xc7\x60\x09\x54\x9e\xac\x64\x74\xf2\x06\xc4\xee\x08\x44\xf6\x83\x89".clone();
    let nonce = b"\x69\x69\x6e\xe9\x55\xb6\x2b\x73\xcd\x62\xbd\xa8\x75\xfc\x73\xd6\x82\x19\xe0\x03\x6b\x7a\x0b\x37".clone();
    let plain = b"\xbe\x07\x5f\xc5\x3c\x81\xf2\xd5\xcf\x14\x13\x16\xeb\xeb\x0c\x7b\x52\x28\xc5\x2a\x4c\x62\xcb\xd4\x4b\x66\x84\x9b\x64\x24\x4f\xfc\xe5\xec\xba\xaf\x33\xbd\x75\x1a\x1a\xc7\x28\xd4\x5e\x6c\x61\x29\x6c\xdc\x3c\x01\x23\x35\x61\xf4\x1d\xb6\x6c\xce\x31\x4a\xdb\x31\x0e\x3b\xe8\x25\x0c\x46\xf0\x6d\xce\xea\x3a\x7f\xa1\x34\x80\x57\xe2\xf6\x55\x6a\xd6\xb1\x31\x8a\x02\x4a\x83\x8f\x21\xaf\x1f\xde\x04\x89\x77\xeb\x48\xf5\x9f\xfd\x49\x24\xca\x1c\x60\x90\x2e\x52\xf0\xa0\x89\xbc\x76\x89\x70\x40\xe0\x82\xf9\x37\x76\x38\x48\x64\x5e\x07\x05".clone();
    let ciphertext = b"\xf3\xff\xc7\x70\x3f\x94\x00\xe5\x2a\x7d\xfb\x4b\x3d\x33\x05\xd9\x8e\x99\x3b\x9f\x48\x68\x12\x73\xc2\x96\x50\xba\x32\xfc\x76\xce\x48\x33\x2e\xa7\x16\x4d\x96\xa4\x47\x6f\xb8\xc5\x31\xa1\x18\x6a\xc0\xdf\xc1\x7c\x98\xdc\xe8\x7b\x4d\xa7\xf0\x11\xec\x48\xc9\x72\x71\xd2\xc2\x0f\x9b\x92\x8f\xe2\x27\x0d\x6f\xb8\x63\xd5\x17\x38\xb4\x8e\xee\xe3\x14\xa7\xcc\x8a\xb9\x32\x16\x45\x48\xe5\x26\xae\x90\x22\x43\x68\x51\x7a\xcf\xea\xbd\x6b\xb3\x73\x2b\xc0\xe9\xda\x99\x83\x2b\x61\xca\x01\xb6\xde\x56\x24\x4a\x9e\x88\xd5\xf9\xb3\x79\x73\xf6\x22\xa4\x3d\x14\xa6\x59\x9b\x1f\x65\x4c\xb4\x5a\x74\xe3\x55\xa5".clone();
    let s = SecretBox::new(&key[..], CipherType::Salsa20).unwrap();
    let output = s.seal(&plain[..], nonce);
    println!("output: {}, ciphertext: {}", output.len(), ciphertext.len());
    assert_eq!(&output[..], &ciphertext[..]);
    let output2 = s.unseal(&output[..], nonce).unwrap();
    assert_eq!(&output2[..], &plain[..]);
}

#[test]
fn easy_seal_unseal() {
    let mut rng = rand::rngs::OsRng;
    let mut key = [0u8; 32];
    rng.fill_bytes(&mut key);
    let plain = b"hello world".to_vec();
    let s = SecretBox::new(&key[..], CipherType::Salsa20).unwrap();
    let sealed = s.easy_seal(&plain).unwrap();
    let unsealed = s.easy_unseal(&sealed).unwrap();
    assert_eq!(&unsealed[..], &plain[..]);
}

#[test]
fn chacha_seal_round_trip() {
    let key = [0x42u8; 32];
    let nonce = [7u8; 24];
    let plain = b"attack at dawn".to_vec();
    let s = SecretBox::new(&key[..], CipherType::Chacha20).unwrap();
    let sealed = s.seal(&plain, nonce);
    assert_eq!(sealed.len(), plain.len() + 16);
    let opened = s.unseal(&sealed[..], nonce).unwrap();
    assert_eq!(&opened[..], &plain[..]);
}

#[test]
fn seal_length() {
    let key = [1u8; 32];
    let nonce = [2u8; 24];
    let s = SecretBox::new(&key[..], CipherType::Salsa20).unwrap();
    for n in [0usize, 1, 16, 63, 64, 65, 200] {
        let msg = vec![0xabu8; n];
        assert_eq!(s.seal(&msg, nonce).len(), n + 16);
        let easy = s.easy_seal(&msg).unwrap();
        assert_eq!(easy.len(), n + 40);
    }
}

#[test]
fn tampered_box_rejected() {
    let key = [9u8; 32];
    let nonce = [3u8; 24];
    let plain = b"the package is on its way".to_vec();
    for cipher in [CipherType::Salsa20, CipherType::Chacha20] {
        let s = SecretBox::new(&key[..], cipher).unwrap();
        let sealed = s.seal(&plain, nonce);
        for i in 0..sealed.len() {
            for bit in 0..8 {
                let mut bad = sealed.clone();
                bad[i] ^= 1u8 << bit;
                assert!(s.unseal(&bad[..], nonce).is_none());
            }
        }
    }
}

#[test]
fn distinct_nonces_distinct_boxes() {
    let key = [5u8; 32];
    let nonce1 = [0u8; 24];
    let mut nonce2 = [0u8; 24];
    nonce2[0] = 1;
    let plain = b"same message".to_vec();
    let s = SecretBox::new(&key[..], CipherType::Salsa20).unwrap();
    assert_ne!(s.seal(&plain, nonce1), s.seal(&plain, nonce2));
}

#[test]
fn short_inputs_rejected() {
    let key = [8u8; 32];
    let nonce = [1u8; 24];
    let s = SecretBox::new(&key[..], CipherType::Salsa20).unwrap();
    assert!(s.unseal(&[0u8; 15], nonce).is_none());
    assert!(s.easy_unseal(&[0u8; 39]).is_none());
}

#[test]
fn key_length_checked() {
    assert!(SecretBox::new(&[0u8; 31][..], CipherType::Salsa20).is_none());
    assert!(SecretBox::new(&[0u8; 33][..], CipherType::Chacha20).is_none());
    assert!(SecretBox::new(&[0u8; 32][..], CipherType::Salsa20).is_some());
}

struct CountingRng(u8);

impl CSPRNG for CountingRng {
    fn generate(&mut self, data: &mut Vec<u8>) {
        for i in 0..data.len() {
            data[i] = self.0.wrapping_add(i as u8);
        }
    }
}

#[test]
fn random_key_round_trip() {
    let mut rng = CountingRng(0x10);
    let (s, key) = SecretBox::from_random_key(&mut rng, CipherType::Salsa20);
    let mut expected = [0u8; 32];
    for i in 0..32 {
        expected[i] = 0x10 + i as u8;
    }
    assert_eq!(key, expected);
    let nonce = [6u8; 24];
    let plain = b"keys from an injected generator".to_vec();
    let sealed = s.seal(&plain, nonce);
    let same = SecretBox::new(&key[..], CipherType::Salsa20).unwrap();
    assert_eq!(&same.unseal(&sealed[..], nonce).unwrap()[..], &plain[..]);
}
