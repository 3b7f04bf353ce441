//! Encryption and keys.

use libtau::bytes::FormatError;
use libtau::crypto::{decrypt, encrypt, encrypt_with, parse_key};

/// A small linear congruential generator, so that the cases are the same in every run.
struct Draw(u64);

impl Draw {
    fn next(&mut self) -> u64 {
        self.0 = self
            .0
            .wrapping_mul(6364136223846793005)
            .wrapping_add(1442695040888963407);
        self.0 >> 16
    }

    fn within(&mut self, lo: i64, hi: i64) -> i64 {
        lo + (self.next() % ((hi - lo) as u64 + 1)) as i64
    }

    fn bytes(&mut self, n: i64) -> Vec<u8> {
        (0..n).map(|_| self.next() as u8).collect()
    }

    fn key(&mut self) -> [u8; 32] {
        self.bytes(32).try_into().unwrap()
    }
}

#[test]
fn pbt_encrypt_decrypt_roundtrips() {
    for seed in 1..=40 {
        let mut tc = Draw(seed);
        let key = tc.key();
        let n = tc.within(0, 2048);
        let plaintext = tc.bytes(n);
        let cipher = encrypt(&key, &plaintext).expect("encrypt");
        assert_eq!(cipher.len(), plaintext.len() + 28);
        let recovered = decrypt(&key, &cipher).expect("decrypt must succeed on its own ciphertext");
        assert_eq!(plaintext, recovered);
    }
}

#[test]
fn pbt_decrypt_rejects_too_short_blobs() {
    let mut tc = Draw(1);
    let key = tc.key();
    for n in 0..12 {
        let blob = tc.bytes(n);
        assert_eq!(decrypt(&key, &blob), Err(FormatError::BlobTooShort));
    }
    for n in 12..28 {
        let blob = tc.bytes(n);
        assert_eq!(decrypt(&key, &blob), Err(FormatError::Decryption));
    }
}

#[test]
fn pbt_decrypt_rejects_wrong_key() {
    for seed in 1..=40 {
        let mut tc = Draw(seed);
        let n = tc.within(1, 512);
        let plaintext = tc.bytes(n);
        let key_a = tc.key();
        let mut key_b = key_a;
        key_b[0] ^= 1;
        let cipher = encrypt(&key_a, &plaintext).expect("encrypt");
        assert!(decrypt(&key_b, &cipher).is_err());
    }
}

#[test]
fn a_blob_is_the_nonce_and_the_ciphertext() {
    // The first test vector of the mode: an all-zero key and nonce, and nothing to encrypt.
    let blob = encrypt_with(&[0u8; 32], &[0u8; 12], &[]).unwrap();
    let mut expected = vec![0u8; 12];
    expected.extend_from_slice(&[
        0x53, 0x0f, 0x8a, 0xfb, 0xc7, 0x45, 0x36, 0xb9, 0xa9, 0x63, 0xb4, 0xf1, 0xc4, 0xcb, 0x73,
        0x8b,
    ]);
    assert_eq!(blob, expected);
}

#[test]
fn two_encryptions_of_a_message_differ() {
    let key = [7u8; 32];
    assert_ne!(encrypt(&key, b"abc").unwrap(), encrypt(&key, b"abc").unwrap());
}

#[test]
fn decode_hex_valid() {
    let hex = "deadbeef".repeat(8);
    let key = parse_key(&hex).unwrap();
    assert_eq!(&key[..4], &[0xde, 0xad, 0xbe, 0xef]);
    assert_eq!(parse_key(&hex.to_uppercase()).unwrap(), key);
    assert_eq!(
        parse_key("00ff"),
        Err("TAU_ENCRYPTION_KEY must be exactly 32 bytes (64 hex chars)".to_string())
    );
    assert_eq!(
        parse_key(""),
        Err("TAU_ENCRYPTION_KEY must be exactly 32 bytes (64 hex chars)".to_string())
    );
}

#[test]
fn decode_hex_odd_length_returns_none() {
    let why = "TAU_ENCRYPTION_KEY must be 64 hex chars (32 bytes)".to_string();
    assert_eq!(parse_key("abc"), Err(why.clone()));
    assert_eq!(parse_key("f"), Err(why));
}

#[test]
fn decode_hex_invalid_chars_returns_none() {
    let why = "TAU_ENCRYPTION_KEY must be 64 hex chars (32 bytes)".to_string();
    assert_eq!(parse_key("zz"), Err(why.clone()));
    assert_eq!(parse_key("gg"), Err(why.clone()));
    assert_eq!(parse_key("\u{e9}"), Err(why));
}
