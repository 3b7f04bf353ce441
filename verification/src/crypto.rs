//! Encryption of stored data, with AES-256 in Galois/counter mode.
//!
//! An encrypted blob is a nonce of 12 bytes, then the ciphertext with its tag of 16 bytes.

use crate::bytes::{put_bytes, FormatError};
use crate::text::owned;
use aes_gcm::aead::{Aead, KeyInit};
use aes_gcm::{Aes256Gcm, Key, Nonce};
use rand::RngCore;
use vstd::prelude::*;
use vstd::slice::slice_subrange;

verus! {

pub const KEY_LEN: usize = 32;

pub const NONCE_LEN: usize = 12;

pub const TAG_LEN: usize = 16;

/// The longest message that one nonce can carry, in bytes: the counter of blocks has 32
/// bits, two values of which are spent.
pub const MESSAGE_LIMIT: u64 = 0xf_ffff_ffe0;

/// The ciphertext and tag that AES-256-GCM makes of a message under a key and a nonce,
/// with no associated data.
pub uninterp spec fn sealed(key: Seq<u8>, nonce: Seq<u8>, plain: Seq<u8>) -> Seq<u8>;

/// The message behind a ciphertext and tag, where the tag is right.
pub uninterp spec fn unsealed(key: Seq<u8>, nonce: Seq<u8>, cipher: Seq<u8>) -> Option<Seq<u8>>;

/// `Aes256Gcm::encrypt`: within the limit it succeeds; the tag makes the ciphertext longer
/// than the message; decryption under the same key and nonce gives the message back.
#[verifier::external_body]
fn seal(key: &[u8; 32], nonce: &[u8; 12], plain: &[u8]) -> (r: Option<Vec<u8>>)
    requires
        plain@.len() <= MESSAGE_LIMIT,
    ensures
        r is Some,
        r->Some_0@ == sealed(key@, nonce@, plain@),
        r->Some_0@.len() == plain@.len() + TAG_LEN,
        unsealed(key@, nonce@, r->Some_0@) == Some(plain@),
{
    let cipher = Aes256Gcm::new(Key::<Aes256Gcm>::from_slice(key));
    cipher.encrypt(Nonce::from_slice(nonce), plain).ok()
}

/// `Aes256Gcm::decrypt`: the message, or nothing where the ciphertext is too short for a
/// tag or the tag is wrong.
#[verifier::external_body]
fn unseal(key: &[u8; 32], nonce: &[u8], cipher: &[u8]) -> (r: Option<Vec<u8>>)
    requires
        nonce@.len() == NONCE_LEN,
        cipher@.len() <= MESSAGE_LIMIT + TAG_LEN,
    ensures
        r is Some <==> unsealed(key@, nonce@, cipher@) is Some,
        r matches Some(plain) ==> unsealed(key@, nonce@, cipher@) == Some(plain@),
{
    let aes = Aes256Gcm::new(Key::<Aes256Gcm>::from_slice(key));
    aes.decrypt(Nonce::from_slice(nonce), cipher).ok()
}

/// `RngCore::fill_bytes` on the generator of the thread: twelve bytes of chance.
#[verifier::external_body]
fn random_nonce() -> [u8; 12] {
    let mut nonce = [0u8; 12];
    rand::thread_rng().fill_bytes(&mut nonce);
    nonce
}

/// What a hexadecimal digit stands for.
pub open spec fn hex_value(c: char) -> Option<int> {
    if '0' <= c <= '9' {
        Some(c as int - '0' as int)
    } else if 'a' <= c <= 'f' {
        Some(c as int - 'a' as int + 10)
    } else if 'A' <= c <= 'F' {
        Some(c as int - 'A' as int + 10)
    } else {
        None
    }
}

/// A text of hexadecimal digits, two for each byte.
pub open spec fn is_hex(text: Seq<char>) -> bool {
    text.len() % 2 == 0 && forall|i: int|
        0 <= i < text.len() ==> hex_value(#[trigger] text[i]) is Some
}

/// The bytes that hexadecimal digits stand for, the higher half of each byte first.
pub open spec fn hex_bytes(text: Seq<char>) -> Seq<u8> {
    Seq::new(
        text.len() / 2,
        |i: int|
            (16 * hex_value(text[2 * i])->Some_0 + hex_value(text[2 * i + 1])->Some_0) as u8,
    )
}

/// `hex::decode`: the bytes that the digits stand for, or nothing where the text has
/// another character in it or an odd number of them.
#[verifier::external_body]
fn decode_hex(text: &str) -> (r: Option<Vec<u8>>)
    ensures
        r is Some <==> is_hex(text@),
        r matches Some(bytes) ==> bytes@ == hex_bytes(text@),
{
    hex::decode(text).ok()
}

/// A key written as 64 hexadecimal digits.
pub fn parse_key(hex_text: &str) -> (r: Result<[u8; 32], String>)
    ensures
        match r {
            Ok(key) => is_hex(hex_text@) && key@ == hex_bytes(hex_text@) && hex_text@.len()
                == 2 * KEY_LEN,
            Err(why) => if is_hex(hex_text@) {
                hex_text@.len() != 2 * KEY_LEN && why@
                    == "TAU_ENCRYPTION_KEY must be exactly 32 bytes (64 hex chars)"@
            } else {
                why@ == "TAU_ENCRYPTION_KEY must be 64 hex chars (32 bytes)"@
            },
        },
{
    let bytes: Vec<u8> = match decode_hex(hex_text) {
        Some(bytes) => bytes,
        None => {
            return Err(owned("TAU_ENCRYPTION_KEY must be 64 hex chars (32 bytes)"));
        },
    };
    if bytes.len() != KEY_LEN {
        return Err(owned("TAU_ENCRYPTION_KEY must be exactly 32 bytes (64 hex chars)"));
    }
    let mut key: [u8; 32] = [0u8; 32];
    let mut i: usize = 0;
    while i < 32
        invariant
            i <= 32,
            bytes@.len() == 32,
            key@.len() == 32,
            forall|k: int| 0 <= k < i ==> #[trigger] key@[k] == bytes@[k],
        decreases 32 - i,
    {
        key[i] = bytes[i];
        i = i + 1;
    }
    assert(key@ =~= bytes@);
    Ok(key)
}

/// What an encrypted blob holds.
pub open spec fn plain_of(key: Seq<u8>, blob: Seq<u8>) -> Result<Seq<u8>, FormatError> {
    if blob.len() < NONCE_LEN {
        Err(FormatError::BlobTooShort)
    } else if blob.len() - NONCE_LEN > MESSAGE_LIMIT + TAG_LEN {
        Err(FormatError::Decryption)
    } else {
        match unsealed(key, blob.take(NONCE_LEN as int), blob.skip(NONCE_LEN as int)) {
            Some(plain) => Ok(plain),
            None => Err(FormatError::Decryption),
        }
    }
}

/// The blob that carries a message under a nonce.
pub open spec fn blob_of(key: Seq<u8>, nonce: Seq<u8>, plain: Seq<u8>) -> Seq<u8> {
    nonce + sealed(key, nonce, plain)
}

/// Encrypts a message under a given nonce.
pub fn encrypt_with(key: &[u8; 32], nonce: &[u8; 12], plaintext: &[u8]) -> (r: Result<
    Vec<u8>,
    FormatError,
>)
    ensures
        match r {
            Ok(blob) => {
                &&& plaintext@.len() <= MESSAGE_LIMIT
                &&& blob@ == blob_of(key@, nonce@, plaintext@)
                &&& blob@.len() == NONCE_LEN + plaintext@.len() + TAG_LEN
                &&& plain_of(key@, blob@) == Ok::<Seq<u8>, FormatError>(plaintext@)
            },
            Err(e) => plaintext@.len() > MESSAGE_LIMIT && e == FormatError::Encryption,
        },
{
    if plaintext.len() as u64 > MESSAGE_LIMIT {
        return Err(FormatError::Encryption);
    }
    match seal(key, nonce, plaintext) {
        Some(cipher) => {
            let mut out: Vec<u8> = Vec::new();
            put_bytes(&mut out, nonce.as_slice());
            put_bytes(&mut out, cipher.as_slice());
            proof {
                assert(out@ =~= nonce@ + cipher@);
                assert(out@.take(12) =~= nonce@);
                assert(out@.skip(12) =~= cipher@);
            }
            Ok(out)
        },
        None => Err(FormatError::Encryption),
    }
}

/// Encrypts a message under a nonce of chance. What it makes is decrypted to the message.
pub fn encrypt(key: &[u8; 32], plaintext: &[u8]) -> (r: Result<Vec<u8>, FormatError>)
    ensures
        match r {
            Ok(blob) => {
                &&& plaintext@.len() <= MESSAGE_LIMIT
                &&& blob@ == blob_of(key@, blob@.take(NONCE_LEN as int), plaintext@)
                &&& blob@.len() == NONCE_LEN + plaintext@.len() + TAG_LEN
                &&& plain_of(key@, blob@) == Ok::<Seq<u8>, FormatError>(plaintext@)
            },
            Err(e) => plaintext@.len() > MESSAGE_LIMIT && e == FormatError::Encryption,
        },
{
    let nonce = random_nonce();
    let r = encrypt_with(key, &nonce, plaintext);
    proof {
        if r is Ok {
            assert(r->Ok_0@.take(NONCE_LEN as int) =~= nonce@);
        }
    }
    r
}

/// Decrypts a blob.
pub fn decrypt(key: &[u8; 32], blob: &Vec<u8>) -> (r: Result<Vec<u8>, FormatError>)
    ensures
        match plain_of(key@, blob@) {
            Ok(plain) => r is Ok && r->Ok_0@ == plain,
            Err(e) => r is Err && r->Err_0 == e,
        },
{
    if blob.len() < NONCE_LEN {
        return Err(FormatError::BlobTooShort);
    }
    if (blob.len() - NONCE_LEN) as u64 > MESSAGE_LIMIT + TAG_LEN as u64 {
        return Err(FormatError::Decryption);
    }
    let nonce = slice_subrange(blob.as_slice(), 0, NONCE_LEN);
    let cipher = slice_subrange(blob.as_slice(), NONCE_LEN, blob.len());
    proof {
        assert(nonce@ =~= blob@.take(NONCE_LEN as int));
        assert(cipher@ =~= blob@.skip(NONCE_LEN as int));
    }
    match unseal(key, nonce, cipher) {
        Some(plain) => Ok(plain),
        None => Err(FormatError::Decryption),
    }
}

} // verus!
