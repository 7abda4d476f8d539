//! The outside services that an encrypted container rests on: SHA-256,
//! AES-256 in CBC mode, secure random bytes, comparison in constant time
//! and the wiping of buffers.
//!
//! Nothing in this file is proved. Each function hands its arguments to an
//! outside crate, and its contract says what that crate documents.

use vstd::prelude::*;

verus! {

/// The SHA-256 digest of `data`.
pub uninterp spec fn sha256_digest(data: Seq<u8>) -> Seq<u8>;

/// The ciphertext of `plain` under AES-256 in CBC mode with PKCS#7 padding.
pub uninterp spec fn aes_256_cbc_encrypted(key: Seq<u8>, iv: Seq<u8>, plain: Seq<u8>) -> Seq<u8>;

/// The plaintext of `cipher` under AES-256 in CBC mode with PKCS#7 padding,
/// or `None` where `cipher` is no ciphertext under the key and the
/// initialization vector.
pub uninterp spec fn aes_256_cbc_opened(key: Seq<u8>, iv: Seq<u8>, cipher: Seq<u8>) -> Option<
    Seq<u8>,
>;

/// `openssl::sha::sha256`: the digest of `data`, which has 32 bytes.
#[verifier::external_body]
pub(crate) fn sha256(data: &[u8]) -> (digest: Vec<u8>)
    ensures
        digest@ == sha256_digest(data@),
        digest@.len() == 32,
{
    openssl::sha::sha256(data).to_vec()
}

/// `openssl::rand::rand_bytes`: `count` bytes from the secure random
/// generator, or `None` where the generator fails. Nothing is known of the
/// bytes but their number.
#[verifier::external_body]
pub(crate) fn random_bytes(count: usize) -> (r: Option<Vec<u8>>)
    requires
        count <= 0x7FFF_FFFF,
    ensures
        r is Some ==> r->Some_0@.len() == count,
{
    let mut buffer = vec![0u8; count];
    openssl::rand::rand_bytes(&mut buffer).ok()?;
    Some(buffer)
}

/// `openssl::memcmp::eq`: whether two runs of bytes of one length are the
/// same, found in a time that does not depend on the bytes.
#[verifier::external_body]
pub(crate) fn constant_time_eq(a: &[u8], b: &[u8]) -> (same: bool)
    requires
        a@.len() == b@.len(),
    ensures
        same == (a@ == b@),
{
    openssl::memcmp::eq(a, b)
}

/// `cryptostream::write::Encryptor` over `openssl::symm::Cipher::aes_256_cbc`:
/// the ciphertext of `plain`, or `None` where the cipher fails. Decrypting
/// the ciphertext under the same key and iv gives `plain` back.
#[verifier::external_body]
pub(crate) fn encrypt_aes_256_cbc(key: &[u8], iv: &[u8], plain: &[u8]) -> (r: Option<Vec<u8>>)
    requires
        key@.len() == 32,
        iv@.len() == 16,
    ensures
        r is Some ==> r->Some_0@ == aes_256_cbc_encrypted(key@, iv@, plain@),
        r is Some ==> aes_256_cbc_opened(key@, iv@, r->Some_0@) == Some(plain@),
{
    let mut cipher = Vec::new();
    let algorithm = openssl::symm::Cipher::aes_256_cbc();
    let mut encryptor = cryptostream::write::Encryptor::new(&mut cipher, algorithm, key, iv).ok()?;
    std::io::Write::write_all(&mut encryptor, plain).ok()?;
    encryptor.finish().ok()?;
    Some(cipher)
}

/// `cryptostream::read::Decryptor` over `openssl::symm::Cipher::aes_256_cbc`:
/// the plaintext of `cipher`, or `None` where the cipher refuses it, as it
/// does on a ciphertext that was not made under this key and iv. What comes
/// back rests on the key, the iv and the ciphertext alone.
#[verifier::external_body]
pub(crate) fn decrypt_aes_256_cbc(key: &[u8], iv: &[u8], cipher: &[u8]) -> (r: Option<Vec<u8>>)
    requires
        key@.len() == 32,
        iv@.len() == 16,
    ensures
        match r {
            Some(plain) => aes_256_cbc_opened(key@, iv@, cipher@) == Some(plain@),
            None => aes_256_cbc_opened(key@, iv@, cipher@) is None,
        },
{
    let mut plain = Vec::new();
    let algorithm = openssl::symm::Cipher::aes_256_cbc();
    let mut decryptor = cryptostream::read::Decryptor::new(cipher, algorithm, key, iv).ok()?;
    std::io::Read::read_to_end(&mut decryptor, &mut plain).ok()?;
    Some(plain)
}

/// `zeroize::Zeroize::zeroize` on a `Vec`: overwrites the bytes and the
/// spare capacity with zeros, and leaves the buffer empty.
#[verifier::external_body]
pub(crate) fn wipe(buffer: &mut Vec<u8>)
    ensures
        final(buffer)@.len() == 0,
{
    zeroize::Zeroize::zeroize(buffer)
}

} // verus!
