use vstd::prelude::*;

verus! {

/// The AES-128-CBC ciphertext, with standard byte padding, of `data` under
/// `key`, where `key` serves both as the cipher key and as the
/// initialization vector. The result is a function of the two arguments
/// alone; this protocol fixes the key-as-IV reuse as a constant.
pub uninterp spec fn aes_enc(key: Seq<u8>, data: Seq<u8>) -> Seq<u8>;

/// The AES-128-CBC decryption, with standard byte padding stripped, of
/// `data` under `key`, where `key` serves both as the cipher key and as the
/// initialization vector.
pub uninterp spec fn aes_dec(key: Seq<u8>, data: Seq<u8>) -> Seq<u8>;

/// Relies on openssl::symm::encrypt with Cipher::aes_128_cbc, the key
/// doubling as the IV: on success it returns the padded ciphertext, whose
/// length rounds the input length up to the next multiple of the 16-byte
/// block size (padding always adds 1 to 16 bytes). An internal failure of
/// the backend surfaces as `None`. The length bound keeps the buffer
/// within the C int range that the backend converts lengths into without
/// checking its callers first.
#[verifier::external_body]
pub(crate) fn aes_encrypt_raw(key: &[u8], data: &[u8]) -> (r: Option<Vec<u8>>)
    requires
        key@.len() == 16,
        data@.len() + 16 <= i32::MAX,
    ensures
        r is Some ==> r.unwrap()@ == aes_enc(key@, data@),
        r is Some ==> r.unwrap()@.len() == data@.len() - (data@.len() % 16) + 16,
{
    match openssl::symm::encrypt(openssl::symm::Cipher::aes_128_cbc(), key, Some(key), data) {
        Ok(out) => Some(out),
        Err(_) => None,
    }
}

/// Relies on openssl::symm::decrypt with Cipher::aes_128_cbc, the key
/// doubling as the IV: it never returns more bytes than it was given, and
/// is the exact inverse of openssl::symm::encrypt under the same key and
/// IV, so a buffer that is the encryption of `s` under the key decrypts
/// to `s`. A wrong key or a malformed padding surfaces as `None`. The
/// length bound keeps the buffer within the C int range that the backend
/// converts lengths into without checking its callers first.
#[verifier::external_body]
pub(crate) fn aes_decrypt_raw(key: &[u8], data: &[u8]) -> (r: Option<Vec<u8>>)
    requires
        key@.len() == 16,
        data@.len() + 16 <= i32::MAX,
    ensures
        r is Some ==> r.unwrap()@ == aes_dec(key@, data@),
        r is Some ==> r.unwrap()@.len() <= data@.len(),
        forall|s: Seq<u8>|
            data@ == #[trigger] aes_enc(key@, s) ==> r is Some && r.unwrap()@ == s,
{
    match openssl::symm::decrypt(openssl::symm::Cipher::aes_128_cbc(), key, Some(key), data) {
        Ok(out) => Some(out),
        Err(_) => None,
    }
}

/// Relies on openssl::rand::rand_bytes: on success the buffer is filled
/// with 16 bytes from the cryptographically secure random source; nothing
/// is promised of their values. A failure of the source surfaces as `None`.
#[verifier::external_body]
pub(crate) fn random_key_bytes() -> (r: Option<Vec<u8>>)
    ensures
        r is Some ==> r.unwrap()@.len() == 16,
{
    let mut buf = [0u8; 16];
    match openssl::rand::rand_bytes(&mut buf) {
        Ok(()) => Some(buf.to_vec()),
        Err(_) => None,
    }
}

} // verus!
