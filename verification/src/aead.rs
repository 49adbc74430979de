//! The AEAD behind the codec: AES-256-GCM with a 96-bit nonce and empty
//! associated data, and the random source for fresh nonces. The cipher
//! itself is an outside concern; what this module states of it is exactly
//! what its source shows, and the rest of the codec is proved from these
//! contracts.

use vstd::prelude::*;
use aes_gcm::aead::{Aead, KeyInit};

verus! {

/// One past the largest plaintext length AES-GCM accepts (2^36 bytes).
pub open spec fn gcm_plain_limit() -> int {
    0x10_0000_0000
}

/// What AES-256-GCM produces for a 32-byte key, a 12-byte nonce and a
/// plaintext: the ciphertext followed by the 16-byte tag. The function is
/// deterministic in its three arguments; nothing further is assumed of it.
pub uninterp spec fn gcm_cipher_of(key: Seq<u8>, nonce: Seq<u8>, plain: Seq<u8>) -> Seq<u8>;

/// Relies on `aes_gcm::Aes256Gcm` through `aead::Aead::encrypt`: sealing is
/// deterministic in key, nonce and plaintext, appends the 16-byte tag, and
/// succeeds whenever the plaintext is within the GCM length bound.
#[verifier::external_body]
pub(crate) fn aes256gcm_encrypt(key: &[u8], nonce: &[u8], plain: &[u8]) -> (r: Vec<u8>)
    requires
        key@.len() == 32,
        nonce@.len() == 12,
        plain@.len() < gcm_plain_limit(),
    ensures
        r@ == gcm_cipher_of(key@, nonce@, plain@),
        r@.len() == plain@.len() + 16,
{
    let cipher = aes_gcm::Aes256Gcm::new(aes_gcm::Key::<aes_gcm::Aes256Gcm>::from_slice(key));
    match cipher.encrypt(aes_gcm::Nonce::from_slice(nonce), plain) {
        Ok(sealed) => sealed,
        // encrypt rejects only plaintexts beyond the length bound, which the
        // precondition rules out
        Err(_) => Vec::new(),
    }
}

/// Relies on `aes_gcm::Aes256Gcm` through `aead::Aead::decrypt`: opening
/// verifies the trailing 16-byte tag and inverts the keystream, so it
/// returns exactly the plaintext that was sealed under the same key and
/// nonce, and anything it returns re-seals to the given bytes.
#[verifier::external_body]
pub(crate) fn aes256gcm_decrypt(key: &[u8], nonce: &[u8], sealed: &[u8]) -> (r: Result<Vec<u8>, ()>)
    requires
        key@.len() == 32,
        nonce@.len() == 12,
    ensures
        r is Err ==> forall|p: Seq<u8>|
            p.len() < gcm_plain_limit() ==> sealed@ != #[trigger] gcm_cipher_of(key@, nonce@, p),
        r matches Ok(out) ==> forall|p: Seq<u8>|
            p.len() < gcm_plain_limit() && sealed@ == #[trigger] gcm_cipher_of(key@, nonce@, p)
                ==> out@ == p,
        r matches Ok(out) ==> sealed@ == gcm_cipher_of(key@, nonce@, out@) && out@.len() + 16
            == sealed@.len(),
{
    let cipher = aes_gcm::Aes256Gcm::new(aes_gcm::Key::<aes_gcm::Aes256Gcm>::from_slice(key));
    cipher.decrypt(aes_gcm::Nonce::from_slice(nonce), sealed).map_err(|_| ())
}

/// Relies on `rand::random`: twelve bytes drawn from the thread-local
/// cryptographic generator. Nothing is promised of the values, only the
/// length; every contract downstream holds for whatever came back.
#[verifier::external_body]
pub(crate) fn fresh_nonce() -> (r: Vec<u8>)
    ensures
        r@.len() == 12,
{
    let bytes: [u8; 12] = rand::random();
    bytes.to_vec()
}

} // verus!
