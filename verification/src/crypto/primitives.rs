//! The cryptographic functions that the containers are built on.

use argon2::Error as KdfFailure;
use chacha20poly1305::aead::{Aead, KeyInit, Payload};
use chacha20poly1305::{Error as CipherFailure, Key, XChaCha20Poly1305, XNonce};
use getrandom::Error as RandomFailure;
use vstd::prelude::*;
use zeroize::Zeroizing;

verus! {

/// The error of `getrandom::fill`, carried through as it is.
#[verifier::external_type_specification]
#[verifier::external_body]
pub struct ExRandomFailure(RandomFailure);

/// The error of `argon2::Argon2::hash_password_into`, carried through as it is.
#[verifier::external_type_specification]
#[verifier::external_body]
pub struct ExKdfFailure(KdfFailure);

/// The error of the authenticated cipher, carried through as it is.
#[verifier::external_type_specification]
#[verifier::external_body]
pub struct ExCipherFailure(CipherFailure);

/// The error of `hkdf::Hkdf::expand`, carried through as it is.
#[verifier::external_type_specification]
#[verifier::external_body]
pub struct ExInvalidLength(hkdf::InvalidLength);

/// Bytes in a `zeroize::Zeroizing` buffer, which overwrites them with zeros
/// when the value is dropped. `secret_contents` names the bytes it holds.
#[verifier::external_body]
pub struct SecretBytes {
    bytes: Zeroizing<Vec<u8>>,
}

/// The bytes that a secret buffer holds.
pub uninterp spec fn secret_contents(secret: SecretBytes) -> Seq<u8>;

impl View for SecretBytes {
    type V = Seq<u8>;

    open spec fn view(&self) -> Seq<u8> {
        secret_contents(*self)
    }
}

/// Trusted: `zeroize::Zeroizing::new` keeps the bytes as they are.
#[verifier::external_body]
pub(crate) fn hold_secret(bytes: Vec<u8>) -> (secret: SecretBytes)
    ensures
        secret_contents(secret) == bytes@,
{
    SecretBytes { bytes: Zeroizing::new(bytes) }
}

/// Trusted: `zeroize::Zeroizing` dereferences to the bytes it holds.
#[verifier::external_body]
pub(crate) fn reveal_secret(secret: &SecretBytes) -> (bytes: &[u8])
    ensures
        bytes@ == secret_contents(*secret),
{
    secret.bytes.as_slice()
}

impl SecretBytes {
    /// Takes the bytes into a buffer that is overwritten when it is dropped.
    pub fn new(bytes: Vec<u8>) -> (secret: SecretBytes)
        ensures
            secret@ == bytes@,
    {
        hold_secret(bytes)
    }

    /// The bytes that the buffer holds.
    pub fn as_slice(&self) -> (bytes: &[u8])
        ensures
            bytes@ == self@,
    {
        reveal_secret(self)
    }
}

/// Trusted: `getrandom::fill` fills the whole buffer or fails. Nothing is
/// claimed of the bytes, which are random.
#[verifier::external_body]
pub(crate) fn random_bytes(count: usize) -> (outcome: core::result::Result<
    Vec<u8>,
    RandomFailure,
>)
    ensures
        outcome matches Ok(bytes) ==> bytes@.len() == count,
{
    let mut bytes = vec![0u8; count];
    getrandom::fill(&mut bytes)?;
    Ok(bytes)
}

/// Thirty-two bytes of Argon2id, version 0x13, for a password, a salt, a memory
/// size in KiB, a number of passes and a number of lanes.
pub uninterp spec fn argon2id(
    password: Seq<u8>,
    salt: Seq<u8>,
    memory_kib: u32,
    iterations: u32,
    lanes: u32,
) -> Seq<u8>;

/// Trusted: `argon2::Argon2::hash_password_into` with `argon2::Params::new`.
/// With parameters in the range that `Params::new` accepts and a salt of
/// sixteen bytes, it fails exactly on a password of more than `u32::MAX` bytes,
/// and gives thirty-two bytes that depend on its arguments alone.
#[verifier::external_body]
pub(crate) fn argon2id_key(
    password: &[u8],
    salt: &[u8; 16],
    memory_kib: u32,
    iterations: u32,
    lanes: u32,
) -> (outcome: core::result::Result<Vec<u8>, KdfFailure>)
    requires
        1 <= lanes <= 0x00ff_ffff,
        8 * lanes <= memory_kib,
        1 <= iterations,
    ensures
        outcome is Ok <==> password@.len() <= 0xffff_ffff,
        outcome matches Ok(key) ==> key@.len() == 32 && key@ == argon2id(
            password@,
            salt@,
            memory_kib,
            iterations,
            lanes,
        ),
{
    let params = argon2::Params::new(memory_kib, iterations, lanes, Some(32))?;
    let kdf = argon2::Argon2::new(argon2::Algorithm::Argon2id, argon2::Version::V0x13, params);
    let mut key = vec![0u8; 32];
    kdf.hash_password_into(password, salt, &mut key)?;
    Ok(key)
}

/// The XChaCha20-Poly1305 ciphertext and tag for a key, a nonce, associated
/// data and a message.
pub uninterp spec fn xchacha_seal(
    key: Seq<u8>,
    nonce: Seq<u8>,
    associated: Seq<u8>,
    message: Seq<u8>,
) -> Seq<u8>;

/// The message in an XChaCha20-Poly1305 ciphertext, where its tag is right.
pub uninterp spec fn xchacha_open(
    key: Seq<u8>,
    nonce: Seq<u8>,
    associated: Seq<u8>,
    sealed: Seq<u8>,
) -> Option<Seq<u8>>;

/// The longest message, in bytes, that the cipher takes: the blocks of its
/// keystream, of sixty-four bytes each, less the two that are never used.
pub const CIPHER_LIMIT: u64 = 0x3f_ffff_ff80;

/// The longest message, in bytes, that the cipher takes.
pub open spec fn cipher_limit() -> nat {
    CIPHER_LIMIT as nat
}

/// Trusted: `encrypt` of `chacha20poly1305::XChaCha20Poly1305`. On a message of
/// at most `cipher_limit` bytes it succeeds; what it gives depends on its
/// arguments alone, is the tag's sixteen bytes longer than the message, and
/// opens again to the message. A longer message can make it panic. That nobody
/// without the key can make such a ciphertext is not stated.
#[verifier::external_body]
pub(crate) fn aead_encrypt(
    key: &[u8],
    nonce: &[u8; 24],
    associated: &[u8],
    message: &[u8],
) -> (outcome: core::result::Result<Vec<u8>, CipherFailure>)
    requires
        key@.len() == 32,
        message@.len() <= cipher_limit(),
        message@.len() + 16 <= isize::MAX,
    ensures
        outcome is Ok,
        outcome matches Ok(sealed) ==> {
            &&& sealed@ == xchacha_seal(key@, nonce@, associated@, message@)
            &&& sealed@.len() == message@.len() + 16
            &&& xchacha_open(key@, nonce@, associated@, sealed@) == Some(message@)
        },
{
    let cipher = XChaCha20Poly1305::new(Key::from_slice(key));
    cipher.encrypt(XNonce::from_slice(nonce), Payload { msg: message, aad: associated })
}

/// Trusted: `decrypt` of `chacha20poly1305::XChaCha20Poly1305`. Whether it
/// succeeds and with which message depends on its arguments alone; a ciphertext
/// that opens to a message is the one that sealing the message gives. One of a
/// message that is too long can make it panic.
#[verifier::external_body]
pub(crate) fn aead_decrypt(
    key: &[u8],
    nonce: &[u8; 24],
    associated: &[u8],
    sealed: &[u8],
) -> (outcome: core::result::Result<Vec<u8>, CipherFailure>)
    requires
        key@.len() == 32,
        sealed@.len() <= cipher_limit() + 16,
    ensures
        match outcome {
            Ok(message) => {
                &&& xchacha_open(key@, nonce@, associated@, sealed@) == Some(message@)
                &&& sealed@ == xchacha_seal(key@, nonce@, associated@, message@)
                &&& sealed@.len() == message@.len() + 16
            },
            Err(_) => xchacha_open(key@, nonce@, associated@, sealed@) is None,
        },
{
    let cipher = XChaCha20Poly1305::new(Key::from_slice(key));
    cipher.decrypt(XNonce::from_slice(nonce), Payload { msg: sealed, aad: associated })
}

/// Thirty-two bytes of HKDF-SHA256 for a salt, input key material and an info label.
pub uninterp spec fn hkdf_sha256(salt: Seq<u8>, material: Seq<u8>, info: Seq<u8>) -> Seq<u8>;

/// Trusted: `hkdf::Hkdf::<sha2::Sha256>::new` and `expand` into thirty-two
/// bytes, a length that `expand` always accepts. What they give depends on
/// their arguments alone.
#[verifier::external_body]
pub(crate) fn hkdf_key(salt: &[u8], material: &[u8], info: &[u8]) -> (outcome: core::result::Result<
    Vec<u8>,
    hkdf::InvalidLength,
>)
    ensures
        outcome is Ok,
        outcome matches Ok(key) ==> key@.len() == 32 && key@ == hkdf_sha256(
            salt@,
            material@,
            info@,
        ),
{
    let mut key = vec![0u8; 32];
    hkdf::Hkdf::<sha2::Sha256>::new(Some(salt), material).expand(info, &mut key)?;
    Ok(key)
}

} // verus!
