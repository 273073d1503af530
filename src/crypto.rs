use crate::envelope::EncryptedData;
use crate::error::VaultError;
use aes::cipher::block_padding::Pkcs7;
use aes::cipher::{BlockDecryptMut, BlockEncryptMut, KeyIvInit};
use argon2::password_hash::{PasswordHasher, SaltString};
use rand::RngCore;
use vstd::prelude::*;
use vstd::utf8::encode_utf8;

verus! {

/// Length of a vault key, in bytes.
pub const KEY_LEN: usize = 32;

/// The shortest salt, in UTF-8 bytes, whose Base64 form argon2 accepts as a
/// salt (four characters).
pub const MIN_SALT_BYTES: usize = 3;

/// What Argon2id (version 0x13, default cost parameters) produces for a
/// password and a salt, or `None` where the salt cannot be encoded or
/// hashing fails.
pub uninterp spec fn argon2id_output(password: Seq<char>, salt: Seq<char>) -> Option<Seq<u8>>;

/// The AES-256-CBC encryption, with PKCS#7 padding, of `plaintext` under
/// `key` and `iv`.
pub uninterp spec fn cbc_encrypt_of(key: Seq<u8>, iv: Seq<u8>, plaintext: Seq<u8>) -> Seq<u8>;

/// The AES-256-CBC decryption of `ciphertext` under `key` and `iv`, with the
/// PKCS#7 padding removed, or `None` where the padding is invalid.
pub uninterp spec fn cbc_decrypt_of(key: Seq<u8>, iv: Seq<u8>, ciphertext: Seq<u8>) -> Option<Seq<u8>>;

/// Relies on argon2's `Argon2::hash_password` with `Algorithm::Argon2id`,
/// `Version::V0x13` and `Params::default()`, over the salt encoded by
/// `SaltString::encode_b64`: the hash bytes depend on the password and the
/// salt alone. A salt shorter than `MIN_SALT_BYTES` makes the conversion of
/// the `SaltString` into a `Salt` panic, so it is excluded.
#[verifier::external_body]
fn argon2id_hash(password: &str, salt: &str) -> (r: Option<Vec<u8>>)
    requires
        encode_utf8(salt@).len() >= MIN_SALT_BYTES,
    ensures
        match r {
            Some(h) => argon2id_output(password@, salt@) == Some(h@),
            None => argon2id_output(password@, salt@) is None,
        },
{
    let hasher = argon2::Argon2::new(argon2::Algorithm::Argon2id, argon2::Version::V0x13, argon2::Params::default());
    let salt = SaltString::encode_b64(salt.as_bytes()).ok()?;
    let hash = hasher.hash_password(password.as_bytes(), &salt).ok()?;
    hash.hash.map(|h| h.as_bytes().to_vec())
}

/// Relies on rand's `thread_rng().fill_bytes`: sixteen bytes from the
/// thread-local cryptographically secure generator. Nothing is known of them.
#[verifier::external_body]
fn random_iv() -> (r: [u8; 16]) {
    let mut iv = [0u8; 16];
    rand::thread_rng().fill_bytes(&mut iv);
    iv
}

/// Relies on cbc's `Encryptor<aes::Aes256>::encrypt_padded_vec_mut::<Pkcs7>`:
/// the ciphertext, which the matching decryptor turns back into `data`.
#[verifier::external_body]
fn aes256_cbc_encrypt(key: &[u8; 32], iv: &[u8; 16], data: &[u8]) -> (r: Vec<u8>)
    ensures
        r@ == cbc_encrypt_of(key@, iv@, data@),
        cbc_decrypt_of(key@, iv@, r@) == Some(data@),
{
    cbc::Encryptor::<aes::Aes256>::new(key.into(), iv.into()).encrypt_padded_vec_mut::<Pkcs7>(data)
}

/// Relies on cbc's `Decryptor<aes::Aes256>::decrypt_padded_vec_mut::<Pkcs7>`:
/// the plaintext, or an error where the length or the padding is invalid.
#[verifier::external_body]
fn aes256_cbc_decrypt(key: &[u8; 32], iv: &[u8; 16], ciphertext: &[u8]) -> (r: Option<Vec<u8>>)
    ensures
        match r {
            Some(p) => cbc_decrypt_of(key@, iv@, ciphertext@) == Some(p@),
            None => cbc_decrypt_of(key@, iv@, ciphertext@) is None,
        },
{
    cbc::Decryptor::<aes::Aes256>::new(key.into(), iv.into()).decrypt_padded_vec_mut::<Pkcs7>(ciphertext).ok()
}

/// The key derived from a password and a salt: the first 32 bytes of the
/// Argon2id hash, or `None` where the salt is too short, hashing fails or it
/// yields fewer bytes.
pub open spec fn derived_key(password: Seq<char>, salt: Seq<char>) -> Option<Seq<u8>> {
    if encode_utf8(salt).len() < MIN_SALT_BYTES {
        None
    } else {
        match argon2id_output(password, salt) {
            Some(h) => if h.len() >= KEY_LEN {
                Some(h.subrange(0, KEY_LEN as int))
            } else {
                None
            },
            None => None,
        }
    }
}

/// What `derive_key` returns, by the key's bytes.
pub open spec fn derive_key_result(password: Seq<char>, salt: Seq<char>) -> Result<Seq<u8>, VaultError> {
    match derived_key(password, salt) {
        Some(k) => Ok(k),
        None => Err(VaultError::KeyDerivationError),
    }
}

/// `e` is an envelope of `plaintext` under `key`: its ciphertext is the
/// encryption of `plaintext` under its own IV, and decrypts back to it.
pub open spec fn sealed(plaintext: Seq<u8>, key: Seq<u8>, e: EncryptedData) -> bool {
    &&& e.ciphertext@ == cbc_encrypt_of(key, e.iv@, plaintext)
    &&& cbc_decrypt_of(key, e.iv@, e.ciphertext@) == Some(plaintext)
}

/// What `decrypt` returns for an envelope's ciphertext and IV under `key`.
pub open spec fn opened(ciphertext: Seq<u8>, iv: Seq<u8>, key: Seq<u8>) -> Result<Seq<u8>, VaultError> {
    match cbc_decrypt_of(key, iv, ciphertext) {
        Some(p) => Ok(p),
        None => Err(VaultError::DecryptionError),
    }
}

/// Derives a 32-byte key from a password and a salt with Argon2id.
pub fn derive_key(password: &str, salt: &str) -> (r: Result<[u8; 32], VaultError>)
    ensures
        match r {
            Ok(k) => derive_key_result(password@, salt@) == Ok::<Seq<u8>, VaultError>(k@),
            Err(e) => derive_key_result(password@, salt@) == Err::<Seq<u8>, VaultError>(e),
        },
{
    if salt.as_bytes().len() < MIN_SALT_BYTES {
        return Err(VaultError::KeyDerivationError);
    }
    let hash = match argon2id_hash(password, salt) {
        Some(h) => h,
        None => return Err(VaultError::KeyDerivationError),
    };
    if hash.len() < KEY_LEN {
        return Err(VaultError::KeyDerivationError);
    }
    let mut key = [0u8; 32];
    let mut i: usize = 0;
    while i < KEY_LEN
        invariant
            i <= KEY_LEN,
            hash@.len() >= KEY_LEN,
            forall|j: int| 0 <= j < i ==> key@[j] == hash@[j],
        decreases KEY_LEN - i,
    {
        key[i] = hash[i];
        i = i + 1;
    }
    assert(key@ == hash@.subrange(0, KEY_LEN as int));
    Ok(key)
}

/// Encrypts `data` under `key` with a fresh random IV.
pub fn encrypt(data: &[u8], key: &[u8; 32]) -> (r: Result<EncryptedData, VaultError>)
    ensures
        match r {
            Ok(e) => sealed(data@, key@, e),
            Err(_) => false,
        },
{
    let iv = random_iv();
    Ok(encrypt_with_iv(data, key, iv))
}

/// Encrypts `data` under `key` with the given IV.
pub fn encrypt_with_iv(data: &[u8], key: &[u8; 32], iv: [u8; 16]) -> (r: EncryptedData)
    ensures
        r.iv == iv,
        sealed(data@, key@, r),
{
    let ciphertext = aes256_cbc_encrypt(key, &iv, data);
    EncryptedData { ciphertext, iv }
}

/// Decrypts an envelope under `key`; fails with `DecryptionError` where the
/// padding comes out invalid.
pub fn decrypt(encrypted: &EncryptedData, key: &[u8; 32]) -> (r: Result<Vec<u8>, VaultError>)
    ensures
        match r {
            Ok(p) => opened(encrypted.ciphertext@, encrypted.iv@, key@) == Ok::<Seq<u8>, VaultError>(p@),
            Err(e) => opened(encrypted.ciphertext@, encrypted.iv@, key@) == Err::<Seq<u8>, VaultError>(e),
        },
{
    match aes256_cbc_decrypt(key, &encrypted.iv, encrypted.ciphertext.as_slice()) {
        Some(p) => Ok(p),
        None => Err(VaultError::DecryptionError),
    }
}

/// Key derivation is deterministic: two results of `derive_key` on the same
/// password and salt agree, in success and in the key's bytes.
pub proof fn lemma_derive_key_deterministic(
    password: Seq<char>,
    salt: Seq<char>,
    r1: Result<Seq<u8>, VaultError>,
    r2: Result<Seq<u8>, VaultError>,
)
    requires
        r1 == derive_key_result(password, salt),
        r2 == derive_key_result(password, salt),
    ensures
        r1 == r2,
        r1 is Ok ==> r1->Ok_0.len() == KEY_LEN,
{
}

/// Decrypting an envelope of `plaintext` under the same key gives `plaintext`.
pub proof fn lemma_encrypt_decrypt_round_trip(plaintext: Seq<u8>, key: Seq<u8>, e: EncryptedData)
    requires
        sealed(plaintext, key, e),
    ensures
        opened(e.ciphertext@, e.iv@, key) == Ok::<Seq<u8>, VaultError>(plaintext),
{
}

/// Two envelopes of the same plaintext under the same key, whatever IVs
/// they were made with, both decrypt to that plaintext.
pub proof fn lemma_envelopes_of_same_plaintext_agree(plaintext: Seq<u8>, key: Seq<u8>, e1: EncryptedData, e2: EncryptedData)
    requires
        sealed(plaintext, key, e1),
        sealed(plaintext, key, e2),
    ensures
        opened(e1.ciphertext@, e1.iv@, key) == opened(e2.ciphertext@, e2.iv@, key),
        opened(e1.ciphertext@, e1.iv@, key) == Ok::<Seq<u8>, VaultError>(plaintext),
{
}

} // verus!
