//! Key derivation, authenticated encryption and signatures.
//!
//! The primitives come from outside crates (argon2, hkdf, aes-gcm,
//! ed25519-dalek, sha2, rand); each call stands behind a small trusted
//! wrapper whose result is named by a spec function of its arguments. The
//! byte layouts fed to them (the HKDF `info` strings) are this crate's own
//! and verified here.
use crate::text::{chars_of, decimal, decimal_chars, string_from_chars};
use aes_gcm::aead::{Aead, KeyInit};
use ed25519_dalek::{Signer, Verifier};
use rand::RngCore;
use vstd::prelude::*;
use vstd::utf8::encode_utf8;

verus! {

pub const KEY_LEN: usize = 32;

pub const NONCE_LEN: usize = 12;

pub const SALT_LEN: usize = 16;

pub const ARGON2_M_COST: u32 = 65536;

pub const ARGON2_T_COST: u32 = 3;

pub const ARGON2_P_COST: u32 = 4;

/// Largest plaintext that AES-256-GCM accepts (2^36 bytes).
pub const AES_GCM_P_MAX: u64 = 68719476736;

/// The Argon2id output (m = 65536 KiB, t = 3, p = 4, version 0x13) for a password and salt.
pub uninterp spec fn argon2id(password: Seq<u8>, salt: Seq<u8>, out_len: nat) -> Seq<u8>;

/// HKDF-SHA256 expansion of a pseudorandom key to 32 bytes under `info`.
pub uninterp spec fn hkdf_sha256(prk: Seq<u8>, info: Seq<u8>) -> Seq<u8>;

/// AES-256-GCM ciphertext with its 16-byte tag appended (empty associated data).
pub uninterp spec fn aes256gcm_seal(key: Seq<u8>, nonce: Seq<u8>, plaintext: Seq<u8>) -> Seq<u8>;

/// AES-256-GCM authenticated decryption; `None` where the tag does not verify.
pub uninterp spec fn aes256gcm_open(key: Seq<u8>, nonce: Seq<u8>, ciphertext: Seq<u8>) -> Option<
    Seq<u8>,
>;

/// The Ed25519 public key of a 32-byte secret seed.
pub uninterp spec fn ed25519_public_key(seed: Seq<u8>) -> Seq<u8>;

/// The Ed25519 signature of a message under a 32-byte secret seed.
pub uninterp spec fn ed25519_signature(seed: Seq<u8>, msg: Seq<u8>) -> Seq<u8>;

/// Whether 32 bytes decode to an Ed25519 public key.
pub uninterp spec fn ed25519_valid_public_key(pk: Seq<u8>) -> bool;

/// Whether a 64-byte signature verifies for a message under a public key.
pub uninterp spec fn ed25519_verifies(pk: Seq<u8>, msg: Seq<u8>, sig: Seq<u8>) -> bool;

/// SHA-256 digest.
pub uninterp spec fn sha256(data: Seq<u8>) -> Seq<u8>;

#[verifier::external_type_specification]
#[verifier::external_body]
pub struct ExArgon2Error(argon2::Error);

#[verifier::external_type_specification]
#[verifier::external_body]
pub struct ExAeadError(aes_gcm::Error);

/// Errors of the cryptographic layer.
#[derive(Clone, Copy, PartialEq, Eq, Structural, Debug)]
pub enum CryptoError {
    /// A zero output length was asked of the password hash.
    ZeroOutputLength,
    /// Argon2 refused its inputs (salt shorter than 8 bytes, or a password or
    /// salt longer than 2^32 - 1 bytes).
    PasswordHash,
    /// A nonce of the wrong length.
    InvalidNonceLength,
    /// AES-GCM refused to encrypt (plaintext over 2^36 bytes).
    EncryptionFailed,
    /// The ciphertext did not authenticate under the key.
    DecryptionFailed,
}

/// The message shown for a cryptographic error.
pub open spec fn crypto_error_text(e: CryptoError) -> Seq<char> {
    match e {
        CryptoError::ZeroOutputLength => "Argon2 output length must be greater than zero!!"@,
        CryptoError::PasswordHash => "Failed to hash password"@,
        CryptoError::InvalidNonceLength => "Invalid nonce length"@,
        CryptoError::EncryptionFailed => "Encryption failed!!"@,
        CryptoError::DecryptionFailed => "Decryption failed!!"@,
    }
}

impl CryptoError {
    /// The message shown to the user; see `crypto_error_text`.
    pub fn message(&self) -> (s: String)
        ensures
            s@ == crypto_error_text(*self),
    {
        match self {
            CryptoError::ZeroOutputLength => String::from_str("Argon2 output length must be greater than zero!!"),
            CryptoError::PasswordHash => String::from_str("Failed to hash password"),
            CryptoError::InvalidNonceLength => String::from_str("Invalid nonce length"),
            CryptoError::EncryptionFailed => String::from_str("Encryption failed!!"),
            CryptoError::DecryptionFailed => String::from_str("Decryption failed!!"),
        }
    }
}

/// Random bytes from the operating system (`rand::rngs::OsRng::fill_bytes`).
/// Nothing is claimed of them but their number.
#[verifier::external_body]
fn os_random_bytes(n: usize) -> (v: Vec<u8>)
    requires
        n <= 64,
    ensures
        v.len() == n,
{
    let mut v = vec![0u8; n];
    rand::rngs::OsRng.fill_bytes(&mut v);
    v
}

/// `argon2::Argon2::hash_password_into_with_memory` with Argon2id, version
/// 0x13 and the crate's cost parameters, on a block buffer of exactly the
/// size the parameters call for: the hash of `password` under `salt`, of
/// `out_len` bytes. As the argon2 source shows, it fails exactly when the
/// salt is shorter than 8 bytes or the password or salt is longer than
/// 2^32 - 1 bytes (the parameters are valid for 4 <= out_len, the output
/// buffer has the length they name, and the memory given is what they
/// need).
#[verifier::external_body]
fn argon2id_hash(password: &[u8], salt: &[u8], out_len: usize) -> (r: Result<Vec<u8>, argon2::Error>)
    requires
        out_len == 32 || out_len == 64,
    ensures
        r is Ok <==> (8 <= salt@.len() <= 0xffff_ffff && password@.len() <= 0xffff_ffff),
        r matches Ok(h) ==> h@ == argon2id(password@, salt@, out_len as nat) && h@.len() == out_len,
{
    let params = argon2::Params::new(ARGON2_M_COST, ARGON2_T_COST, ARGON2_P_COST, Some(out_len))?;
    let memory = vec![argon2::Block::default(); params.block_count()];
    let argon2 = argon2::Argon2::new(argon2::Algorithm::Argon2id, argon2::Version::V0x13, params);
    let mut hash = vec![0u8; out_len];
    argon2.hash_password_into_with_memory(password, salt, &mut hash, memory)?;
    Ok(hash)
}

/// `hkdf::Hkdf::<Sha256>::from_prk(prk)` then `expand(info, 32 bytes)`. With a
/// 32-byte key and a 32-byte output neither step can fail (the source checks
/// only `prk.len() >= 32` and `okm.len() <= 255 * 32`).
#[verifier::external_body]
fn hkdf_expand(prk: &[u8; 32], info: &[u8]) -> (okm: [u8; 32])
    ensures
        okm@ == hkdf_sha256(prk@, info@),
{
    let hk = hkdf::Hkdf::<sha2::Sha256>::from_prk(prk).expect("PRK length is 32 bytes");
    let mut okm = [0u8; 32];
    hk.expand(info, &mut okm).expect("HKDF expansion of 32 bytes");
    okm
}

/// `aes_gcm::Aes256Gcm::encrypt` with empty associated data. It fails exactly
/// when the plaintext is longer than 2^36 bytes; the result is the ciphertext
/// with the 16-byte tag appended, and decrypting it under the same key and
/// nonce gives the plaintext back (AES-GCM correctness).
#[verifier::external_body]
fn aes_gcm_encrypt(key: &[u8; 32], nonce: &[u8; 12], plaintext: &[u8]) -> (r: Result<
    Vec<u8>,
    aes_gcm::Error,
>)
    ensures
        r is Ok <==> plaintext@.len() <= AES_GCM_P_MAX,
        r matches Ok(c) ==> c@ == aes256gcm_seal(key@, nonce@, plaintext@) && c@.len()
            == plaintext@.len() + 16,
        r matches Ok(c) ==> aes256gcm_open(key@, nonce@, c@) == Some(plaintext@),
{
    let cipher = aes_gcm::Aes256Gcm::new(key.into());
    cipher.encrypt(aes_gcm::Nonce::from_slice(nonce), plaintext)
}

/// `aes_gcm::Aes256Gcm::decrypt` with empty associated data.
#[verifier::external_body]
fn aes_gcm_decrypt(key: &[u8; 32], nonce: &[u8], ciphertext: &[u8]) -> (r: Result<
    Vec<u8>,
    aes_gcm::Error,
>)
    requires
        nonce@.len() == 12,
    ensures
        r is Ok <==> aes256gcm_open(key@, nonce@, ciphertext@) is Some,
        r matches Ok(p) ==> aes256gcm_open(key@, nonce@, ciphertext@) == Some(p@),
{
    let cipher = aes_gcm::Aes256Gcm::new(key.into());
    cipher.decrypt(aes_gcm::Nonce::from_slice(nonce), ciphertext)
}

/// `ed25519_dalek::SigningKey::from_bytes(seed).verifying_key().to_bytes()`:
/// the public key of a seed, which always decodes as a public key.
#[verifier::external_body]
fn ed25519_public_key_of(seed: &[u8; 32]) -> (pk: [u8; 32])
    ensures
        pk@ == ed25519_public_key(seed@),
        ed25519_valid_public_key(pk@),
{
    ed25519_dalek::SigningKey::from_bytes(seed).verifying_key().to_bytes()
}

/// `ed25519_dalek::SigningKey::sign`: the signature of `msg` under the key of
/// `seed`, which verifies under that key's public key (Ed25519 correctness).
#[verifier::external_body]
fn ed25519_sign(seed: &[u8; 32], msg: &[u8]) -> (sig: [u8; 64])
    ensures
        sig@ == ed25519_signature(seed@, msg@),
        ed25519_verifies(ed25519_public_key(seed@), msg@, sig@),
{
    ed25519_dalek::SigningKey::from_bytes(seed).sign(msg).to_bytes()
}

/// `ed25519_dalek::VerifyingKey::from_bytes`: whether the bytes decode as a public key.
#[verifier::external_body]
fn ed25519_decodes(pk: &[u8; 32]) -> (b: bool)
    ensures
        b == ed25519_valid_public_key(pk@),
{
    ed25519_dalek::VerifyingKey::from_bytes(pk).is_ok()
}

/// `ed25519_dalek::VerifyingKey::verify` of a signature given as 64 bytes.
#[verifier::external_body]
fn ed25519_verify(pk: &[u8; 32], msg: &[u8], sig: &[u8; 64]) -> (b: bool)
    requires
        ed25519_valid_public_key(pk@),
    ensures
        b == ed25519_verifies(pk@, msg@, sig@),
{
    match ed25519_dalek::VerifyingKey::from_bytes(pk) {
        Ok(vk) => vk.verify(msg, &ed25519_dalek::Signature::from_bytes(sig)).is_ok(),
        Err(_) => false,
    }
}

/// `sha2::Sha256::digest`.
#[verifier::external_body]
pub(crate) fn sha256_digest(data: &[u8]) -> (d: [u8; 32])
    ensures
        d@ == sha256(data@),
{
    <sha2::Sha256 as sha2::Digest>::digest(data).into()
}

/// The first 32 bytes of a slice, as an array.
pub fn array32(v: &[u8]) -> (a: [u8; 32])
    requires
        v@.len() >= 32,
    ensures
        a@ == v@.take(32),
{
    let mut a = [0u8; 32];
    let mut i: usize = 0;
    while i < 32
        invariant
            i <= 32,
            v@.len() >= 32,
            forall|j: int| 0 <= j < i ==> a@[j] == v@[j],
        decreases 32 - i,
    {
        a[i] = v[i];
        i = i + 1;
    }
    assert(a@ == v@.take(32));
    a
}

/// 12 bytes of a slice, as an array.
fn array12(v: &[u8]) -> (a: [u8; 12])
    requires
        v@.len() == 12,
    ensures
        a@ == v@,
{
    let mut a = [0u8; 12];
    let mut i: usize = 0;
    while i < 12
        invariant
            i <= 12,
            v@.len() == 12,
            forall|j: int| 0 <= j < i ==> a@[j] == v@[j],
        decreases 12 - i,
    {
        a[i] = v[i];
        i = i + 1;
    }
    assert(a@ == v@);
    a
}

/// An Ed25519 signing key, held as its 32-byte secret seed.
pub struct SigningKey {
    pub seed: [u8; 32],
}

impl SigningKey {
    pub fn from_bytes(seed: &[u8; 32]) -> (k: SigningKey)
        ensures
            k.seed@ == seed@,
    {
        SigningKey { seed: *seed }
    }

    pub fn to_bytes(&self) -> (b: [u8; 32])
        ensures
            b@ == self.seed@,
    {
        self.seed
    }

    /// The public key, as 32 bytes.
    pub fn verifying_key_bytes(&self) -> (pk: [u8; 32])
        ensures
            pk@ == ed25519_public_key(self.seed@),
            ed25519_valid_public_key(pk@),
    {
        ed25519_public_key_of(&self.seed)
    }

    /// The signature of `msg`.
    pub fn sign(&self, msg: &[u8]) -> (sig: [u8; 64])
        ensures
            sig@ == ed25519_signature(self.seed@, msg@),
            ed25519_verifies(ed25519_public_key(self.seed@), msg@, sig@),
    {
        ed25519_sign(&self.seed, msg)
    }
}

/// Whether a 32-byte public key decodes and a 64-byte signature verifies under it.
pub fn verify_signature(pk: &[u8; 32], msg: &[u8], sig: &[u8; 64]) -> (r: Option<bool>)
    ensures
        r is None <==> !ed25519_valid_public_key(pk@),
        r matches Some(b) ==> b == ed25519_verifies(pk@, msg@, sig@),
{
    if !ed25519_decodes(pk) {
        return None;
    }
    Some(ed25519_verify(pk, msg, sig))
}

/// Whether Argon2 accepts a password and salt.
pub open spec fn kdf_accepts(password: Seq<char>, salt: Seq<u8>) -> bool {
    8 <= salt.len() <= 0xffff_ffff && encode_utf8(password).len() <= 0xffff_ffff
}

/// A fresh random salt.
pub fn generate_salt() -> (s: [u8; 16]) {
    let v = os_random_bytes(16);
    let mut a = [0u8; 16];
    let mut i: usize = 0;
    while i < 16
        invariant
            i <= 16,
            v@.len() == 16,
        decreases 16 - i,
    {
        a[i] = v[i];
        i = i + 1;
    }
    a
}

/// A fresh random 32-byte data encryption key.
pub fn generate_dek() -> (k: [u8; 32]) {
    let v = os_random_bytes(32);
    array32(v.as_slice())
}

/// Argon2id of the password's UTF-8 bytes, `out_len` bytes long.
fn run_argon2(password: &str, salt: &[u8], out_len: usize) -> (r: Result<Vec<u8>, CryptoError>)
    requires
        out_len == 32 || out_len == 64,
    ensures
        r is Ok <==> kdf_accepts(password@, salt@),
        r matches Ok(h) ==> h@ == argon2id(encode_utf8(password@), salt@, out_len as nat) && h@.len()
            == out_len,
        r matches Err(e) ==> e == CryptoError::PasswordHash,
{
    match argon2id_hash(password.as_bytes(), salt, out_len) {
        Ok(h) => Ok(h),
        Err(_) => Err(CryptoError::PasswordHash),
    }
}

/// A 32-byte key derived from a password and salt (Argon2id).
pub fn derive_key(password: &str, salt: &[u8]) -> (r: Result<[u8; 32], CryptoError>)
    ensures
        r is Ok <==> kdf_accepts(password@, salt@),
        r matches Ok(k) ==> k@ == argon2id(encode_utf8(password@), salt@, 32),
        r matches Err(e) ==> e == CryptoError::PasswordHash,
{
    let h = run_argon2(password, salt, 32)?;
    let k = array32(h.as_slice());
    assert(h@.take(32) == h@);
    Ok(k)
}

/// The master key-encryption key (the first 32 bytes of a 64-byte Argon2id
/// output) and the signing key (seeded by the last 32).
pub fn derive_master_keys(password: &str, salt: &[u8]) -> (r: Result<([u8; 32], SigningKey), CryptoError>)
    ensures
        r is Ok <==> kdf_accepts(password@, salt@),
        r matches Ok((kek, sk)) ==> kek@ == argon2id(encode_utf8(password@), salt@, 64).take(32)
            && sk.seed@ == argon2id(encode_utf8(password@), salt@, 64).skip(32),
        r matches Err(e) ==> e == CryptoError::PasswordHash,
{
    let h = run_argon2(password, salt, 64)?;
    let kek = array32(h.as_slice());
    let tail = crate::crypto::tail_from(h.as_slice(), 32);
    let seed = array32(tail.as_slice());
    assert(tail@.take(32) == h@.skip(32));
    Ok((kek, SigningKey { seed }))
}

/// The bytes of a slice from position `from` on.
pub fn tail_from(v: &[u8], from: usize) -> (r: Vec<u8>)
    requires
        from <= v@.len(),
    ensures
        r@ == v@.skip(from as int),
{
    let mut r: Vec<u8> = Vec::new();
    let mut i: usize = from;
    while i < v.len()
        invariant
            from <= i <= v.len(),
            r@ == v@.subrange(from as int, i as int),
        decreases v.len() - i,
    {
        r.push(v[i]);
        i = i + 1;
        assert(r@ == v@.subrange(from as int, i as int));
    }
    r
}

/// The length of a text in UTF-8 bytes (`str::len`).
pub open spec fn utf8_len(s: Seq<char>) -> nat {
    encode_utf8(s).len()
}

/// `str::len` of a string slice, in bytes.
pub fn byte_len(s: &str) -> (n: usize)
    ensures
        n == utf8_len(s@),
{
    let b = s.as_bytes();
    b.len()
}

/// Appends characters to a character vector.
pub fn append_chars(v: &mut Vec<char>, s: &[char])
    ensures
        final(v)@ == old(v)@ + s@,
{
    let ghost v0 = v@;
    let mut i: usize = 0;
    while i < s.len()
        invariant
            i <= s.len(),
            v@ == v0 + s@.take(i as int),
        decreases s.len() - i,
    {
        v.push(s[i]);
        i = i + 1;
        assert(s@.take(i as int) == s@.take((i - 1) as int).push(s@[i - 1]));
    }
    assert(s@.take(s.len() as int) == s@);
}

/// The HKDF `info` text of a scope: `scope_{len(group)}:{group}_{len(tag)}:{tag}`,
/// lengths in UTF-8 bytes.
pub open spec fn scope_info_text(group: Seq<char>, tag: Seq<char>) -> Seq<char> {
    seq!['s', 'c', 'o', 'p', 'e', '_'] + decimal(utf8_len(group)) + seq![':'] + group + seq!['_']
        + decimal(utf8_len(tag)) + seq![':'] + tag
}

/// The HKDF `info` text of an entry: `var_{name}`.
pub open spec fn entry_info_text(name: Seq<char>) -> Seq<char> {
    seq!['v', 'a', 'r', '_'] + name
}

/// The data encryption key of a (group, tag) scope, derived from the master DEK.
pub open spec fn scope_dek(master_dek: Seq<u8>, group: Seq<char>, tag: Seq<char>) -> Seq<u8> {
    hkdf_sha256(master_dek, encode_utf8(scope_info_text(group, tag)))
}

/// The key of one entry, derived from the key of its scope.
pub open spec fn entry_key(scope_dek: Seq<u8>, name: Seq<char>) -> Seq<u8> {
    hkdf_sha256(scope_dek, encode_utf8(entry_info_text(name)))
}

pub fn derive_scope_dek(master_dek: &[u8; 32], group: &str, tag: &str) -> (k: [u8; 32])
    ensures
        k@ == scope_dek(master_dek@, group@, tag@),
{
    let mut t: Vec<char> = vec!['s', 'c', 'o', 'p', 'e', '_'];
    let gl = decimal_chars(byte_len(group));
    append_chars(&mut t, gl.as_slice());
    t.push(':');
    let gc = chars_of(group);
    append_chars(&mut t, gc.as_slice());
    t.push('_');
    let tl = decimal_chars(byte_len(tag));
    append_chars(&mut t, tl.as_slice());
    t.push(':');
    let tc = chars_of(tag);
    append_chars(&mut t, tc.as_slice());
    assert(t@ == scope_info_text(group@, tag@));
    let info = string_from_chars(t.as_slice());
    hkdf_expand(master_dek, info.as_str().as_bytes())
}

pub fn derive_entry_key(scope_dek: &[u8; 32], entry_name: &str) -> (k: [u8; 32])
    ensures
        k@ == entry_key(scope_dek@, entry_name@),
{
    let mut t: Vec<char> = vec!['v', 'a', 'r', '_'];
    let nc = chars_of(entry_name);
    append_chars(&mut t, nc.as_slice());
    assert(t@ == entry_info_text(entry_name@));
    let info = string_from_chars(t.as_slice());
    hkdf_expand(scope_dek, info.as_str().as_bytes())
}

/// Encrypts under a fresh random nonce: the nonce and the ciphertext, which
/// decrypts under the key and nonce to the plaintext.
pub fn encrypt(key: &[u8; 32], plaintext: &[u8]) -> (r: Result<([u8; 12], Vec<u8>), CryptoError>)
    ensures
        r is Ok <==> plaintext@.len() <= AES_GCM_P_MAX,
        r matches Ok((n, c)) ==> c@ == aes256gcm_seal(key@, n@, plaintext@) && aes256gcm_open(
            key@,
            n@,
            c@,
        ) == Some(plaintext@),
        r matches Err(e) ==> e == CryptoError::EncryptionFailed,
{
    let nv = os_random_bytes(12);
    let nonce = array12(nv.as_slice());
    match encrypt_with_nonce(key, &nonce, plaintext) {
        Ok(c) => Ok((nonce, c)),
        Err(e) => Err(e),
    }
}

/// Encrypts under a given nonce: the ciphertext, which decrypts under the
/// key and nonce to the plaintext.
pub fn encrypt_with_nonce(key: &[u8; 32], nonce: &[u8; 12], plaintext: &[u8]) -> (r: Result<Vec<u8>, CryptoError>)
    ensures
        r is Ok <==> plaintext@.len() <= AES_GCM_P_MAX,
        r matches Ok(c) ==> c@ == aes256gcm_seal(key@, nonce@, plaintext@) && aes256gcm_open(
            key@,
            nonce@,
            c@,
        ) == Some(plaintext@),
        r matches Err(e) ==> e == CryptoError::EncryptionFailed,
{
    match aes_gcm_encrypt(key, nonce, plaintext) {
        Ok(c) => Ok(c),
        Err(_) => Err(CryptoError::EncryptionFailed),
    }
}

/// What decrypting gives: an error for a nonce that is not 12 bytes long,
/// the plaintext where the ciphertext authenticates, a decryption error otherwise.
pub open spec fn decrypt_result(key: Seq<u8>, nonce: Seq<u8>, ciphertext: Seq<u8>) -> Result<
    Seq<u8>,
    CryptoError,
> {
    if nonce.len() != 12 {
        Err(CryptoError::InvalidNonceLength)
    } else {
        match aes256gcm_open(key, nonce, ciphertext) {
            Some(p) => Ok(p),
            None => Err(CryptoError::DecryptionFailed),
        }
    }
}

pub fn decrypt(key: &[u8; 32], nonce: &[u8], ciphertext: &[u8]) -> (r: Result<Vec<u8>, CryptoError>)
    ensures
        match (r, decrypt_result(key@, nonce@, ciphertext@)) {
            (Ok(p), Ok(sp)) => p@ == sp,
            (Err(e), Err(se)) => e == se,
            _ => false,
        },
{
    if nonce.len() != 12 {
        return Err(CryptoError::InvalidNonceLength);
    }
    match aes_gcm_decrypt(key, nonce, ciphertext) {
        Ok(p) => Ok(p),
        Err(_) => Err(CryptoError::DecryptionFailed),
    }
}

/// Whether 32 bytes decode as an Ed25519 public key.
pub fn ed25519_key_decodes(pk: &[u8; 32]) -> (b: bool)
    ensures
        b == ed25519_valid_public_key(pk@),
{
    ed25519_decodes(pk)
}

} // verus!
