//! Key derivation, nonces, and the authenticated cipher.
use crate::error::ArchiveError;
use crate::layout;
use crate::layout::to_be_bytes;
use crate::layout::NONCE_SIZE;
use crate::layout::SALT_SIZE;
use aes_gcm::aead::Aead;
use aes_gcm::aead::Payload;
use aes_gcm::KeyInit;
use rand::RngCore;
use vstd::prelude::*;
use zeroize::Zeroize;

verus! {

/// Length of a derived key in bytes.
pub const KEY_SIZE: usize = 32;

/// Length of the authentication tag at the end of a ciphertext in bytes.
pub const TAG_SIZE: usize = 16;

/// Memory that the key derivation fills, in KiB.
pub const ARGON2_MEMORY_KIB: u32 = 65536;

/// Passes that the key derivation makes over that memory.
pub const ARGON2_PASSES: u32 = 3;

/// Lanes into which the key derivation divides that memory.
pub const ARGON2_LANES: u32 = 4;

// ---------------------------------------------------------------------------------------
// Outside functions
// ---------------------------------------------------------------------------------------

/// The error of the `argon2` crate.
#[verifier::external_type_specification]
#[verifier::external_body]
pub struct ExArgon2Error(argon2::Error);

/// The error of the `aes-gcm` crate, which says nothing of its cause.
#[verifier::external_type_specification]
#[verifier::external_body]
pub struct ExAeadError(aes_gcm::Error);

/// The 32 bytes that Argon2id, version 1.3, makes of a password and a salt at the given
/// costs.
pub uninterp spec fn argon2id_hash(
    password: Seq<u8>,
    salt: Seq<u8>,
    m_cost: u32,
    t_cost: u32,
    p_cost: u32,
) -> Seq<u8>;

/// The ciphertext, tag at its end, that AES-256-GCM makes of a message.
pub uninterp spec fn aes256gcm_sealed(
    key: Seq<u8>,
    nonce: Seq<u8>,
    aad: Seq<u8>,
    message: Seq<u8>,
) -> Seq<u8>;

/// The message that AES-256-GCM finds in a ciphertext with its tag, if it authenticates.
pub uninterp spec fn aes256gcm_opened(
    key: Seq<u8>,
    nonce: Seq<u8>,
    aad: Seq<u8>,
    ciphertext: Seq<u8>,
) -> Option<Seq<u8>>;

/// The lengths that AES-256-GCM encrypts: message and associated data of up to 64 GiB each.
pub open spec fn sealable(aad: Seq<u8>, message: Seq<u8>) -> bool {
    aad.len() <= 0x10_0000_0000 && message.len() <= 0x10_0000_0000
}

/// Calls `argon2::Argon2::hash_password_into` for Argon2id, version 1.3, with a 32 byte
/// output. Claimed: the costs that `Params::new` accepts, a salt of 8 to 2^32 - 1 bytes and
/// a password of up to 2^32 - 1 bytes give a key, which the arguments alone determine; all
/// else gives an error.
#[verifier::external_body]
fn argon2id(password: &[u8], salt: &[u8], m_cost: u32, t_cost: u32, p_cost: u32) -> (res: Result<
    [u8; KEY_SIZE],
    argon2::Error,
>)
    requires
        m_cost * 1024 <= isize::MAX,
        p_cost <= 0xFF_FFFF,
    ensures
        res is Ok <==> {
            &&& 8 <= m_cost
            &&& 8 * p_cost <= m_cost
            &&& 1 <= t_cost
            &&& 1 <= p_cost
            &&& 8 <= salt@.len() <= 0xFFFF_FFFF
            &&& password@.len() <= 0xFFFF_FFFF
        },
        res matches Ok(key) ==> key@ == argon2id_hash(password@, salt@, m_cost, t_cost, p_cost),
{
    let params = argon2::Params::new(m_cost, t_cost, p_cost, Some(KEY_SIZE))?;
    let mut key = [0u8; KEY_SIZE];
    argon2::Argon2::new(argon2::Algorithm::Argon2id, argon2::Version::V0x13, params)
        .hash_password_into(password, salt, &mut key)?;
    Ok(key)
}

/// Calls `aes_gcm::Aes256Gcm::encrypt`. Claimed: it succeeds exactly on lengths within its
/// limits; the ciphertext, which the arguments alone determine, is 16 bytes longer than the
/// message, and decrypts to it under the same key, nonce and associated data.
#[verifier::external_body]
fn aes256gcm_encrypt(
    key: &[u8; KEY_SIZE],
    nonce: &[u8; NONCE_SIZE],
    aad: &[u8],
    message: &[u8],
) -> (res: Result<Vec<u8>, aes_gcm::Error>)
    requires
        message@.len() + TAG_SIZE <= isize::MAX,
    ensures
        res is Ok <==> sealable(aad@, message@),
        res matches Ok(ciphertext) ==> {
            &&& ciphertext@ == aes256gcm_sealed(key@, nonce@, aad@, message@)
            &&& ciphertext@.len() == message@.len() + TAG_SIZE
            &&& aes256gcm_opened(key@, nonce@, aad@, ciphertext@) == Some(message@)
        },
{
    aes_gcm::Aes256Gcm::new(key.into()).encrypt(nonce.into(), Payload { msg: message, aad })
}

/// Calls `aes_gcm::Aes256Gcm::decrypt`. Claimed: the arguments alone determine whether the
/// ciphertext authenticates, and the message, which is 16 bytes shorter than the ciphertext.
/// That a forged ciphertext does not authenticate is a matter of chance, and not claimed.
#[verifier::external_body]
fn aes256gcm_decrypt(
    key: &[u8; KEY_SIZE],
    nonce: &[u8; NONCE_SIZE],
    aad: &[u8],
    ciphertext: &[u8],
) -> (res: Result<Vec<u8>, aes_gcm::Error>)
    ensures
        match res {
            Ok(message) => {
                &&& aes256gcm_opened(key@, nonce@, aad@, ciphertext@) == Some(message@)
                &&& message@.len() + TAG_SIZE == ciphertext@.len()
            },
            Err(_) => aes256gcm_opened(key@, nonce@, aad@, ciphertext@) is None,
        },
{
    aes_gcm::Aes256Gcm::new(key.into()).decrypt(nonce.into(), Payload { msg: ciphertext, aad })
}

/// Calls `rand::thread_rng` and its `fill_bytes`. Nothing is claimed of the bytes. The call
/// panics where the generator of the system fails.
#[verifier::external_body]
pub(crate) fn random_array<const N: usize>() -> (bytes: [u8; N]) {
    let mut bytes = [0u8; N];
    rand::thread_rng().fill_bytes(&mut bytes);
    bytes
}

/// Calls `zeroize::Zeroize::zeroize`. Claimed: every byte is zero afterwards.
#[verifier::external_body]
pub(crate) fn wipe(key: &mut [u8; KEY_SIZE])
    ensures
        final(key)@ == Seq::new(KEY_SIZE as nat, |i: int| 0u8),
{
    key.zeroize();
}

// ---------------------------------------------------------------------------------------
// Keys and nonces
// ---------------------------------------------------------------------------------------

/// The key of a password and a salt, if the password is not too long for one.
pub open spec fn derived_key(password: Seq<char>, salt: Seq<u8>) -> Option<Seq<u8>> {
    if vstd::utf8::encode_utf8(password).len() <= 0xFFFF_FFFF {
        Some(
            argon2id_hash(
                vstd::utf8::encode_utf8(password),
                salt,
                ARGON2_MEMORY_KIB,
                ARGON2_PASSES,
                ARGON2_LANES,
            ),
        )
    } else {
        None
    }
}

/// A new salt, and the key that a password gives with it.
pub struct FreshKey {
    pub salt: [u8; SALT_SIZE],
    pub key: [u8; KEY_SIZE],
}

/// The nonce of the chunk with number `counter`: the base nonce, its last four bytes XORed
/// with the counter.
pub open spec fn chunk_nonce(base_nonce: Seq<u8>, counter: u32) -> Seq<u8> {
    Seq::new(
        NONCE_SIZE as nat,
        |i: int|
            if i < 8 {
                base_nonce[i]
            } else {
                base_nonce[i] ^ layout::be_bytes(counter)[i - 8]
            },
    )
}

/// The random source gave this nonce.
pub closed spec fn drawn_nonce(nonce: [u8; NONCE_SIZE]) -> bool {
    call_ensures(random_array::<NONCE_SIZE>, (), nonce)
}

/// The random source gave this salt.
pub closed spec fn drawn_salt(salt: [u8; SALT_SIZE]) -> bool {
    call_ensures(random_array::<SALT_SIZE>, (), salt)
}

/// A nonce counts as drawn if it came from a call of the random source, and in no other way.
pub(crate) proof fn lemma_drawn_nonce(nonce: [u8; NONCE_SIZE])
    ensures
        drawn_nonce(nonce) == call_ensures(random_array::<NONCE_SIZE>, (), nonce),
{
}

/// The salt of a new key came from a call of the random source, and the key is Argon2id of all
/// bytes of the password and that salt.
pub(crate) proof fn lemma_fresh_key_has_a_drawn_salt(password: &str, fresh: FreshKey)
    requires
        call_ensures(fresh_key, (password,), Ok(fresh)),
    ensures
        call_ensures(random_array::<SALT_SIZE>, (), fresh.salt),
        fresh.key@ == argon2id_hash(
            vstd::utf8::encode_utf8(password@),
            fresh.salt@,
            65536,
            3,
            4,
        ),
{
}

/// A fresh nonce.
pub(crate) fn random_nonce() -> (nonce: [u8; NONCE_SIZE])
    ensures
        drawn_nonce(nonce),
{
    random_array::<NONCE_SIZE>()
}

/// The nonce of a final seal, made of a fresh one. If that begins as the base nonce does, as
/// the nonces of all chunks do, another first byte sets it apart from them.
pub(crate) fn set_apart(fresh: [u8; NONCE_SIZE], base_nonce: &[u8; NONCE_SIZE]) -> (nonce: [u8;
    NONCE_SIZE])
    ensures
        if fresh@.take(8) == base_nonce@.take(8) {
            nonce@ == fresh@.update(0, fresh@[0] ^ 1)
        } else {
            nonce@ == fresh@
        },
        nonce@.take(8) != base_nonce@.take(8),
{
    let mut i: usize = 0;
    while i < 8
        invariant
            i <= 8,
            forall|j: int| 0 <= j < i ==> fresh@[j] == base_nonce@[j],
        decreases 8 - i,
    {
        if fresh[i] != base_nonce[i] {
            assert(fresh@.take(8)[i as int] != base_nonce@.take(8)[i as int]);
            return fresh;
        }
        i = i + 1;
    }
    assert(fresh@.take(8) =~= base_nonce@.take(8));
    let mut nonce: [u8; NONCE_SIZE] = fresh;
    let first: u8 = fresh[0];
    nonce[0] = first ^ 1;
    assert(first ^ 1 != first) by (bit_vector);
    assert(nonce@.take(8)[0] != base_nonce@.take(8)[0]);
    nonce
}

/// Derives the key of a password and a salt.
pub fn derive_key(password: &str, salt: &[u8; SALT_SIZE]) -> (res: Result<
    [u8; KEY_SIZE],
    ArchiveError,
>)
    ensures
        match derived_key(password@, salt@) {
            Some(key) => res matches Ok(k) && k@ == key,
            None => res == Err::<[u8; KEY_SIZE], ArchiveError>(ArchiveError::KeyDerivation),
        },
        if vstd::utf8::encode_utf8(password@).len() <= 0xFFFF_FFFF {
            res matches Ok(k) && k@ == argon2id_hash(
                vstd::utf8::encode_utf8(password@),
                salt@,
                65536,
                3,
                4,
            )
        } else {
            res == Err::<[u8; KEY_SIZE], ArchiveError>(ArchiveError::KeyDerivation)
        },
{
    match argon2id(
        password.as_bytes(),
        salt.as_slice(),
        ARGON2_MEMORY_KIB,
        ARGON2_PASSES,
        ARGON2_LANES,
    ) {
        Ok(key) => Ok(key),
        Err(_) => Err(ArchiveError::KeyDerivation),
    }
}

/// Draws a salt and derives the key of the password and that salt. It fails on a password
/// of more than 2^32 - 1 bytes, whatever the salt.
pub fn fresh_key(password: &str) -> (res: Result<FreshKey, ArchiveError>)
    ensures
        match res {
            Ok(fresh) => derived_key(password@, fresh.salt@) == Some(fresh.key@) && drawn_salt(
                fresh.salt,
            ),
            Err(error) => error == ArchiveError::KeyDerivation && vstd::utf8::encode_utf8(password@).len()
                > 0xFFFF_FFFF,
        },
{
    let salt: [u8; SALT_SIZE] = random_array::<SALT_SIZE>();
    match derive_key(password, &salt) {
        Ok(key) => Ok(FreshKey { salt, key }),
        Err(error) => Err(error),
    }
}

impl FreshKey {
    /// Overwrites the key with zeros.
    pub fn forget(&mut self)
        ensures
            final(self).key@ == Seq::new(KEY_SIZE as nat, |i: int| 0u8),
            final(self).salt == old(self).salt,
    {
        wipe(&mut self.key);
    }
}

/// The nonce of the chunk with number `counter`.
pub fn nonce_for_chunk(base_nonce: &[u8; NONCE_SIZE], counter: u32) -> (nonce: [u8; NONCE_SIZE])
    ensures
        nonce@ == chunk_nonce(base_nonce@, counter),
{
    let mut nonce: [u8; NONCE_SIZE] = *base_nonce;
    let ctr: [u8; 4] = to_be_bytes(counter);
    nonce[8] = nonce[8] ^ ctr[0];
    nonce[9] = nonce[9] ^ ctr[1];
    nonce[10] = nonce[10] ^ ctr[2];
    nonce[11] = nonce[11] ^ ctr[3];
    assert(nonce@ =~= chunk_nonce(base_nonce@, counter));
    nonce
}

// ---------------------------------------------------------------------------------------
// Chunks
// ---------------------------------------------------------------------------------------

/// Encrypts and authenticates `plaintext`, and authenticates `aad` with it.
pub fn encrypt_chunk(
    key: &[u8; KEY_SIZE],
    nonce: &[u8; NONCE_SIZE],
    aad: &[u8],
    plaintext: &[u8],
) -> (res: Result<Vec<u8>, ArchiveError>)
    requires
        plaintext@.len() + TAG_SIZE <= isize::MAX,
    ensures
        match res {
            Ok(ciphertext) => {
                &&& sealable(aad@, plaintext@)
                &&& ciphertext@ == aes256gcm_sealed(key@, nonce@, aad@, plaintext@)
                &&& ciphertext@.len() == plaintext@.len() + TAG_SIZE
                &&& aes256gcm_opened(key@, nonce@, aad@, ciphertext@) == Some(plaintext@)
            },
            Err(error) => !sealable(aad@, plaintext@) && error == ArchiveError::Encryption,
        },
{
    match aes256gcm_encrypt(key, nonce, aad, plaintext) {
        Ok(ciphertext) => Ok(ciphertext),
        Err(_) => Err(ArchiveError::Encryption),
    }
}

/// Decrypts `ciphertext`, if it and `aad` authenticate.
pub fn decrypt_chunk(
    key: &[u8; KEY_SIZE],
    nonce: &[u8; NONCE_SIZE],
    aad: &[u8],
    ciphertext: &[u8],
) -> (res: Result<Vec<u8>, ArchiveError>)
    ensures
        match aes256gcm_opened(key@, nonce@, aad@, ciphertext@) {
            Some(plaintext) => res matches Ok(p) && p@ == plaintext && p@.len() + TAG_SIZE
                == ciphertext@.len(),
            None => res == Err::<Vec<u8>, ArchiveError>(ArchiveError::Decryption),
        },
{
    match aes256gcm_decrypt(key, nonce, aad, ciphertext) {
        Ok(plaintext) => Ok(plaintext),
        Err(_) => Err(ArchiveError::Decryption),
    }
}

} // verus!
