//! The cryptographic primitives the library is built on.
//!
//! Each function here hands its arguments to an outside crate and is believed,
//! not proved. What a primitive computes is given a name (a spec function
//! without a body); the rest of the library states its contracts over those
//! names.

use aes_gcm::aead::consts::U12;
use aes_gcm::aead::generic_array::GenericArray;
use aes_gcm::aead::Aead;
use aes_gcm::aead::KeyInit;
use aes_gcm::aes::Aes256;
use aes_gcm::AesGcm;
use ed25519_dalek::Signer;
use ed25519_dalek::Verifier;
use rand::Rng;
use sha2::Digest;
use vstd::prelude::*;

verus! {

/// Length of the nonce of the authenticated cipher.
pub const IV_SIZE: usize = 12;

/// Length of the authentication tag that sealing appends.
pub const TAG_SIZE: usize = 12;

/// Longest plaintext that [`aead_seal`] takes.
pub const MAX_PLAINTEXT: usize = 65536;

/// The SHA-256 digest of `input`.
pub uninterp spec fn sha256_digest(input: Seq<u8>) -> Seq<u8>;

/// The Keccak-256 digest of `input`.
pub uninterp spec fn keccak256_digest(input: Seq<u8>) -> Seq<u8>;

/// Whether `signature` is an Ed25519 signature over `message` that verifies
/// under `pubkey`.
pub uninterp spec fn ed25519_accepts(pubkey: Seq<u8>, message: Seq<u8>, signature: Seq<u8>) -> bool;

/// The X25519 function of RFC 7748: `scalar` times the point with
/// u-coordinate `point`.
pub uninterp spec fn x25519_mul(scalar: Seq<u8>, point: Seq<u8>) -> Seq<u8>;

/// What sealing `plaintext` under `key` and `nonce` gives: the encrypted
/// bytes followed by the tag.
pub uninterp spec fn aead_sealed(key: Seq<u8>, nonce: Seq<u8>, plaintext: Seq<u8>) -> Seq<u8>;

/// What opening `sealed` under `key` and `nonce` gives: the plaintext, or
/// `None` where the tag does not match.
pub uninterp spec fn aead_opened(key: Seq<u8>, nonce: Seq<u8>, sealed: Seq<u8>) -> Option<Seq<u8>>;

/// What the standard base64 alphabet, with padding, makes of `bytes`.
pub uninterp spec fn base64_text(bytes: Seq<u8>) -> Seq<char>;

/// The bytes that `text` stands for in standard base64, or `None` where it
/// is not valid base64.
pub uninterp spec fn base64_bytes(text: Seq<char>) -> Option<Seq<u8>>;

/// The u-coordinate of the X25519 base point.
pub open spec fn x25519_basepoint() -> Seq<u8> {
    Seq::new(32, |i: int| if i == 0 { 9u8 } else { 0u8 })
}

/// Calls `sha2::Sha256` (`new`, `input`, `result`). Believed: the result is
/// the SHA-256 digest of `input`, a function of `input` alone.
#[verifier::external_body]
pub(crate) fn sha256(input: &[u8]) -> (out: [u8; 32])
    ensures
        out@ == sha256_digest(input@),
{
    let mut hasher = sha2::Sha256::new();
    hasher.input(input);
    let digest = hasher.result();
    let mut out = [0u8; 32];
    out.copy_from_slice(&digest);
    out
}

/// Calls `tiny_keccak::Keccak` (`new_keccak256`, `update`, `finalize`).
/// Believed: the result is the Keccak-256 digest of `input`, a function of
/// `input` alone.
#[verifier::external_body]
pub(crate) fn keccak256(input: &[u8]) -> (out: [u8; 32])
    ensures
        out@ == keccak256_digest(input@),
{
    let mut keccak = tiny_keccak::Keccak::new_keccak256();
    let mut out = [0u8; 32];
    keccak.update(input);
    keccak.finalize(&mut out);
    out
}

/// Calls `ed25519_dalek::PublicKey::from_bytes`, `Signature::from_bytes` and
/// `Verifier::verify`. Believed: whether all three succeed is a function of
/// the three byte strings alone. Nothing is claimed about which signatures
/// are accepted.
#[verifier::external_body]
pub(crate) fn ed25519_verify(pubkey: &[u8; 32], message: &[u8], signature: &[u8; 64]) -> (ok: bool)
    ensures
        ok == ed25519_accepts(pubkey@, message@, signature@),
{
    let key = match ed25519_dalek::PublicKey::from_bytes(pubkey) {
        Ok(key) => key,
        Err(_) => return false,
    };
    let sig = match ed25519_dalek::Signature::from_bytes(signature) {
        Ok(sig) => sig,
        Err(_) => return false,
    };
    key.verify(message, &sig).is_ok()
}

/// Calls `x25519_dalek::x25519`. Believed: the result is the X25519
/// function of the two arguments. Applied to the base point it gives the
/// public key of `scalar`, and a shared secret does not depend on which side
/// computes it: any other scalar applied to this public key gives what
/// `scalar` gives applied to that scalar's public key.
#[verifier::external_body]
pub(crate) fn x25519(scalar: &[u8; 32], point: &[u8; 32]) -> (out: [u8; 32])
    ensures
        out@ == x25519_mul(scalar@, point@),
        point@ == x25519_basepoint() ==> forall|other: Seq<u8>|
            other.len() == 32 ==> #[trigger] x25519_mul(other, out@) == x25519_mul(
                scalar@,
                x25519_mul(other, x25519_basepoint()),
            ),
{
    x25519_dalek::x25519(*scalar, *point)
}

/// Calls `Aead::encrypt` of AES-256-GCM with a 12-byte nonce and a 12-byte
/// tag, without associated data. Believed: the result is a function of the
/// three arguments, is `TAG_SIZE` bytes longer than the plaintext, and opens
/// to the plaintext under the same key and nonce.
#[verifier::external_body]
pub(crate) fn aead_seal(key: &[u8; 32], nonce: &[u8; IV_SIZE], plaintext: &[u8]) -> (out: Vec<u8>)
    requires
        plaintext@.len() <= MAX_PLAINTEXT,
    ensures
        out@ == aead_sealed(key@, nonce@, plaintext@),
        out@.len() == plaintext@.len() + TAG_SIZE,
        aead_opened(key@, nonce@, out@) == Some(plaintext@),
{
    let cipher = AesGcm::<Aes256, U12, U12>::new(GenericArray::from_slice(key));
    let nonce = GenericArray::from_slice(nonce);
    match cipher.encrypt(nonce, plaintext) {
        Ok(sealed) => sealed,
        Err(_) => Vec::new(),
    }
}

/// Calls `Aead::decrypt` of the same cipher. Believed: the result is a
/// function of the three arguments, and a plaintext that comes out is
/// `TAG_SIZE` bytes shorter than what went in.
#[verifier::external_body]
pub(crate) fn aead_open(key: &[u8; 32], nonce: &[u8; IV_SIZE], sealed: &[u8]) -> (out: Option<
    Vec<u8>,
>)
    ensures
        (match out {
            Some(plaintext) => aead_opened(key@, nonce@, sealed@) == Some(plaintext@)
                && plaintext@.len() + TAG_SIZE == sealed@.len(),
            None => aead_opened(key@, nonce@, sealed@).is_none(),
        }),
{
    let cipher = AesGcm::<Aes256, U12, U12>::new(GenericArray::from_slice(key));
    let nonce = GenericArray::from_slice(nonce);
    match cipher.decrypt(nonce, sealed) {
        Ok(plaintext) => Some(plaintext),
        Err(_) => None,
    }
}

/// Calls `rand::thread_rng` and `Rng::gen`. The bytes are random: nothing is
/// claimed of them.
#[verifier::external_body]
pub(crate) fn random_secret() -> (out: [u8; 32]) {
    rand::thread_rng().gen::<[u8; 32]>()
}

/// Calls `ed25519_dalek::Keypair::generate` with `rand::thread_rng` and
/// `Signer::sign`. Returns the signature of a fresh key pair over
/// `challenge`, and its public key. The key pair is random: nothing is
/// claimed of what comes out.
#[verifier::external_body]
pub(crate) fn ed25519_sign_with_fresh_key(challenge: &[u8; 32]) -> (out: ([u8; 64], [u8; 32])) {
    let keypair = ed25519_dalek::Keypair::generate(&mut rand::thread_rng());
    let signature = keypair.sign(challenge);
    (signature.to_bytes(), keypair.public.to_bytes())
}

/// Calls `parity_scale_codec::Encode::encode` on a `u64`. Believed: the
/// result is the eight bytes of `value`, least significant first.
#[verifier::external_body]
pub(crate) fn scale_encode_u64(value: u64) -> (out: Vec<u8>)
    ensures
        out@ == vstd::bytes::spec_u64_to_le_bytes(value),
{
    parity_scale_codec::Encode::encode(&value)
}

/// Calls `parity_scale_codec::Decode::decode` for a `u64` on a byte slice.
/// Believed: it fails exactly where fewer than eight bytes are given, and
/// otherwise reads the first eight, least significant first.
#[verifier::external_body]
pub(crate) fn scale_decode_u64(bytes: &[u8]) -> (out: Option<u64>)
    ensures
        out.is_some() <==> bytes@.len() >= 8,
        out matches Some(value) ==> value == vstd::bytes::spec_u64_from_le_bytes(
            bytes@.subrange(0, 8),
        ),
{
    let mut input = bytes;
    match <u64 as parity_scale_codec::Decode>::decode(&mut input) {
        Ok(value) => Some(value),
        Err(_) => None,
    }
}

/// Calls `base64::encode`. Believed: the result is a function of `bytes`
/// alone, and decodes to `bytes`.
#[verifier::external_body]
pub(crate) fn base64_encode(bytes: &[u8]) -> (out: String)
    ensures
        out@ == base64_text(bytes@),
        base64_bytes(out@) == Some(bytes@),
{
    base64::encode(bytes)
}

/// Calls `base64::decode`. Believed: the result is a function of `text`
/// alone.
#[verifier::external_body]
pub(crate) fn base64_decode(text: &str) -> (out: Option<Vec<u8>>)
    ensures
        (match out {
            Some(bytes) => base64_bytes(text@) == Some(bytes@),
            None => base64_bytes(text@).is_none(),
        }),
{
    match base64::decode(text) {
        Ok(bytes) => Some(bytes),
        Err(_) => None,
    }
}

} // verus!
