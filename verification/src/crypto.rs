//! Hash functions and signature verification.
//!
//! The digests and the signature check are computed by outside crates. Each
//! is reached through one small function whose contract is taken on trust;
//! what the crate builds on top of them is verified.

use vstd::prelude::*;
use sha2::{Digest, Sha256};
use ripemd::Ripemd160;
use secp256k1::{ecdsa::Signature, Message, PublicKey, Secp256k1};

verus! {

/// The SHA-256 digest of a byte string, as `Sha256::digest` of the crate
/// sha2 computes it.
pub uninterp spec fn sha256_digest(data: Seq<u8>) -> Seq<u8>;

/// The RIPEMD-160 digest of a byte string, as `Ripemd160::digest` of the
/// crate ripemd computes it.
pub uninterp spec fn ripemd160_digest(data: Seq<u8>) -> Seq<u8>;

/// Whether `signature`, a DER-encoded ECDSA signature, is one of `digest`
/// under the public key whose encoding is `pubkey`, as `verify_ecdsa` of
/// the crate secp256k1 decides it; `false` where the key or the signature
/// cannot be read.
pub uninterp spec fn ecdsa_signature_valid(pubkey: Seq<u8>, signature: Seq<u8>, digest: Seq<u8>) -> bool;

/// Calls `Sha256::digest` of the crate sha2.
///
/// Trusted: the 32 bytes returned are the SHA-256 digest of `data`, a function
/// of `data` alone.
#[verifier::external_body]
fn sha256_raw(data: &[u8]) -> (h: [u8; 32])
    ensures
        h@ == sha256_digest(data@),
{
    Sha256::digest(data).into()
}

/// Calls `Ripemd160::digest` of the crate ripemd.
///
/// Trusted: the 20 bytes returned are the RIPEMD-160 digest of `data`, a
/// function of `data` alone.
#[verifier::external_body]
fn ripemd160_raw(data: &[u8]) -> (h: [u8; 20])
    ensures
        h@ == ripemd160_digest(data@),
{
    Ripemd160::digest(data).into()
}

/// Calls `Secp256k1::verify_ecdsa` of the crate secp256k1, on the key that
/// `PublicKey::from_slice` reads, the signature that `Signature::from_der`
/// reads and the message that `Message::from_digest` makes of `digest`.
///
/// Trusted: the answer is a function of the three byte strings alone, and it
/// is `false` where the key or the signature is empty (both readers refuse an
/// empty slice). A key or a signature that does not parse gives `false`.
#[verifier::external_body]
fn ecdsa_verify_raw(pubkey: &[u8], signature: &[u8], digest: &[u8; 32]) -> (ok: bool)
    ensures
        ok == ecdsa_signature_valid(pubkey@, signature@, digest@),
        pubkey@.len() == 0 ==> !ok,
        signature@.len() == 0 ==> !ok,
{
    let key = match PublicKey::from_slice(pubkey) {
        Ok(key) => key,
        Err(_) => return false,
    };
    let sig = match Signature::from_der(signature) {
        Ok(sig) => sig,
        Err(_) => return false,
    };
    let message = Message::from_digest(*digest);
    Secp256k1::verification_only().verify_ecdsa(&message, &sig, &key).is_ok()
}

/// SHA-256 applied twice.
pub open spec fn double_sha256_spec(data: Seq<u8>) -> Seq<u8> {
    sha256_digest(sha256_digest(data))
}

/// RIPEMD-160 of SHA-256.
pub open spec fn hash160_spec(data: Seq<u8>) -> Seq<u8> {
    ripemd160_digest(sha256_digest(data))
}

/// The SHA-256 digest of `data`.
pub fn sha256(data: &[u8]) -> (h: [u8; 32])
    ensures
        h@ == sha256_digest(data@),
{
    sha256_raw(data)
}

/// SHA-256 of the SHA-256 digest of `data`.
pub fn double_sha256(data: &[u8]) -> (h: [u8; 32])
    ensures
        h@ == double_sha256_spec(data@),
{
    let first = sha256_raw(data);
    sha256_raw(first.as_slice())
}

/// RIPEMD-160 of the SHA-256 digest of `data`.
pub fn hash160(data: &[u8]) -> (h: [u8; 20])
    ensures
        h@ == hash160_spec(data@),
{
    let first = sha256_raw(data);
    ripemd160_raw(first.as_slice())
}

/// Whether `signature_bytes` is a valid DER-encoded ECDSA signature of
/// `sighash` under the key `pubkey_bytes`. Malformed keys and signatures give
/// `false`. The flags do not change the answer.
pub fn verify_signature(
    pubkey_bytes: &[u8],
    signature_bytes: &[u8],
    sighash: &[u8; 32],
    flags: u32,
) -> (ok: bool)
    ensures
        ok == ecdsa_signature_valid(pubkey_bytes@, signature_bytes@, sighash@),
        pubkey_bytes@.len() == 0 ==> !ok,
        signature_bytes@.len() == 0 ==> !ok,
{
    ecdsa_verify_raw(pubkey_bytes, signature_bytes, sighash)
}

} // verus!
