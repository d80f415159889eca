//! The cryptographic primitives that the library takes from outside crates:
//! base64 decoding, SHA-256 and RSA PKCS#1 v1.5 signature checking.
use base64::engine::general_purpose::STANDARD as BASE64;
use base64::Engine;
use rsa::pkcs8::DecodePublicKey;
use rsa::{Pkcs1v15Sign, RsaPublicKey};
use sha2::{Digest, Sha256};
use vstd::prelude::*;

verus! {

/// What the standard base64 engine (padding required) decodes from the given
/// input: the bytes, or the text of its `DecodeError`.
pub uninterp spec fn base64_decode(input: Seq<u8>) -> Result<Seq<u8>, Seq<char>>;

/// Calls `base64::engine::general_purpose::STANDARD.decode`; its result
/// (bytes, or the error's text) is named by `base64_decode`.
#[verifier::external_body]
pub(crate) fn base64_decode_standard(input: &[u8]) -> (r: Result<Vec<u8>, String>)
    ensures
        match r {
            Ok(v) => base64_decode(input@) == Ok::<Seq<u8>, Seq<char>>(v@),
            Err(e) => base64_decode(input@) == Err::<Seq<u8>, Seq<char>>(e@),
        },
{
    match BASE64.decode(input) {
        Ok(v) => Ok(v),
        Err(e) => Err(e.to_string()),
    }
}

/// The SHA-256 digest of the given bytes.
pub uninterp spec fn sha256(data: Seq<u8>) -> Seq<u8>;

/// Calls `sha2::Sha256::digest`: the digest, named by `sha256`, 32 bytes long.
#[verifier::external_body]
pub(crate) fn sha256_digest(data: &[u8]) -> (r: Vec<u8>)
    ensures
        r@ == sha256(data@),
        r@.len() == 32,
{
    Sha256::digest(data).to_vec()
}

/// Whether `RsaPublicKey::from_public_key_der` accepts the given DER bytes
/// (a SubjectPublicKeyInfo): `Ok`, or the text of its error.
pub uninterp spec fn rsa_public_key_der(der: Seq<u8>) -> Result<(), Seq<char>>;

/// Calls `RsaPublicKey::from_public_key_der` and keeps only whether it
/// succeeded (or the error's text), named by `rsa_public_key_der`.
#[verifier::external_body]
pub(crate) fn check_rsa_public_key_der(der: &[u8]) -> (r: Result<(), String>)
    ensures
        match r {
            Ok(()) => rsa_public_key_der(der@) == Ok::<(), Seq<char>>(()),
            Err(e) => rsa_public_key_der(der@) == Err::<(), Seq<char>>(e@),
        },
{
    match RsaPublicKey::from_public_key_der(der) {
        Ok(_) => Ok(()),
        Err(e) => Err(e.to_string()),
    }
}

/// What `RsaPublicKey::verify` with `Pkcs1v15Sign::new::<Sha256>()` answers
/// for the key with the given DER encoding, a digest and a signature: `Ok`,
/// or the text of its error.
pub uninterp spec fn rsa_pkcs1v15_sha256_verify(
    der: Seq<u8>,
    hashed: Seq<u8>,
    signature: Seq<u8>,
) -> Result<(), Seq<char>>;

/// Rebuilds the key from its DER bytes and calls `RsaPublicKey::verify` with
/// PKCS#1 v1.5 padding for SHA-256; the answer is named by
/// `rsa_pkcs1v15_sha256_verify`.
#[verifier::external_body]
pub(crate) fn rsa_verify_pkcs1v15_sha256(der: &[u8], hashed: &[u8], signature: &[u8]) -> (r: Result<
    (),
    String,
>)
    requires
        rsa_public_key_der(der@) is Ok,
    ensures
        match r {
            Ok(()) => rsa_pkcs1v15_sha256_verify(der@, hashed@, signature@) == Ok::<
                (),
                Seq<char>,
            >(()),
            Err(e) => rsa_pkcs1v15_sha256_verify(der@, hashed@, signature@) == Err::<
                (),
                Seq<char>,
            >(e@),
        },
{
    match RsaPublicKey::from_public_key_der(der) {
        Ok(key) => match key.verify(Pkcs1v15Sign::new::<Sha256>(), hashed, signature) {
            Ok(()) => Ok(()),
            Err(e) => Err(e.to_string()),
        },
        Err(e) => Err(e.to_string()),
    }
}

} // verus!
