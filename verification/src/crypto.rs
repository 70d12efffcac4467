//! The cryptographic operations that REALITY builds on.
//!
//! Each one is computed by an outside crate. Its result carries a name, a spec
//! function without a body, and the contracts below say of the names only what
//! those crates show.
use aes_gcm::aead::AeadInPlace;
use aes_gcm::{Aes256Gcm, KeyInit, Nonce};
use base64::engine::general_purpose::URL_SAFE_NO_PAD;
use base64::Engine;
use ed25519_dalek::pkcs8::DecodePrivateKey;
use ed25519_dalek::Signer;
use hkdf::Hkdf;
use hmac::{Hmac, Mac};
use rcgen::{CertificateParams, KeyPair, PKCS_ED25519};
use sha2::{Sha256, Sha512};
use vstd::prelude::*;
use vstd::utf8::is_ascii_chars;
use x25519_dalek::{PublicKey, StaticSecret};

verus! {

/// The error of AES-GCM; opaque.
#[verifier::external_type_specification]
#[verifier::external_body]
pub struct ExAeadError(aes_gcm::Error);

/// The error of HKDF for an output that is too long; opaque.
#[verifier::external_type_specification]
#[verifier::external_body]
pub struct ExInvalidLength(hkdf::InvalidLength);

/// The error of base64 decoding; opaque.
#[verifier::external_type_specification]
#[verifier::external_body]
pub struct ExDecodeError(base64::DecodeError);

/// The error of UUID parsing; opaque.
#[verifier::external_type_specification]
#[verifier::external_body]
pub struct ExUuidError(uuid::Error);

/// The error of PKCS#8 decoding; opaque.
#[verifier::external_type_specification]
#[verifier::external_body]
pub struct ExPkcs8Error(ed25519_dalek::pkcs8::Error);

/// The error of certificate generation; opaque.
#[verifier::external_type_specification]
#[verifier::external_body]
pub struct ExRcgenError(rcgen::Error);

/// The X25519 public key that belongs to a secret key.
pub uninterp spec fn x25519_public(secret: Seq<u8>) -> Seq<u8>;

/// The X25519 shared secret of a secret key and a peer's public key.
pub uninterp spec fn x25519_shared(secret: Seq<u8>, peer: Seq<u8>) -> Seq<u8>;

/// Thirty-two bytes of HKDF-SHA256 output.
pub uninterp spec fn hkdf_sha256(salt: Seq<u8>, ikm: Seq<u8>, info: Seq<u8>) -> Seq<u8>;

/// AES-256-GCM decryption: the plaintext, or `None` where the input is not
/// authentic.
pub uninterp spec fn aes256_gcm_open(
    key: Seq<u8>,
    nonce: Seq<u8>,
    aad: Seq<u8>,
    sealed: Seq<u8>,
) -> Option<Seq<u8>>;

/// AES-256-GCM encryption: the ciphertext with its tag behind it, or `None`
/// where an input is too long.
pub uninterp spec fn aes256_gcm_seal(
    key: Seq<u8>,
    nonce: Seq<u8>,
    aad: Seq<u8>,
    plain: Seq<u8>,
) -> Option<Seq<u8>>;

/// HMAC-SHA512.
pub uninterp spec fn hmac_sha512(key: Seq<u8>, message: Seq<u8>) -> Seq<u8>;

/// URL-safe base64 without padding.
pub uninterp spec fn base64_url_encode(bytes: Seq<u8>) -> Seq<char>;

/// The bytes behind URL-safe base64 without padding, or `None` where the text
/// is something else.
pub uninterp spec fn base64_url_decode(text: Seq<char>) -> Option<Seq<u8>>;

/// The bytes of a UUID in one of its text forms, or `None` where the text is
/// something else.
pub uninterp spec fn uuid_bytes(text: Seq<char>) -> Option<Seq<u8>>;

/// The Ed25519 secret key in a PKCS#8 document, or `None` where there is none.
pub uninterp spec fn ed25519_pkcs8_secret(der: Seq<u8>) -> Option<Seq<u8>>;

/// The Ed25519 public key that belongs to a secret key.
pub uninterp spec fn ed25519_public(secret: Seq<u8>) -> Seq<u8>;

/// The Ed25519 signature of a message.
pub uninterp spec fn ed25519_signature(secret: Seq<u8>, message: Seq<u8>) -> Seq<u8>;

/// The certificate for `name` that the Ed25519 key in a PKCS#8 document signs for
/// itself, or `None` where the name or the document is not fit for it.
pub uninterp spec fn ed25519_self_signed(name: Seq<char>, pkcs8: Seq<u8>) -> Option<Seq<u8>>;

/// The bytes in a result, if it is a success.
pub open spec fn success<B: View<V = Seq<u8>>, E>(result: Result<B, E>) -> Option<Seq<u8>> {
    match result {
        Ok(bytes) => Some(bytes@),
        Err(_) => None,
    }
}

/// Calls `x25519_dalek::StaticSecret::random_from_rng` with the system's random
/// source. Any 32 bytes may come out.
#[verifier::external_body]
pub(crate) fn random_x25519_secret() -> (secret: [u8; 32]) {
    StaticSecret::random_from_rng(rand_core::OsRng).to_bytes()
}

/// Calls `x25519_dalek::PublicKey::from` on a `StaticSecret`.
#[verifier::external_body]
pub(crate) fn x25519_public_key(secret: &[u8; 32]) -> (public: [u8; 32])
    ensures
        public@ == x25519_public(secret@),
{
    PublicKey::from(&StaticSecret::from(*secret)).to_bytes()
}

/// Calls `x25519_dalek::StaticSecret::diffie_hellman`. A peer whose public key
/// belongs to a secret key computes the same shared secret from the other side.
#[verifier::external_body]
pub(crate) fn x25519_diffie_hellman(secret: &[u8; 32], peer: &[u8; 32]) -> (shared: [u8; 32])
    ensures
        shared@ == x25519_shared(secret@, peer@),
        forall|peer_secret: Seq<u8>|
            peer_secret.len() == 32 && peer@ == #[trigger] x25519_public(peer_secret) ==> shared@
                == x25519_shared(peer_secret, x25519_public(secret@)),
{
    StaticSecret::from(*secret).diffie_hellman(&PublicKey::from(*peer)).to_bytes()
}

/// Calls `hkdf::Hkdf::<Sha256>::new` and `expand`. Thirty-two bytes are one hash
/// output, far below the length that `expand` refuses, so it succeeds.
#[verifier::external_body]
pub(crate) fn hkdf_sha256_expand(salt: &[u8], ikm: &[u8], info: &[u8]) -> (result: Result<
    [u8; 32],
    hkdf::InvalidLength,
>)
    ensures
        result is Ok,
        result matches Ok(okm) ==> okm@ == hkdf_sha256(salt@, ikm@, info@),
{
    let mut okm = [0u8; 32];
    Hkdf::<Sha256>::new(Some(salt), ikm).expand(info, &mut okm)?;
    Ok(okm)
}

/// Calls `aes_gcm::Aes256Gcm::decrypt_in_place`. It checks and strips a 16-byte
/// tag and undoes encryption: it returns a plaintext exactly where encrypting
/// that plaintext gives the input.
#[verifier::external_body]
pub(crate) fn aes256_gcm_decrypt(
    key: &[u8; 32],
    nonce: &[u8],
    aad: &[u8],
    sealed: &[u8],
) -> (result: Result<Vec<u8>, aes_gcm::Error>)
    requires
        nonce@.len() == 12,
        sealed@.len() <= 0x1_0000_0000,
    ensures
        success(result) == aes256_gcm_open(key@, nonce@, aad@, sealed@),
        result matches Ok(plain) ==> plain@.len() + 16 == sealed@.len(),
        result matches Ok(plain) ==> aes256_gcm_seal(key@, nonce@, aad@, plain@) == Some(sealed@),
        forall|plain: Seq<u8>| #[trigger]
            aes256_gcm_seal(key@, nonce@, aad@, plain) == Some(sealed@) ==> success(result) == Some(
                plain,
            ),
{
    let mut value = sealed.to_vec();
    Aes256Gcm::new(key.into()).decrypt_in_place(Nonce::from_slice(nonce), aad, &mut value)?;
    Ok(value)
}

/// Calls `hmac::Hmac::<Sha512>::new_from_slice`, `update` and `finalize`. HMAC
/// takes a key of any length, so a key of 32 bytes is never refused.
#[verifier::external_body]
pub(crate) fn hmac_sha512_tag(key: &[u8; 32], message: &[u8]) -> (tag: [u8; 64])
    ensures
        tag@ == hmac_sha512(key@, message@),
{
    let mut mac = <Hmac<Sha512> as Mac>::new_from_slice(key).unwrap();
    mac.update(message);
    mac.finalize().into_bytes().into()
}

/// Calls `base64`'s `URL_SAFE_NO_PAD.encode`. Decoding gives the bytes back.
#[verifier::external_body]
pub(crate) fn encode_base64_url(bytes: &[u8; 32]) -> (text: String)
    ensures
        text@ == base64_url_encode(bytes@),
        base64_url_decode(text@) == Some(bytes@),
{
    URL_SAFE_NO_PAD.encode(bytes)
}

/// Calls `base64`'s `URL_SAFE_NO_PAD.decode`.
#[verifier::external_body]
pub(crate) fn decode_base64_url(text: &str) -> (result: Result<Vec<u8>, base64::DecodeError>)
    ensures
        success(result) == base64_url_decode(text@),
{
    URL_SAFE_NO_PAD.decode(text)
}

/// Calls `uuid::Uuid::parse_str`.
#[verifier::external_body]
pub(crate) fn parse_uuid(text: &str) -> (result: Result<[u8; 16], uuid::Error>)
    ensures
        success(result) == uuid_bytes(text@),
{
    Ok(uuid::Uuid::parse_str(text)?.into_bytes())
}

/// Calls `ed25519_dalek::SigningKey::from_pkcs8_der`.
#[verifier::external_body]
pub(crate) fn ed25519_secret_from_pkcs8(der: &[u8]) -> (result: Result<
    [u8; 32],
    ed25519_dalek::pkcs8::Error,
>)
    ensures
        success(result) == ed25519_pkcs8_secret(der@),
{
    Ok(ed25519_dalek::SigningKey::from_pkcs8_der(der)?.to_bytes())
}

/// Calls `ed25519_dalek::SigningKey::verifying_key`.
#[verifier::external_body]
pub(crate) fn ed25519_public_key(secret: &[u8; 32]) -> (public: [u8; 32])
    ensures
        public@ == ed25519_public(secret@),
{
    ed25519_dalek::SigningKey::from_bytes(secret).verifying_key().to_bytes()
}

/// Calls `ed25519_dalek::SigningKey::sign`. Ed25519 signs without randomness.
#[verifier::external_body]
pub(crate) fn ed25519_sign(secret: &[u8; 32], message: &[u8]) -> (signature: [u8; 64])
    ensures
        signature@ == ed25519_signature(secret@, message@),
{
    ed25519_dalek::SigningKey::from_bytes(secret).sign(message).to_bytes()
}

/// Calls `rcgen::KeyPair::generate_for` for Ed25519 and hands out its PKCS#8
/// document. The key depends on chance, and so does success. A key that was made
/// signs a certificate for every ASCII name, and its document, which is ring's
/// PKCS#8 version 2 form with the public key behind the secret one, is read by
/// `ed25519_dalek::SigningKey::from_pkcs8_der`.
#[verifier::external_body]
pub(crate) fn random_ed25519_pkcs8() -> (result: Result<Vec<u8>, rcgen::Error>)
    ensures
        result matches Ok(pkcs8) ==> forall|name: Seq<char>|
            is_ascii_chars(name) ==> #[trigger] ed25519_self_signed(name, pkcs8@) is Some,
        result matches Ok(pkcs8) ==> ed25519_pkcs8_secret(pkcs8@) is Some,
{
    Ok(KeyPair::generate_for(&PKCS_ED25519)?.serialize_der())
}

/// Calls `rcgen::KeyPair::from_pkcs8_der_and_sign_algo` for Ed25519, and
/// `rcgen::CertificateParams::new` and `self_signed` with that key. Dates and
/// serial number are fixed by the arguments, and Ed25519 signs without
/// randomness. A name that is not ASCII is refused. A certificate holds its
/// 64-byte signature, so it is at least as long.
#[verifier::external_body]
pub(crate) fn self_sign_ed25519(name: &str, pkcs8: &[u8]) -> (result: Result<Vec<u8>, rcgen::Error>)
    ensures
        success(result) == ed25519_self_signed(name@, pkcs8@),
        !is_ascii_chars(name@) ==> result is Err,
        result matches Ok(der) ==> der@.len() >= 64,
{
    let key_pair = KeyPair::from_pkcs8_der_and_sign_algo(&pkcs8.into(), &PKCS_ED25519)?;
    let cert = CertificateParams::new(vec![name.to_owned()])?.self_signed(&key_pair)?;
    Ok(cert.der().to_vec())
}

} // verus!
