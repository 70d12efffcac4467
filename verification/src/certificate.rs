//! The temporary certificate that a REALITY server shows to an authenticated
//! client.
//!
//! Its signature is replaced by a tag over the certificate's public key. Only
//! the client, who shares the key of that tag, can tell that the certificate
//! comes from the server.
use crate::crypto::{
    ed25519_pkcs8_secret, ed25519_public, ed25519_public_key, ed25519_secret_from_pkcs8,
    ed25519_sign, ed25519_signature, ed25519_self_signed, hmac_sha512, hmac_sha512_tag,
    random_ed25519_pkcs8, self_sign_ed25519,
};
use vstd::prelude::*;
use vstd::slice::slice_to_vec;
use vstd::utf8::is_ascii_chars;

verus! {

/// The length of an Ed25519 signature, which stands at the end of a
/// certificate.
pub const SIGNATURE_LEN: usize = 64;

/// A certificate and the secret key that belongs to it.
#[derive(Debug, Clone, PartialEq, Eq)]
pub struct Certificate {
    pub der: Vec<u8>,
    pub secret: [u8; 32],
}

#[derive(Debug, Clone, PartialEq, Eq)]
pub enum CertificateError {
    /// No certificate could be made, for one because the name is not fit for it.
    Generation,
    /// The fresh key is not a PKCS#8 document.
    KeyEncoding,
}

/// A certificate whose signature is replaced by `tag`.
pub open spec fn with_signature(der: Seq<u8>, tag: Seq<u8>) -> Seq<u8> {
    der.take(der.len() - SIGNATURE_LEN) + tag
}

/// The tag that takes the place of a signature.
pub open spec fn certificate_tag(auth_key: Seq<u8>, secret: Seq<u8>) -> Seq<u8> {
    hmac_sha512(auth_key, ed25519_public(secret))
}

/// What a [`Certificate`] holds, as mathematical values.
pub struct CertificateView {
    pub der: Seq<u8>,
    pub secret: Seq<u8>,
}

impl View for Certificate {
    type V = CertificateView;

    open spec fn view(&self) -> CertificateView {
        CertificateView { der: self.der@, secret: self.secret@ }
    }
}

/// `result`, with its value replaced by what that holds.
pub open spec fn certificate_result(result: Result<Certificate, CertificateError>) -> Result<
    CertificateView,
    CertificateError,
> {
    match result {
        Ok(certificate) => Ok(certificate@),
        Err(error) => Err(error),
    }
}

/// A certificate bound to an authenticated client, given the certificate as it
/// was made and its secret key, if there is one.
pub open spec fn bound(der: Seq<u8>, secret: Option<Seq<u8>>, auth_key: Seq<u8>) -> Result<
    CertificateView,
    CertificateError,
> {
    match secret {
        None => Err(CertificateError::KeyEncoding),
        Some(secret) => Ok(
            CertificateView {
                der: with_signature(der, certificate_tag(auth_key, secret)),
                secret,
            },
        ),
    }
}

/// The certificate for `name` with the key in a PKCS#8 document, bound to an
/// authenticated client.
pub open spec fn certified(name: Seq<char>, pkcs8: Seq<u8>, auth_key: Seq<u8>) -> Result<
    CertificateView,
    CertificateError,
> {
    match ed25519_self_signed(name, pkcs8) {
        None => Err(CertificateError::Generation),
        Some(der) => bound(der, ed25519_pkcs8_secret(pkcs8), auth_key),
    }
}

/// Whether the last bytes of a certificate are the tag for its key.
pub open spec fn ends_in_tag(certificate: CertificateView, auth_key: Seq<u8>) -> bool {
    &&& certificate.der.len() >= SIGNATURE_LEN
    &&& certificate.der.skip(certificate.der.len() - SIGNATURE_LEN) == certificate_tag(
        auth_key,
        certificate.secret,
    )
}

/// Whether `copy` is `der` up to its last 64 bytes, which are `tag`.
pub open spec fn tagged_copy(der: Seq<u8>, tag: Seq<u8>, copy: Seq<u8>) -> bool {
    &&& der.len() >= 64
    &&& tag.len() == 64
    &&& copy.len() == der.len()
    &&& forall|i: int| 0 <= i < der.len() - 64 ==> #[trigger] copy[i] == der[i]
    &&& copy.skip(der.len() - 64) == tag
}

/// Whether the source of fresh keys came back with an error. No contract says
/// when it does, so that only an error that did come back shows it.
pub closed spec fn key_making_failed() -> bool {
    exists|error: rcgen::Error|
        call_ensures(random_ed25519_pkcs8, (), Err::<Vec<u8>, rcgen::Error>(error))
}

/// Whether a PKCS#8 document came from the source of fresh keys. No contract says
/// which ones do, so that only one that did come back is known to.
pub closed spec fn freshly_made(pkcs8: Vec<u8>) -> bool {
    call_ensures(random_ed25519_pkcs8, (), Ok::<Vec<u8>, rcgen::Error>(pkcs8))
}

/// A certificate is owed for every name and every key that one can be signed
/// with: the signed certificate, with the last 64 bytes replaced by the MAC of
/// its public key under the key shared with the client.
pub proof fn law_certificate_owed(
    name: Seq<char>,
    pkcs8: Seq<u8>,
    auth_key: Seq<u8>,
    der: Seq<u8>,
    secret: Seq<u8>,
)
    requires
        ed25519_self_signed(name, pkcs8) == Some(der),
        ed25519_pkcs8_secret(pkcs8) == Some(secret),
        der.len() >= 64,
        hmac_sha512(auth_key, ed25519_public(secret)).len() == 64,
    ensures
        certified(name, pkcs8, auth_key) matches Ok(certificate) && certificate.secret == secret
            && tagged_copy(
            der,
            hmac_sha512(auth_key, ed25519_public(secret)),
            certificate.der,
        ),
{
    let tag = hmac_sha512(auth_key, ed25519_public(secret));
    assert(with_signature(der, tag).skip(der.len() - 64) =~= tag);
}

/// Two clients that are shown certificates with the same name and key are shown
/// the same bytes up to the signature, and the same ones throughout only where
/// their keys give the same tag.
pub proof fn law_certificates_differ_in_tag(
    name: Seq<char>,
    pkcs8: Seq<u8>,
    one: Seq<u8>,
    other: Seq<u8>,
    first: CertificateView,
    second: CertificateView,
)
    requires
        certified(name, pkcs8, one) == Ok::<CertificateView, CertificateError>(first),
        certified(name, pkcs8, other) == Ok::<CertificateView, CertificateError>(second),
        ed25519_self_signed(name, pkcs8)->0.len() >= 64,
        hmac_sha512(one, ed25519_public(first.secret)).len() == 64,
        hmac_sha512(other, ed25519_public(second.secret)).len() == 64,
    ensures
        first.secret == second.secret,
        first.der.len() == second.der.len(),
        forall|i: int| 0 <= i < first.der.len() - 64 ==> first.der[i] == #[trigger] second.der[i],
        first.der == second.der ==> hmac_sha512(one, ed25519_public(first.secret)) == hmac_sha512(
            other,
            ed25519_public(first.secret),
        ),
{
    let der = ed25519_self_signed(name, pkcs8)->0;
    law_certificate_owed(name, pkcs8, one, der, first.secret);
    law_certificate_owed(name, pkcs8, other, der, second.secret);
}

/// Replaces the signature of a certificate.
pub fn replace_signature(der: &[u8], tag: &[u8; 64]) -> (replaced: Vec<u8>)
    requires
        der@.len() >= SIGNATURE_LEN,
    ensures
        replaced@ == with_signature(der@, tag@),
        replaced@.len() == der@.len(),
        forall|i: int| 0 <= i < der@.len() - 64 ==> replaced@[i] == der@[i],
        forall|i: int| 0 <= i < 64 ==> replaced@[der@.len() - 64 + i] == tag@[i],
{
    let mut replaced: Vec<u8> = slice_to_vec(&der[0..der.len() - SIGNATURE_LEN]);
    replaced.extend_from_slice(tag.as_slice());
    assert(replaced@ =~= with_signature(der@, tag@));
    replaced
}

/// Binds a certificate to an authenticated client, given the certificate and
/// its secret key. It ends in the tag that the client expects of the owner of
/// its key.
pub fn bind_certificate(der: &[u8], secret: Option<[u8; 32]>, auth_key: &[u8; 32]) -> (result:
    Result<Certificate, CertificateError>)
    requires
        der@.len() >= SIGNATURE_LEN,
    ensures
        certificate_result(result) == bound(
            der@,
            match secret {
                Some(secret) => Some(secret@),
                None => None,
            },
            auth_key@,
        ),
        result matches Ok(certificate) ==> ends_in_tag(certificate@, auth_key@),
        result is Ok <==> secret is Some,
        result matches Ok(certificate) ==> secret == Some(certificate.secret) && tagged_copy(
            der@,
            hmac_sha512(auth_key@, ed25519_public(certificate.secret@)),
            certificate.der@,
        ),
{
    let secret: [u8; 32] = match secret {
        Some(secret) => secret,
        None => return Err(CertificateError::KeyEncoding),
    };
    let public: [u8; 32] = ed25519_public_key(&secret);
    let tag: [u8; 64] = hmac_sha512_tag(auth_key, public.as_slice());
    let certificate = Certificate { der: replace_signature(der, &tag), secret };
    assert(certificate.der@.skip(certificate.der@.len() - SIGNATURE_LEN) =~= tag@);
    Ok(certificate)
}

/// Makes the certificate for `name` with the key in a PKCS#8 document, bound to
/// an authenticated client.
pub fn certify(name: &str, pkcs8: &[u8], auth_key: &[u8; 32]) -> (result: Result<
    Certificate,
    CertificateError,
>)
    ensures
        certificate_result(result) == certified(name@, pkcs8@, auth_key@),
        result matches Ok(certificate) ==> ends_in_tag(certificate@, auth_key@),
        !is_ascii_chars(name@) ==> result == Err::<Certificate, CertificateError>(
            CertificateError::Generation,
        ),
        result is Ok <==> ed25519_self_signed(name@, pkcs8@) is Some && ed25519_pkcs8_secret(
            pkcs8@,
        ) is Some,
        result matches Ok(certificate) ==> ed25519_pkcs8_secret(pkcs8@) == Some(
            certificate.secret@,
        ) && tagged_copy(
            ed25519_self_signed(name@, pkcs8@)->0,
            hmac_sha512(auth_key@, ed25519_public(certificate.secret@)),
            certificate.der@,
        ),
{
    match self_sign_ed25519(name, pkcs8) {
        Ok(der) => {
            let secret: Option<[u8; 32]> = match ed25519_secret_from_pkcs8(pkcs8) {
                Ok(secret) => Some(secret),
                Err(_) => None,
            };
            bind_certificate(der.as_slice(), secret, auth_key)
        },
        Err(_) => Err(CertificateError::Generation),
    }
}

/// Makes a certificate for `name` with a fresh key, bound to an authenticated
/// client. No certificate is made for a name that is not ASCII; for any other,
/// generation fails only where no key could be made. A key that was made is
/// always read back.
pub fn make_certificate(name: &str, auth_key: &[u8; 32]) -> (result: Result<
    Certificate,
    CertificateError,
>)
    ensures
        result matches Ok(certificate) ==> exists|pkcs8: Seq<u8>| #[trigger]
            certified(name@, pkcs8, auth_key@) == Ok::<CertificateView, CertificateError>(
                certificate@,
            ),
        result matches Ok(certificate) ==> ends_in_tag(certificate@, auth_key@),
        result matches Ok(certificate) ==> exists|pkcs8: Vec<u8>| #[trigger]
            freshly_made(pkcs8) && certified(name@, pkcs8@, auth_key@) == Ok::<
                CertificateView,
                CertificateError,
            >(certificate@),
        result matches Err(error) ==> error == CertificateError::Generation,
        result is Err && is_ascii_chars(name@) ==> key_making_failed(),
        !is_ascii_chars(name@) ==> result == Err::<Certificate, CertificateError>(
            CertificateError::Generation,
        ),
{
    match random_ed25519_pkcs8() {
        Ok(pkcs8) => {
            assert(freshly_made(pkcs8));
            certify(name, pkcs8.as_slice(), auth_key)
        },
        Err(_) => Err(CertificateError::Generation),
    }
}

/// Signs a handshake message with the key of a certificate.
///
/// REALITY's temporary certificate is Ed25519 even when uTLS fingerprints omit
/// ED25519 from their advertised signature schemes. Xray's REALITY server
/// follows this rule.
pub fn sign_handshake(secret: &[u8; 32], message: &[u8]) -> (signature: Vec<u8>)
    ensures
        signature@ == ed25519_signature(secret@, message@),
        signature@.len() == SIGNATURE_LEN,
{
    let signature: [u8; 64] = ed25519_sign(secret, message);
    slice_to_vec(signature.as_slice())
}

} // verus!
