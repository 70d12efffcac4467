use ed25519_dalek::{SigningKey, Verifier};
use reality_rs::certificate::{
    bind_certificate, certify, make_certificate, replace_signature, sign_handshake,
    CertificateError, SIGNATURE_LEN,
};

const SECRET: [u8; 32] = [
    0x9d, 0x61, 0xb1, 0x9d, 0xef, 0xfd, 0x5a, 0x60, 0xba, 0x84, 0x4a, 0xf4, 0x92, 0xec, 0x2c, 0xc4,
    0x44, 0x49, 0xc5, 0x69, 0x7b, 0x32, 0x69, 0x19, 0x70, 0x3b, 0xac, 0x03, 0x1c, 0xae, 0x7f, 0x60,
];

fn from_hex(text: &str) -> Vec<u8> {
    (0..text.len() / 2).map(|i| u8::from_str_radix(&text[2 * i..2 * i + 2], 16).unwrap()).collect()
}

fn holds(haystack: &[u8], needle: &[u8]) -> bool {
    haystack.windows(needle.len()).any(|window| window == needle)
}

/// The key of `SECRET` as a PKCS#8 document.
fn pkcs8_of_secret() -> Vec<u8> {
    let mut document = from_hex("302e020100300506032b657004220420");
    document.extend(SECRET);
    document
}

#[test]
fn signature_is_replaced_by_the_tag() {
    let mut der = vec![1u8, 2, 3];
    der.extend([9; SIGNATURE_LEN]);
    let replaced = replace_signature(&der, &[7; 64]);
    assert_eq!(replaced[..3], [1, 2, 3]);
    assert_eq!(replaced[3..], [7; 64]);
    assert_eq!(replace_signature(&[9; 64], &[7; 64]), vec![7; 64]);
}

#[test]
fn tag_is_a_mac_of_the_public_key() {
    let tag = from_hex(
        "1524cd5e3417d116d91d3626d4a75acb745bd92cf0bfef2c48e9e3f9ba359d41\
         48dc791558af9f844f2948971b00fd64f3d507b726b15366ec7ab0cfd1aa654a",
    );
    let mut der = vec![1u8, 2, 3];
    der.extend([0; 64]);
    let certificate = bind_certificate(&der, Some(SECRET), &[5; 32]).unwrap();
    assert_eq!(certificate.secret, SECRET);
    assert_eq!(certificate.der[..3], [1, 2, 3]);
    assert_eq!(certificate.der[3..], tag);
    let other = bind_certificate(&der, Some(SECRET), &[6; 32]).unwrap();
    assert_ne!(other.der[3..], tag);
    assert_eq!(bind_certificate(&der, None, &[5; 32]), Err(CertificateError::KeyEncoding));
}

#[test]
fn certificate_of_a_given_key_is_fixed() {
    let certificate = certify("www.example.com", &pkcs8_of_secret(), &[5; 32]).unwrap();
    assert_eq!(certificate.secret, SECRET);
    assert!(holds(&certificate.der, b"www.example.com"));
    let public = SigningKey::from_bytes(&SECRET).verifying_key();
    assert!(holds(&certificate.der, public.as_bytes()));
    let again = certify("www.example.com", &pkcs8_of_secret(), &[5; 32]).unwrap();
    assert_eq!(certificate, again);
    // The client's key has a say in the signature only.
    let other = certify("www.example.com", &pkcs8_of_secret(), &[6; 32]).unwrap();
    let end = certificate.der.len() - SIGNATURE_LEN;
    assert_eq!(certificate.der[..end], other.der[..end]);
    assert_ne!(certificate.der[end..], other.der[end..]);
}

#[test]
fn unfit_names_and_keys_are_refused() {
    assert_eq!(
        certify("ex\u{e4}mple.com", &pkcs8_of_secret(), &[5; 32]),
        Err(CertificateError::Generation)
    );
    assert_eq!(certify("example.com", &[1, 2, 3], &[5; 32]), Err(CertificateError::Generation));
    assert_eq!(make_certificate("\u{20ac}", &[5; 32]), Err(CertificateError::Generation));
}

#[test]
fn fresh_certificates_are_bound_to_their_own_keys() {
    let one = make_certificate("www.example.com", &[5; 32]).unwrap();
    let two = make_certificate("www.example.com", &[5; 32]).unwrap();
    assert_ne!(one.secret, two.secret);
    for certificate in [one, two] {
        assert!(holds(&certificate.der, b"www.example.com"));
        let public = SigningKey::from_bytes(&certificate.secret).verifying_key();
        assert!(holds(&certificate.der, public.as_bytes()));
        let bound = bind_certificate(&certificate.der, Some(certificate.secret), &[5; 32]).unwrap();
        assert_eq!(bound, certificate);
    }
}

#[test]
fn handshake_messages_are_signed() {
    let expected = from_hex(
        "e5564300c360ac729086e2cc806e828a84877f1eb8e5d974d873e065224901555\
         fb8821590a33bacc61e39701cf9b46bd25bf5f0595bbe24655141438e7a100b",
    );
    assert_eq!(sign_handshake(&SECRET, &[]), expected);
    let signature: [u8; 64] = sign_handshake(&SECRET, b"transcript").try_into().unwrap();
    let public = SigningKey::from_bytes(&SECRET).verifying_key();
    let signature = ed25519_dalek::Signature::from_bytes(&signature);
    assert!(public.verify(b"transcript", &signature).is_ok());
    assert!(public.verify(b"something else", &signature).is_err());
}
