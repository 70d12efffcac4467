use aes_gcm::aead::{Aead, KeyInit, Payload};
use aes_gcm::{Aes256Gcm, Nonce};
use hkdf::Hkdf;
use rand_core::OsRng;
use reality_rs::reality::{
    authenticate_client_hello, decrypt_session_id_with_aad, derive_session_key, pad_plaintext,
    validate_plaintext, AuthenticatedClient, AuthenticationError, ServerConfig, REALITY_LABEL,
    SESSION_ID_LEN,
};
use sha2::Sha256;
use x25519_dalek::{PublicKey, StaticSecret};

const SHORT_ID: [u8; 8] = [0xab; 8];
const NOW: u32 = 1_700_000_000;

fn server_config() -> ServerConfig {
    ServerConfig {
        private_key: [1; 32],
        server_names: vec!["example.com".to_owned(), "example.org".to_owned()],
        short_ids: vec![[0; 8], SHORT_ID],
        min_client_version: None,
        max_client_version: None,
        max_time_diff_secs: 60,
    }
}

fn layout(version: [u8; 3], reserved: u8, time: u32, short_id: [u8; 8]) -> [u8; 16] {
    let mut plain = [0u8; 16];
    plain[..3].copy_from_slice(&version);
    plain[3] = reserved;
    plain[4..8].copy_from_slice(&time.to_be_bytes());
    plain[8..].copy_from_slice(&short_id);
    plain
}

fn padded_layout(version: [u8; 3], time: u32, short_id: [u8; 8]) -> [u8; SESSION_ID_LEN] {
    let mut padded = [0u8; SESSION_ID_LEN];
    padded[..16].copy_from_slice(&layout(version, 0, time, short_id));
    padded
}

/// Seals as a client does, with the server's public key only.
fn seal(
    client: &StaticSecret,
    server_public: &PublicKey,
    random: &[u8; 32],
    aad: &[u8],
    plain: &[u8],
) -> Vec<u8> {
    let shared = client.diffie_hellman(server_public);
    let hk = Hkdf::<Sha256>::new(Some(&random[..20]), shared.as_bytes());
    let mut key = [0u8; 32];
    hk.expand(b"REALITY", &mut key).unwrap();
    Aes256Gcm::new_from_slice(&key)
        .unwrap()
        .encrypt(Nonce::from_slice(&random[20..]), Payload { msg: plain, aad })
        .unwrap()
}

#[test]
fn accepts_an_xray_layout_session_id() {
    let server = StaticSecret::random_from_rng(OsRng);
    let client = StaticSecret::random_from_rng(OsRng);
    let client_public = PublicKey::from(&client);
    let random = [3u8; 32];
    let aad = b"client-hello-with-cleared-session-id";
    let short_id = [0xab; 8];
    let mut plain = [0u8; 16];
    plain[..3].copy_from_slice(&[1, 2, 3]);
    plain[4..8].copy_from_slice(&1_700_000_000u32.to_be_bytes());
    plain[8..].copy_from_slice(&short_id);
    let shared = client.diffie_hellman(&PublicKey::from(&server));
    let hk = Hkdf::<Sha256>::new(Some(&random[..20]), shared.as_bytes());
    let mut key = [0u8; 32];
    hk.expand(&REALITY_LABEL, &mut key).unwrap();
    let encrypted = Aes256Gcm::new_from_slice(&key)
        .unwrap()
        .encrypt(Nonce::from_slice(&random[20..]), Payload { msg: &plain, aad })
        .unwrap();
    let config = ServerConfig {
        private_key: server.to_bytes(),
        server_names: ["example.com".to_owned()].into_iter().collect(),
        short_ids: [short_id].into_iter().collect(),
        min_client_version: None,
        max_client_version: None,
        max_time_diff_secs: 60,
    };
    let authenticated = authenticate_client_hello(
        &config,
        "example.com",
        &random,
        Some(client_public.to_bytes()),
        &encrypted,
        aad,
        1_700_000_000,
    )
    .unwrap();
    assert_eq!(authenticated.version, [1, 2, 3]);
    assert_eq!(authenticated.short_id, short_id);
}

#[test]
fn each_obstacle_has_its_error() {
    let config = server_config();
    let server_public = PublicKey::from(&StaticSecret::from(config.private_key));
    let client = StaticSecret::from([2; 32]);
    let peer = PublicKey::from(&client).to_bytes();
    let random = [9u8; 32];
    let aad = b"hello";
    let sealed = seal(&client, &server_public, &random, aad, &layout([1, 8, 0], 0, NOW, SHORT_ID));
    let run = |name: &str, peer: Option<[u8; 32]>, sealed: &[u8], aad: &[u8]| {
        authenticate_client_hello(&config, name, &random, peer, sealed, aad, u64::from(NOW))
    };
    assert_eq!(
        run("example.org", Some(peer), &sealed, aad),
        Ok(AuthenticatedClient { version: [1, 8, 0], unix_time: NOW, short_id: SHORT_ID })
    );
    assert_eq!(run("example.net", Some(peer), &sealed, aad), Err(AuthenticationError::ServerName));
    assert_eq!(run("Example.com", Some(peer), &sealed, aad), Err(AuthenticationError::ServerName));
    assert_eq!(
        run("example.com", None, &sealed, aad),
        Err(AuthenticationError::MissingX25519KeyShare)
    );
    assert_eq!(
        run("example.com", Some(peer), &sealed[..31], aad),
        Err(AuthenticationError::InvalidSessionId)
    );
    assert_eq!(run("example.com", Some(peer), &[], aad), Err(AuthenticationError::InvalidSessionId));
    assert_eq!(run("example.com", Some([8; 32]), &sealed, aad), Err(AuthenticationError::Crypto));
    assert_eq!(run("example.com", Some(peer), &sealed, b"other"), Err(AuthenticationError::Crypto));
    let mut tampered = sealed.clone();
    tampered[0] ^= 1;
    assert_eq!(run("example.com", Some(peer), &tampered, aad), Err(AuthenticationError::Crypto));
    // The name is looked at before the key share, the key share before the session ID.
    assert_eq!(run("example.net", None, &[], aad), Err(AuthenticationError::ServerName));
    assert_eq!(run("example.com", None, &[], aad), Err(AuthenticationError::MissingX25519KeyShare));
}

#[test]
fn session_key_is_the_same_on_both_sides() {
    let mut server = [0u8; 32];
    let mut client = [0u8; 32];
    for i in 0..32u8 {
        server[usize::from(i)] = i + 1;
        client[usize::from(i)] = i + 33;
    }
    let server_public = PublicKey::from(&StaticSecret::from(server)).to_bytes();
    let client_public = PublicKey::from(&StaticSecret::from(client)).to_bytes();
    let expected = [
        0xf1, 0xba, 0xe6, 0x7a, 0x03, 0x6c, 0x1f, 0x6e, 0x1c, 0x77, 0xab, 0x37, 0x5a, 0xfb, 0x59,
        0x07, 0xba, 0x7d, 0x93, 0xb6, 0xb4, 0xae, 0xbc, 0xa3, 0xc7, 0xa6, 0x9e, 0xf4, 0xcd, 0x1b,
        0x49, 0x87,
    ];
    assert_eq!(derive_session_key(&server, &client_public, &[3; 32]), Ok(expected));
    assert_eq!(derive_session_key(&client, &server_public, &[3; 32]), Ok(expected));
    // Only the first twenty bytes of the random are the salt.
    let mut random = [3u8; 32];
    random[20] = 4;
    assert_eq!(derive_session_key(&server, &client_public, &random), Ok(expected));
    random[19] = 4;
    assert_ne!(derive_session_key(&server, &client_public, &random), Ok(expected));
}

#[test]
fn decryption_undoes_sealing() {
    let key = [6u8; 32];
    let mut random = [0u8; 32];
    random[20..].copy_from_slice(&[5; 12]);
    let plain = layout([1, 2, 3], 4, 5, [6; 8]);
    let sealed = Aes256Gcm::new_from_slice(&key)
        .unwrap()
        .encrypt(Nonce::from_slice(&[5; 12]), Payload { msg: &plain, aad: b"aad" })
        .unwrap();
    assert_eq!(sealed.len(), SESSION_ID_LEN);
    let opened = decrypt_session_id_with_aad(&key, &random, &sealed, b"aad").unwrap();
    assert_eq!(opened[..16], plain);
    assert_eq!(opened[16..], [0; 16]);
    assert_eq!(
        decrypt_session_id_with_aad(&key, &random, &sealed, b""),
        Err(AuthenticationError::Crypto)
    );
    assert_eq!(
        decrypt_session_id_with_aad(&[7; 32], &random, &sealed, b"aad"),
        Err(AuthenticationError::Crypto)
    );
    assert_eq!(
        decrypt_session_id_with_aad(&key, &[0; 32], &sealed, b"aad"),
        Err(AuthenticationError::Crypto)
    );
    assert_eq!(
        decrypt_session_id_with_aad(&key, &random, &sealed[1..], b"aad"),
        Err(AuthenticationError::InvalidSessionId)
    );
}

#[test]
fn opened_session_ids_are_padded_with_zeros() {
    let mut expected = [0u8; SESSION_ID_LEN];
    expected[..16].copy_from_slice(&[7; 16]);
    assert_eq!(pad_plaintext(Some(vec![7; 16])), Ok(expected));
    assert_eq!(pad_plaintext(None), Err(AuthenticationError::Crypto));
    assert_eq!(pad_plaintext(Some(vec![7; 15])), Err(AuthenticationError::InvalidSessionId));
    assert_eq!(pad_plaintext(Some(vec![7; 17])), Err(AuthenticationError::InvalidSessionId));
    assert_eq!(pad_plaintext(Some(vec![])), Err(AuthenticationError::InvalidSessionId));
}

#[test]
fn plaintext_layout_is_read_back() {
    let config = server_config();
    let plain = padded_layout([26, 5, 9], NOW, SHORT_ID);
    assert_eq!(
        validate_plaintext(&config, &plain, u64::from(NOW)),
        Ok(AuthenticatedClient { version: [26, 5, 9], unix_time: NOW, short_id: SHORT_ID })
    );
}

#[test]
fn reserved_byte_and_padding_have_no_say() {
    let config = server_config();
    let plain = padded_layout([1, 2, 3], NOW, SHORT_ID);
    let mut changed = plain;
    changed[3] = 0xff;
    changed[16..].copy_from_slice(&[0xff; 16]);
    assert_eq!(
        validate_plaintext(&config, &plain, u64::from(NOW)),
        validate_plaintext(&config, &changed, u64::from(NOW))
    );
}

#[test]
fn versions_are_bounded_number_by_number() {
    let mut config = server_config();
    config.min_client_version = Some([1, 8, 0]);
    config.max_client_version = Some([2, 0, 5]);
    let run = |version: [u8; 3]| {
        validate_plaintext(&config, &padded_layout(version, NOW, SHORT_ID), u64::from(NOW)).is_ok()
    };
    assert!(run([1, 8, 0]));
    assert!(run([1, 8, 1]));
    assert!(run([1, 255, 255]));
    assert!(run([2, 0, 5]));
    assert!(!run([1, 7, 255]));
    assert!(!run([0, 255, 255]));
    assert!(!run([2, 0, 6]));
    assert!(!run([2, 1, 0]));
    assert!(!run([255, 0, 0]));
    assert_eq!(
        validate_plaintext(&config, &padded_layout([0, 0, 0], 0, [9; 8]), u64::from(NOW)),
        Err(AuthenticationError::Version)
    );
}

#[test]
fn clocks_may_differ_by_the_configured_time() {
    let config = server_config();
    let now = u64::from(NOW);
    let run = |time: u32| {
        validate_plaintext(&config, &padded_layout([1, 2, 3], time, SHORT_ID), now)
            .map(|client| client.unix_time)
    };
    assert_eq!(run(NOW - 60), Ok(NOW - 60));
    assert_eq!(run(NOW + 60), Ok(NOW + 60));
    assert_eq!(run(NOW - 61), Err(AuthenticationError::ClockSkew));
    assert_eq!(run(NOW + 61), Err(AuthenticationError::ClockSkew));
    assert_eq!(
        validate_plaintext(&config, &padded_layout([1, 2, 3], u32::MAX, SHORT_ID), 0),
        Err(AuthenticationError::ClockSkew)
    );
    assert_eq!(
        validate_plaintext(&config, &padded_layout([1, 2, 3], 0, [9; 8]), u64::MAX),
        Err(AuthenticationError::ClockSkew)
    );
}

#[test]
fn zero_disables_the_clock_check() {
    let mut config = server_config();
    config.max_time_diff_secs = 0;
    let plain = padded_layout([1, 2, 3], NOW, SHORT_ID);
    assert!(validate_plaintext(&config, &plain, 0).is_ok());
    assert!(validate_plaintext(&config, &plain, u64::MAX).is_ok());
}

#[test]
fn short_id_must_be_configured() {
    let config = server_config();
    let run = |short_id: [u8; 8]| {
        validate_plaintext(&config, &padded_layout([1, 2, 3], NOW, short_id), u64::from(NOW))
            .map(|client| client.short_id)
    };
    assert_eq!(run([0; 8]), Ok([0; 8]));
    assert_eq!(run(SHORT_ID), Ok(SHORT_ID));
    assert_eq!(run([0xab, 0xab, 0xab, 0xab, 0xab, 0xab, 0xab, 0]), Err(AuthenticationError::ShortId));
}
