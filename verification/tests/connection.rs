use aes_gcm::aead::{Aead, KeyInit, Payload};
use aes_gcm::{Aes256Gcm, Nonce};
use reality_rs::connection::{
    authentication_key, conclude, decide, find_client, first_record_len, Admission, Handshake,
    Rejection,
};
use reality_rs::reality::{derive_session_key, AuthenticatedClient, ServerConfig};
use reality_rs::tls_client_hello::{
    parse_record, ParseError, CLIENT_HELLO, MLKEM768_ENCAPSULATION_KEY_LEN, TLS13,
    TLS_HANDSHAKE_RECORD, X25519, X25519_MLKEM768,
};
use x25519_dalek::{PublicKey, StaticSecret};

const SERVER: [u8; 32] = [1; 32];
const CLIENT: [u8; 32] = [2; 32];
const RANDOM: [u8; 32] = [9; 32];
const SHORT_ID: [u8; 8] = [0xab; 8];
const NOW: u32 = 1_700_000_000;

fn config_for_tests() -> ServerConfig {
    ServerConfig {
        private_key: SERVER,
        server_names: vec!["example.com".to_owned()],
        short_ids: vec![SHORT_ID],
        min_client_version: None,
        max_client_version: None,
        max_time_diff_secs: 60,
    }
}

fn public_of(secret: [u8; 32]) -> [u8; 32] {
    PublicKey::from(&StaticSecret::from(secret)).to_bytes()
}

fn with_len16(data: &[u8]) -> Vec<u8> {
    let mut bytes = (data.len() as u16).to_be_bytes().to_vec();
    bytes.extend(data);
    bytes
}

fn with_tag(tag: u16, data: &[u8]) -> Vec<u8> {
    let mut bytes = tag.to_be_bytes().to_vec();
    bytes.extend(with_len16(data));
    bytes
}

fn hello_message(name: &[u8], shares: &[Vec<u8>], session_id: &[u8]) -> Vec<u8> {
    let mut entry = vec![0];
    entry.extend(with_len16(name));
    let mut versions = vec![2];
    versions.extend(TLS13.to_be_bytes());
    let extensions = [
        with_tag(0, &with_len16(&entry)),
        with_tag(43, &versions),
        with_tag(51, &with_len16(&shares.concat())),
    ]
    .concat();
    let mut body = vec![3, 3];
    body.extend(RANDOM);
    body.push(session_id.len() as u8);
    body.extend(session_id);
    body.extend(with_len16(&[0x13, 0x01]));
    body.extend([1, 0]);
    body.extend(with_len16(&extensions));
    let mut raw = vec![CLIENT_HELLO];
    raw.extend(&(body.len() as u32).to_be_bytes()[1..]);
    raw.extend(body);
    raw
}

fn record_of(raw: &[u8]) -> Vec<u8> {
    let mut record = vec![TLS_HANDSHAKE_RECORD, 3, 1];
    record.extend(with_len16(raw));
    record
}

/// The first record of a client that follows the protocol.
fn sealed_record(name: &[u8], shares: &[Vec<u8>], time: u32, short_id: [u8; 8]) -> Vec<u8> {
    let mut plain = vec![26, 5, 9, 0];
    plain.extend(time.to_be_bytes());
    plain.extend(short_id);
    let key = derive_session_key(&CLIENT, &public_of(SERVER), &RANDOM).unwrap();
    let aad = hello_message(name, shares, &[0; 32]);
    let sealed = Aes256Gcm::new_from_slice(&key)
        .unwrap()
        .encrypt(Nonce::from_slice(&RANDOM[20..]), Payload { msg: &plain, aad: &aad })
        .unwrap();
    record_of(&hello_message(name, shares, &sealed))
}

fn plain_share() -> Vec<u8> {
    with_tag(X25519, &public_of(CLIENT))
}

fn hybrid_share() -> Vec<u8> {
    let mut share = vec![4; MLKEM768_ENCAPSULATION_KEY_LEN];
    share.extend(public_of(CLIENT));
    with_tag(X25519_MLKEM768, &share)
}

#[test]
fn the_length_of_a_record_is_in_its_header() {
    assert_eq!(first_record_len(&[22, 3, 1, 0, 0]), 5);
    assert_eq!(first_record_len(&[22, 3, 1, 1, 2]), 5 + 258);
    assert_eq!(first_record_len(&[22, 3, 1, 0xff, 0xff]), 5 + 65535);
}

#[test]
fn a_client_that_follows_the_protocol_is_accepted() {
    let foreign = with_tag(X25519, &[5; 32]);
    for shares in [
        vec![plain_share()],
        vec![hybrid_share()],
        vec![with_tag(0x0a0a, &[0]), foreign, hybrid_share(), plain_share()],
    ] {
        for name in [&b"example.com"[..], &b"EXAMPLE.com"[..]] {
            let record = sealed_record(name, &shares, NOW + 60, SHORT_ID);
            let decision = decide(&config_for_tests(), record.clone(), u64::from(NOW));
            let handshake = Handshake {
                server_name: "example.com".to_owned(),
                client: AuthenticatedClient {
                    version: [26, 5, 9],
                    unix_time: NOW + 60,
                    short_id: SHORT_ID,
                },
                key_share: public_of(CLIENT),
                auth_key: derive_session_key(&CLIENT, &public_of(SERVER), &RANDOM).unwrap(),
            };
            assert_eq!(decision, Admission::Accepted { record, handshake });
        }
    }
}

#[test]
fn everybody_else_goes_to_the_fallback_server() {
    let shares = [plain_share(), hybrid_share()];
    let refused = |record: Vec<u8>, shares: usize| {
        let decision = decide(&config_for_tests(), record.clone(), u64::from(NOW));
        let rejection = Rejection::Authentication(shares);
        assert_eq!(decision, Admission::Fallback { record, rejection });
    };
    refused(sealed_record(b"example.org", &shares, NOW, SHORT_ID), 2);
    refused(sealed_record(b"example.com", &shares, NOW + 61, SHORT_ID), 2);
    refused(sealed_record(b"example.com", &shares, NOW, [0; 8]), 2);
    refused(sealed_record(b"example.com", &[with_tag(X25519, &[5; 32])], NOW, SHORT_ID), 1);
    refused(sealed_record(b"example.com", &[], NOW, SHORT_ID), 0);
    refused(record_of(&hello_message(b"example.com", &shares, &[7; 32])), 2);
    refused(record_of(&hello_message(b"example.com", &shares, &[])), 2);
    // The sealed session ID is bound to the rest of the message.
    let mut changed = sealed_record(b"example.com", &shares, NOW, SHORT_ID);
    changed[10] ^= 1;
    refused(changed, 2);
}

#[test]
fn what_is_no_hello_goes_to_the_fallback_server_unchanged() {
    let record = b"GET / HTTP/1.1\r\n\r\n".to_vec();
    assert_eq!(
        decide(&config_for_tests(), record.clone(), u64::from(NOW)),
        Admission::Fallback { record, rejection: Rejection::ClientHello(ParseError::InvalidRecord) }
    );
    assert_eq!(
        decide(&config_for_tests(), vec![], u64::from(NOW)),
        Admission::Fallback {
            record: vec![],
            rejection: Rejection::ClientHello(ParseError::Truncated)
        }
    );
}

#[test]
fn the_first_share_that_authenticates_is_taken() {
    let config = config_for_tests();
    let shares = [with_tag(X25519, &[5; 32]), plain_share(), hybrid_share()];
    let record = sealed_record(b"example.com", &shares, NOW, SHORT_ID);
    let hello = parse_record(&record).unwrap();
    let (client, share) = find_client(&config, &hello, u64::from(NOW)).unwrap();
    assert_eq!(client.short_id, SHORT_ID);
    assert_eq!(share, public_of(CLIENT));
    assert_eq!(find_client(&config, &hello, u64::from(NOW) + 61), None);
    assert_eq!(
        authentication_key(&SERVER, &hello, &share),
        derive_session_key(&CLIENT, &public_of(SERVER), &RANDOM)
    );
}

#[test]
fn the_outcome_of_authentication_decides() {
    let record = sealed_record(b"example.com", &[plain_share(), hybrid_share()], NOW, SHORT_ID);
    let hello = parse_record(&record).unwrap();
    assert_eq!(
        conclude(record.clone(), hello.clone(), None),
        Admission::Fallback {
            record: record.clone(),
            rejection: Rejection::Authentication(2)
        }
    );
    let client = AuthenticatedClient { version: [1, 2, 3], unix_time: 4, short_id: [5; 8] };
    assert_eq!(
        conclude(record.clone(), hello, Some((client, [6; 32], [7; 32]))),
        Admission::Accepted {
            record,
            handshake: Handshake {
                server_name: "example.com".to_owned(),
                client,
                key_share: [6; 32],
                auth_key: [7; 32],
            }
        }
    );
}
