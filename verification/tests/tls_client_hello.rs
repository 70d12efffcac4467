use reality_rs::tls_client_hello::{
    parse_handshake, parse_record, ClientHello, ParseError, CLIENT_HELLO,
    MLKEM768_ENCAPSULATION_KEY_LEN, TLS13, TLS_HANDSHAKE_RECORD, X25519, X25519_MLKEM768,
};

#[test]
fn parses_tls13_x25519_hello_and_clears_session_id_for_aad() {
    let mut body = vec![0x03, 0x03];
    body.extend([9; 32]);
    body.push(32);
    body.extend([7; 32]);
    body.extend(2u16.to_be_bytes());
    body.extend(0x1301u16.to_be_bytes());
    body.extend([1, 0]);
    let mut ext = vec![];
    ext.extend(0u16.to_be_bytes());
    ext.extend(16u16.to_be_bytes());
    ext.extend(14u16.to_be_bytes());
    ext.push(0);
    ext.extend(11u16.to_be_bytes());
    ext.extend(b"example.com");
    ext.extend(43u16.to_be_bytes());
    ext.extend(3u16.to_be_bytes());
    ext.extend([2, 0x03, 0x04]);
    ext.extend(51u16.to_be_bytes());
    ext.extend(38u16.to_be_bytes());
    ext.extend(36u16.to_be_bytes());
    ext.extend(X25519.to_be_bytes());
    ext.extend(32u16.to_be_bytes());
    ext.extend([8; 32]);
    body.extend((ext.len() as u16).to_be_bytes());
    body.extend(ext);
    let mut hello = vec![CLIENT_HELLO, 0, 0, body.len() as u8];
    hello.extend(body);
    let parsed = parse_handshake(&hello).unwrap();
    assert_eq!(parsed.server_name, "example.com");
    assert_eq!(parsed.x25519_key_share, Some([8; 32]));
    assert!(parsed.reality_aad[39..71].iter().all(|b| *b == 0));
    assert!(parsed.raw[39..71].iter().all(|b| *b == 7));
}

fn vec16_bytes(data: &[u8]) -> Vec<u8> {
    let mut bytes = (data.len() as u16).to_be_bytes().to_vec();
    bytes.extend(data);
    bytes
}

fn tagged(tag: u16, data: &[u8]) -> Vec<u8> {
    let mut bytes = tag.to_be_bytes().to_vec();
    bytes.extend(vec16_bytes(data));
    bytes
}

fn sni(kind: u8, name: &[u8]) -> Vec<u8> {
    let mut entry = vec![kind];
    entry.extend(vec16_bytes(name));
    entry
}

fn versions_data(versions: &[u16]) -> Vec<u8> {
    let mut data = vec![2 * versions.len() as u8];
    for version in versions {
        data.extend(version.to_be_bytes());
    }
    data
}

fn message(body: &[u8]) -> Vec<u8> {
    let mut raw = vec![CLIENT_HELLO];
    raw.extend(&(body.len() as u32).to_be_bytes()[1..]);
    raw.extend(body);
    raw
}

fn body_with(session_id: &[u8], extensions: &[u8]) -> Vec<u8> {
    let mut body = vec![3, 3];
    body.extend([9; 32]);
    body.push(session_id.len() as u8);
    body.extend(session_id);
    body.extend(vec16_bytes(&[0x13, 0x01]));
    body.extend([1, 0]);
    body.extend(vec16_bytes(extensions));
    body
}

fn parse_extensions_of(extensions: &[Vec<u8>]) -> Result<ClientHello, ParseError> {
    parse_handshake(&message(&body_with(&[7; 32], &extensions.concat())))
}

fn sni_ext() -> Vec<u8> {
    tagged(0, &vec16_bytes(&sni(0, b"example.com")))
}

fn versions_ext() -> Vec<u8> {
    tagged(43, &versions_data(&[TLS13]))
}

#[test]
fn a_record_holds_one_hello() {
    let raw = message(&body_with(&[7; 32], &[sni_ext(), versions_ext()].concat()));
    let mut record = vec![TLS_HANDSHAKE_RECORD, 3, 1];
    record.extend(vec16_bytes(&raw));
    let hello = parse_record(&record).unwrap();
    assert_eq!(Ok(hello.clone()), parse_handshake(&raw));
    assert_eq!(hello.raw, raw);
    assert_eq!(hello.random, [9; 32]);
    assert_eq!(hello.encrypted_session_id, vec![7; 32]);
    assert_eq!(hello.x25519_key_share, None);
    assert_eq!(hello.x25519_key_shares, Vec::<[u8; 32]>::new());
    for len in 0..record.len() {
        assert_eq!(parse_record(&record[..len]), Err(ParseError::Truncated));
    }
    let mut longer = record.clone();
    longer.push(0);
    assert_eq!(parse_record(&longer), Err(ParseError::Truncated));
    record[0] = 23;
    assert_eq!(parse_record(&record), Err(ParseError::InvalidRecord));
}

#[test]
fn all_x25519_parts_are_found_in_order() {
    let mut hybrid = vec![1; MLKEM768_ENCAPSULATION_KEY_LEN];
    hybrid.extend([4; 32]);
    let shares = [
        tagged(0x0a0a, &[0]),
        tagged(X25519_MLKEM768, &hybrid),
        tagged(X25519, &[5; 32]),
        tagged(X25519, &[6; 31]),
        tagged(X25519_MLKEM768, &hybrid[1..]),
        tagged(0x0017, &[7; 32]),
        tagged(X25519, &[8; 32]),
    ]
    .concat();
    let key_share = tagged(51, &vec16_bytes(&shares));
    let hello = parse_extensions_of(&[sni_ext(), versions_ext(), key_share]).unwrap();
    assert_eq!(hello.x25519_key_shares, vec![[4; 32], [5; 32], [8; 32]]);
    assert_eq!(hello.x25519_key_share, Some([4; 32]));
}

#[test]
fn names_are_folded_and_the_first_host_counts() {
    let names = [sni(1, &[0xff]), sni(0, b"WWW.Example.COM"), sni(0, b"other")].concat();
    let hello = parse_extensions_of(&[tagged(0, &vec16_bytes(&names)), versions_ext()]).unwrap();
    assert_eq!(hello.server_name, "www.example.com");
    let umlaut = sni(0, "\u{c4}A".as_bytes());
    let hello = parse_extensions_of(&[tagged(0, &vec16_bytes(&umlaut)), versions_ext()]).unwrap();
    assert_eq!(hello.server_name, "\u{c4}a");
}

#[test]
fn other_extensions_and_their_order_have_no_say() {
    let key_share = tagged(51, &vec16_bytes(&tagged(X25519, &[5; 32])));
    let plain = parse_extensions_of(&[sni_ext(), versions_ext(), key_share.clone()]).unwrap();
    let mixed = parse_extensions_of(&[
        tagged(0x0a0a, &[]),
        key_share,
        tagged(16, b"anything"),
        versions_ext(),
        tagged(0xff01, &[0]),
        sni_ext(),
    ])
    .unwrap();
    assert_eq!(plain.server_name, mixed.server_name);
    assert_eq!(plain.x25519_key_shares, mixed.x25519_key_shares);
}

#[test]
fn shares_of_all_key_share_extensions_are_found() {
    let first = tagged(51, &vec16_bytes(&tagged(X25519, &[8; 32])));
    let second = tagged(51, &vec16_bytes(&tagged(X25519, &[6; 32])));
    let empty = tagged(51, &[0, 0]);
    let hello =
        parse_extensions_of(&[first, sni_ext(), versions_ext(), second, empty.clone()]).unwrap();
    assert_eq!(hello.x25519_key_shares, vec![[8; 32], [6; 32]]);
    assert_eq!(hello.x25519_key_share, Some([8; 32]));
    let hello = parse_extensions_of(&[sni_ext(), versions_ext(), empty]).unwrap();
    assert_eq!(hello.x25519_key_shares, Vec::<[u8; 32]>::new());
}

#[test]
fn a_later_name_or_version_list_takes_the_place_of_an_earlier_one() {
    let other = tagged(0, &vec16_bytes(&sni(0, b"example.org")));
    let hello = parse_extensions_of(&[sni_ext(), versions_ext(), other]).unwrap();
    assert_eq!(hello.server_name, "example.org");
    assert_eq!(
        parse_extensions_of(&[sni_ext(), versions_ext(), tagged(43, &versions_data(&[0x0303]))]),
        Err(ParseError::UnsupportedVersion)
    );
}

#[test]
fn tls13_and_a_name_are_needed() {
    assert_eq!(parse_extensions_of(&[]), Err(ParseError::UnsupportedVersion));
    assert_eq!(parse_extensions_of(&[sni_ext()]), Err(ParseError::UnsupportedVersion));
    assert_eq!(
        parse_extensions_of(&[sni_ext(), tagged(43, &versions_data(&[0x0303, 0x0302]))]),
        Err(ParseError::UnsupportedVersion)
    );
    assert_eq!(
        parse_extensions_of(&[sni_ext(), tagged(43, &[0])]),
        Err(ParseError::UnsupportedVersion)
    );
    assert!(parse_extensions_of(&[sni_ext(), tagged(43, &versions_data(&[0x0a0a, TLS13]))]).is_ok());
    assert_eq!(parse_extensions_of(&[versions_ext()]), Err(ParseError::MissingServerName));
    assert_eq!(
        parse_extensions_of(&[tagged(0, &vec16_bytes(&sni(1, b"x"))), versions_ext()]),
        Err(ParseError::MissingServerName)
    );
    assert_eq!(
        parse_extensions_of(&[tagged(0, &[0, 0]), versions_ext()]),
        Err(ParseError::MissingServerName)
    );
}

#[test]
fn broken_extensions_are_refused() {
    for broken in [
        tagged(0, &[]),
        tagged(0, &[0]),
        tagged(0, &[0, 1]),
        tagged(0, &[0, 4, 0, 0, 2, b'a']),
        tagged(0, &vec16_bytes(&sni(0, b""))),
        tagged(0, &vec16_bytes(&sni(0, &[0xff]))),
        tagged(43, &[]),
        tagged(43, &[2, 3]),
        tagged(43, &[1, 3]),
        tagged(43, &[3, 3, 4, 3]),
        tagged(51, &[]),
        tagged(51, &[0, 1]),
        tagged(51, &[0, 5, 0, 29, 0, 32, 1]),
        vec![0, 16, 0, 9, 1],
    ] {
        assert_eq!(
            parse_extensions_of(&[sni_ext(), versions_ext(), broken]),
            Err(ParseError::InvalidExtension)
        );
    }
    for truncated in [
        tagged(0, &vec16_bytes(&[1, 0])),
        tagged(51, &vec16_bytes(&[0, 29, 0])),
        vec![0],
        vec![0, 16, 0],
    ] {
        assert_eq!(
            parse_extensions_of(&[sni_ext(), versions_ext(), truncated]),
            Err(ParseError::Truncated)
        );
    }
}

#[test]
fn broken_messages_are_refused() {
    let body = body_with(&[7; 32], &[sni_ext(), versions_ext()].concat());
    let raw = message(&body);
    for len in 0..raw.len() {
        assert_eq!(parse_handshake(&raw[..len]), Err(ParseError::Truncated));
    }
    let mut longer = raw.clone();
    longer.push(0);
    assert_eq!(parse_handshake(&longer), Err(ParseError::Truncated));
    let mut kind = raw.clone();
    kind[0] = 2;
    assert_eq!(parse_handshake(&kind), Err(ParseError::InvalidHandshake));
    let mut large = raw.clone();
    large[1] = 2;
    assert_eq!(parse_handshake(&large), Err(ParseError::TooLarge));
    // A body that ends within its fixed fields.
    for len in [0, 34, 35, 66, 67, 68, 70, 71, 72, 73] {
        assert_eq!(parse_handshake(&message(&body[..len])), Err(ParseError::Truncated));
    }
    // A body that ends before its extensions do, or goes on behind them.
    assert_eq!(
        parse_handshake(&message(&body[..body.len() - 1])),
        Err(ParseError::InvalidExtension)
    );
    let mut behind = body.clone();
    behind.push(0);
    assert_eq!(parse_handshake(&message(&behind)), Err(ParseError::InvalidExtension));
    // No cipher suites.
    let mut suites = vec![3, 3];
    suites.extend([9; 32]);
    suites.extend([0, 0, 0, 1, 0, 0, 0]);
    assert_eq!(parse_handshake(&message(&suites)), Err(ParseError::Truncated));
}

#[test]
fn the_largest_body_is_accepted_and_no_larger_one() {
    let fixed = body_with(&[], &[]).len();
    // Suites and extensions share what is left of 65536 bytes.
    let build = |total: usize| {
        let extensions = [sni_ext(), versions_ext()].concat();
        let suites = total - fixed - extensions.len() + 2;
        let mut body = vec![3, 3];
        body.extend([9; 32]);
        body.push(0);
        body.extend(vec16_bytes(&vec![1; suites]));
        body.extend([1, 0]);
        body.extend(vec16_bytes(&extensions));
        assert_eq!(body.len(), total);
        message(&body)
    };
    assert!(parse_handshake(&build(65_536)).is_ok());
    assert_eq!(parse_handshake(&build(65_537)), Err(ParseError::TooLarge));
}

#[test]
fn associated_data_does_not_depend_on_the_session_id() {
    let extensions = [sni_ext(), versions_ext()].concat();
    let one = parse_handshake(&message(&body_with(&[7; 32], &extensions))).unwrap();
    let two = parse_handshake(&message(&body_with(&[8; 32], &extensions))).unwrap();
    let zero = parse_handshake(&message(&body_with(&[0; 32], &extensions))).unwrap();
    assert_eq!(one.reality_aad, two.reality_aad);
    assert_eq!(one.reality_aad, zero.raw);
    assert_eq!(zero.reality_aad, zero.raw);
    assert_ne!(one.raw, two.raw);
    let none = parse_handshake(&message(&body_with(&[], &extensions))).unwrap();
    assert_eq!(none.reality_aad, none.raw);
    assert_eq!(none.encrypted_session_id, Vec::<u8>::new());
}
