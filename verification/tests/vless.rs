use reality_rs::vless::{parse_request, Destination, ParseError};

#[test]
fn parses_domain_request() {
    let mut b = vec![0];
    b.extend([7; 16]);
    b.push(0);
    b.push(1);
    b.extend(443u16.to_be_bytes());
    b.push(2);
    b.push(11);
    b.extend(b"example.com");
    let (request, used) = parse_request(&b).unwrap();
    assert_eq!(used, b.len());
    assert_eq!(request.port, 443);
    assert_eq!(request.destination, Destination::Domain("example.com".into()));
}

fn header_of(addons: &[u8], port: u16, destination: &[u8]) -> Vec<u8> {
    let mut header = vec![0];
    header.extend([7; 16]);
    header.push(addons.len() as u8);
    header.extend(addons);
    header.push(1);
    header.extend(port.to_be_bytes());
    header.extend(destination);
    header
}

#[test]
fn every_destination_is_read_back() {
    let mut ipv6 = vec![3];
    ipv6.extend([0xfe; 16]);
    for addons in [0usize, 1, 255] {
        let addons = vec![9; addons];
        for (bytes, destination) in [
            (vec![1, 192, 0, 2, 1], Destination::Ipv4([192, 0, 2, 1])),
            (vec![2, 1, b'a'], Destination::Domain("a".into())),
            (vec![2, 3, 0xe2, 0x82, 0xac], Destination::Domain("\u{20ac}".into())),
            (ipv6.clone(), Destination::Ipv6([0xfe; 16])),
        ] {
            let mut input = header_of(&addons, 0x1234, &bytes);
            let used = input.len();
            input.extend(b"payload");
            let (request, end) = parse_request(&input).unwrap();
            assert_eq!(end, used);
            assert_eq!(request.user_id, [7; 16]);
            assert_eq!(request.command, 1);
            assert_eq!(request.port, 0x1234);
            assert_eq!(request.destination, destination);
        }
    }
}

#[test]
fn shorter_prefixes_are_truncated() {
    let mut ipv6 = vec![3];
    ipv6.extend([0xfe; 16]);
    for destination in [vec![1, 192, 0, 2, 1], vec![2, 3, b'a', b'.', b'b'], ipv6] {
        let header = header_of(&[1, 2], 80, &destination);
        for len in 0..header.len() {
            assert_eq!(parse_request(&header[..len]), Err(ParseError::Truncated));
        }
        assert!(parse_request(&header).is_ok());
    }
}

#[test]
fn unreadable_requests_are_refused() {
    let mut version = header_of(&[], 80, &[1, 1, 2, 3, 4]);
    version[0] = 1;
    assert_eq!(parse_request(&version), Err(ParseError::UnsupportedVersion));
    let mut command = header_of(&[], 80, &[1, 1, 2, 3, 4]);
    command[18] = 2;
    assert_eq!(parse_request(&command), Err(ParseError::UnsupportedCommand));
    for destination in [
        vec![0, 1, 2, 3, 4],
        vec![4, 1, 2, 3, 4],
        vec![2, 0, 1, 1, 1],
        vec![2, 1, 0xff, 1, 1],
    ] {
        let mut input = header_of(&[], 80, &destination);
        assert_eq!(parse_request(&input), Err(ParseError::InvalidAddress));
        // What follows has no say.
        input.extend([0; 40]);
        assert_eq!(parse_request(&input), Err(ParseError::InvalidAddress));
    }
    // The shortest header is looked at whole before its version is.
    assert_eq!(parse_request(&version[..21]), Err(ParseError::Truncated));
}
