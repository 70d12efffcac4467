use reality_rs::relay::{
    destination, plan, replay, HeaderReader, HeaderStep, Plan, HEADER_BUFFER_LEN,
};
use reality_rs::text::decimal;
use reality_rs::vless::{Destination, ParseError, Request};

fn domain_header(addons: usize) -> Vec<u8> {
    let mut header = vec![0];
    header.extend([7; 16]);
    header.push(addons as u8);
    header.extend(vec![0; addons]);
    header.push(1);
    header.extend(443u16.to_be_bytes());
    header.extend([2, 11]);
    header.extend(b"example.com");
    header
}

fn domain_request() -> Request {
    Request {
        user_id: [7; 16],
        command: 1,
        port: 443,
        destination: Destination::Domain("example.com".to_owned()),
    }
}

#[test]
fn header_is_found_however_it_is_cut() {
    let mut bytes = domain_header(3);
    let used = bytes.len();
    bytes.extend(b"GET /");
    for size in 1..=bytes.len() {
        let mut reader = HeaderReader::new();
        let mut read = 0;
        let payload = loop {
            let end = bytes.len().min(read + size);
            let step = reader.feed(&bytes[read..end]);
            read = end;
            match step {
                HeaderStep::More => assert!(read < used),
                HeaderStep::Done { request, payload } => {
                    assert_eq!(request, domain_request());
                    break payload;
                }
                other => panic!("{other:?}"),
            }
        };
        assert!(read >= used && read - used < size);
        assert_eq!(payload, bytes[used..read]);
    }
}

#[test]
fn an_early_end_is_noticed() {
    let bytes = domain_header(0);
    let mut reader = HeaderReader::new();
    assert_eq!(reader.room(), HEADER_BUFFER_LEN);
    assert_eq!(reader.feed(&bytes[..20]), HeaderStep::More);
    assert_eq!(reader.room(), HEADER_BUFFER_LEN - 20);
    assert_eq!(reader.feed(&[]), HeaderStep::Closed);
    assert_eq!(HeaderReader::new().feed(&[]), HeaderStep::Closed);
}

#[test]
fn what_is_no_header_is_refused_at_once() {
    let mut bytes = domain_header(0);
    bytes[0] = 1;
    assert_eq!(
        HeaderReader::new().feed(&bytes),
        HeaderStep::Invalid(ParseError::UnsupportedVersion)
    );
    bytes.extend([0; 100]);
    assert_eq!(
        HeaderReader::new().feed(&bytes),
        HeaderStep::Invalid(ParseError::UnsupportedVersion)
    );
}

#[test]
fn a_header_must_fit_the_buffer() {
    // 255 bytes of addons and a name of 255 bytes do not fit.
    let mut bytes = vec![0];
    bytes.extend([7; 16]);
    bytes.push(255);
    bytes.extend([0; 255]);
    bytes.extend([1, 0, 80, 2, 255]);
    bytes.extend([b'a'; 255]);
    let mut reader = HeaderReader::new();
    assert_eq!(reader.feed(&bytes[..HEADER_BUFFER_LEN - 1]), HeaderStep::More);
    assert_eq!(reader.room(), 1);
    assert_eq!(
        reader.feed(&bytes[HEADER_BUFFER_LEN - 1..HEADER_BUFFER_LEN]),
        HeaderStep::Invalid(ParseError::Truncated)
    );
}

#[test]
fn destinations_are_written_with_their_port() {
    assert_eq!(destination(&Destination::Domain("example.com".to_owned()), 443, ""), "example.com:443");
    assert_eq!(destination(&Destination::Domain("a".to_owned()), 0, "::1"), "a:0");
    assert_eq!(destination(&Destination::Ipv4([192, 0, 2, 10]), 65535, ""), "192.0.2.10:65535");
    assert_eq!(destination(&Destination::Ipv4([0, 255, 100, 9]), 10, "x"), "0.255.100.9:10");
    let ip = [0x20, 0x01, 0x0d, 0xb8, 0, 0, 0, 0, 0, 0, 0, 0, 0, 0, 0, 1];
    assert_eq!(destination(&Destination::Ipv6(ip), 8080, "2001:db8::1"), "[2001:db8::1]:8080");
}

#[test]
fn numbers_are_written_in_decimal() {
    for n in [0, 1, 9, 10, 11, 99, 100, 101, 255, 1000, 9999, 10000, 12345, 65535] {
        assert_eq!(decimal(n), n.to_string());
    }
}

#[test]
fn known_users_are_relayed() {
    let users = vec![[1; 16], [7; 16]];
    assert_eq!(
        plan(&users, &domain_request(), ""),
        Plan::Relay { response: [0, 0], target: "example.com:443".to_owned() }
    );
    assert_eq!(plan(&vec![[1; 16]], &domain_request(), ""), Plan::Refuse);
    assert_eq!(plan(&vec![], &domain_request(), ""), Plan::Refuse);
}

#[test]
fn replayed_bytes_come_once_and_in_order() {
    let mut prefix = vec![1, 2, 3, 4, 5];
    assert_eq!(replay(&mut prefix, 2), vec![1, 2]);
    assert_eq!(replay(&mut prefix, 0), Vec::<u8>::new());
    assert_eq!(prefix, vec![3, 4, 5]);
    assert_eq!(replay(&mut prefix, 100), vec![3, 4, 5]);
    assert!(prefix.is_empty());
    assert_eq!(replay(&mut prefix, 100), Vec::<u8>::new());
}
