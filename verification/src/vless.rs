//! VLESS request parsing for the non-encrypted (`decryption: none`) inbound.
//!
//! A request header is a version byte, a user ID (16), a length-prefixed block
//! of addons, a command, a port and a destination. [`request`] is the grammar;
//! [`parse_request`] computes it.
use crate::bytes::{be16, read_be16, to_array};
use crate::text;
use vstd::prelude::*;
use vstd::utf8::{decode_utf8, encode_utf8, valid_utf8};

verus! {

#[derive(Debug, Clone, PartialEq, Eq)]
pub struct Request {
    pub user_id: [u8; 16],
    pub command: u8,
    pub port: u16,
    pub destination: Destination,
}

#[derive(Debug, Clone, PartialEq, Eq)]
pub enum Destination {
    Ipv4([u8; 4]),
    Domain(String),
    Ipv6([u8; 16]),
}

#[derive(Debug, Clone, PartialEq, Eq)]
pub enum ParseError {
    Truncated,
    UnsupportedVersion,
    UnsupportedCommand,
    InvalidAddress,
}

/// The one command that is supported: a TCP connection.
pub const COMMAND_TCP: u8 = 1;

/// The shortest header that is looked at.
pub const MIN_HEADER_LEN: usize = 22;

/// What a [`Request`] holds, as mathematical values.
pub struct RequestView {
    pub user_id: Seq<u8>,
    pub command: u8,
    pub port: int,
    pub destination: DestinationView,
}

/// What a [`Destination`] holds, as mathematical values.
pub enum DestinationView {
    Ipv4(Seq<u8>),
    Domain(Seq<char>),
    Ipv6(Seq<u8>),
}

impl View for Destination {
    type V = DestinationView;

    open spec fn view(&self) -> DestinationView {
        match self {
            Destination::Ipv4(ip) => DestinationView::Ipv4(ip@),
            Destination::Domain(host) => DestinationView::Domain(host@),
            Destination::Ipv6(ip) => DestinationView::Ipv6(ip@),
        }
    }
}

impl View for Request {
    type V = RequestView;

    open spec fn view(&self) -> RequestView {
        RequestView {
            user_id: self.user_id@,
            command: self.command,
            port: self.port as int,
            destination: self.destination@,
        }
    }
}

/// The domain name of `len` bytes at `at`, and where it ends.
pub open spec fn domain(input: Seq<u8>, at: int, len: int) -> Result<
    (DestinationView, int),
    ParseError,
> {
    let name = input.subrange(at, at + len);
    if at + len > input.len() {
        Err(ParseError::Truncated)
    } else if len == 0 || !valid_utf8(name) {
        Err(ParseError::InvalidAddress)
    } else {
        Ok((DestinationView::Domain(decode_utf8(name)), at + len))
    }
}

/// The destination whose type byte stands at `at`, and where it ends.
pub open spec fn destination(input: Seq<u8>, at: int) -> Result<
    (DestinationView, int),
    ParseError,
> {
    if input[at] == 1 {
        if at + 5 > input.len() {
            Err(ParseError::Truncated)
        } else {
            Ok((DestinationView::Ipv4(input.subrange(at + 1, at + 5)), at + 5))
        }
    } else if input[at] == 2 {
        if at + 2 > input.len() {
            Err(ParseError::Truncated)
        } else {
            domain(input, at + 2, input[at + 1] as int)
        }
    } else if input[at] == 3 {
        if at + 17 > input.len() {
            Err(ParseError::Truncated)
        } else {
            Ok((DestinationView::Ipv6(input.subrange(at + 1, at + 17)), at + 17))
        }
    } else {
        Err(ParseError::InvalidAddress)
    }
}

/// Where the command stands: behind the addons.
pub open spec fn command_start(input: Seq<u8>) -> int {
    18 + input[17]
}

/// The request header at the start of `input`, and its length.
pub open spec fn request(input: Seq<u8>) -> Result<(RequestView, int), ParseError> {
    let command = command_start(input);
    if input.len() < MIN_HEADER_LEN {
        Err(ParseError::Truncated)
    } else if input[0] != 0 {
        Err(ParseError::UnsupportedVersion)
    } else if input.len() < command + 4 {
        Err(ParseError::Truncated)
    } else if input[command] != COMMAND_TCP {
        Err(ParseError::UnsupportedCommand)
    } else {
        match destination(input, command + 3) {
            Ok((destination, end)) => Ok(
                (
                    RequestView {
                        user_id: input.subrange(1, 17),
                        command: COMMAND_TCP,
                        port: be16(input, command + 1),
                        destination,
                    },
                    end,
                ),
            ),
            Err(error) => Err(error),
        }
    }
}

/// `result`, with its value replaced by what that holds.
pub open spec fn request_result(result: Result<(Request, usize), ParseError>) -> Result<
    (RequestView, int),
    ParseError,
> {
    match result {
        Ok((request, used)) => Ok((request@, used as int)),
        Err(error) => Err(error),
    }
}

/// Parses the VLESS header and returns it with the number of consumed bytes.
pub fn parse_request(input: &[u8]) -> (result: Result<(Request, usize), ParseError>)
    ensures
        request_result(result) == request(input@),
        result matches Ok((parsed, used)) ==> (request(input@) matches Ok((meant, end)) && {
            &&& used == end
            &&& used <= input@.len()
            &&& parsed.user_id@ == input@.subrange(1, 17)
            &&& parsed.command == 1
            &&& parsed.port == meant.port
            &&& match parsed.destination {
                Destination::Ipv4(ip) => meant.destination == DestinationView::Ipv4(ip@),
                Destination::Domain(host) => meant.destination == DestinationView::Domain(host@),
                Destination::Ipv6(ip) => meant.destination == DestinationView::Ipv6(ip@),
            }
        }),
{
    if input.len() < MIN_HEADER_LEN {
        return Err(ParseError::Truncated);
    }
    if input[0] != 0 {
        return Err(ParseError::UnsupportedVersion);
    }
    let user_id: [u8; 16] = to_array(&input[1..17]);
    let addons: usize = input[17] as usize;
    let mut pos: usize = 18 + addons;
    if input.len() < pos + 4 {
        return Err(ParseError::Truncated);
    }
    let command: u8 = input[pos];
    if command != COMMAND_TCP {
        return Err(ParseError::UnsupportedCommand);
    }
    let port: u16 = read_be16(input, pos + 1);
    pos = pos + 3;
    let left: usize = input.len() - pos;
    match input[pos] {
        1 => {
            if left < 5 {
                return Err(ParseError::Truncated);
            }
            let ip: [u8; 4] = to_array(&input[pos + 1..pos + 5]);
            let destination = Destination::Ipv4(ip);
            Ok((Request { user_id, command, port, destination }, pos + 5))
        },
        2 => {
            if left < 2 {
                return Err(ParseError::Truncated);
            }
            let len: usize = input[pos + 1] as usize;
            if left - 2 < len {
                return Err(ParseError::Truncated);
            }
            if len == 0 {
                return Err(ParseError::InvalidAddress);
            }
            match text::decode(&input[pos + 2..pos + 2 + len]) {
                Some(host) => {
                    let destination = Destination::Domain(host.to_owned());
                    Ok((Request { user_id, command, port, destination }, pos + 2 + len))
                },
                None => Err(ParseError::InvalidAddress),
            }
        },
        3 => {
            if left < 17 {
                return Err(ParseError::Truncated);
            }
            let ip: [u8; 16] = to_array(&input[pos + 1..pos + 17]);
            let destination = Destination::Ipv6(ip);
            Ok((Request { user_id, command, port, destination }, pos + 17))
        },
        _ => Err(ParseError::InvalidAddress),
    }
}

/// The wire form of a destination.
pub open spec fn destination_bytes(destination: DestinationView) -> Seq<u8> {
    match destination {
        DestinationView::Ipv4(ip) => seq![1u8] + ip,
        DestinationView::Domain(host) => seq![2u8, encode_utf8(host).len() as u8] + encode_utf8(
            host,
        ),
        DestinationView::Ipv6(ip) => seq![3u8] + ip,
    }
}

/// Whether a destination has a wire form.
pub open spec fn encodable(destination: DestinationView) -> bool {
    match destination {
        DestinationView::Ipv4(ip) => ip.len() == 4,
        DestinationView::Domain(host) => 1 <= encode_utf8(host).len() <= 255,
        DestinationView::Ipv6(ip) => ip.len() == 16,
    }
}

/// The wire form of a TCP request.
pub open spec fn request_bytes(
    user_id: Seq<u8>,
    addons: Seq<u8>,
    port: int,
    destination: DestinationView,
) -> Seq<u8> {
    seq![0u8] + user_id + seq![addons.len() as u8] + addons + seq![
        1u8,
        (port / 0x100) as u8,
        (port % 0x100) as u8,
    ] + destination_bytes(destination)
}

/// Every TCP request is read back from its wire form, whatever its addons and
/// whatever follows it, and exactly the header is consumed.
pub proof fn law_request_round_trip(
    user_id: Seq<u8>,
    addons: Seq<u8>,
    port: u16,
    destination: DestinationView,
    payload: Seq<u8>,
)
    requires
        user_id.len() == 16,
        addons.len() <= 255,
        encodable(destination),
    ensures
        ({
            let header = request_bytes(user_id, addons, port as int, destination);
            request(header + payload) == Ok::<(RequestView, int), ParseError>(
                (
                    RequestView { user_id, command: 1, port: port as int, destination },
                    header.len() as int,
                ),
            )
        }),
{
    let header = request_bytes(user_id, addons, port as int, destination);
    let input = header + payload;
    let tail = destination_bytes(destination);
    let at: int = 21 + addons.len() as int;
    assert(input[17] == addons.len());
    assert(input.subrange(1, 17) =~= user_id);
    assert(input[at - 3] == COMMAND_TCP);
    assert(be16(input, at - 2) == port);
    assert(input.subrange(at, at + tail.len()) =~= tail);
    assert(header.len() == at + tail.len());
    assert forall|i: int| 0 <= i < tail.len() implies input[at + i] == tail[i] by {}
    match destination {
        DestinationView::Ipv4(ip) => {
            assert(tail[0] == 1);
            assert(input.subrange(at + 1, at + 5) =~= ip);
        },
        DestinationView::Domain(host) => {
            let bytes = encode_utf8(host);
            assert(tail[0] == 2 && tail[1] == bytes.len());
            assert(input.subrange(at + 2, at + 2 + bytes.len()) =~= bytes);
            vstd::utf8::encode_utf8_valid_utf8(host);
            vstd::utf8::encode_utf8_decode_utf8(host);
        },
        DestinationView::Ipv6(ip) => {
            assert(tail[0] == 3);
            assert(input.subrange(at + 1, at + 17) =~= ip);
        },
    }
}

/// Nothing but a TCP request is read as one: what is accepted is the wire form of
/// what is reported, with some addons.
pub proof fn law_request_sound(input: Seq<u8>, parsed: RequestView, used: int)
    requires
        request(input) == Ok::<(RequestView, int), ParseError>((parsed, used)),
    ensures
        used <= input.len(),
        parsed.user_id.len() == 16,
        parsed.command == 1,
        0 <= parsed.port < 0x1_0000,
        encodable(parsed.destination),
        exists|addons: Seq<u8>|
            addons.len() <= 255 && input.take(used) == #[trigger] request_bytes(
                parsed.user_id,
                addons,
                parsed.port,
                parsed.destination,
            ),
{
    let command = command_start(input);
    let addons = input.subrange(18, command);
    let at = command + 3;
    let tail = destination_bytes(parsed.destination);
    if input[at] == 2 {
        let name = input.subrange(at + 2, at + 2 + input[at + 1]);
        vstd::utf8::decode_utf8_encode_utf8(name);
    }
    assert(input.subrange(at, used) =~= tail);
    let header = request_bytes(parsed.user_id, addons, parsed.port, parsed.destination);
    assert(header.len() == used);
    assert forall|i: int| 0 <= i < used implies header[i] == input[i] by {
        if i >= at {
            assert(header[i] == tail[i - at]);
            assert(tail[i - at] == input.subrange(at, used)[i - at]);
        }
    }
    assert(input.take(used) =~= header);
}

/// What is refused for good is refused for its first fault: a version other than
/// zero, a command other than TCP, or a destination that is none. Only what is
/// too short to tell is truncated.
pub proof fn law_request_faults(input: Seq<u8>)
    ensures
        ({
            let outcome = request(input);
            let at = 18 + input[17] as int;
            let kind = input[at + 3];
            let len = input[at + 4] as int;
            let readable = input.len() >= 22 && input[0] == 0 && input.len() >= at + 4;
            let tcp = readable && input[at] == 1;
            let name = input.subrange(at + 5, at + 5 + len);
            &&& input.len() < 22 ==> (outcome matches Err(error) && error is Truncated)
            &&& (outcome matches Err(error) && error is UnsupportedVersion) <==> input.len() >= 22
                && input[0] != 0
            &&& (outcome matches Err(error) && error is UnsupportedCommand) <==> readable && !tcp
            &&& (outcome matches Err(error) && error is InvalidAddress) <==> tcp && ((kind != 1
                && kind != 2 && kind != 3) || (kind == 2 && input.len() >= at + 5 + len
                && input.len() >= at + 5 && (len == 0 || !valid_utf8(name))))
        }),
{
}

/// What is truncated can be completed: some bytes behind it settle the matter.
pub proof fn law_truncated_is_open(input: Seq<u8>)
    requires
        request(input) == Err::<(RequestView, int), ParseError>(ParseError::Truncated),
    ensures
        exists|more: Seq<u8>|
            request(#[trigger] (input + more)) != Err::<(RequestView, int), ParseError>(
                ParseError::Truncated,
            ),
{
    let more = seq![0u8; 600];
    let longer = input + more;
    assert(longer.len() >= 600);
    assert(request(input + more) != Err::<(RequestView, int), ParseError>(ParseError::Truncated));
}

/// More bytes change no answer but "truncated": once a header is read or
/// refused, what follows it has no say.
pub proof fn law_request_prefix_stable(input: Seq<u8>, more: Seq<u8>)
    requires
        request(input) != Err::<(RequestView, int), ParseError>(ParseError::Truncated),
    ensures
        request(input + more) == request(input),
{
    let longer = input + more;
    let command = command_start(input);
    assert(longer.subrange(1, 17) =~= input.subrange(1, 17));
    if input[0] == 0 && input[command] == COMMAND_TCP {
        let at = command + 3;
        assert(longer[at] == input[at]);
        if input[at] == 1 {
            assert(longer.subrange(at + 1, at + 5) =~= input.subrange(at + 1, at + 5));
        } else if input[at] == 2 {
            let len = input[at + 1] as int;
            assert(longer.subrange(at + 2, at + 2 + len) =~= input.subrange(at + 2, at + 2 + len));
        } else if input[at] == 3 {
            assert(longer.subrange(at + 1, at + 17) =~= input.subrange(at + 1, at + 17));
        }
    }
}

/// A header is consumed exactly: its own bytes are enough to read it, and no
/// shorter prefix is.
pub proof fn law_request_consumes_header(input: Seq<u8>, used: int, prefix: int)
    requires
        request(input) matches Ok((_, end)) && end == used,
        0 <= prefix <= input.len(),
    ensures
        MIN_HEADER_LEN <= used <= input.len(),
        prefix >= used ==> request(input.take(prefix)) == request(input),
        prefix < used ==> request(input.take(prefix)) == Err::<(RequestView, int), ParseError>(
            ParseError::Truncated,
        ),
{
    let shorter = input.take(prefix);
    let at = command_start(input) + 3;
    if prefix >= MIN_HEADER_LEN {
        assert(shorter[17] == input[17]);
        assert(shorter.subrange(1, 17) =~= input.subrange(1, 17));
    }
    if prefix >= used {
        if input[at] == 1 {
            assert(shorter.subrange(at + 1, at + 5) =~= input.subrange(at + 1, at + 5));
        } else if input[at] == 2 {
            let len = input[at + 1] as int;
            assert(shorter.subrange(at + 2, at + 2 + len) =~= input.subrange(at + 2, at + 2 + len));
        } else if input[at] == 3 {
            assert(shorter.subrange(at + 1, at + 17) =~= input.subrange(at + 1, at + 17));
        }
    }
}

} // verus!
