//! From the VLESS request of an accepted client to the relayed connection.
use crate::bytes::{array_views, contains_array};
use crate::text::{decimal, decimal_text, is_number, law_decimal_round_trip};
use crate::vless::{
    law_request_consumes_header, law_request_prefix_stable, parse_request, request, Destination,
    DestinationView, ParseError, Request, RequestView,
};
use vstd::prelude::*;
use vstd::slice::slice_to_vec;

verus! {

/// How many bytes are read at most while a VLESS header is incomplete.
pub const HEADER_BUFFER_LEN: usize = 512;

/// The answer to a VLESS request: version 0, no addons.
pub const VLESS_RESPONSE: [u8; 2] = [0, 0];

/// What becomes of a connection whose VLESS header is being read.
#[derive(Debug, Clone, PartialEq, Eq)]
pub enum HeaderStep {
    /// The header is incomplete; read on.
    More,
    /// The header is complete; what was read behind it is payload.
    Done { request: Request, payload: Vec<u8> },
    /// The bytes are no header, or the header does not fit the buffer.
    Invalid(ParseError),
    /// The client closed the connection before its header was complete.
    Closed,
}

/// What a [`HeaderStep`] holds, as mathematical values.
pub enum HeaderStepView {
    More,
    Done { request: RequestView, payload: Seq<u8> },
    Invalid(ParseError),
    Closed,
}

impl View for HeaderStep {
    type V = HeaderStepView;

    open spec fn view(&self) -> HeaderStepView {
        match self {
            HeaderStep::More => HeaderStepView::More,
            HeaderStep::Done { request, payload } => HeaderStepView::Done {
                request: request@,
                payload: payload@,
            },
            HeaderStep::Invalid(error) => HeaderStepView::Invalid(*error),
            HeaderStep::Closed => HeaderStepView::Closed,
        }
    }
}

/// What the bytes read so far say.
pub open spec fn header_step(bytes: Seq<u8>) -> HeaderStepView {
    match request(bytes) {
        Ok((request, used)) => HeaderStepView::Done { request, payload: bytes.skip(used) },
        Err(error) => if error == ParseError::Truncated && bytes.len() < HEADER_BUFFER_LEN {
            HeaderStepView::More
        } else {
            HeaderStepView::Invalid(error)
        },
    }
}

/// Collects the bytes of a VLESS header until it is complete.
#[derive(Debug, Clone)]
pub struct HeaderReader {
    buffer: Vec<u8>,
}

impl View for HeaderReader {
    type V = Seq<u8>;

    closed spec fn view(&self) -> Seq<u8> {
        self.buffer@
    }
}

impl HeaderReader {
    /// Whether more bytes are needed to tell what the header is.
    pub open spec fn waiting(self) -> bool {
        header_step(self@) is More
    }

    /// A reader that has read nothing.
    pub fn new() -> (reader: HeaderReader)
        ensures
            reader@ == Seq::<u8>::empty(),
            reader.waiting(),
    {
        HeaderReader { buffer: Vec::new() }
    }

    /// How many bytes the buffer still takes.
    pub fn room(&self) -> (room: usize)
        requires
            self.waiting(),
        ensures
            room == HEADER_BUFFER_LEN - self@.len(),
            room == 512 - self@.len(),
            room > 0,
    {
        HEADER_BUFFER_LEN - self.buffer.len()
    }

    /// Takes the bytes of one read; none of them means that the client closed
    /// the connection.
    pub fn feed(&mut self, chunk: &[u8]) -> (step: HeaderStep)
        requires
            old(self).waiting(),
            old(self)@.len() + chunk@.len() <= HEADER_BUFFER_LEN,
        ensures
            final(self)@ == old(self)@ + chunk@,
            step@ == if chunk@.len() == 0 {
                HeaderStepView::Closed
            } else {
                header_step(final(self)@)
            },
            step is More ==> final(self).waiting(),
            step is Closed <==> chunk@.len() == 0,
            step matches HeaderStep::Done { request: parsed, payload } ==> (request(final(self)@)
                matches Ok((found, used)) && found == parsed@ && payload@ == final(self)@.subrange(
                used,
                final(self)@.len() as int,
            )),
            chunk@.len() > 0 && request(final(self)@) is Ok ==> step is Done,
    {
        self.buffer.extend_from_slice(chunk);
        assert(self.buffer@ =~= old(self).buffer@ + chunk@);
        if chunk.len() == 0 {
            return HeaderStep::Closed;
        }
        match parse_request(self.buffer.as_slice()) {
            Ok((request, used)) => {
                proof {
                    law_request_consumes_header(self.buffer@, used as int, 0);
                    assert(self.buffer@.subrange(used as int, self.buffer@.len() as int)
                        =~= self.buffer@.skip(used as int));
                }
                let end: usize = self.buffer.len();
                let payload: Vec<u8> = slice_to_vec(&self.buffer.as_slice()[used..end]);
                HeaderStep::Done { request, payload }
            },
            Err(ParseError::Truncated) => {
                if self.buffer.len() < HEADER_BUFFER_LEN {
                    HeaderStep::More
                } else {
                    HeaderStep::Invalid(ParseError::Truncated)
                }
            },
            Err(error) => HeaderStep::Invalid(error),
        }
    }
}

/// How the bytes are cut into reads does not matter: a header that fits the
/// buffer is reported by the first read that completes it, not earlier, and all
/// that was read behind it is payload.
pub proof fn law_reads_find_header(bytes: Seq<u8>, parsed: RequestView, used: int, read: int)
    requires
        request(bytes) == Ok::<(RequestView, int), ParseError>((parsed, used)),
        used <= HEADER_BUFFER_LEN,
        0 <= read <= bytes.len(),
    ensures
        read < used ==> header_step(bytes.take(read)) is More,
        read >= used ==> header_step(bytes.take(read)) == (HeaderStepView::Done {
            request: parsed,
            payload: bytes.subrange(used, read),
        }),
{
    law_request_consumes_header(bytes, used, read);
    if read >= used {
        assert(bytes.take(read).skip(used) =~= bytes.subrange(used, read));
    }
}

/// A header that does not fit the buffer is read until the buffer is full, and
/// refused then.
pub proof fn law_reads_bounded(bytes: Seq<u8>, parsed: RequestView, used: int, read: int)
    requires
        request(bytes) == Ok::<(RequestView, int), ParseError>((parsed, used)),
        used > HEADER_BUFFER_LEN,
        0 <= read <= HEADER_BUFFER_LEN,
    ensures
        read < HEADER_BUFFER_LEN ==> header_step(bytes.take(read)) is More,
        read == HEADER_BUFFER_LEN ==> header_step(bytes.take(read)) == HeaderStepView::Invalid(
            ParseError::Truncated,
        ),
{
    law_request_consumes_header(bytes, used, 0);
    law_request_consumes_header(bytes, used, read);
}

/// What the bytes read so far say follows from whether they are a header, and from
/// nothing else: a header is done, what can still become one waits as long as
/// there are fewer than 512 bytes, and everything else is refused for its fault.
pub proof fn law_reads_judged(bytes: Seq<u8>)
    ensures
        match request(bytes) {
            Ok((parsed, used)) => header_step(bytes) == (HeaderStepView::Done {
                request: parsed,
                payload: bytes.subrange(used, bytes.len() as int),
            }),
            Err(error) => if error is Truncated && bytes.len() < 512 {
                header_step(bytes) is More
            } else {
                header_step(bytes) == HeaderStepView::Invalid(error)
            },
        },
{
    if let Ok((_, used)) = request(bytes) {
        law_request_consumes_header(bytes, used, 0);
        assert(bytes.skip(used) =~= bytes.subrange(used, bytes.len() as int));
    }
}

/// Bytes that are no header are refused however much is read at once: what
/// follows them has no say.
pub proof fn law_reads_refuse(bytes: Seq<u8>, more: Seq<u8>, error: ParseError)
    requires
        header_step(bytes) == HeaderStepView::Invalid(error),
        error != ParseError::Truncated,
    ensures
        header_step(bytes + more) == HeaderStepView::Invalid(error),
{
    law_request_prefix_stable(bytes, more);
}

/// The text that names a destination. `ipv6` is the text form of the address
/// of an IPv6 destination.
pub open spec fn destination_text(destination: DestinationView, port: int, ipv6: Seq<char>) -> Seq<
    char,
> {
    match destination {
        DestinationView::Domain(host) => host + seq![':'] + decimal_text(port),
        DestinationView::Ipv4(ip) => decimal_text(ip[0] as int) + seq!['.'] + decimal_text(
            ip[1] as int,
        ) + seq!['.'] + decimal_text(ip[2] as int) + seq!['.'] + decimal_text(ip[3] as int)
            + seq![':'] + decimal_text(port),
        DestinationView::Ipv6(_) => seq!['['] + ipv6 + seq![']', ':'] + decimal_text(port),
    }
}

/// The host and the port of a domain name are read back from its text: the name
/// stands first, then a colon, then the port, for every name and every port.
pub proof fn law_domain_text(host: Seq<char>, port: u16, ipv6: Seq<char>)
    ensures
        ({
            let text = destination_text(DestinationView::Domain(host), port as int, ipv6);
            let end = host.len() as int;
            &&& text.len() > end + 1
            &&& text.subrange(0, end) == host
            &&& text[end] == ':'
            &&& is_number(text.subrange(end + 1, text.len() as int), port as int)
        }),
{
    let text = destination_text(DestinationView::Domain(host), port as int, ipv6);
    let end = host.len() as int;
    law_decimal_round_trip(port as int);
    assert(text.subrange(0, end) =~= host);
    assert(text.subrange(end + 1, text.len() as int) =~= decimal_text(port as int));
}

/// The four numbers of an IPv4 address and the port are read back from its text.
pub proof fn law_ipv4_text(ip: Seq<u8>, port: u16, ipv6: Seq<char>)
    requires
        ip.len() == 4,
    ensures
        exists|a: Seq<char>, b: Seq<char>, c: Seq<char>, d: Seq<char>, p: Seq<char>|
            {
                &&& #[trigger] is_number(a, ip[0] as int)
                &&& #[trigger] is_number(b, ip[1] as int)
                &&& #[trigger] is_number(c, ip[2] as int)
                &&& #[trigger] is_number(d, ip[3] as int)
                &&& #[trigger] is_number(p, port as int)
                &&& destination_text(DestinationView::Ipv4(ip), port as int, ipv6) == a + seq!['.']
                    + b + seq!['.'] + c + seq!['.'] + d + seq![':'] + p
            },
{
    law_decimal_round_trip(ip[0] as int);
    law_decimal_round_trip(ip[1] as int);
    law_decimal_round_trip(ip[2] as int);
    law_decimal_round_trip(ip[3] as int);
    law_decimal_round_trip(port as int);
}

/// The text of an IPv6 address stands in brackets, and the port behind them is
/// read back.
pub proof fn law_ipv6_text(ip: Seq<u8>, port: u16, ipv6: Seq<char>)
    ensures
        ({
            let text = destination_text(DestinationView::Ipv6(ip), port as int, ipv6);
            let end = ipv6.len() as int + 1;
            &&& text.len() > end + 2
            &&& text[0] == '['
            &&& text.subrange(1, end) == ipv6
            &&& text[end] == ']'
            &&& text[end + 1] == ':'
            &&& is_number(text.subrange(end + 2, text.len() as int), port as int)
        }),
{
    let text = destination_text(DestinationView::Ipv6(ip), port as int, ipv6);
    let end = ipv6.len() as int + 1;
    law_decimal_round_trip(port as int);
    assert(text.subrange(1, end) =~= ipv6);
    assert(text.subrange(end + 2, text.len() as int) =~= decimal_text(port as int));
}

/// Two requests for domain names lead to the same target only where they ask for
/// the same name and port.
pub proof fn law_targets_differ(
    host: Seq<char>,
    port: u16,
    other: Seq<char>,
    other_port: u16,
    ipv6: Seq<char>,
)
    requires
        destination_text(DestinationView::Domain(host), port as int, ipv6) == destination_text(
            DestinationView::Domain(other),
            other_port as int,
            ipv6,
        ),
    ensures
        host == other,
        port == other_port,
{
    let text = destination_text(DestinationView::Domain(host), port as int, ipv6);
    let digits = text.subrange(host.len() as int + 1, text.len() as int);
    let other_digits = text.subrange(other.len() as int + 1, text.len() as int);
    law_domain_text(host, port, ipv6);
    law_domain_text(other, other_port, ipv6);
    if host.len() < other.len() {
        assert(digits[other.len() - host.len() - 1] == ':');
    }
    if other.len() < host.len() {
        assert(other_digits[host.len() - other.len() - 1] == ':');
    }
}

/// Writes down a destination. `ipv6` is the text form of the address of an IPv6
/// destination, made by the caller. It is taken as it is, and not looked at for
/// any other destination.
pub fn destination(target: &Destination, port: u16, ipv6: &str) -> (text: String)
    ensures
        text@ == destination_text(target@, port as int, ipv6@),
        target matches Destination::Domain(host) ==> {
            &&& text@.len() > host@.len() + 1
            &&& text@.subrange(0, host@.len() as int) == host@
            &&& text@[host@.len() as int] == ':'
            &&& is_number(text@.subrange(host@.len() as int + 1, text@.len() as int), port as int)
        },
{
    proof {
        reveal_strlit(":");
        reveal_strlit(".");
        reveal_strlit("[");
        reveal_strlit("]:");
    }
    let mut text: String = match target {
        Destination::Domain(host) => {
            let mut text: String = host.as_str().to_owned();
            text.append(":");
            text
        },
        Destination::Ipv4(ip) => {
            let mut text: String = decimal(ip[0] as u16);
            text.append(".");
            text.append(decimal(ip[1] as u16).as_str());
            text.append(".");
            text.append(decimal(ip[2] as u16).as_str());
            text.append(".");
            text.append(decimal(ip[3] as u16).as_str());
            text.append(":");
            text
        },
        Destination::Ipv6(_) => {
            let mut text: String = "[".to_owned();
            text.append(ipv6);
            text.append("]:");
            text
        },
    };
    text.append(decimal(port).as_str());
    assert(text@ =~= destination_text(target@, port as int, ipv6@));
    proof {
        if let Destination::Domain(host) = target {
            law_domain_text(host@, port, ipv6@);
        }
    }
    text
}

/// What becomes of a VLESS request.
#[derive(Debug, Clone, PartialEq, Eq)]
pub enum Plan {
    /// The user is unknown: close the connection without an answer.
    Refuse,
    /// Answer the client, then connect it to the target.
    Relay { response: [u8; 2], target: String },
}

/// Decides what becomes of a VLESS request: the users of the configuration are
/// served, nobody else is.
pub fn plan(users: &Vec<[u8; 16]>, request: &Request, ipv6: &str) -> (decision: Plan)
    ensures
        match decision {
            Plan::Refuse => !array_views(users@).to_set().contains(request@.user_id),
            Plan::Relay { response, target } => {
                &&& array_views(users@).to_set().contains(request@.user_id)
                &&& response@ == seq![0u8, 0u8]
                &&& target@ == destination_text(request@.destination, request@.port, ipv6@)
            },
        },
        decision is Refuse <==> forall|i: int|
            0 <= i < users@.len() ==> (#[trigger] users@[i])@ != request.user_id@,
        decision matches Plan::Relay { target, .. } ==> (request.destination
            matches Destination::Domain(host) ==> {
            &&& target@.len() > host@.len() + 1
            &&& target@.subrange(0, host@.len() as int) == host@
            &&& target@[host@.len() as int] == ':'
            &&& is_number(target@.subrange(host@.len() as int + 1, target@.len() as int), request.port as int)
        }),
{
    proof {
        let listed = array_views(users@);
        let user = request.user_id@;
        assert forall|i: int| 0 <= i < users@.len() && (#[trigger] users@[i])@ == user implies
            listed.contains(user) by {
            assert(listed[i] == user);
        }
        if listed.contains(user) {
            let i = listed.index_of(user);
            assert(users@[i]@ == user);
        }
    }
    if !contains_array(users, &request.user_id) {
        return Plan::Refuse;
    }
    let target: String = destination(&request.destination, request.port, ipv6);
    let response: [u8; 2] = VLESS_RESPONSE;
    assert(response@ =~= seq![0u8, 0u8]);
    Plan::Relay { response, target }
}

/// Takes the next bytes of `prefix`, at most `room` of them, to be read ahead of
/// the stream that they came from. Nothing is lost, repeated or reordered.
pub fn replay(prefix: &mut Vec<u8>, room: usize) -> (bytes: Vec<u8>)
    ensures
        bytes@ + final(prefix)@ == old(prefix)@,
        bytes@.len() == if old(prefix)@.len() < room {
            old(prefix)@.len()
        } else {
            room as nat
        },
{
    let amount: usize = if prefix.len() < room {
        prefix.len()
    } else {
        room
    };
    let mut bytes: Vec<u8> = prefix.split_off(amount);
    std::mem::swap(prefix, &mut bytes);
    assert(bytes@ + prefix@ =~= old(prefix)@);
    bytes
}

} // verus!
