//! Strict, allocation-bounded TLS 1.3 ClientHello parsing used by REALITY.
//!
//! This is deliberately a parser, not a general TLS implementation. It only
//! extracts the fields that REALITY authenticates before the TLS 1.3 state
//! machine takes ownership of the connection.
//!
//! The grammar is given by spec functions on byte sequences, from
//! [`key_share`] and [`server_name`] up to [`handshake`] and [`record_hello`];
//! the executable functions are proved to compute exactly these.
use crate::bytes::{array_views, be16, be24, read_be16, to_array};
use crate::text;
use crate::text::lower;
use vstd::prelude::*;
use vstd::slice::slice_to_vec;
use vstd::utf8::{decode_utf8, valid_utf8};

verus! {

pub const TLS_HANDSHAKE_RECORD: u8 = 22;

pub const CLIENT_HELLO: u8 = 1;

pub const TLS13: u16 = 0x0304;

pub const X25519: u16 = 0x001d;

/// Go/Xray's TLS 1.3 hybrid group. REALITY authenticates using its trailing
/// X25519 public key while the TLS handshake also processes the ML-KEM share.
pub const X25519_MLKEM768: u16 = 0x11ec;

pub const MLKEM768_ENCAPSULATION_KEY_LEN: usize = 1_184;

pub const SNI_EXTENSION: u16 = 0;

pub const SUPPORTED_VERSIONS_EXTENSION: u16 = 43;

pub const KEY_SHARE_EXTENSION: u16 = 51;

/// The longest ClientHello body that is accepted.
pub const MAX_CLIENT_HELLO: usize = 65_536;

/// Where the session ID starts in a handshake message: behind the handshake
/// header (4), the legacy version (2), the random (32) and the session-ID
/// length byte (1). This is the same offset used by Xray.
pub const SESSION_ID_OFFSET: usize = 39;

#[derive(Debug, Clone, PartialEq, Eq)]
pub struct ClientHello {
    /// Raw TLS handshake message (type + u24 length + body), without record
    /// headers. This is the input to TLS transcript hashing.
    pub raw: Vec<u8>,
    /// REALITY's AES-GCM associated data representation. Xray clears the
    /// session-ID bytes before authenticating the ClientHello.
    pub reality_aad: Vec<u8>,
    pub random: [u8; 32],
    pub server_name: String,
    pub x25519_key_share: Option<[u8; 32]>,
    /// Every X25519 component offered by the client, including the trailing
    /// X25519 component of hybrid shares. uTLS fingerprints may offer more
    /// than one representation.
    pub x25519_key_shares: Vec<[u8; 32]>,
    pub encrypted_session_id: Vec<u8>,
}

#[derive(Debug, Clone, PartialEq, Eq)]
pub enum ParseError {
    Truncated,
    InvalidRecord,
    InvalidHandshake,
    TooLarge,
    UnsupportedVersion,
    InvalidExtension,
    MissingServerName,
}

/// What a [`ClientHello`] holds, as mathematical values.
#[verifier::ext_equal]
pub struct HelloView {
    pub raw: Seq<u8>,
    pub reality_aad: Seq<u8>,
    pub random: Seq<u8>,
    pub server_name: Seq<char>,
    pub x25519_key_share: Option<Seq<u8>>,
    pub x25519_key_shares: Seq<Seq<u8>>,
    pub encrypted_session_id: Seq<u8>,
}

impl View for ClientHello {
    type V = HelloView;

    open spec fn view(&self) -> HelloView {
        HelloView {
            raw: self.raw@,
            reality_aad: self.reality_aad@,
            random: self.random@,
            server_name: self.server_name@,
            x25519_key_share: match self.x25519_key_share {
                Some(share) => Some(share@),
                None => None,
            },
            x25519_key_shares: array_views(self.x25519_key_shares@),
            encrypted_session_id: self.encrypted_session_id@,
        }
    }
}

/// What the extensions of a ClientHello say, as far as REALITY reads them.
#[verifier::ext_equal]
pub struct Offer {
    pub server_name: Option<Seq<char>>,
    pub tls13: bool,
    pub key_shares: Seq<Seq<u8>>,
}

/// The offer of a ClientHello without extensions.
pub open spec fn no_offer() -> Offer {
    Offer { server_name: None, tls13: false, key_shares: Seq::empty() }
}

/// A host name: non-empty UTF-8, folded to lower case.
pub open spec fn host_name(name: Seq<u8>) -> Result<Option<Seq<char>>, ParseError> {
    if name.len() == 0 || !valid_utf8(name) {
        Err(ParseError::InvalidExtension)
    } else {
        Ok(Some(lower(decode_utf8(name))))
    }
}

/// The first host name (type 0) in a list of server names, if there is one.
pub open spec fn server_name_entries(entries: Seq<u8>) -> Result<Option<Seq<char>>, ParseError>
    decreases entries.len(),
{
    if entries.len() == 0 {
        Ok(None)
    } else if entries.len() < 3 {
        Err(ParseError::Truncated)
    } else if 3 + be16(entries, 1) > entries.len() {
        Err(ParseError::InvalidExtension)
    } else if entries[0] == 0 {
        host_name(entries.subrange(3, 3 + be16(entries, 1)))
    } else {
        server_name_entries(entries.skip(3 + be16(entries, 1)))
    }
}

/// The server_name extension: a list with a two-byte length.
pub open spec fn server_name(data: Seq<u8>) -> Result<Option<Seq<char>>, ParseError> {
    if data.len() < 2 || 2 + be16(data, 0) != data.len() {
        Err(ParseError::InvalidExtension)
    } else {
        server_name_entries(data.skip(2))
    }
}

/// Whether the `at`-th two-byte version in a list behind a length byte is TLS 1.3.
pub open spec fn offers_tls13_at(data: Seq<u8>, at: int) -> bool {
    0 <= at && 1 + 2 * at + 2 <= data.len() && be16(data, 1 + 2 * at) == TLS13
}

/// The supported_versions extension: whether its list holds TLS 1.3.
pub open spec fn supported_versions(data: Seq<u8>) -> Result<bool, ParseError> {
    if data.len() == 0 || 1 + data[0] != data.len() || data[0] % 2 != 0 {
        Err(ParseError::InvalidExtension)
    } else {
        Ok(exists|at: int| offers_tls13_at(data, at))
    }
}

/// The X25519 public key in a key share, as a list of none or one: a plain
/// X25519 share, or the trailing X25519 part of a hybrid share.
pub open spec fn x25519_part(group: int, share: Seq<u8>) -> Seq<Seq<u8>> {
    if group == X25519 && share.len() == 32 {
        seq![share]
    } else if group == X25519_MLKEM768 && share.len() == MLKEM768_ENCAPSULATION_KEY_LEN + 32 {
        seq![share.skip(MLKEM768_ENCAPSULATION_KEY_LEN as int)]
    } else {
        Seq::empty()
    }
}

/// The X25519 public keys in a list of key shares, in order.
pub open spec fn key_share_entries(entries: Seq<u8>) -> Result<Seq<Seq<u8>>, ParseError>
    decreases entries.len(),
{
    if entries.len() == 0 {
        Ok(Seq::empty())
    } else if entries.len() < 4 {
        Err(ParseError::Truncated)
    } else if 4 + be16(entries, 2) > entries.len() {
        Err(ParseError::InvalidExtension)
    } else {
        let end = 4 + be16(entries, 2);
        match key_share_entries(entries.skip(end)) {
            Ok(rest) => Ok(x25519_part(be16(entries, 0), entries.subrange(4, end)) + rest),
            Err(error) => Err(error),
        }
    }
}

/// The key_share extension: a list with a two-byte length.
pub open spec fn key_share(data: Seq<u8>) -> Result<Seq<Seq<u8>>, ParseError> {
    if data.len() < 2 || 2 + be16(data, 0) != data.len() {
        Err(ParseError::InvalidExtension)
    } else {
        key_share_entries(data.skip(2))
    }
}

/// What one more extension makes of an offer. A later server name or list of
/// versions takes the place of an earlier one; key shares add up.
pub open spec fn extend_offer(offer: Offer, kind: int, data: Seq<u8>) -> Result<Offer, ParseError> {
    if kind == SNI_EXTENSION {
        match server_name(data) {
            Ok(name) => Ok(Offer { server_name: name, ..offer }),
            Err(error) => Err(error),
        }
    } else if kind == SUPPORTED_VERSIONS_EXTENSION {
        match supported_versions(data) {
            Ok(tls13) => Ok(Offer { tls13, ..offer }),
            Err(error) => Err(error),
        }
    } else if kind == KEY_SHARE_EXTENSION {
        match key_share(data) {
            Ok(key_shares) => Ok(Offer { key_shares: offer.key_shares + key_shares, ..offer }),
            Err(error) => Err(error),
        }
    } else {
        Ok(offer)
    }
}

/// What a list of extensions makes of an offer.
pub open spec fn extensions(list: Seq<u8>, offer: Offer) -> Result<Offer, ParseError>
    decreases list.len(),
{
    if list.len() == 0 {
        Ok(offer)
    } else if list.len() < 4 {
        Err(ParseError::Truncated)
    } else if 4 + be16(list, 2) > list.len() {
        Err(ParseError::InvalidExtension)
    } else {
        let end = 4 + be16(list, 2);
        match extend_offer(offer, be16(list, 0), list.subrange(4, end)) {
            Ok(extended) => extensions(list.skip(end), extended),
            Err(error) => Err(error),
        }
    }
}

/// The length of the session ID in a ClientHello body.
pub open spec fn session_id_len(body: Seq<u8>) -> int {
    body[34] as int
}

/// Where the cipher suites of a ClientHello body start: at their length.
pub open spec fn suites_start(body: Seq<u8>) -> int {
    35 + session_id_len(body)
}

/// Where the compression methods start: at their length.
pub open spec fn compression_start(body: Seq<u8>) -> int {
    suites_start(body) + 2 + be16(body, suites_start(body))
}

/// Where the extensions start: at their length.
pub open spec fn extensions_start(body: Seq<u8>) -> int {
    compression_start(body) + 1 + body[compression_start(body)]
}

/// Whether a ClientHello body reaches as far as the length of its extensions,
/// with at least one byte of cipher suites.
pub open spec fn reaches_extensions(body: Seq<u8>) -> bool {
    &&& body.len() >= 35
    &&& suites_start(body) + 2 <= body.len()
    &&& be16(body, suites_start(body)) != 0
    &&& compression_start(body) + 1 <= body.len()
    &&& extensions_start(body) + 2 <= body.len()
}

/// The offer in a ClientHello body.
pub open spec fn body_offer(body: Seq<u8>) -> Result<Offer, ParseError> {
    if !reaches_extensions(body) {
        Err(ParseError::Truncated)
    } else if extensions_start(body) + 2 + be16(body, extensions_start(body)) != body.len() {
        Err(ParseError::InvalidExtension)
    } else {
        extensions(body.skip(extensions_start(body) + 2), no_offer())
    }
}

/// `raw` with the session ID of `len` bytes set to zero.
pub open spec fn clear_session_id(raw: Seq<u8>, len: int) -> Seq<u8> {
    Seq::new(
        raw.len(),
        |i: int|
            if SESSION_ID_OFFSET <= i < SESSION_ID_OFFSET + len {
                0u8
            } else {
                raw[i]
            },
    )
}

/// The ClientHello in a handshake message whose body makes the offer `offer`.
pub open spec fn hello_of(raw: Seq<u8>, offer: Offer) -> Result<HelloView, ParseError> {
    let body = raw.skip(4);
    if !offer.tls13 {
        Err(ParseError::UnsupportedVersion)
    } else {
        match offer.server_name {
            None => Err(ParseError::MissingServerName),
            Some(server_name) => Ok(
                HelloView {
                    raw,
                    reality_aad: clear_session_id(raw, session_id_len(body)),
                    random: body.subrange(2, 34),
                    server_name,
                    x25519_key_share: if offer.key_shares.len() == 0 {
                        None
                    } else {
                        Some(offer.key_shares[0])
                    },
                    x25519_key_shares: offer.key_shares,
                    encrypted_session_id: body.subrange(35, suites_start(body)),
                },
            ),
        }
    }
}

/// The ClientHello in a handshake message.
pub open spec fn handshake(raw: Seq<u8>) -> Result<HelloView, ParseError> {
    if raw.len() < 4 {
        Err(ParseError::Truncated)
    } else if raw[0] != CLIENT_HELLO {
        Err(ParseError::InvalidHandshake)
    } else if be24(raw, 1) > MAX_CLIENT_HELLO {
        Err(ParseError::TooLarge)
    } else if raw.len() != 4 + be24(raw, 1) {
        Err(ParseError::Truncated)
    } else {
        match body_offer(raw.skip(4)) {
            Ok(offer) => hello_of(raw, offer),
            Err(error) => Err(error),
        }
    }
}

/// The ClientHello in a TLS record.
pub open spec fn record_hello(record: Seq<u8>) -> Result<HelloView, ParseError> {
    if record.len() < 5 {
        Err(ParseError::Truncated)
    } else if record[0] != TLS_HANDSHAKE_RECORD {
        Err(ParseError::InvalidRecord)
    } else if record.len() != 5 + be16(record, 3) {
        Err(ParseError::Truncated)
    } else {
        handshake(record.skip(5))
    }
}

/// `result`, with its value replaced by what that holds.
pub open spec fn hello_result(result: Result<ClientHello, ParseError>) -> Result<
    HelloView,
    ParseError,
> {
    match result {
        Ok(hello) => Ok(hello@),
        Err(error) => Err(error),
    }
}

/// Parses a ClientHello that fills one TLS record.
pub fn parse_record(record: &[u8]) -> (result: Result<ClientHello, ParseError>)
    ensures
        hello_result(result) == record_hello(record@),
{
    if record.len() < 5 {
        return Err(ParseError::Truncated);
    }
    if record[0] != TLS_HANDSHAKE_RECORD {
        return Err(ParseError::InvalidRecord);
    }
    // A two-byte length is always below `MAX_CLIENT_HELLO`.
    let len: usize = read_be16(record, 3) as usize;
    if record.len() != len + 5 {
        return Err(ParseError::Truncated);
    }
    assert(record@.subrange(5, record@.len() as int) =~= record@.skip(5));
    parse_handshake(&record[5..record.len()])
}

/// Parses a ClientHello handshake message.
pub fn parse_handshake(raw: &[u8]) -> (result: Result<ClientHello, ParseError>)
    ensures
        hello_result(result) == handshake(raw@),
        result matches Ok(hello) ==> {
            &&& raw@.len() >= 39 + raw@[38]
            &&& hello.raw@ == raw@
            &&& hello.random@ == raw@.subrange(6, 38)
            &&& hello.encrypted_session_id@ == raw@.subrange(39, 39 + raw@[38])
            &&& hello.reality_aad@.len() == raw@.len()
            &&& forall|i: int|
                0 <= i < raw@.len() ==> #[trigger] hello.reality_aad@[i] == if 39 <= i < 39
                    + raw@[38] {
                    0u8
                } else {
                    raw@[i]
                }
            &&& handshake(raw@)->Ok_0.server_name == hello.server_name@
            &&& handshake(raw@)->Ok_0.x25519_key_shares.len() == hello.x25519_key_shares@.len()
            &&& forall|i: int|
                0 <= i < hello.x25519_key_shares@.len() ==> handshake(
                    raw@,
                )->Ok_0.x25519_key_shares[i] == (#[trigger] hello.x25519_key_shares@[i])@
            &&& match hello.x25519_key_share {
                None => hello.x25519_key_shares@.len() == 0,
                Some(share) => hello.x25519_key_shares@.len() > 0 && share
                    == hello.x25519_key_shares@[0],
            }
        },
{
    if raw.len() < 4 {
        return Err(ParseError::Truncated);
    }
    if raw[0] != CLIENT_HELLO {
        return Err(ParseError::InvalidHandshake);
    }
    let body_len: usize = u24(&raw[1..4]);
    if body_len > MAX_CLIENT_HELLO {
        return Err(ParseError::TooLarge);
    }
    if raw.len() != body_len + 4 {
        return Err(ParseError::Truncated);
    }
    let body: &[u8] = &raw[4..raw.len()];
    assert(body@ =~= raw@.skip(4));
    if body.len() < 35 {
        return Err(ParseError::Truncated);
    }
    let sid_len: usize = body[34] as usize;
    let sid_end: usize = 35 + sid_len;
    if sid_end > body.len() {
        return Err(ParseError::Truncated);
    }
    let mut p: usize = sid_end;
    let suites_len: usize = match read_u16(body, &mut p) {
        Ok(len) => len as usize,
        Err(error) => return Err(error),
    };
    p = p + suites_len;
    if suites_len == 0 || p >= body.len() {
        return Err(ParseError::Truncated);
    }
    let compression_len: usize = body[p] as usize;
    p = p + 1 + compression_len;
    if p > body.len() {
        return Err(ParseError::Truncated);
    }
    let extensions_len: usize = match read_u16(body, &mut p) {
        Ok(len) => len as usize,
        Err(error) => return Err(error),
    };
    if p + extensions_len != body.len() {
        return Err(ParseError::InvalidExtension);
    }
    let (name, tls13, x25519_key_shares) = match parse_extensions(&body[p..body.len()]) {
        Ok(offer) => offer,
        Err(error) => {
            assert(body@.subrange(p as int, body@.len() as int) =~= body@.skip(p as int));
            return Err(error);
        },
    };
    assert(body@.subrange(p as int, body@.len() as int) =~= body@.skip(p as int));
    if !tls13 {
        return Err(ParseError::UnsupportedVersion);
    }
    let server_name: String = match name {
        Some(server_name) => server_name,
        None => return Err(ParseError::MissingServerName),
    };
    let x25519_key_share: Option<[u8; 32]> = if x25519_key_shares.len() > 0 {
        Some(x25519_key_shares[0])
    } else {
        None
    };
    let hello = ClientHello {
        raw: slice_to_vec(raw),
        reality_aad: cleared(raw, sid_len),
        random: to_array(&body[2..34]),
        server_name,
        x25519_key_share,
        x25519_key_shares,
        encrypted_session_id: slice_to_vec(&body[35..sid_end]),
    };
    assert(hello_result(Ok(hello)) == handshake(raw@));
    assert(body@.subrange(2, 34) =~= raw@.subrange(6, 38));
    assert(body@.subrange(35, sid_end as int) =~= raw@.subrange(39, 39 + sid_len as int));
    Ok(hello)
}

/// Copies a handshake message and clears its session ID of `len` bytes.
fn cleared(raw: &[u8], len: usize) -> (aad: Vec<u8>)
    requires
        SESSION_ID_OFFSET + len <= raw@.len(),
    ensures
        aad@ == clear_session_id(raw@, len as int),
{
    let mut aad: Vec<u8> = slice_to_vec(raw);
    assert(aad.len() == raw@.len());
    let end: usize = SESSION_ID_OFFSET + len;
    let mut i: usize = SESSION_ID_OFFSET;
    while i < end
        invariant
            SESSION_ID_OFFSET <= i <= end,
            end == SESSION_ID_OFFSET + len <= raw@.len(),
            aad@.len() == raw@.len(),
            forall|j: int|
                0 <= j < raw@.len() ==> aad@[j] == (if SESSION_ID_OFFSET <= j < i {
                    0u8
                } else {
                    raw@[j]
                }),
        decreases end - i,
    {
        aad[i] = 0;
        i += 1;
    }
    assert(aad@ =~= clear_session_id(raw@, len as int));
    aad
}

/// What the exec side of an [`Offer`] holds.
pub open spec fn offer_of(name: Option<String>, tls13: bool, shares: Seq<[u8; 32]>) -> Offer {
    Offer {
        server_name: match name {
            Some(name) => Some(name@),
            None => None,
        },
        tls13,
        key_shares: array_views(shares),
    }
}

/// Parses the extensions of a ClientHello: the server name, whether TLS 1.3 is
/// offered, and the X25519 public keys.
pub fn parse_extensions(list: &[u8]) -> (result: Result<
    (Option<String>, bool, Vec<[u8; 32]>),
    ParseError,
>)
    ensures
        extensions(list@, no_offer()) == match result {
            Ok(offer) => Ok(offer_of(offer.0, offer.1, offer.2@)),
            Err(error) => Err(error),
        },
{
    let mut server_name: Option<String> = None;
    let mut tls13: bool = false;
    let mut shares: Vec<[u8; 32]> = Vec::new();
    let mut p: usize = 0;
    assert(list@.skip(0) =~= list@);
    assert(offer_of(server_name, tls13, shares@) =~= no_offer());
    while p < list.len()
        invariant
            p <= list@.len(),
            extensions(list@, no_offer()) == extensions(
                list@.skip(p as int),
                offer_of(server_name, tls13, shares@),
            ),
        decreases list@.len() - p,
    {
        let ghost rest = list@.skip(p as int);
        let ghost offer = offer_of(server_name, tls13, shares@);
        let kind: u16 = match read_u16(list, &mut p) {
            Ok(kind) => kind,
            Err(error) => return Err(error),
        };
        let len: usize = match read_u16(list, &mut p) {
            Ok(len) => len as usize,
            Err(error) => return Err(error),
        };
        if list.len() - p < len {
            return Err(ParseError::InvalidExtension);
        }
        let end: usize = p + len;
        let data: &[u8] = &list[p..end];
        assert(data@ =~= rest.subrange(4, 4 + be16(rest, 2)));
        assert(list@.skip(end as int) =~= rest.skip(4 + be16(rest, 2)));
        match kind {
            SNI_EXTENSION => match parse_sni(data) {
                Ok(name) => server_name = name,
                Err(error) => return Err(error),
            },
            SUPPORTED_VERSIONS_EXTENSION => match parse_supported_versions(data) {
                Ok(offered) => tls13 = offered,
                Err(error) => return Err(error),
            },
            KEY_SHARE_EXTENSION => match parse_key_share(data) {
                Ok(mut offered) => {
                    let ghost added = array_views(offered@);
                    shares.append(&mut offered);
                    assert(array_views(shares@) =~= offer.key_shares + added);
                },
                Err(error) => return Err(error),
            },
            _ => {},
        }
        p = end;
    }
    Ok((server_name, tls13, shares))
}

/// Parses a server_name extension.
pub fn parse_sni(data: &[u8]) -> (result: Result<Option<String>, ParseError>)
    ensures
        server_name(data@) == match result {
            Ok(Some(name)) => Ok(Some(name@)),
            Ok(None) => Ok(None),
            Err(error) => Err(error),
        },
{
    if data.len() < 2 {
        return Err(ParseError::InvalidExtension);
    }
    let total: usize = read_be16(data, 0) as usize;
    if total + 2 != data.len() {
        return Err(ParseError::InvalidExtension);
    }
    let mut p: usize = 2;
    while p < data.len()
        invariant
            2 <= p <= data@.len(),
            server_name(data@) == server_name_entries(data@.skip(p as int)),
        decreases data@.len() - p,
    {
        let ghost rest = data@.skip(p as int);
        let kind: u8 = data[p];
        p += 1;
        let len: usize = match read_u16(data, &mut p) {
            Ok(len) => len as usize,
            Err(error) => return Err(error),
        };
        if data.len() - p < len {
            return Err(ParseError::InvalidExtension);
        }
        let end: usize = p + len;
        if kind == 0 {
            let bytes: &[u8] = &data[p..end];
            assert(bytes@ =~= rest.subrange(3, 3 + be16(rest, 1)));
            if bytes.len() == 0 {
                return Err(ParseError::InvalidExtension);
            }
            return match text::decode(bytes) {
                Some(name) => Ok(Some(name.to_ascii_lowercase())),
                None => Err(ParseError::InvalidExtension),
            };
        }
        assert(data@.skip(end as int) =~= rest.skip(3 + be16(rest, 1)));
        p = end;
    }
    Ok(None)
}

/// Parses a supported_versions extension: whether it offers TLS 1.3.
pub fn parse_supported_versions(data: &[u8]) -> (result: Result<bool, ParseError>)
    ensures
        result == supported_versions(data@),
{
    if data.len() == 0 {
        return Err(ParseError::InvalidExtension);
    }
    let len: usize = data[0] as usize;
    if len + 1 != data.len() || len % 2 != 0 {
        return Err(ParseError::InvalidExtension);
    }
    let mut i: usize = 0;
    while i < len / 2
        invariant
            len + 1 == data@.len(),
            len == data@[0],
            len % 2 == 0,
            i <= len / 2,
            forall|at: int| at < i ==> !offers_tls13_at(data@, at),
        decreases len / 2 - i,
    {
        if read_be16(data, 1 + 2 * i) == TLS13 {
            assert(offers_tls13_at(data@, i as int));
            return Ok(true);
        }
        i += 1;
    }
    Ok(false)
}

/// Parses a key_share extension: the X25519 public keys in it.
pub fn parse_key_share(data: &[u8]) -> (result: Result<Vec<[u8; 32]>, ParseError>)
    ensures
        key_share(data@) == match result {
            Ok(shares) => Ok(array_views(shares@)),
            Err(error) => Err(error),
        },
{
    if data.len() < 2 {
        return Err(ParseError::InvalidExtension);
    }
    let total: usize = read_be16(data, 0) as usize;
    if total + 2 != data.len() {
        return Err(ParseError::InvalidExtension);
    }
    let mut p: usize = 2;
    let mut shares: Vec<[u8; 32]> = Vec::new();
    assert(array_views(shares@) =~= Seq::empty());
    proof {
        if let Ok(rest) = key_share_entries(data@.skip(2)) {
            assert(array_views(shares@) + rest =~= rest);
        }
    }
    while p < data.len()
        invariant
            2 <= p <= data@.len(),
            key_share(data@) == match key_share_entries(data@.skip(p as int)) {
                Ok(rest) => Ok(array_views(shares@) + rest),
                Err(error) => Err(error),
            },
        decreases data@.len() - p,
    {
        let ghost rest = data@.skip(p as int);
        let ghost before = array_views(shares@);
        let group: u16 = match read_u16(data, &mut p) {
            Ok(group) => group,
            Err(error) => return Err(error),
        };
        let len: usize = match read_u16(data, &mut p) {
            Ok(len) => len as usize,
            Err(error) => return Err(error),
        };
        if data.len() - p < len {
            return Err(ParseError::InvalidExtension);
        }
        let end: usize = p + len;
        let ghost share = rest.subrange(4, 4 + be16(rest, 2));
        if group == X25519 && len == 32 {
            shares.push(to_array(&data[p..end]));
            assert(data@.subrange(p as int, end as int) =~= share);
        }
        if group == X25519_MLKEM768 && len == MLKEM768_ENCAPSULATION_KEY_LEN + 32 {
            shares.push(to_array(&data[end - 32..end]));
            assert(data@.subrange(end - 32, end as int) =~= share.skip(
                MLKEM768_ENCAPSULATION_KEY_LEN as int,
            ));
        }
        assert(array_views(shares@) =~= before + x25519_part(group as int, share));
        assert(data@.skip(end as int) =~= rest.skip(4 + be16(rest, 2)));
        proof {
            if let Ok(tail) = key_share_entries(data@.skip(end as int)) {
                assert(before + (x25519_part(group as int, share) + tail) =~= array_views(shares@)
                    + tail);
            }
        }
        p = end;
    }
    assert(array_views(shares@) + Seq::<Seq<u8>>::empty() =~= array_views(shares@));
    Ok(shares)
}

/// Reads the big-endian number in the two bytes at `*pos`, and moves `*pos`
/// behind them.
pub fn read_u16(data: &[u8], pos: &mut usize) -> (result: Result<u16, ParseError>)
    ensures
        *old(pos) + 2 <= data@.len() ==> (result matches Ok(n) && n == be16(
            data@,
            *old(pos) as int,
        )) && *final(pos) == *old(pos) + 2,
        *old(pos) + 2 > data@.len() ==> result == Err::<u16, ParseError>(ParseError::Truncated)
            && *final(pos) == *old(pos),
{
    if data.len() < 2 || *pos > data.len() - 2 {
        return Err(ParseError::Truncated);
    }
    let n: u16 = read_be16(data, *pos);
    *pos = *pos + 2;
    Ok(n)
}

/// Reads the big-endian number in three bytes.
pub fn u24(data: &[u8]) -> (n: usize)
    requires
        data@.len() >= 3,
    ensures
        n == be24(data@, 0),
{
    (data[0] as usize) * 0x1_0000 + (data[1] as usize) * 0x100 + (data[2] as usize)
}

} // verus!
