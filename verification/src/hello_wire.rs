//! The wire form of a ClientHello, and the laws that tie the parser to it.
//!
//! The functions here write what [`crate::tls_client_hello`] reads. They are
//! mathematical only; the server never sends a ClientHello. The numbers that TLS
//! assigns are written out, independently of the parser's constants.
use crate::bytes::{be16, be16_bytes, be24, be24_bytes};
use crate::text::{law_lower_idempotent, law_lower_keeps_bytes, lower};
use crate::tls_client_hello::{
    body_offer, clear_session_id, compression_start, extend_offer, extensions, extensions_start,
    handshake, hello_of, host_name, key_share, key_share_entries, no_offer, offers_tls13_at,
    reaches_extensions, record_hello, server_name, server_name_entries, session_id_len, suites_start,
    supported_versions, x25519_part, HelloView, Offer, ParseError,
};
use vstd::prelude::*;
use vstd::utf8::{decode_utf8, decode_utf8_encode_utf8, encode_utf8, valid_utf8};

verus! {

/// A byte string behind its two-byte length.
pub open spec fn vec16(data: Seq<u8>) -> Seq<u8> {
    be16_bytes(data.len() as int) + data
}

/// Two bytes hold every number below 65536.
proof fn lemma_be16_bytes(n: int)
    requires
        0 <= n < 0x1_0000,
    ensures
        be16_bytes(n).len() == 2,
        be16(be16_bytes(n), 0) == n,
{
}

/// A tagged byte string: an extension or a key share.
pub struct Tagged {
    pub tag: u16,
    pub data: Seq<u8>,
}

/// The wire form of a tagged byte string.
pub open spec fn tagged_bytes(item: Tagged) -> Seq<u8> {
    be16_bytes(item.tag as int) + vec16(item.data)
}

/// The wire form of a list of tagged byte strings.
pub open spec fn tagged_list(items: Seq<Tagged>) -> Seq<u8>
    decreases items.len(),
{
    if items.len() == 0 {
        Seq::empty()
    } else {
        tagged_bytes(items[0]) + tagged_list(items.drop_first())
    }
}

/// Whether the length of each byte string fits its two bytes.
pub open spec fn lengths_fit(items: Seq<Tagged>) -> bool {
    forall|i: int| 0 <= i < items.len() ==> (#[trigger] items[i]).data.len() < 0x1_0000
}

/// The head of a list of tagged byte strings.
proof fn lemma_tagged_head(items: Seq<Tagged>)
    requires
        items.len() > 0,
        lengths_fit(items),
    ensures
        ({
            let list = tagged_list(items);
            let end = 4 + items[0].data.len();
            &&& list.len() >= end
            &&& be16(list, 0) == items[0].tag
            &&& be16(list, 2) == items[0].data.len()
            &&& list.subrange(4, end as int) == items[0].data
            &&& list.skip(end as int) == tagged_list(items.drop_first())
        }),
{
    let item = items[0];
    let head = tagged_bytes(item);
    let rest = tagged_list(items.drop_first());
    let list = tagged_list(items);
    let end = 4 + item.data.len() as int;
    lemma_be16_bytes(item.tag as int);
    lemma_be16_bytes(item.data.len() as int);
    assert(list == head + rest);
    assert(head.len() == end);
    assert(list[0] == be16_bytes(item.tag as int)[0]);
    assert(list[1] == be16_bytes(item.tag as int)[1]);
    assert(list[2] == be16_bytes(item.data.len() as int)[0]);
    assert(list[3] == be16_bytes(item.data.len() as int)[1]);
    assert(list.subrange(4, end) =~= item.data);
    assert(list.skip(end) =~= rest);
}

/// What a list of extensions makes of an offer, one after the other.
pub open spec fn offer_from(items: Seq<Tagged>, offer: Offer) -> Result<Offer, ParseError>
    decreases items.len(),
{
    if items.len() == 0 {
        Ok(offer)
    } else {
        match extend_offer(offer, items[0].tag as int, items[0].data) {
            Ok(extended) => offer_from(items.drop_first(), extended),
            Err(error) => Err(error),
        }
    }
}

/// Every list of extensions is read back from its wire form.
pub proof fn law_extensions_round_trip(items: Seq<Tagged>, offer: Offer)
    requires
        lengths_fit(items),
    ensures
        extensions(tagged_list(items), offer) == offer_from(items, offer),
    decreases items.len(),
{
    if items.len() > 0 {
        lemma_tagged_head(items);
        match extend_offer(offer, items[0].tag as int, items[0].data) {
            Ok(extended) => law_extensions_round_trip(items.drop_first(), extended),
            Err(_) => {},
        }
    }
}

/// The X25519 public key that a key share holds, as a list of none or one: all of
/// a share of group 0x001d with 32 bytes, and the last 32 bytes of a share of
/// group 0x11ec with 1184 bytes before them.
pub open spec fn public_key_in(share: Tagged) -> Seq<Seq<u8>> {
    if share.tag == 0x001d && share.data.len() == 32 {
        seq![share.data]
    } else if share.tag == 0x11ec && share.data.len() == 1216 {
        seq![share.data.subrange(1184, 1216)]
    } else {
        Seq::empty()
    }
}

/// The X25519 public keys in a list of key shares, in order.
pub open spec fn x25519_parts(shares: Seq<Tagged>) -> Seq<Seq<u8>>
    decreases shares.len(),
{
    if shares.len() == 0 {
        Seq::empty()
    } else {
        public_key_in(shares[0]) + x25519_parts(shares.drop_first())
    }
}

/// From every list of key shares the X25519 public keys are read: those of plain
/// X25519 shares and those behind the ML-KEM part of hybrid shares, in order.
pub proof fn law_key_share_round_trip(shares: Seq<Tagged>)
    requires
        lengths_fit(shares),
        tagged_list(shares).len() < 0x1_0000,
    ensures
        key_share(vec16(tagged_list(shares))) == Ok::<Seq<Seq<u8>>, ParseError>(
            x25519_parts(shares),
        ),
{
    let list = tagged_list(shares);
    lemma_be16_bytes(list.len() as int);
    assert(be16(vec16(list), 0) == list.len());
    assert(vec16(list).skip(2) =~= list);
    lemma_key_share_entries(shares);
}

proof fn lemma_key_share_entries(shares: Seq<Tagged>)
    requires
        lengths_fit(shares),
    ensures
        key_share_entries(tagged_list(shares)) == Ok::<Seq<Seq<u8>>, ParseError>(
            x25519_parts(shares),
        ),
    decreases shares.len(),
{
    if shares.len() > 0 {
        lemma_tagged_head(shares);
        lemma_key_share_entries(shares.drop_first());
        let share = shares[0];
        if share.data.len() == 1216 {
            assert(share.data.skip(1184) =~= share.data.subrange(1184, 1216));
        }
        assert(x25519_part(share.tag as int, share.data) =~= public_key_in(share));
    }
}

/// Whatever 32 bytes a client offers as its X25519 public key, they are found: as
/// a share of their own, and behind whatever ML-KEM key.
pub proof fn law_single_share(key: Seq<u8>, mlkem: Seq<u8>)
    requires
        key.len() == 32,
        mlkem.len() == 1184,
    ensures
        key_share(seq![0u8, 36, 0x00, 0x1d, 0, 32] + key) == Ok::<Seq<Seq<u8>>, ParseError>(
            seq![key],
        ),
        key_share(seq![0x04u8, 0xc4, 0x11, 0xec, 0x04, 0xc0] + mlkem + key) == Ok::<
            Seq<Seq<u8>>,
            ParseError,
        >(seq![key]),
{
    let plain = seq![Tagged { tag: 0x001d, data: key }];
    let hybrid = seq![Tagged { tag: 0x11ec, data: mlkem + key }];
    assert(plain.drop_first() =~= Seq::empty());
    assert(hybrid.drop_first() =~= Seq::empty());
    assert(tagged_list(plain.drop_first()) =~= Seq::empty());
    assert(tagged_list(hybrid.drop_first()) =~= Seq::empty());
    assert(vec16(tagged_list(plain)) =~= seq![0u8, 36, 0x00, 0x1d, 0, 32] + key);
    assert(vec16(tagged_list(hybrid)) =~= seq![0x04u8, 0xc4, 0x11, 0xec, 0x04, 0xc0] + mlkem + key);
    law_key_share_round_trip(plain);
    law_key_share_round_trip(hybrid);
    assert((mlkem + key).subrange(1184, 1216) =~= key);
    assert(x25519_parts(plain.drop_first()) =~= Seq::empty());
    assert(x25519_parts(hybrid.drop_first()) =~= Seq::empty());
    assert(x25519_parts(plain) =~= seq![key]);
    assert(x25519_parts(hybrid) =~= seq![key]);
}

/// A server name of a type.
pub struct NamedEntry {
    pub kind: u8,
    pub name: Seq<u8>,
}

/// The wire form of a list of server names.
pub open spec fn name_list(entries: Seq<NamedEntry>) -> Seq<u8>
    decreases entries.len(),
{
    if entries.len() == 0 {
        Seq::empty()
    } else {
        seq![entries[0].kind] + vec16(entries[0].name) + name_list(entries.drop_first())
    }
}

/// The first host name in a list of server names.
pub open spec fn first_host(entries: Seq<NamedEntry>) -> Result<Option<Seq<char>>, ParseError>
    decreases entries.len(),
{
    if entries.len() == 0 {
        Ok(None)
    } else if entries[0].kind == 0 {
        host_name(entries[0].name)
    } else {
        first_host(entries.drop_first())
    }
}

/// From every list of server names the first host name is read.
pub proof fn law_server_name_round_trip(entries: Seq<NamedEntry>)
    requires
        forall|i: int| 0 <= i < entries.len() ==> (#[trigger] entries[i]).name.len() < 0x1_0000,
        name_list(entries).len() < 0x1_0000,
    ensures
        server_name(vec16(name_list(entries))) == first_host(entries),
{
    let list = name_list(entries);
    lemma_be16_bytes(list.len() as int);
    assert(be16(vec16(list), 0) == list.len());
    assert(vec16(list).skip(2) =~= list);
    lemma_server_name_entries(entries);
}

proof fn lemma_server_name_entries(entries: Seq<NamedEntry>)
    requires
        forall|i: int| 0 <= i < entries.len() ==> (#[trigger] entries[i]).name.len() < 0x1_0000,
    ensures
        server_name_entries(name_list(entries)) == first_host(entries),
    decreases entries.len(),
{
    if entries.len() > 0 {
        let entry = entries[0];
        let list = name_list(entries);
        let rest = name_list(entries.drop_first());
        let end = 3 + entry.name.len() as int;
        let head = seq![entry.kind] + vec16(entry.name);
        lemma_be16_bytes(entry.name.len() as int);
        assert(list == head + rest);
        assert(head.len() == end);
        assert(list[1] == be16_bytes(entry.name.len() as int)[0]);
        assert(list[2] == be16_bytes(entry.name.len() as int)[1]);
        assert(be16(list, 1) == entry.name.len());
        assert(list.subrange(3, end) =~= entry.name);
        assert(list.skip(end) =~= rest);
        lemma_server_name_entries(entries.drop_first());
    }
}

/// A host name is read without regard to the case of its ASCII letters.
pub proof fn law_host_name(name: Seq<char>)
    requires
        name.len() > 0,
    ensures
        host_name(encode_utf8(name)) == Ok::<Option<Seq<char>>, ParseError>(Some(lower(name))),
        lower(lower(name)) == lower(name),
{
    vstd::utf8::encode_utf8_valid_utf8(name);
    vstd::utf8::encode_utf8_decode_utf8(name);
    if encode_utf8(name).len() == 0 {
        assert(decode_utf8(encode_utf8(name)).len() == 0);
    }
    law_lower_idempotent(name);
}

/// The wire form of a list of versions.
pub open spec fn versions_bytes(versions: Seq<u16>) -> Seq<u8> {
    seq![(2 * versions.len()) as u8] + Seq::new(
        2 * versions.len(),
        |i: int| be16_bytes(versions[i / 2] as int)[i % 2],
    )
}

/// TLS 1.3 is offered exactly where the list of versions holds it.
pub proof fn law_supported_versions_round_trip(versions: Seq<u16>)
    requires
        versions.len() <= 127,
    ensures
        supported_versions(versions_bytes(versions)) == Ok::<bool, ParseError>(
            versions.contains(0x0304u16),
        ),
{
    let data = versions_bytes(versions);
    assert(data[0] == 2 * versions.len());
    assert forall|at: int| 0 <= at < versions.len() implies #[trigger] be16(data, 1 + 2 * at)
        == versions[at] by {
        assert((2 * at) / 2 == at && (2 * at) % 2 == 0);
        assert((2 * at + 1) / 2 == at && (2 * at + 1) % 2 == 1);
    }
    if versions.contains(0x0304u16) {
        let at = versions.index_of(0x0304u16);
        assert(be16(data, 1 + 2 * at) == versions[at]);
        assert(offers_tls13_at(data, at));
    } else {
        assert forall|at: int| !offers_tls13_at(data, at) by {
            if 0 <= at && 1 + 2 * at + 2 <= data.len() {
                assert(be16(data, 1 + 2 * at) == versions[at]);
            }
        }
    }
}

/// A ClientHello, field by field.
pub struct HelloParts {
    pub version: Seq<u8>,
    pub random: Seq<u8>,
    pub session_id: Seq<u8>,
    pub suites: Seq<u8>,
    pub compression: Seq<u8>,
    pub extensions: Seq<Tagged>,
}

impl HelloParts {
    /// Whether the fields have a wire form that is within the accepted size.
    pub open spec fn fits(self) -> bool {
        &&& self.version.len() == 2
        &&& self.random.len() == 32
        &&& self.session_id.len() < 0x100
        &&& 0 < self.suites.len() < 0x1_0000
        &&& self.compression.len() < 0x100
        &&& lengths_fit(self.extensions)
        &&& tagged_list(self.extensions).len() < 0x1_0000
        &&& self.body().len() <= 65_536
    }

    /// The part up to the session ID.
    pub open spec fn front(self) -> Seq<u8> {
        self.version + self.random + seq![self.session_id.len() as u8]
    }

    /// The part behind the session ID and up to the extensions.
    pub open spec fn middle(self) -> Seq<u8> {
        vec16(self.suites) + (seq![self.compression.len() as u8] + self.compression)
    }

    /// The body of the handshake message.
    pub open spec fn body(self) -> Seq<u8> {
        self.front() + self.session_id + (self.middle() + vec16(tagged_list(self.extensions)))
    }

    /// The handshake message.
    pub open spec fn bytes(self) -> Seq<u8> {
        seq![1u8] + be24_bytes(self.body().len() as int) + self.body()
    }

    /// The same ClientHello with another session ID.
    pub open spec fn with_session_id(self, session_id: Seq<u8>) -> HelloParts {
        HelloParts { session_id, ..self }
    }

    /// The ClientHello that a parser should find, if its extensions make `offer`.
    pub open spec fn view_with(self, offer: Offer) -> HelloView {
        HelloView {
            raw: self.bytes(),
            reality_aad: self.with_session_id(
                Seq::new(self.session_id.len(), |i: int| 0u8),
            ).bytes(),
            random: self.random,
            server_name: offer.server_name->0,
            x25519_key_share: if offer.key_shares.len() == 0 {
                None
            } else {
                Some(offer.key_shares[0])
            },
            x25519_key_shares: offer.key_shares,
            encrypted_session_id: self.session_id,
        }
    }
}

/// Where the fields of a ClientHello stand in its body.
proof fn lemma_body_layout(parts: HelloParts)
    requires
        parts.fits(),
    ensures
        ({
            let body = parts.body();
            let list = tagged_list(parts.extensions);
            let start = extensions_start(body);
            &&& body.len() >= 35
            &&& session_id_len(body) == parts.session_id.len()
            &&& body.subrange(2, 34) == parts.random
            &&& body.subrange(35, suites_start(body)) == parts.session_id
            &&& reaches_extensions(body)
            &&& start + 2 + be16(body, start) == body.len()
            &&& body.skip(start + 2) == list
        }),
{
    let body = parts.body();
    let list = tagged_list(parts.extensions);
    let tail = parts.middle() + vec16(list);
    let sid = parts.session_id.len() as int;
    let suites = parts.suites.len() as int;
    let compression = parts.compression.len() as int;
    lemma_be16_bytes(suites);
    lemma_be16_bytes(list.len() as int);
    assert(parts.front().len() == 35);
    assert(parts.middle().len() == 3 + suites + compression);
    assert(tail.len() == 5 + suites + compression + list.len());
    assert(body.len() == 35 + sid + tail.len());
    assert(body[34] == sid);
    assert(body.subrange(2, 34) =~= parts.random);
    assert(body.subrange(35, 35 + sid) =~= parts.session_id);
    assert forall|i: int| 0 <= i < tail.len() implies body[35 + sid + i] == tail[i] by {}
    assert(tail[0] == be16_bytes(suites)[0] && tail[1] == be16_bytes(suites)[1]);
    assert(be16(body, 35 + sid) == suites) by {
        assert(body[35 + sid + 0] == tail[0] && body[35 + sid + 1] == tail[1]);
    }
    assert(compression_start(body) == 35 + sid + (2 + suites));
    assert(tail[2 + suites] == compression);
    assert(body[35 + sid + (2 + suites)] == tail[2 + suites]);
    assert(extensions_start(body) == 35 + sid + (3 + suites + compression));
    let at = 3 + suites + compression;
    assert(tail[at] == be16_bytes(list.len() as int)[0]);
    assert(tail[at + 1] == be16_bytes(list.len() as int)[1]);
    assert(body[35 + sid + at] == tail[at]);
    assert(body[35 + sid + (at + 1)] == tail[at + 1]);
    assert(be16(body, 35 + sid + at) == list.len());
    assert(body.skip(35 + sid + at + 2) =~= list);
}

/// The header of a handshake message.
proof fn lemma_header(body: Seq<u8>)
    requires
        body.len() < 0x100_0000,
    ensures
        ({
            let raw = seq![1u8] + be24_bytes(body.len() as int) + body;
            &&& raw.len() == 4 + body.len()
            &&& raw[0] == 1u8
            &&& be24(raw, 1) == body.len()
            &&& raw.skip(4) == body
        }),
{
    let len = body.len() as int;
    let raw = seq![1u8] + be24_bytes(len) + body;
    assert(raw[1] == (len / 0x1_0000) as u8);
    assert(raw[2] == (len / 0x100 % 0x100) as u8);
    assert(raw[3] == (len % 0x100) as u8);
    assert(raw.skip(4) =~= body);
}

/// Clearing the session ID replaces it by zeros.
proof fn lemma_cleared(front: Seq<u8>, session_id: Seq<u8>, tail: Seq<u8>)
    requires
        front.len() == 39,
    ensures
        clear_session_id(front + session_id + tail, session_id.len() as int) == front + Seq::new(
            session_id.len(),
            |i: int| 0u8,
        ) + tail,
{
    assert(clear_session_id(front + session_id + tail, session_id.len() as int) =~= front
        + Seq::new(session_id.len(), |i: int| 0u8) + tail);
}

/// The associated data of a ClientHello is the message with zeros for its
/// session ID.
proof fn lemma_cleared_hello(parts: HelloParts)
    requires
        parts.fits(),
    ensures
        clear_session_id(parts.bytes(), parts.session_id.len() as int) == parts.with_session_id(
            Seq::new(parts.session_id.len(), |i: int| 0u8),
        ).bytes(),
{
    let zero = Seq::new(parts.session_id.len(), |i: int| 0u8);
    let zeros = parts.with_session_id(zero);
    let tail = parts.middle() + vec16(tagged_list(parts.extensions));
    let header = seq![1u8] + be24_bytes(parts.body().len() as int);
    assert(zeros.body() == parts.front() + zero + tail);
    assert(zeros.body().len() == parts.body().len());
    assert(parts.bytes() =~= header + parts.front() + parts.session_id + tail);
    assert(zeros.bytes() =~= header + parts.front() + zero + tail);
    lemma_cleared(header + parts.front(), parts.session_id, tail);
}

/// A handshake message with a sound header is read as its body says.
proof fn lemma_handshake_of(raw: Seq<u8>, body: Seq<u8>, offer: Result<Offer, ParseError>)
    requires
        raw.len() == 4 + body.len(),
        raw[0] == 1u8,
        be24(raw, 1) == body.len(),
        raw.skip(4) == body,
        body.len() <= 65_536,
        body_offer(body) == offer,
    ensures
        handshake(raw) == match offer {
            Ok(offer) => hello_of(raw, offer),
            Err(error) => Err(error),
        },
{
}

/// Every ClientHello within the accepted size is read back from its wire form:
/// it is refused where its extensions are, where it does not offer TLS 1.3 or
/// where it names no server, and otherwise its fields are found. The associated
/// data is the same message with a session ID of zeros.
pub proof fn law_hello_round_trip(parts: HelloParts)
    requires
        parts.fits(),
    ensures
        handshake(parts.bytes()) == match offer_from(parts.extensions, no_offer()) {
            Err(error) => Err(error),
            Ok(offer) => if !offer.tls13 {
                Err(ParseError::UnsupportedVersion)
            } else if offer.server_name is None {
                Err(ParseError::MissingServerName)
            } else {
                Ok(parts.view_with(offer))
            },
        },
{
    lemma_header(parts.body());
    lemma_body_layout(parts);
    lemma_cleared_hello(parts);
    law_extensions_round_trip(parts.extensions, no_offer());
    lemma_handshake_of(
        parts.bytes(),
        parts.body(),
        offer_from(parts.extensions, no_offer()),
    );
}

/// A record that holds exactly one ClientHello is read as that ClientHello,
/// whatever version the record header names.
pub proof fn law_record_round_trip(version: Seq<u8>, raw: Seq<u8>)
    requires
        version.len() == 2,
        raw.len() < 0x1_0000,
    ensures
        record_hello(seq![22u8] + version + vec16(raw)) == handshake(raw),
{
    let record = seq![22u8] + version + vec16(raw);
    lemma_be16_bytes(raw.len() as int);
    assert(record[3] == be16_bytes(raw.len() as int)[0]);
    assert(record[4] == be16_bytes(raw.len() as int)[1]);
    assert(be16(record, 3) == raw.len());
    assert(record.skip(5) =~= raw);
}

/// Whether two messages of the same length differ at most in the session ID of
/// the first one.
pub open spec fn same_but_session_id(raw: Seq<u8>, other: Seq<u8>) -> bool {
    &&& raw.len() == other.len()
    &&& forall|i: int|
        0 <= i < raw.len() && !(39 <= i < 39 + session_id_len(
            raw.skip(4),
        )) ==> raw[i] == #[trigger] other[i]
}

/// The session ID is opaque to the parser: with another one of the same length a
/// ClientHello is accepted as before, and all that changes is the message itself
/// and the session ID in it. In particular the associated data, over which a
/// client seals its session ID, does not depend on the session ID.
pub proof fn law_session_id_opaque(raw: Seq<u8>, other: Seq<u8>, hello: HelloView)
    requires
        handshake(raw) == Ok::<HelloView, ParseError>(hello),
        same_but_session_id(raw, other),
    ensures
        handshake(other) == Ok::<HelloView, ParseError>(
            HelloView {
                raw: other,
                encrypted_session_id: other.subrange(
                    39,
                    39 + hello.encrypted_session_id.len() as int,
                ),
                ..hello
            },
        ),
{
    let body = raw.skip(4);
    let changed = other.skip(4);
    let sid = session_id_len(body);
    assert(reaches_extensions(body));
    assert(39 + sid <= raw.len());
    assert forall|i: int| 0 <= i < body.len() && !(35 <= i < 35 + sid) implies body[i]
        == #[trigger] changed[i] by {
        assert(raw[4 + i] == other[4 + i]);
    }
    assert(raw[0] == other[0] && raw[1] == other[1] && raw[2] == other[2] && raw[3] == other[3]);
    assert(session_id_len(changed) == sid);
    assert(suites_start(changed) == suites_start(body));
    assert(be16(changed, suites_start(body)) == be16(body, suites_start(body)));
    assert(compression_start(changed) == compression_start(body));
    assert(extensions_start(changed) == extensions_start(body));
    let start = extensions_start(body);
    assert(be16(changed, start) == be16(body, start));
    assert(changed.skip(start + 2) =~= body.skip(start + 2));
    assert(changed.subrange(2, 34) =~= body.subrange(2, 34));
    assert(changed.subrange(35, 35 + sid) =~= other.subrange(
        39,
        39 + sid,
    ));
    assert(clear_session_id(other, sid) =~= clear_session_id(raw, sid));
}

/// X25519 public keys have 32 bytes, and each takes at least 36 bytes of the
/// list that it stands in.
proof fn lemma_key_shares_bounded(entries: Seq<u8>, shares: Seq<Seq<u8>>)
    requires
        key_share_entries(entries) == Ok::<Seq<Seq<u8>>, ParseError>(shares),
    ensures
        36 * shares.len() <= entries.len(),
        forall|i: int| 0 <= i < shares.len() ==> (#[trigger] shares[i]).len() == 32,
    decreases entries.len(),
{
    if entries.len() > 0 {
        let end = 4 + be16(entries, 2);
        let rest = key_share_entries(entries.skip(end))->Ok_0;
        lemma_key_shares_bounded(entries.skip(end), rest);
    }
}

/// The number of bytes of an optional name.
spec fn name_len(name: Option<Seq<char>>) -> nat {
    match name {
        Some(name) => encode_utf8(name).len(),
        None => 0,
    }
}

/// What holds of the offer in `len` bytes of extensions.
spec fn offer_bounded(offer: Offer, len: int) -> bool {
    &&& name_len(offer.server_name) + 36 * offer.key_shares.len() <= len
    &&& forall|i: int|
        0 <= i < offer.key_shares.len() ==> (#[trigger] offer.key_shares[i]).len() == 32
    &&& offer.server_name matches Some(name) ==> name.len() > 0 && lower(name) == name
}

/// A host name takes no more bytes than the list that it stands in.
proof fn lemma_host_name_bounded(entries: Seq<u8>)
    ensures
        server_name_entries(entries) matches Ok(Some(name)) ==> name.len() > 0 && lower(name)
            == name && encode_utf8(name).len() <= entries.len(),
    decreases entries.len(),
{
    if entries.len() >= 3 && 3 + be16(entries, 1) <= entries.len() {
        let end = 3 + be16(entries, 1);
        if entries[0] == 0 {
            let name = entries.subrange(3, end);
            if valid_utf8(name) && name.len() > 0 {
                law_lower_idempotent(decode_utf8(name));
                law_lower_keeps_bytes(decode_utf8(name));
                decode_utf8_encode_utf8(name);
            }
        } else {
            lemma_host_name_bounded(entries.skip(end));
        }
    }
}

proof fn lemma_offer_bounded(list: Seq<u8>, offer: Offer, found: Offer, len: int)
    requires
        offer_bounded(offer, len - list.len()),
        extensions(list, offer) == Ok::<Offer, ParseError>(found),
    ensures
        offer_bounded(found, len),
    decreases list.len(),
{
    if list.len() > 0 {
        let end = 4 + be16(list, 2);
        let kind = be16(list, 0);
        let data = list.subrange(4, end);
        let extended = extend_offer(offer, kind, data)->Ok_0;
        if kind == 0u16 {
            lemma_host_name_bounded(data.skip(2));
        } else if kind == 51u16 {
            lemma_key_shares_bounded(data.skip(2), key_share(data)->Ok_0);
        }
        lemma_offer_bounded(list.skip(end), extended, found, len);
    }
}

/// What is extracted from a ClientHello is bounded by the size of the message,
/// and the message by a constant. The fields have their fixed sizes, the server
/// name is not empty and in lower case, the message is kept as it is, and the
/// one key share that stands out is the first.
pub proof fn law_hello_bounded(raw: Seq<u8>, hello: HelloView)
    requires
        handshake(raw) == Ok::<HelloView, ParseError>(hello),
    ensures
        raw.len() <= 65_536 + 4,
        hello.raw == raw,
        hello.reality_aad.len() == raw.len(),
        hello.random.len() == 32,
        hello.encrypted_session_id.len() <= 255,
        hello.server_name.len() > 0,
        lower(hello.server_name) == hello.server_name,
        encode_utf8(hello.server_name).len() + 36 * hello.x25519_key_shares.len() < raw.len(),
        hello.x25519_key_share is None <==> hello.x25519_key_shares.len() == 0,
        hello.x25519_key_share matches Some(share) ==> share == hello.x25519_key_shares[0],
        forall|i: int|
            0 <= i < hello.x25519_key_shares.len() ==> (#[trigger] hello.x25519_key_shares[i]).len()
                == 32,
{
    let body = raw.skip(4);
    let start = extensions_start(body) + 2;
    let list = body.skip(start);
    lemma_offer_bounded(list, no_offer(), body_offer(body)->Ok_0, list.len() as int);
}

/// The server_name extension for one host name.
pub open spec fn server_name_extension(name: Seq<char>) -> Tagged {
    Tagged {
        tag: 0,
        data: vec16(name_list(seq![NamedEntry { kind: 0, name: encode_utf8(name) }])),
    }
}

/// The supported_versions extension.
pub open spec fn versions_extension(versions: Seq<u16>) -> Tagged {
    Tagged { tag: 43, data: versions_bytes(versions) }
}

/// The key_share extension.
pub open spec fn key_share_extension(shares: Seq<Tagged>) -> Tagged {
    Tagged { tag: 51, data: vec16(tagged_list(shares)) }
}

/// Whether a list holds something with the tag `tag`.
pub open spec fn has_tag(items: Seq<Tagged>, tag: u16) -> bool {
    exists|i: int| 0 <= i < items.len() && (#[trigger] items[i]).tag == tag
}

/// Whether whatever has the tag of `item` is `item`.
pub open spec fn agrees(items: Seq<Tagged>, item: Tagged) -> bool {
    forall|i: int|
        0 <= i < items.len() && (#[trigger] items[i]).tag == item.tag ==> items[i].data
            == item.data
}

/// Whether a list holds `item`, and nothing else with its tag.
pub open spec fn carries(items: Seq<Tagged>, item: Tagged) -> bool {
    has_tag(items, item.tag) && agrees(items, item)
}

/// A list holds what its first item or its rest holds.
proof fn lemma_has_tag(items: Seq<Tagged>, tag: u16)
    requires
        items.len() > 0,
    ensures
        has_tag(items, tag) == (items[0].tag == tag || has_tag(items.drop_first(), tag)),
{
    let rest = items.drop_first();
    if has_tag(items, tag) {
        let i = choose|i: int| 0 <= i < items.len() && (#[trigger] items[i]).tag == tag;
        if i > 0 {
            assert(rest[i - 1] == items[i]);
        }
    }
    if has_tag(rest, tag) {
        let i = choose|i: int| 0 <= i < rest.len() && (#[trigger] rest[i]).tag == tag;
        assert(items[i + 1] == rest[i]);
    }
}

/// Whether the key_share extensions among `items` hold these lists of key shares,
/// in order. There may be any number of them.
pub open spec fn carries_shares(items: Seq<Tagged>, lists: Seq<Seq<Tagged>>) -> bool
    decreases items.len(),
{
    if items.len() == 0 {
        lists.len() == 0
    } else if items[0].tag == 51u16 {
        &&& lists.len() > 0
        &&& items[0] == key_share_extension(lists[0])
        &&& lengths_fit(lists[0])
        &&& tagged_list(lists[0]).len() < 0x1_0000
        &&& carries_shares(items.drop_first(), lists.drop_first())
    } else {
        carries_shares(items.drop_first(), lists)
    }
}

/// The X25519 public keys in several lists of key shares, in order.
pub open spec fn all_x25519_parts(lists: Seq<Seq<Tagged>>) -> Seq<Seq<u8>>
    decreases lists.len(),
{
    if lists.len() == 0 {
        Seq::empty()
    } else {
        x25519_parts(lists[0]) + all_x25519_parts(lists.drop_first())
    }
}

/// What extensions with given contents make of an offer.
proof fn lemma_offer_of(
    items: Seq<Tagged>,
    offer: Offer,
    name: Seq<char>,
    versions: Seq<u16>,
    lists: Seq<Seq<Tagged>>,
)
    requires
        agrees(items, server_name_extension(name)),
        agrees(items, versions_extension(versions)),
        carries_shares(items, lists),
        server_name(server_name_extension(name).data) == Ok::<Option<Seq<char>>, ParseError>(
            Some(lower(name)),
        ),
        supported_versions(versions_extension(versions).data) == Ok::<bool, ParseError>(true),
    ensures
        offer_from(items, offer) == Ok::<Offer, ParseError>(
            Offer {
                server_name: if has_tag(items, 0u16) {
                    Some(lower(name))
                } else {
                    offer.server_name
                },
                tls13: has_tag(items, 43u16) || offer.tls13,
                key_shares: offer.key_shares + all_x25519_parts(lists),
            },
        ),
    decreases items.len(),
{
    if items.len() == 0 {
        assert(offer.key_shares + all_x25519_parts(lists) =~= offer.key_shares);
    } else {
        let rest = items.drop_first();
        let extended = extend_offer(offer, items[0].tag as int, items[0].data)->Ok_0;
        assert forall|i: int| 0 <= i < rest.len() implies #[trigger] rest[i] == items[i + 1] by {}
        lemma_has_tag(items, 0u16);
        lemma_has_tag(items, 43u16);
        if items[0].tag == 51u16 {
            law_key_share_round_trip(lists[0]);
            lemma_offer_of(rest, extended, name, versions, lists.drop_first());
            assert(offer.key_shares + x25519_parts(lists[0]) + all_x25519_parts(lists.drop_first())
                =~= offer.key_shares + all_x25519_parts(lists));
        } else {
            lemma_offer_of(rest, extended, name, versions, lists);
        }
    }
}

/// What is asked of the fields of a ClientHello that names a server, offers TLS
/// 1.3 and shares keys, among whatever other extensions.
pub open spec fn well_made(
    parts: HelloParts,
    name: Seq<char>,
    versions: Seq<u16>,
    lists: Seq<Seq<Tagged>>,
) -> bool {
    &&& parts.fits()
    &&& carries(parts.extensions, server_name_extension(name))
    &&& carries(parts.extensions, versions_extension(versions))
    &&& carries_shares(parts.extensions, lists)
    &&& name.len() > 0
    &&& encode_utf8(name).len() < 0x1_0000 - 3
    &&& versions.len() <= 127
    &&& versions.contains(0x0304u16)
}

/// Every TLS 1.3 ClientHello that names a server is accepted, and the name, the
/// random, the session ID and the X25519 public keys of all its key_share
/// extensions are found. Other extensions have no say, nor has the place of any.
pub proof fn law_client_hello_read(
    parts: HelloParts,
    name: Seq<char>,
    versions: Seq<u16>,
    lists: Seq<Seq<Tagged>>,
)
    requires
        well_made(parts, name, versions, lists),
    ensures
        handshake(parts.bytes()) == Ok::<HelloView, ParseError>(
            parts.view_with(
                Offer {
                    server_name: Some(lower(name)),
                    tls13: true,
                    key_shares: all_x25519_parts(lists),
                },
            ),
        ),
{
    let entries = seq![NamedEntry { kind: 0, name: encode_utf8(name) }];
    law_host_name(name);
    assert(entries.drop_first() =~= Seq::empty());
    assert(name_list(entries.drop_first()).len() == 0);
    law_server_name_round_trip(entries);
    law_supported_versions_round_trip(versions);
    lemma_offer_of(parts.extensions, no_offer(), name, versions, lists);
    assert(no_offer().key_shares + all_x25519_parts(lists) =~= all_x25519_parts(lists));
    law_hello_round_trip(parts);
}

/// Every X25519 public key that an accepted ClientHello offers is found, in
/// whichever of its key_share extensions it stands.
pub proof fn law_every_share_found(parts: HelloParts, hello: HelloView, at: int, share: Seq<u8>)
    requires
        parts.fits(),
        handshake(parts.bytes()) == Ok::<HelloView, ParseError>(hello),
        0 <= at < parts.extensions.len(),
        parts.extensions[at].tag == 51u16,
        key_share(parts.extensions[at].data) matches Ok(offered) && offered.contains(share),
    ensures
        hello.x25519_key_shares.contains(share),
{
    law_hello_round_trip(parts);
    lemma_share_kept(parts.extensions, no_offer(), at, share);
}

/// Extensions take no key share out of an offer.
proof fn lemma_shares_stay(items: Seq<Tagged>, offer: Offer, share: Seq<u8>)
    requires
        offer_from(items, offer) is Ok,
        offer.key_shares.contains(share),
    ensures
        offer_from(items, offer)->Ok_0.key_shares.contains(share),
    decreases items.len(),
{
    if items.len() > 0 {
        let extended = extend_offer(offer, items[0].tag as int, items[0].data)->Ok_0;
        let at = offer.key_shares.index_of(share);
        assert(extended.key_shares[at] == share);
        lemma_shares_stay(items.drop_first(), extended, share);
    }
}

/// A key share in one of the extensions is in the offer.
proof fn lemma_share_kept(items: Seq<Tagged>, offer: Offer, at: int, share: Seq<u8>)
    requires
        offer_from(items, offer) is Ok,
        0 <= at < items.len(),
        items[at].tag == 51u16,
        key_share(items[at].data) matches Ok(offered) && offered.contains(share),
    ensures
        offer_from(items, offer)->Ok_0.key_shares.contains(share),
    decreases items.len(),
{
    let extended = extend_offer(offer, items[0].tag as int, items[0].data)->Ok_0;
    if at == 0 {
        let offered = key_share(items[0].data)->Ok_0;
        let i = offered.index_of(share);
        assert(extended.key_shares[offer.key_shares.len() + i] == share);
        lemma_shares_stay(items.drop_first(), extended, share);
    } else {
        assert(items.drop_first()[at - 1] == items[at]);
        lemma_share_kept(items.drop_first(), extended, at - 1, share);
    }
}

} // verus!
