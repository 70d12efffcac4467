//! What a ClientHello means, and that the parser finds exactly that.
//!
//! [`law_meaning_found`] says that every ClientHello is read as it was meant,
//! [`law_only_hellos_accepted`] that nothing else is accepted.
use crate::bytes::{be16, be16_bytes, be24, be24_bytes};
use crate::hello_wire::{
    law_hello_round_trip, law_host_name, law_key_share_round_trip, law_supported_versions_round_trip,
    lengths_fit, name_list, offer_from, tagged_bytes, tagged_list, vec16, versions_bytes,
    x25519_parts, HelloParts, NamedEntry, Tagged,
};
use crate::text::lower;
use crate::tls_client_hello::{
    body_offer, compression_start, extend_offer, extensions, extensions_start, handshake,
    key_share, key_share_entries, no_offer, reaches_extensions, record_hello, server_name,
    server_name_entries, suites_start, supported_versions, HelloView, Offer, ParseError,
};
use vstd::prelude::*;
use vstd::utf8::{decode_utf8, decode_utf8_encode_utf8, encode_utf8, valid_utf8};

verus! {

/// A list of server names: entries of other kinds, then a host name, if there is
/// one, and then whatever follows it.
pub struct Names {
    pub others: Seq<NamedEntry>,
    pub host: Option<Seq<char>>,
    pub rest: Seq<u8>,
}

/// An extension of a ClientHello, by its meaning.
pub enum Extension {
    Names(Names),
    Versions(Seq<u16>),
    Shares(Seq<Tagged>),
    Other(Tagged),
}

/// The wire form of a list of server names.
pub open spec fn names_bytes(names: Names) -> Seq<u8> {
    name_list(names.others) + match names.host {
        Some(host) => seq![0u8] + vec16(encode_utf8(host)) + names.rest,
        None => Seq::empty(),
    }
}

/// Whether a list of server names has a wire form.
pub open spec fn names_sound(names: Names) -> bool {
    &&& forall|i: int|
        0 <= i < names.others.len() ==> (#[trigger] names.others[i]).kind != 0
            && names.others[i].name.len() < 0x1_0000
    &&& names.host matches Some(host) ==> host.len() > 0 && encode_utf8(host).len() < 0x1_0000
    &&& names.host is None ==> names.rest.len() == 0
}

/// The wire form of an extension.
pub open spec fn wire(extension: Extension) -> Tagged {
    match extension {
        Extension::Names(names) => Tagged { tag: 0, data: vec16(names_bytes(names)) },
        Extension::Versions(versions) => Tagged { tag: 43, data: versions_bytes(versions) },
        Extension::Shares(shares) => Tagged { tag: 51, data: vec16(tagged_list(shares)) },
        Extension::Other(item) => item,
    }
}

/// Whether an extension has a wire form.
pub open spec fn sound(extension: Extension) -> bool {
    match extension {
        Extension::Names(names) => names_sound(names) && names_bytes(names).len() < 0x1_0000,
        Extension::Versions(versions) => versions.len() <= 127,
        Extension::Shares(shares) => lengths_fit(shares) && tagged_list(shares).len() < 0x1_0000,
        Extension::Other(item) => item.tag != 0 && item.tag != 43 && item.tag != 51,
    }
}

/// The server that a client asks for: the host name in the last list of names.
pub open spec fn asked_server(list: Seq<Extension>) -> Option<Seq<char>>
    decreases list.len(),
{
    if list.len() == 0 {
        None
    } else {
        match list.last() {
            Extension::Names(names) => match names.host {
                Some(host) => Some(lower(host)),
                None => None,
            },
            _ => asked_server(list.drop_last()),
        }
    }
}

/// Whether a client offers TLS 1.3: its last list of versions holds 0x0304.
pub open spec fn asked_tls13(list: Seq<Extension>) -> bool
    decreases list.len(),
{
    if list.len() == 0 {
        false
    } else {
        match list.last() {
            Extension::Versions(versions) => versions.contains(0x0304),
            _ => asked_tls13(list.drop_last()),
        }
    }
}

/// The X25519 public keys that a client offers, in order.
pub open spec fn offered_keys(list: Seq<Extension>) -> Seq<Seq<u8>>
    decreases list.len(),
{
    if list.len() == 0 {
        Seq::empty()
    } else {
        offered_keys(list.drop_last()) + match list.last() {
            Extension::Shares(shares) => x25519_parts(shares),
            _ => Seq::empty(),
        }
    }
}

/// Whether the extensions of a ClientHello are the wire forms of these.
pub open spec fn means(parts: HelloParts, list: Seq<Extension>) -> bool {
    &&& parts.fits()
    &&& parts.extensions.len() == list.len()
    &&& forall|i: int|
        0 <= i < list.len() ==> sound(#[trigger] list[i]) && parts.extensions[i] == wire(list[i])
}

/// Every ClientHello is read as it was meant: it is refused where it does not
/// offer TLS 1.3 or asks for no server, and otherwise its server, its random, its
/// session ID and all its X25519 public keys are found.
pub proof fn law_meaning_found(parts: HelloParts, list: Seq<Extension>)
    requires
        means(parts, list),
    ensures
        handshake(parts.bytes()) == if !asked_tls13(list) {
            Err::<HelloView, ParseError>(ParseError::UnsupportedVersion)
        } else {
            match asked_server(list) {
                None => Err(ParseError::MissingServerName),
                Some(server_name) => Ok(
                    HelloView {
                        raw: parts.bytes(),
                        reality_aad: parts.with_session_id(
                            Seq::new(parts.session_id.len(), |i: int| 0u8),
                        ).bytes(),
                        random: parts.random,
                        server_name,
                        x25519_key_share: if offered_keys(list).len() == 0 {
                            None
                        } else {
                            Some(offered_keys(list)[0])
                        },
                        x25519_key_shares: offered_keys(list),
                        encrypted_session_id: parts.session_id,
                    },
                ),
            }
        },
{
    lemma_offer_meant(parts.extensions, list);
    law_hello_round_trip(parts);
}

/// One more extension at the end.
proof fn lemma_offer_from_last(items: Seq<Tagged>, offer: Offer)
    requires
        items.len() > 0,
    ensures
        offer_from(items, offer) == match offer_from(items.drop_last(), offer) {
            Ok(before) => extend_offer(before, items.last().tag as int, items.last().data),
            Err(error) => Err(error),
        },
    decreases items.len(),
{
    if items.len() == 1 {
        assert(items.drop_last() =~= Seq::empty());
        assert(offer_from(items.drop_last(), offer) == Ok::<Offer, ParseError>(offer));
        match extend_offer(offer, items[0].tag as int, items[0].data) {
            Ok(extended) => {
                assert(items.drop_first() =~= Seq::empty());
                assert(offer_from(items.drop_first(), extended) == Ok::<Offer, ParseError>(
                    extended,
                ));
            },
            Err(_) => {},
        }
    } else {
        let rest = items.drop_first();
        assert(rest.drop_last() =~= items.drop_last().drop_first());
        assert(rest.last() == items.last());
        assert(items.drop_last()[0] == items[0]);
        match extend_offer(offer, items[0].tag as int, items[0].data) {
            Ok(extended) => lemma_offer_from_last(rest, extended),
            Err(_) => {},
        }
    }
}

/// What the wire form of an extension makes of an offer.
proof fn lemma_extension_meant(offer: Offer, extension: Extension)
    requires
        sound(extension),
    ensures
        extend_offer(offer, wire(extension).tag as int, wire(extension).data) == Ok::<
            Offer,
            ParseError,
        >(
            match extension {
                Extension::Names(names) => Offer {
                    server_name: match names.host {
                        Some(host) => Some(lower(host)),
                        None => None,
                    },
                    ..offer
                },
                Extension::Versions(versions) => Offer { tls13: versions.contains(0x0304), ..offer },
                Extension::Shares(shares) => Offer {
                    key_shares: offer.key_shares + x25519_parts(shares),
                    ..offer
                },
                Extension::Other(_) => offer,
            },
        ),
{
    match extension {
        Extension::Names(names) => {
            let list = names_bytes(names);
            assert(be16_bytes(list.len() as int).len() == 2);
            assert(be16(vec16(list), 0) == list.len());
            assert(vec16(list).skip(2) =~= list);
            lemma_names_meant(names);
        },
        Extension::Versions(versions) => law_supported_versions_round_trip(versions),
        Extension::Shares(shares) => law_key_share_round_trip(shares),
        Extension::Other(_) => {},
    }
}

/// The host name in a list of server names is found.
proof fn lemma_names_meant(names: Names)
    requires
        names_sound(names),
    ensures
        server_name_entries(names_bytes(names)) == Ok::<Option<Seq<char>>, ParseError>(
            match names.host {
                Some(host) => Some(lower(host)),
                None => None,
            },
        ),
    decreases names.others.len(),
{
    let list = names_bytes(names);
    if names.others.len() > 0 {
        let entry = names.others[0];
        let less = Names { others: names.others.drop_first(), ..names };
        let head = seq![entry.kind] + vec16(entry.name);
        let end = 3 + entry.name.len() as int;
        assert forall|i: int| 0 <= i < less.others.len() implies #[trigger] less.others[i]
            == names.others[i + 1] by {}
        assert(list =~= head + names_bytes(less));
        assert(head.len() == end);
        assert(list[1] == be16_bytes(entry.name.len() as int)[0]);
        assert(list[2] == be16_bytes(entry.name.len() as int)[1]);
        assert(be16(list, 1) == entry.name.len());
        assert(list.skip(end) =~= names_bytes(less));
        assert(list[0] == entry.kind);
        lemma_names_meant(less);
    } else if let Some(host) = names.host {
        let name = encode_utf8(host);
        let end = 3 + name.len() as int;
        assert(list =~= seq![0u8] + vec16(name) + names.rest);
        assert(list[1] == be16_bytes(name.len() as int)[0]);
        assert(list[2] == be16_bytes(name.len() as int)[1]);
        assert(be16(list, 1) == name.len());
        assert(list.subrange(3, end) =~= name);
        law_host_name(host);
    } else {
        assert(list =~= Seq::empty());
    }
}

/// What the wire forms of extensions make of an empty offer.
proof fn lemma_offer_meant(items: Seq<Tagged>, list: Seq<Extension>)
    requires
        items.len() == list.len(),
        forall|i: int|
            0 <= i < list.len() ==> sound(#[trigger] list[i]) && items[i] == wire(list[i]),
    ensures
        offer_from(items, no_offer()) == Ok::<Offer, ParseError>(
            Offer {
                server_name: asked_server(list),
                tls13: asked_tls13(list),
                key_shares: offered_keys(list),
            },
        ),
    decreases list.len(),
{
    if list.len() > 0 {
        let before = list.drop_last();
        assert forall|i: int| 0 <= i < before.len() implies sound(#[trigger] before[i])
            && items.drop_last()[i] == wire(before[i]) by {
            assert(before[i] == list[i]);
        }
        lemma_offer_meant(items.drop_last(), before);
        lemma_offer_from_last(items, no_offer());
        assert(items.last() == wire(list.last())) by {
            assert(sound(list[list.len() - 1]));
        }
        let offer = offer_from(items.drop_last(), no_offer())->Ok_0;
        lemma_extension_meant(offer, list.last());
        assert(offer.key_shares + Seq::<Seq<u8>>::empty() =~= offer.key_shares);
    }
}

/// Two bytes are those of the number that they hold.
proof fn lemma_be16_of(bytes: Seq<u8>, at: int)
    requires
        0 <= at,
        at + 2 <= bytes.len(),
    ensures
        0 <= be16(bytes, at) < 0x1_0000,
        be16_bytes(be16(bytes, at)) == bytes.subrange(at, at + 2),
{
    let n = be16(bytes, at);
    assert(n / 0x100 == bytes[at]);
    assert(n % 0x100 == bytes[at + 1]);
    assert(be16_bytes(n) =~= bytes.subrange(at, at + 2));
}

/// The tagged byte strings in a list, as far as they are whole.
#[verifier::opaque]
spec fn tagged_of(list: Seq<u8>) -> Seq<Tagged>
    decreases list.len(),
{
    if list.len() < 4 || 4 + be16(list, 2) > list.len() {
        Seq::empty()
    } else {
        let end = 4 + be16(list, 2);
        seq![Tagged { tag: be16(list, 0) as u16, data: list.subrange(4, end) }] + tagged_of(
            list.skip(end),
        )
    }
}

/// A list starts with the wire form of its first byte string.
proof fn lemma_tagged_of(list: Seq<u8>)
    requires
        list.len() >= 4,
        4 + be16(list, 2) <= list.len(),
    ensures
        ({
            let end = 4 + be16(list, 2);
            let item = tagged_of(list)[0];
            let rest = tagged_of(list).drop_first();
            &&& tagged_of(list).len() > 0
            &&& item == Tagged { tag: be16(list, 0) as u16, data: list.subrange(4, end) }
            &&& item.tag == be16(list, 0)
            &&& item.data.len() < 0x1_0000
            &&& rest == tagged_of(list.skip(end))
            &&& tagged_bytes(item) == list.take(end)
        }),
{
    reveal(tagged_of);
    let end = 4 + be16(list, 2);
    let item = tagged_of(list)[0];
    lemma_be16_of(list, 0);
    lemma_be16_of(list, 2);
    assert(tagged_of(list).drop_first() =~= tagged_of(list.skip(end)));
    assert(tagged_bytes(item) =~= list.take(end));
}

/// A list is the wire form of its byte strings, if what follows the first is.
proof fn lemma_tagged_list_of(list: Seq<u8>)
    requires
        list.len() >= 4,
        4 + be16(list, 2) <= list.len(),
        tagged_list(tagged_of(list.skip(4 + be16(list, 2)))) == list.skip(4 + be16(list, 2)),
        lengths_fit(tagged_of(list.skip(4 + be16(list, 2)))),
    ensures
        tagged_list(tagged_of(list)) == list,
        lengths_fit(tagged_of(list)),
{
    let end = 4 + be16(list, 2);
    let items = tagged_of(list);
    lemma_tagged_of(list);
    assert(list.take(end) + list.skip(end) =~= list);
    assert(tagged_list(items) == tagged_bytes(items[0]) + tagged_list(items.drop_first()));
    assert forall|i: int| 0 <= i < items.len() implies (#[trigger] items[i]).data.len()
        < 0x1_0000 by {
        if i > 0 {
            assert(items[i] == items.drop_first()[i - 1]);
        }
    }
}

/// Nothing is the wire form of no byte strings.
proof fn lemma_tagged_of_nothing(list: Seq<u8>)
    requires
        list.len() == 0,
    ensures
        tagged_of(list).len() == 0,
        tagged_list(tagged_of(list)) == list,
        lengths_fit(tagged_of(list)),
{
    reveal(tagged_of);
    assert(tagged_list(tagged_of(list)) =~= list);
}

/// A list of key shares that is read is the wire form of its key shares.
proof fn lemma_shares_of(entries: Seq<u8>)
    requires
        key_share_entries(entries) is Ok,
    ensures
        tagged_list(tagged_of(entries)) == entries,
        lengths_fit(tagged_of(entries)),
    decreases entries.len(),
{
    if entries.len() == 0 {
        lemma_tagged_of_nothing(entries);
    } else {
        lemma_shares_of(entries.skip(4 + be16(entries, 2)));
        lemma_tagged_list_of(entries);
    }
}

/// A list of server names that is read is the wire form of one.
proof fn lemma_names_of(entries: Seq<u8>) -> (names: Names)
    requires
        server_name_entries(entries) is Ok,
    ensures
        names_sound(names),
        names_bytes(names) == entries,
    decreases entries.len(),
{
    if entries.len() == 0 {
        let names = Names { others: Seq::empty(), host: None, rest: Seq::empty() };
        assert(names_bytes(names) =~= entries);
        names
    } else {
        let end = 3 + be16(entries, 1);
        lemma_be16_of(entries, 1);
        if entries[0] == 0 {
            let name = entries.subrange(3, end);
            let host = decode_utf8(name);
            decode_utf8_encode_utf8(name);
            if host.len() == 0 {
                assert(encode_utf8(host).len() == 0);
            }
            let names = Names {
                others: Seq::empty(),
                host: Some(host),
                rest: entries.skip(end),
            };
            assert(names_bytes(names) =~= entries);
            names
        } else {
            let entry = NamedEntry { kind: entries[0], name: entries.subrange(3, end) };
            let less = lemma_names_of(entries.skip(end));
            let names = Names { others: seq![entry] + less.others, ..less };
            assert(names.others.drop_first() =~= less.others);
            assert(names.others[0] == entry);
            assert forall|i: int| 0 <= i < names.others.len() implies (
            #[trigger] names.others[i]).kind != 0 && names.others[i].name.len() < 0x1_0000 by {
                if i > 0 {
                    assert(names.others[i] == less.others[i - 1]);
                }
            }
            assert(seq![entry.kind] + vec16(entry.name) =~= entries.take(end));
            assert(names_bytes(names) =~= entries.take(end) + names_bytes(less));
            assert(names_bytes(names) =~= entries);
            names
        }
    }
}

/// A list of versions that is read is the wire form of its versions.
proof fn lemma_versions_of(data: Seq<u8>) -> (versions: Seq<u16>)
    requires
        supported_versions(data) is Ok,
    ensures
        versions.len() <= 127,
        versions_bytes(versions) == data,
{
    let count = data[0] as nat / 2;
    let versions = Seq::new(count, |i: int| be16(data, 1 + 2 * i) as u16);
    assert(2 * count == data[0]);
    assert forall|i: int| 0 <= i < 2 * count implies #[trigger] be16_bytes(
        versions[i / 2] as int,
    )[i % 2] == data[1 + i] by {
        let at = 1 + 2 * (i / 2);
        lemma_be16_of(data, at);
        assert(versions[i / 2] as int == be16(data, at));
        assert(be16_bytes(be16(data, at))[i % 2] == data.subrange(at, at + 2)[i % 2]);
        assert(i == 2 * (i / 2) + i % 2);
    }
    assert(versions_bytes(versions) =~= data);
    versions
}

/// An extension that is read is the wire form of its meaning.
proof fn lemma_extension_of(offer: Offer, item: Tagged) -> (extension: Extension)
    requires
        extend_offer(offer, item.tag as int, item.data) is Ok,
        item.data.len() < 0x1_0000,
    ensures
        sound(extension),
        wire(extension) == item,
{
    let data = item.data;
    if item.tag == 0 {
        let names = lemma_names_of(data.skip(2));
        lemma_be16_of(data, 0);
        assert(vec16(names_bytes(names)) =~= data);
        Extension::Names(names)
    } else if item.tag == 43 {
        Extension::Versions(lemma_versions_of(data))
    } else if item.tag == 51 {
        let shares = tagged_of(data.skip(2));
        lemma_shares_of(data.skip(2));
        lemma_be16_of(data, 0);
        assert(vec16(tagged_list(shares)) =~= data);
        Extension::Shares(shares)
    } else {
        Extension::Other(item)
    }
}

/// A list of extensions that is read is the wire form of its meaning.
proof fn lemma_extensions_of(list: Seq<u8>, offer: Offer) -> (meant: Seq<Extension>)
    requires
        extensions(list, offer) is Ok,
    ensures
        tagged_list(tagged_of(list)) == list,
        lengths_fit(tagged_of(list)),
        meant.len() == tagged_of(list).len(),
        forall|i: int|
            0 <= i < meant.len() ==> sound(#[trigger] meant[i]) && tagged_of(list)[i] == wire(
                meant[i],
            ),
    decreases list.len(),
{
    let items = tagged_of(list);
    if list.len() == 0 {
        lemma_tagged_of_nothing(list);
        Seq::empty()
    } else {
        let end = 4 + be16(list, 2);
        lemma_tagged_of(list);
        let extended = extend_offer(offer, be16(list, 0), list.subrange(4, end))->Ok_0;
        let first = lemma_extension_of(offer, items[0]);
        let rest = lemma_extensions_of(list.skip(end), extended);
        let meant = seq![first] + rest;
        lemma_tagged_list_of(list);
        assert forall|i: int| 0 <= i < meant.len() implies sound(#[trigger] meant[i]) && items[i]
            == wire(meant[i]) by {
            if i > 0 {
                assert(meant[i] == rest[i - 1]);
                assert(items[i] == items.drop_first()[i - 1]);
            }
        }
        meant
    }
}

/// The fields of a ClientHello body that is read.
proof fn lemma_body_of(body: Seq<u8>) -> (parts: HelloParts)
    requires
        body_offer(body) is Ok,
        body.len() <= 65_536,
    ensures
        parts.fits(),
        parts.body() == body,
        parts.extensions == tagged_of(body.skip(extensions_start(body) + 2)),
{
    let sid_end = suites_start(body);
    let compression = compression_start(body);
    let start = extensions_start(body);
    let list = body.skip(start + 2);
    let _ = lemma_extensions_of(list, no_offer());
    let parts = HelloParts {
        version: body.subrange(0, 2),
        random: body.subrange(2, 34),
        session_id: body.subrange(35, sid_end),
        suites: body.subrange(sid_end + 2, compression),
        compression: body.subrange(compression + 1, start),
        extensions: tagged_of(list),
    };
    lemma_be16_of(body, sid_end);
    lemma_be16_of(body, start);
    assert(parts.front() =~= body.subrange(0, 35));
    assert(vec16(parts.suites) =~= body.subrange(sid_end, compression));
    assert(seq![parts.compression.len() as u8] + parts.compression =~= body.subrange(
        compression,
        start,
    ));
    assert(parts.middle() =~= body.subrange(sid_end, start));
    assert(vec16(list) =~= body.skip(start));
    assert(parts.body() =~= body);
    parts
}

/// Nothing but a ClientHello is accepted: what is accepted is the wire form of
/// one that offers TLS 1.3 and asks for a server, and it is read as that one.
pub proof fn law_only_hellos_accepted(raw: Seq<u8>)
    requires
        handshake(raw) is Ok,
    ensures
        exists|parts: HelloParts, list: Seq<Extension>|
            {
                &&& #[trigger] means(parts, list)
                &&& parts.bytes() == raw
                &&& asked_tls13(list)
                &&& asked_server(list) == Some(handshake(raw)->Ok_0.server_name)
                &&& offered_keys(list) == handshake(raw)->Ok_0.x25519_key_shares
                &&& parts.random == handshake(raw)->Ok_0.random
                &&& parts.session_id == handshake(raw)->Ok_0.encrypted_session_id
            },
{
    let body = raw.skip(4);
    let parts = lemma_body_of(body);
    let list = lemma_extensions_of(body.skip(extensions_start(body) + 2), no_offer());
    lemma_bytes_of(raw, parts);
    assert(means(parts, list));
    law_meaning_found(parts, list);
}

/// A message is the wire form of the fields of its body.
proof fn lemma_bytes_of(raw: Seq<u8>, parts: HelloParts)
    requires
        raw.len() >= 4,
        raw[0] == 1,
        raw.len() == 4 + be24(raw, 1),
        parts.body() == raw.skip(4),
    ensures
        parts.bytes() == raw,
{
    let len = parts.body().len() as int;
    assert(len / 0x1_0000 == raw[1]);
    assert(len / 0x100 % 0x100 == raw[2]);
    assert(len % 0x100 == raw[3]);
    assert(parts.bytes() =~= raw);
}

/// What is no ClientHello by its first bytes is refused for them: by its kind,
/// then by its size, then because it is cut short or goes on too long.
pub proof fn law_header_faults(raw: Seq<u8>)
    ensures
        ({
            let outcome = handshake(raw);
            let len = raw[1] * 0x1_0000 + raw[2] * 0x100 + raw[3];
            &&& raw.len() < 4 ==> (outcome matches Err(error) && error is Truncated)
            &&& (outcome matches Err(error) && error is InvalidHandshake) <==> raw.len() >= 4
                && raw[0] != 1
            &&& (outcome matches Err(error) && error is TooLarge) <==> raw.len() >= 4 && raw[0] == 1
                && len > 65_536
            &&& raw.len() >= 4 && raw[0] == 1 && len <= 65_536 && raw.len() != 4 + len ==> (outcome
                matches Err(error) && error is Truncated)
        }),
{
    if raw.len() >= 4 {
        lemma_offer_errors(raw.skip(4));
    }
}

/// The message with a given body.
pub open spec fn message(body: Seq<u8>) -> Seq<u8> {
    seq![1u8] + be24_bytes(body.len() as int) + body
}

/// A body with all its fields is refused for its extensions where their length is
/// not that of what follows.
pub proof fn law_extension_length_fault(parts: HelloParts, stated: u16, tail: Seq<u8>)
    requires
        parts.fits(),
        stated != tail.len(),
        tail.len() <= 0x1_0000,
        (parts.front() + parts.session_id + parts.middle()).len() + 2 + tail.len() <= 65_536,
    ensures
        handshake(
            message(
                parts.front() + parts.session_id + parts.middle() + be16_bytes(stated as int)
                    + tail,
            ),
        ) == Err::<HelloView, ParseError>(ParseError::InvalidExtension),
{
    let fixed = parts.front() + parts.session_id + parts.middle();
    let body = fixed + be16_bytes(stated as int) + tail;
    lemma_fields(parts, body, fixed.len() as int + 2);
    lemma_message(body);
    assert(body[fixed.len() as int] == be16_bytes(stated as int)[0]);
    assert(body[fixed.len() as int + 1] == be16_bytes(stated as int)[1]);
    assert(be16(body, fixed.len() as int) == stated);
}

/// A body that ends before the length of its extensions is truncated.
pub proof fn law_cut_short(parts: HelloParts, cut: int)
    requires
        parts.fits(),
        0 <= cut < (parts.front() + parts.session_id + parts.middle()).len() + 2,
    ensures
        handshake(message(parts.body().take(cut))) == Err::<HelloView, ParseError>(
            ParseError::Truncated,
        ),
{
    let fixed = parts.front() + parts.session_id + parts.middle();
    let body = parts.body().take(cut);
    assert(parts.body() =~= fixed + vec16(tagged_list(parts.extensions)));
    lemma_fields(parts, body, cut);
    lemma_message(body);
}

/// Where the fields of a ClientHello stand in a body that starts like it.
proof fn lemma_fields(parts: HelloParts, body: Seq<u8>, known: int)
    requires
        parts.fits(),
        0 <= known <= body.len(),
        known <= (parts.front() + parts.session_id + parts.middle()).len() + 2,
        forall|i: int|
            0 <= i < known && i < (parts.front() + parts.session_id + parts.middle()).len()
                ==> #[trigger] body[i] == (parts.front() + parts.session_id + parts.middle())[i],
    ensures
        ({
            let fixed = parts.front() + parts.session_id + parts.middle();
            &&& known == fixed.len() + 2 ==> reaches_extensions(body) && extensions_start(body)
                == fixed.len()
            &&& known < fixed.len() + 2 && body.len() == known ==> !reaches_extensions(body)
        }),
{
    let fixed = parts.front() + parts.session_id + parts.middle();
    let sid = parts.session_id.len() as int;
    let suites = parts.suites.len() as int;
    let compression = parts.compression.len() as int;
    assert(parts.front().len() == 35);
    assert(parts.middle().len() == 3 + suites + compression);
    assert(fixed.len() == 38 + sid + suites + compression);
    if known >= 35 {
        assert(fixed[34] == sid);
        assert(body[34] == fixed[34]);
        assert(suites_start(body) == 35 + sid);
    }
    if known >= 37 + sid {
        let at = 35 + sid;
        assert(fixed[at] == parts.middle()[0]);
        assert(fixed[at + 1] == parts.middle()[1]);
        assert(parts.middle()[0] == be16_bytes(suites)[0]);
        assert(parts.middle()[1] == be16_bytes(suites)[1]);
        assert(body[at] == fixed[at] && body[at + 1] == fixed[at + 1]);
        assert(be16(body, at) == suites);
        assert(compression_start(body) == 37 + sid + suites);
    }
    if known >= 38 + sid + suites {
        let at = 37 + sid + suites;
        assert(fixed[at] == parts.middle()[2 + suites]);
        assert(parts.middle()[2 + suites] == compression);
        assert(body[at] == fixed[at]);
        assert(extensions_start(body) == 38 + sid + suites + compression);
    }
}

/// A message is read as its body says.
proof fn lemma_message(body: Seq<u8>)
    requires
        body.len() <= 65_536,
        body_offer(body) is Err,
    ensures
        handshake(message(body)) == Err::<HelloView, ParseError>(body_offer(body)->Err_0),
{
    let len = body.len() as int;
    let raw = message(body);
    assert(raw[1] == (len / 0x1_0000) as u8);
    assert(raw[2] == (len / 0x100 % 0x100) as u8);
    assert(raw[3] == (len % 0x100) as u8);
    assert(raw.skip(4) =~= body);
}

/// An extension that is read must be as long as it states, a list of versions
/// must be made of whole ones, and the first entry of a list must fit it.
pub proof fn law_extension_faults(data: Seq<u8>)
    ensures
        data.len() < 2 || data.len() != 2 + data[0] * 0x100 + data[1] ==> server_name(data) == Err::<
            Option<Seq<char>>,
            ParseError,
        >(ParseError::InvalidExtension) && key_share(data) == Err::<Seq<Seq<u8>>, ParseError>(
            ParseError::InvalidExtension,
        ),
        data.len() == 0 || data.len() != 1 + data[0] || data.len() % 2 == 0 ==> supported_versions(
            data,
        ) == Err::<bool, ParseError>(ParseError::InvalidExtension),
        data.len() >= 5 && data.len() == 2 + data[0] * 0x100 + data[1] && data.len() < 5 + data[3]
            * 0x100 + data[4] ==> server_name(data) == Err::<Option<Seq<char>>, ParseError>(
            ParseError::InvalidExtension,
        ),
        data.len() >= 6 && data.len() == 2 + data[0] * 0x100 + data[1] && data.len() < 6 + data[4]
            * 0x100 + data[5] ==> key_share(data) == Err::<Seq<Seq<u8>>, ParseError>(
            ParseError::InvalidExtension,
        ),
        2 < data.len() < 5 && data.len() == 2 + data[0] * 0x100 + data[1] ==> server_name(data)
            == Err::<Option<Seq<char>>, ParseError>(ParseError::Truncated),
        2 < data.len() < 6 && data.len() == 2 + data[0] * 0x100 + data[1] ==> key_share(data)
            == Err::<Seq<Seq<u8>>, ParseError>(ParseError::Truncated),
{
    if data.len() >= 2 {
        let entries = data.skip(2);
        assert(entries.len() == data.len() - 2);
        assert(entries.len() > 3 ==> entries[3] == data[5]);
        assert(entries.len() > 2 ==> entries[2] == data[4] && entries[1] == data[3]);
    }
}

/// A host name that is empty or no text is refused, whatever stands around it.
pub proof fn law_broken_host_refused(others: Seq<NamedEntry>, name: Seq<u8>, rest: Seq<u8>)
    requires
        forall|i: int|
            0 <= i < others.len() ==> (#[trigger] others[i]).kind != 0 && others[i].name.len()
                < 0x1_0000,
        name.len() < 0x1_0000,
        name.len() == 0 || !valid_utf8(name),
        (name_list(others) + seq![0u8] + vec16(name) + rest).len() < 0x1_0000,
    ensures
        server_name(vec16(name_list(others) + seq![0u8] + vec16(name) + rest)) == Err::<
            Option<Seq<char>>,
            ParseError,
        >(ParseError::InvalidExtension),
{
    let list = name_list(others) + seq![0u8] + vec16(name) + rest;
    assert(be16(vec16(list), 0) == list.len());
    assert(vec16(list).skip(2) =~= list);
    lemma_broken_host(others, name, rest);
}

proof fn lemma_broken_host(others: Seq<NamedEntry>, name: Seq<u8>, rest: Seq<u8>)
    requires
        forall|i: int|
            0 <= i < others.len() ==> (#[trigger] others[i]).kind != 0 && others[i].name.len()
                < 0x1_0000,
        name.len() < 0x1_0000,
        name.len() == 0 || !valid_utf8(name),
    ensures
        server_name_entries(name_list(others) + seq![0u8] + vec16(name) + rest) == Err::<
            Option<Seq<char>>,
            ParseError,
        >(ParseError::InvalidExtension),
    decreases others.len(),
{
    let list = name_list(others) + seq![0u8] + vec16(name) + rest;
    if others.len() > 0 {
        let entry = others[0];
        let less = others.drop_first();
        let head = seq![entry.kind] + vec16(entry.name);
        let end = 3 + entry.name.len() as int;
        let tail = name_list(less) + seq![0u8] + vec16(name) + rest;
        assert forall|i: int| 0 <= i < less.len() implies #[trigger] less[i] == others[i + 1] by {}
        assert(list =~= head + tail);
        assert(list[1] == be16_bytes(entry.name.len() as int)[0]);
        assert(list[2] == be16_bytes(entry.name.len() as int)[1]);
        assert(be16(list, 1) == entry.name.len());
        assert(list.skip(end) =~= tail);
        assert(list[0] == entry.kind);
        lemma_broken_host(less, name, rest);
    } else {
        assert(list =~= seq![0u8] + vec16(name) + rest);
        assert(list[1] == be16_bytes(name.len() as int)[0]);
        assert(list[2] == be16_bytes(name.len() as int)[1]);
        assert(be16(list, 1) == name.len());
        assert(list.subrange(3, 3 + name.len() as int) =~= name);
    }
}

/// A record is read as the message in it, if it is a handshake record of the
/// length that it states.
pub proof fn law_record_judged(record: Seq<u8>)
    ensures
        record.len() < 5 ==> record_hello(record) == Err::<HelloView, ParseError>(
            ParseError::Truncated,
        ),
        record.len() >= 5 && record[0] != 22 ==> record_hello(record) == Err::<
            HelloView,
            ParseError,
        >(ParseError::InvalidRecord),
        record.len() >= 5 && record[0] == 22 && record.len() != 5 + record[3] * 0x100 + record[4]
            ==> record_hello(record) == Err::<HelloView, ParseError>(ParseError::Truncated),
        record.len() >= 5 && record[0] == 22 && record.len() == 5 + record[3] * 0x100 + record[4]
            ==> record_hello(record) == handshake(record.subrange(5, record.len() as int)),
{
    if record.len() >= 5 {
        assert(record.subrange(5, record.len() as int) =~= record.skip(5));
    }
}

/// A body is refused as truncated or for an extension, and for nothing else.
proof fn lemma_offer_errors(body: Seq<u8>)
    ensures
        body_offer(body) matches Err(error) ==> error is Truncated || error is InvalidExtension,
{
    lemma_extensions_errors(body.skip(extensions_start(body) + 2), no_offer());
}

proof fn lemma_extensions_errors(list: Seq<u8>, offer: Offer)
    ensures
        extensions(list, offer) matches Err(error) ==> error is Truncated || error
            is InvalidExtension,
    decreases list.len(),
{
    if list.len() >= 4 && 4 + be16(list, 2) <= list.len() {
        let end = 4 + be16(list, 2);
        let data = list.subrange(4, end);
        lemma_names_errors(data.skip(2));
        lemma_shares_errors(data.skip(2));
        if let Ok(extended) = extend_offer(offer, be16(list, 0), data) {
            lemma_extensions_errors(list.skip(end), extended);
        }
    }
}

proof fn lemma_names_errors(entries: Seq<u8>)
    ensures
        server_name_entries(entries) matches Err(error) ==> error is Truncated || error
            is InvalidExtension,
    decreases entries.len(),
{
    if entries.len() >= 3 && 3 + be16(entries, 1) <= entries.len() {
        lemma_names_errors(entries.skip(3 + be16(entries, 1)));
    }
}

proof fn lemma_shares_errors(entries: Seq<u8>)
    ensures
        key_share_entries(entries) matches Err(error) ==> error is Truncated || error
            is InvalidExtension,
    decreases entries.len(),
{
    if entries.len() >= 4 && 4 + be16(entries, 2) <= entries.len() {
        lemma_shares_errors(entries.skip(4 + be16(entries, 2)));
    }
}

} // verus!
