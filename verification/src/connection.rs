//! What becomes of a connection after its first TLS record: it goes to the
//! fallback server, or the handshake continues.
use crate::bytes::{be16, read_be16};
use crate::crypto::{hkdf_sha256, x25519_public, x25519_shared};
use crate::hello_wire::{
    all_x25519_parts, law_client_hello_read, law_hello_bounded, law_record_round_trip, vec16,
    well_made, HelloParts, Tagged,
};
use crate::reality::{
    authenticate_client_hello, authenticated, client_result, clock_allowed, derive_session_key,
    law_looser_config_accepts, padded, sealed_for_server, session_key, session_plaintext, validated,
    version_allowed, version_below, AuthenticatedClient, AuthenticationError, ClientView, ConfigView,
    ServerConfig, REALITY_LABEL, SESSION_ID_LEN,
};
use crate::text::lower;
use crate::tls_client_hello;
use crate::tls_client_hello::{
    parse_record, record_hello, ClientHello, HelloView,
};
use vstd::prelude::*;

verus! {

/// The length of the TLS record that starts with `header`, header included.
pub fn first_record_len(header: &[u8; 5]) -> (len: usize)
    ensures
        len == 5 + be16(header@, 3),
        len == 5 + header@[3] * 0x100 + header@[4],
{
    5 + read_be16(header.as_slice(), 3) as usize
}

/// A client that passed authentication, and the key that it shares with the
/// server.
#[derive(Debug, Clone, PartialEq, Eq)]
pub struct Handshake {
    pub server_name: String,
    pub client: AuthenticatedClient,
    pub key_share: [u8; 32],
    pub auth_key: [u8; 32],
}

/// Why a connection goes to the fallback server.
#[derive(Debug, Clone, PartialEq, Eq)]
pub enum Rejection {
    /// The first record is not an acceptable ClientHello.
    ClientHello(tls_client_hello::ParseError),
    /// None of so many key shares authenticates the client.
    Authentication(usize),
}

/// What becomes of a connection after its first record. The record is handed
/// back as it was read.
#[derive(Debug, Clone, PartialEq, Eq)]
pub enum Admission {
    Fallback { record: Vec<u8>, rejection: Rejection },
    Accepted { record: Vec<u8>, handshake: Handshake },
}

/// What a [`Handshake`] holds, as mathematical values.
pub struct HandshakeView {
    pub server_name: Seq<char>,
    pub client: ClientView,
    pub key_share: Seq<u8>,
    pub auth_key: Seq<u8>,
}

impl View for Handshake {
    type V = HandshakeView;

    open spec fn view(&self) -> HandshakeView {
        HandshakeView {
            server_name: self.server_name@,
            client: self.client@,
            key_share: self.key_share@,
            auth_key: self.auth_key@,
        }
    }
}

/// What an [`Admission`] holds, as mathematical values.
pub enum AdmissionView {
    Fallback { record: Seq<u8>, rejection: Rejection },
    Accepted { record: Seq<u8>, handshake: HandshakeView },
}

impl View for Admission {
    type V = AdmissionView;

    open spec fn view(&self) -> AdmissionView {
        match self {
            Admission::Fallback { record, rejection } => AdmissionView::Fallback {
                record: record@,
                rejection: *rejection,
            },
            Admission::Accepted { record, handshake } => AdmissionView::Accepted {
                record: record@,
                handshake: handshake@,
            },
        }
    }
}

/// What authentication says of a ClientHello when it goes by the key share
/// `share`.
pub open spec fn share_outcome(config: ConfigView, hello: HelloView, share: Seq<u8>, now: int) -> Result<
    ClientView,
    AuthenticationError,
> {
    authenticated(
        config,
        hello.server_name,
        hello.random,
        Some(share),
        hello.encrypted_session_id,
        hello.reality_aad,
        now,
    )
}

/// The first key share from `from` on that authenticates the client.
pub open spec fn first_accepted(config: ConfigView, hello: HelloView, from: int, now: int) -> Option<
    (ClientView, Seq<u8>),
>
    decreases hello.x25519_key_shares.len() - from,
{
    if from >= hello.x25519_key_shares.len() {
        None
    } else {
        let share = hello.x25519_key_shares[from];
        match share_outcome(config, hello, share, now) {
            Ok(client) => Some((client, share)),
            Err(_) => first_accepted(config, hello, from + 1, now),
        }
    }
}

/// What becomes of a connection whose ClientHello was parsed, given the share
/// that authenticated it and the key agreed on with that share.
pub open spec fn admission_from(
    record: Seq<u8>,
    hello: HelloView,
    found: Option<(ClientView, Seq<u8>, Seq<u8>)>,
) -> AdmissionView {
    match found {
        None => AdmissionView::Fallback {
            record,
            rejection: Rejection::Authentication(hello.x25519_key_shares.len() as usize),
        },
        Some((client, key_share, auth_key)) => AdmissionView::Accepted {
            record,
            handshake: HandshakeView {
                server_name: hello.server_name,
                client,
                key_share,
                auth_key,
            },
        },
    }
}

/// What becomes of a connection after its first record.
pub open spec fn admission(config: ConfigView, record: Seq<u8>, now: int) -> AdmissionView {
    match record_hello(record) {
        Err(error) => AdmissionView::Fallback { record, rejection: Rejection::ClientHello(error) },
        Ok(hello) => admission_from(
            record,
            hello,
            match first_accepted(config, hello, 0, now) {
                None => None,
                Some((client, share)) => Some(
                    (client, share, session_key(config.private_key, share, hello.random)),
                ),
            },
        ),
    }
}

/// Whether a client with the X25519 secret key `client_secret` made `hello` for
/// the server: it asks for one of the server's names, offers its own public key
/// as the key share `at`, and sealed `plain`, which the server accepts, into the
/// session ID.
pub open spec fn honest_hello(
    config: ConfigView,
    hello: HelloView,
    at: int,
    client_secret: Seq<u8>,
    plain: Seq<u8>,
    now: int,
) -> bool {
    &&& config.server_names.contains(hello.server_name)
    &&& 0 <= at < hello.x25519_key_shares.len()
    &&& hello.x25519_key_shares[at] == x25519_public(client_secret)
    &&& hello.encrypted_session_id.len() == SESSION_ID_LEN
    &&& sealed_for_server(
        client_secret,
        config.private_key,
        hello.random,
        hello.reality_aad,
        plain,
        hello.encrypted_session_id,
    )
    &&& validated(config, padded(plain), now) is Ok
}

/// Whether a configuration, as it is written, allows a client: its version, its
/// time and its short ID.
pub open spec fn allows(config: ServerConfig, client: AuthenticatedClient, now: u64) -> bool {
    &&& config.min_client_version matches Some(min) ==> !version_below(client.version@, min@)
    &&& config.max_client_version matches Some(max) ==> !version_below(max@, client.version@)
    &&& config.max_time_diff_secs == 0 || (now - client.unix_time <= config.max_time_diff_secs
        && client.unix_time - now <= config.max_time_diff_secs)
    &&& exists|i: int|
        0 <= i < config.short_ids@.len() && (#[trigger] config.short_ids@[i])@ == client.short_id@
}

/// Finds the first key share that authenticates a client. For a client that
/// follows the protocol there is one.
pub fn find_client(config: &ServerConfig, hello: &ClientHello, now: u64) -> (found: Option<
    (AuthenticatedClient, [u8; 32]),
>)
    ensures
        first_accepted(config@, hello@, 0, now as int) == match found {
            Some((client, share)) => Some((client@, share@)),
            None => None,
        },
        forall|at: int, client_secret: Seq<u8>, plain: Seq<u8>| #[trigger]
            honest_hello(config@, hello@, at, client_secret, plain, now as int) ==> found is Some,
        found matches Some((client, share)) ==> allows(*config, client, now)
            && hello.x25519_key_shares@.contains(share),
        found is Some ==> exists|i: int|
            0 <= i < config.server_names@.len() && (#[trigger] config.server_names@[i])@
                == hello.server_name@,
{
    let mut i: usize = 0;
    while i < hello.x25519_key_shares.len()
        invariant
            i <= hello.x25519_key_shares@.len(),
            first_accepted(config@, hello@, 0, now as int) == first_accepted(
                config@,
                hello@,
                i as int,
                now as int,
            ),
            forall|at: int, client_secret: Seq<u8>, plain: Seq<u8>| #[trigger]
                honest_hello(config@, hello@, at, client_secret, plain, now as int) ==> at >= i,
        decreases hello.x25519_key_shares@.len() - i,
    {
        let share: [u8; 32] = hello.x25519_key_shares[i];
        assert(hello@.x25519_key_shares[i as int] == share@);
        let outcome = authenticate_client_hello(
            config,
            hello.server_name.as_str(),
            &hello.random,
            Some(share),
            hello.encrypted_session_id.as_slice(),
            hello.reality_aad.as_slice(),
            now,
        );
        assert(client_result(outcome) == share_outcome(config@, hello@, share@, now as int));
        if let Ok(client) = outcome {
            assert(hello.x25519_key_shares@[i as int] == share);
            return Some((client, share));
        }
        i += 1;
    }
    None
}

/// Derives the key that the server shares with the owner of the key share
/// `peer`. A peer that knows the server's public key derives the same.
pub fn authentication_key(private_key: &[u8; 32], hello: &ClientHello, peer: &[u8; 32]) -> (result:
    Result<[u8; 32], AuthenticationError>)
    ensures
        result is Ok,
        result matches Ok(key) ==> key@ == session_key(private_key@, peer@, hello.random@),
        forall|peer_secret: Seq<u8>|
            peer_secret.len() == 32 && peer@ == #[trigger] x25519_public(peer_secret) ==> (
            result matches Ok(key) ==> key@ == session_key(
                peer_secret,
                x25519_public(private_key@),
                hello.random@,
            )),
{
    derive_session_key(private_key, peer, &hello.random)
}

/// Decides what becomes of a connection whose ClientHello was parsed.
pub fn conclude(
    record: Vec<u8>,
    hello: ClientHello,
    found: Option<(AuthenticatedClient, [u8; 32], [u8; 32])>,
) -> (admission: Admission)
    ensures
        admission@ == admission_from(
            record@,
            hello@,
            match found {
                Some((client, share, key)) => Some((client@, share@, key@)),
                None => None,
            },
        ),
        match found {
            None => admission matches Admission::Fallback { record: kept, rejection } && kept@
                == record@ && rejection == Rejection::Authentication(hello.x25519_key_shares.len()),
            Some((client, share, key)) => admission matches Admission::Accepted {
                record: kept,
                handshake,
            } && kept@ == record@ && handshake.server_name@ == hello.server_name@
                && handshake.client == client && handshake.key_share == share && handshake.auth_key
                == key,
        },
{
    match found {
        None => {
            let offered: usize = hello.x25519_key_shares.len();
            Admission::Fallback { record, rejection: Rejection::Authentication(offered) }
        },
        Some((client, key_share, auth_key)) => Admission::Accepted {
            record,
            handshake: Handshake { server_name: hello.server_name, client, key_share, auth_key },
        },
    }
}

/// Decides what becomes of a connection after its first record.
///
/// Whatever the decision, the record is passed on as it was read. A client that
/// follows the protocol is accepted, and the key it is accepted with is the one
/// that it derives itself from the server's public key.
pub fn decide(config: &ServerConfig, record: Vec<u8>, now: u64) -> (decision: Admission)
    ensures
        decision@ == admission(config@, record@, now as int),
        record_hello(record@) matches Ok(hello) ==> forall|
            at: int,
            client_secret: Seq<u8>,
            plain: Seq<u8>,
        | #[trigger]
            honest_hello(config@, hello, at, client_secret, plain, now as int) ==> decision
                is Accepted,
        decision@ matches AdmissionView::Accepted { handshake, .. } ==> forall|
            client_secret: Seq<u8>,
        |
            client_secret.len() == 32 && handshake.key_share == #[trigger] x25519_public(
                client_secret,
            ) ==> handshake.auth_key == session_key(
                client_secret,
                x25519_public(config@.private_key),
                record_hello(record@)->Ok_0.random,
            ),
        match decision {
            Admission::Fallback { record: kept, .. } => kept@ == record@,
            Admission::Accepted { record: kept, handshake } => {
                &&& kept@ == record@
                &&& allows(*config, handshake.client, now)
                &&& exists|i: int|
                    0 <= i < config.server_names@.len() && (#[trigger] config.server_names@[i])@
                        == handshake.server_name@
            },
        },
{
    let hello: ClientHello = match parse_record(record.as_slice()) {
        Ok(hello) => hello,
        Err(error) => {
            return Admission::Fallback { record, rejection: Rejection::ClientHello(error) };
        },
    };
    match find_client(config, &hello, now) {
        None => conclude(record, hello, None),
        Some((client, share)) => {
            let key: [u8; 32] = authentication_key(&config.private_key, &hello, &share).unwrap();
            conclude(record, hello, Some((client, share, key)))
        },
    }
}

/// The record that a client sends first.
pub open spec fn hello_record(version: Seq<u8>, parts: HelloParts) -> Seq<u8> {
    seq![22u8] + version + vec16(parts.bytes())
}

/// The message that a client authenticates: its ClientHello with a session ID of
/// zeros.
pub open spec fn unsealed_hello(parts: HelloParts) -> Seq<u8> {
    parts.with_session_id(seq![0u8; 32]).bytes()
}

/// A client follows the protocol by what it puts on the wire: it names one of
/// the server's names in whatever case, shares its own X25519 public key, plain
/// or behind an ML-KEM key, and seals an acceptable plaintext over the rest of
/// its message. The first record of such a client is read, and found honest;
/// [`decide`] accepts it then.
pub proof fn law_client_on_the_wire(
    config: ConfigView,
    version: Seq<u8>,
    parts: HelloParts,
    name: Seq<char>,
    versions: Seq<u16>,
    lists: Seq<Seq<Tagged>>,
    at: int,
    client_secret: Seq<u8>,
    plain: Seq<u8>,
    now: int,
)
    requires
        well_made(parts, name, versions, lists),
        version.len() == 2,
        parts.bytes().len() < 0x1_0000,
        config.server_names.contains(lower(name)),
        0 <= at < all_x25519_parts(lists).len(),
        all_x25519_parts(lists)[at] == x25519_public(client_secret),
        parts.session_id.len() == 32,
        sealed_for_server(
            client_secret,
            config.private_key,
            parts.random,
            unsealed_hello(parts),
            plain,
            parts.session_id,
        ),
        validated(config, padded(plain), now) is Ok,
    ensures
        record_hello(hello_record(version, parts)) matches Ok(hello) && honest_hello(
            config,
            hello,
            at,
            client_secret,
            plain,
            now,
        ),
{
    law_client_hello_read(parts, name, versions, lists);
    law_record_round_trip(version, parts.bytes());
}

/// What becomes of a connection follows from its ClientHello: it is accepted
/// exactly where one of the key shares authenticates, by the first that does, with
/// the key agreed on with that share. Otherwise it goes to the fallback server,
/// and either way the record stays as it was read.
pub proof fn law_admission_judged(config: ConfigView, record: Seq<u8>, now: int)
    ensures
        match record_hello(record) {
            Err(error) => admission(config, record, now) == (AdmissionView::Fallback {
                record,
                rejection: Rejection::ClientHello(error),
            }),
            Ok(hello) => match admission(config, record, now) {
                AdmissionView::Fallback { record: kept, rejection } => {
                    &&& kept == record
                    &&& rejection == Rejection::Authentication(
                        hello.x25519_key_shares.len() as usize,
                    )
                    &&& forall|at: int|
                        0 <= at < hello.x25519_key_shares.len() ==> authenticated(
                            config,
                            hello.server_name,
                            hello.random,
                            Some(#[trigger] hello.x25519_key_shares[at]),
                            hello.encrypted_session_id,
                            hello.reality_aad,
                            now,
                        ) is Err
                },
                AdmissionView::Accepted { record: kept, handshake } => {
                    &&& kept == record
                    &&& handshake.server_name == hello.server_name
                    &&& handshake.auth_key == hkdf_sha256(
                        hello.random.take(20),
                        x25519_shared(config.private_key, handshake.key_share),
                        seq![0x52u8, 0x45, 0x41, 0x4c, 0x49, 0x54, 0x59],
                    )
                    &&& exists|at: int|
                        #![trigger hello.x25519_key_shares[at]]
                        {
                            &&& 0 <= at < hello.x25519_key_shares.len()
                            &&& hello.x25519_key_shares[at] == handshake.key_share
                            &&& authenticated(
                                config,
                                hello.server_name,
                                hello.random,
                                Some(hello.x25519_key_shares[at]),
                                hello.encrypted_session_id,
                                hello.reality_aad,
                                now,
                            ) == Ok::<ClientView, AuthenticationError>(handshake.client)
                            &&& forall|before: int|
                                0 <= before < at ==> authenticated(
                                    config,
                                    hello.server_name,
                                    hello.random,
                                    Some(#[trigger] hello.x25519_key_shares[before]),
                                    hello.encrypted_session_id,
                                    hello.reality_aad,
                                    now,
                                ) is Err
                        }
                },
            },
        },
{
    if let Ok(hello) = record_hello(record) {
        let at = lemma_first_accepted(config, hello, 0, now);
        law_hello_bounded(record.skip(5), hello);
        assert(hello.random.take(20) =~= hello.random.subrange(0, 20));
        assert(REALITY_LABEL@ =~= seq![0x52u8, 0x45, 0x41, 0x4c, 0x49, 0x54, 0x59]);
        assert forall|i: int| 0 <= i < hello.x25519_key_shares.len() implies share_outcome(
            config,
            hello,
            #[trigger] hello.x25519_key_shares[i],
            now,
        ) == authenticated(
            config,
            hello.server_name,
            hello.random,
            Some(hello.x25519_key_shares[i]),
            hello.encrypted_session_id,
            hello.reality_aad,
            now,
        ) by {}
    }
}

/// Who is accepted stays accepted where the configuration only becomes looser:
/// with more names, more short IDs, wider bounds or a longer time difference.
pub proof fn law_looser_config_admits(
    config: ConfigView,
    looser: ConfigView,
    record: Seq<u8>,
    now: int,
)
    requires
        admission(config, record, now) is Accepted,
        config.min_client_version matches Some(min) ==> min.len() == 3,
        config.max_client_version matches Some(max) ==> max.len() == 3,
        looser.private_key == config.private_key,
        config.server_names.subset_of(looser.server_names),
        config.short_ids.subset_of(looser.short_ids),
        looser.min_client_version matches Some(low) ==> low.len() == 3 && (
        config.min_client_version matches Some(min) && !version_below(min, low)),
        looser.max_client_version matches Some(high) ==> high.len() == 3 && (
        config.max_client_version matches Some(max) && !version_below(high, max)),
        looser.max_time_diff_secs == 0 || 0 < config.max_time_diff_secs
            <= looser.max_time_diff_secs,
    ensures
        admission(looser, record, now) is Accepted,
{
    let hello = record_hello(record)->Ok_0;
    law_admission_judged(config, record, now);
    law_admission_judged(looser, record, now);
    let share = admission(config, record, now)->handshake.key_share;
    let client = admission(config, record, now)->handshake.client;
    let at = choose|at: int|
        #![trigger hello.x25519_key_shares[at]]
        {
            &&& 0 <= at < hello.x25519_key_shares.len()
            &&& hello.x25519_key_shares[at] == share
        };
    let opened = session_plaintext(
        session_key(config.private_key, share, hello.random),
        hello.random,
        hello.encrypted_session_id,
        hello.reality_aad,
    );
    let plain = opened->Ok_0;
    assert(authenticated(
        config,
        hello.server_name,
        hello.random,
        Some(share),
        hello.encrypted_session_id,
        hello.reality_aad,
        now,
    ) == validated(config, plain, now));
    law_looser_config_accepts(config, looser, plain, now, client);
    assert(authenticated(
        looser,
        hello.server_name,
        hello.random,
        Some(hello.x25519_key_shares[at]),
        hello.encrypted_session_id,
        hello.reality_aad,
        now,
    ) is Ok);
}

/// Whatever the decision, the record is passed on as it was read.
pub proof fn law_record_kept(config: ConfigView, record: Seq<u8>, now: int)
    ensures
        match admission(config, record, now) {
            AdmissionView::Fallback { record: kept, .. } => kept == record,
            AdmissionView::Accepted { record: kept, .. } => kept == record,
        },
{
}

/// Nobody is accepted but who asks for a configured name with an authenticated
/// plaintext that holds an allowed version, an allowed time and a configured
/// short ID. The key that the handshake goes on with belongs to the first key
/// share that authenticates.
pub proof fn law_accepted_is_entitled(
    config: ConfigView,
    record: Seq<u8>,
    now: int,
    handshake: HandshakeView,
)
    requires
        admission(config, record, now) == (AdmissionView::Accepted { record, handshake }),
    ensures
        record_hello(record) matches Ok(hello) && {
            &&& handshake.server_name == hello.server_name
            &&& config.server_names.contains(handshake.server_name)
            &&& hello.encrypted_session_id.len() == 32
            &&& version_allowed(config, handshake.client.version)
            &&& clock_allowed(config, handshake.client.unix_time, now)
            &&& config.short_ids.contains(handshake.client.short_id)
            &&& handshake.auth_key == session_key(
                config.private_key,
                handshake.key_share,
                hello.random,
            )
            &&& exists|at: int|
                #![trigger hello.x25519_key_shares[at]]
                {
                    &&& 0 <= at < hello.x25519_key_shares.len()
                    &&& hello.x25519_key_shares[at] == handshake.key_share
                    &&& forall|before: int|
                        0 <= before < at ==> share_outcome(
                            config,
                            hello,
                            #[trigger] hello.x25519_key_shares[before],
                            now,
                        ) is Err
                }
        },
{
    let hello = record_hello(record)->Ok_0;
    let at = lemma_first_accepted(config, hello, 0, now);
    assert(hello.x25519_key_shares[at] == handshake.key_share);
}

/// Where the first key share from `from` on stands that authenticates the
/// client, if there is one.
proof fn lemma_first_accepted(config: ConfigView, hello: HelloView, from: int, now: int) -> (at: int)
    requires
        0 <= from,
    ensures
        match first_accepted(config, hello, from, now) {
            None => forall|at: int|
                from <= at < hello.x25519_key_shares.len() ==> share_outcome(
                    config,
                    hello,
                    #[trigger] hello.x25519_key_shares[at],
                    now,
                ) is Err,
            Some((client, share)) => {
                &&& from <= at < hello.x25519_key_shares.len()
                &&& hello.x25519_key_shares[at] == share
                &&& share_outcome(config, hello, share, now) == Ok::<
                    ClientView,
                    AuthenticationError,
                >(client)
                &&& forall|before: int|
                    from <= before < at ==> share_outcome(
                        config,
                        hello,
                        #[trigger] hello.x25519_key_shares[before],
                        now,
                    ) is Err
            },
        },
    decreases hello.x25519_key_shares.len() - from,
{
    if from < hello.x25519_key_shares.len() && share_outcome(
        config,
        hello,
        hello.x25519_key_shares[from],
        now,
    ) is Err {
        lemma_first_accepted(config, hello, from + 1, now)
    } else {
        from
    }
}

/// A readable ClientHello goes to the fallback server exactly where none of its
/// key shares authenticates the client, and the rejection counts them all.
pub proof fn law_refused_by_every_share(config: ConfigView, record: Seq<u8>, now: int)
    requires
        record_hello(record) is Ok,
    ensures
        admission(config, record, now) is Fallback <==> forall|at: int|
            0 <= at < record_hello(record)->Ok_0.x25519_key_shares.len() ==> share_outcome(
                config,
                record_hello(record)->Ok_0,
                #[trigger] record_hello(record)->Ok_0.x25519_key_shares[at],
                now,
            ) is Err,
        admission(config, record, now) matches AdmissionView::Fallback { rejection, .. }
            ==> rejection == Rejection::Authentication(
            record_hello(record)->Ok_0.x25519_key_shares.len() as usize,
        ),
{
    let _ = lemma_first_accepted(config, record_hello(record)->Ok_0, 0, now);
}

} // verus!
