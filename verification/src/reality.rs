//! REALITY authentication of a TLS 1.3 ClientHello.
//!
//! The client hides a short plaintext in the session ID of its ClientHello,
//! sealed under a key that it shares with the server. [`authenticated`] says
//! which ClientHello is accepted, [`validated`] what the plaintext must hold.
use crate::bytes::{
    array_views, be24, be32, be32_bytes, bytes_view, contains_array, read_be32, to_array,
};
use crate::crypto::{
    aes256_gcm_decrypt, aes256_gcm_open, aes256_gcm_seal, hkdf_sha256, hkdf_sha256_expand,
    x25519_diffie_hellman, x25519_public, x25519_shared,
};
use crate::text::{contains_name, texts};
use vstd::prelude::*;

verus! {

/// Fixed layout carried in a REALITY TLS ClientHello session ID before AEAD
/// encryption: Xray version (3), reserved byte, UNIX time (u32 BE), and an
/// eight-byte short ID. The remaining bytes are protocol padding.
pub const SESSION_ID_LEN: usize = 32;

/// The ASCII text `REALITY`.
pub const REALITY_LABEL: [u8; 7] = [0x52, 0x45, 0x41, 0x4c, 0x49, 0x54, 0x59];

/// What a server accepts. The two lists are sets: their order has no meaning.
#[derive(Debug, Clone)]
pub struct ServerConfig {
    pub private_key: [u8; 32],
    pub server_names: Vec<String>,
    pub short_ids: Vec<[u8; 8]>,
    pub min_client_version: Option<[u8; 3]>,
    pub max_client_version: Option<[u8; 3]>,
    /// Zero disables timestamp validation, matching Xray's `maxTimeDiff`.
    pub max_time_diff_secs: u64,
}

#[derive(Debug, Clone, Copy, PartialEq, Eq)]
pub struct AuthenticatedClient {
    pub version: [u8; 3],
    pub unix_time: u32,
    pub short_id: [u8; 8],
}

#[derive(Debug, Clone, PartialEq, Eq)]
pub enum AuthenticationError {
    ServerName,
    MissingX25519KeyShare,
    InvalidSessionId,
    Crypto,
    Version,
    ClockSkew,
    ShortId,
}

/// What a [`ServerConfig`] holds, as mathematical values.
pub struct ConfigView {
    pub private_key: Seq<u8>,
    pub server_names: Set<Seq<char>>,
    pub short_ids: Set<Seq<u8>>,
    pub min_client_version: Option<Seq<u8>>,
    pub max_client_version: Option<Seq<u8>>,
    pub max_time_diff_secs: int,
}

/// The bytes of an optional version.
pub open spec fn version_view(version: Option<[u8; 3]>) -> Option<Seq<u8>> {
    match version {
        Some(version) => Some(version@),
        None => None,
    }
}

impl View for ServerConfig {
    type V = ConfigView;

    open spec fn view(&self) -> ConfigView {
        ConfigView {
            private_key: self.private_key@,
            server_names: texts(self.server_names@).to_set(),
            short_ids: array_views(self.short_ids@).to_set(),
            min_client_version: version_view(self.min_client_version),
            max_client_version: version_view(self.max_client_version),
            max_time_diff_secs: self.max_time_diff_secs as int,
        }
    }
}

impl ServerConfig {
    /// The lists that stand for sets hold nothing twice.
    pub open spec fn well_formed(self) -> bool {
        &&& texts(self.server_names@).no_duplicates()
        &&& array_views(self.short_ids@).no_duplicates()
    }
}

/// What an [`AuthenticatedClient`] holds, as mathematical values.
pub struct ClientView {
    pub version: Seq<u8>,
    pub unix_time: int,
    pub short_id: Seq<u8>,
}

impl View for AuthenticatedClient {
    type V = ClientView;

    open spec fn view(&self) -> ClientView {
        ClientView {
            version: self.version@,
            unix_time: self.unix_time as int,
            short_id: self.short_id@,
        }
    }
}

/// `result`, with its value replaced by what that holds.
pub open spec fn client_result(result: Result<AuthenticatedClient, AuthenticationError>) -> Result<
    ClientView,
    AuthenticationError,
> {
    match result {
        Ok(client) => Ok(client@),
        Err(error) => Err(error),
    }
}

/// The key that seals a session ID: derived from an X25519 agreement and salted
/// with the first twenty bytes of the ClientHello random.
pub open spec fn session_key(secret: Seq<u8>, peer: Seq<u8>, random: Seq<u8>) -> Seq<u8> {
    hkdf_sha256(random.subrange(0, 20), x25519_shared(secret, peer), REALITY_LABEL@)
}

/// The AES-GCM nonce: the last twelve bytes of the ClientHello random.
pub open spec fn session_nonce(random: Seq<u8>) -> Seq<u8> {
    random.subrange(20, 32)
}

/// A plaintext of sixteen bytes, padded with zeros to the session-ID length.
pub open spec fn padded(plain: Seq<u8>) -> Seq<u8> {
    plain + Seq::new(16, |i: int| 0u8)
}

/// The padded plaintext that a decryption gives, `None` being one that failed.
pub open spec fn opened_plaintext(opened: Option<Seq<u8>>) -> Result<Seq<u8>, AuthenticationError> {
    match opened {
        None => Err(AuthenticationError::Crypto),
        Some(value) => if value.len() != 16 {
            Err(AuthenticationError::InvalidSessionId)
        } else {
            Ok(padded(value))
        },
    }
}

/// The padded plaintext in an encrypted session ID.
pub open spec fn session_plaintext(
    key: Seq<u8>,
    random: Seq<u8>,
    encrypted: Seq<u8>,
    aad: Seq<u8>,
) -> Result<Seq<u8>, AuthenticationError> {
    if encrypted.len() != SESSION_ID_LEN {
        Err(AuthenticationError::InvalidSessionId)
    } else {
        opened_plaintext(aes256_gcm_open(key, session_nonce(random), aad, encrypted))
    }
}

/// Whether a client version lies within the configured bounds. Versions compare
/// number by number, the first one being the most significant.
pub open spec fn version_allowed(config: ConfigView, version: Seq<u8>) -> bool {
    &&& config.min_client_version matches Some(min) ==> be24(min, 0) <= be24(version, 0)
    &&& config.max_client_version matches Some(max) ==> be24(version, 0) <= be24(max, 0)
}

/// Whether a client's clock is close enough to the server's.
pub open spec fn clock_allowed(config: ConfigView, unix_time: int, now: int) -> bool {
    config.max_time_diff_secs == 0 || (-config.max_time_diff_secs <= now - unix_time
        <= config.max_time_diff_secs)
}

/// The client that a session-ID plaintext stands for: version (3), reserved
/// byte, UNIX time (4), short ID (8).
pub open spec fn client_of(plain: Seq<u8>) -> ClientView {
    ClientView {
        version: plain.subrange(0, 3),
        unix_time: be32(plain, 4),
        short_id: plain.subrange(8, 16),
    }
}

/// Which session-ID plaintexts are accepted.
pub open spec fn validated(config: ConfigView, plain: Seq<u8>, now: int) -> Result<
    ClientView,
    AuthenticationError,
> {
    let client = client_of(plain);
    if !version_allowed(config, client.version) {
        Err(AuthenticationError::Version)
    } else if !clock_allowed(config, client.unix_time, now) {
        Err(AuthenticationError::ClockSkew)
    } else if !config.short_ids.contains(client.short_id) {
        Err(AuthenticationError::ShortId)
    } else {
        Ok(client)
    }
}

/// Which ClientHello is accepted.
pub open spec fn authenticated(
    config: ConfigView,
    server_name: Seq<char>,
    random: Seq<u8>,
    peer: Option<Seq<u8>>,
    encrypted: Seq<u8>,
    aad: Seq<u8>,
    now: int,
) -> Result<ClientView, AuthenticationError> {
    if !config.server_names.contains(server_name) {
        Err(AuthenticationError::ServerName)
    } else {
        match peer {
            None => Err(AuthenticationError::MissingX25519KeyShare),
            Some(peer) => match session_plaintext(
                session_key(config.private_key, peer, random),
                random,
                encrypted,
                aad,
            ) {
                Ok(plain) => validated(config, plain, now),
                Err(error) => Err(error),
            },
        }
    }
}

/// Whether `encrypted` is what a client with the X25519 secret key
/// `client_secret` makes of `plain` for the server with the secret key
/// `server_secret`, knowing only that server's public key.
pub open spec fn sealed_for_server(
    client_secret: Seq<u8>,
    server_secret: Seq<u8>,
    random: Seq<u8>,
    aad: Seq<u8>,
    plain: Seq<u8>,
    encrypted: Seq<u8>,
) -> bool {
    &&& client_secret.len() == 32
    &&& aes256_gcm_seal(
        session_key(client_secret, x25519_public(server_secret), random),
        session_nonce(random),
        aad,
        plain,
    ) == Some(encrypted)
}

/// Authenticates the REALITY material embedded in an already parsed TLS 1.3
/// ClientHello. `client_random` must be the 32 raw ClientHello random bytes.
///
/// Beside the exact answer the contract states what the exchange is for. A
/// session ID that a client sealed, knowing the server's public key only, is
/// judged by its plaintext. And a client is accepted only with a session ID
/// that was sealed under the key shared with the owner of its key share.
pub fn authenticate_client_hello(
    config: &ServerConfig,
    server_name: &str,
    client_random: &[u8; 32],
    client_x25519_public: Option<[u8; 32]>,
    encrypted_session_id: &[u8],
    // The ClientHello wire image after the session-ID field has been cleared,
    // exactly as Xray's server-side REALITY implementation supplies it to
    // AES-GCM as associated data.
    client_hello_aad: &[u8],
    now_unix: u64,
) -> (result: Result<AuthenticatedClient, AuthenticationError>)
    ensures
        client_result(result) == authenticated(
            config@,
            server_name@,
            client_random@,
            match client_x25519_public {
                Some(peer) => Some(peer@),
                None => None,
            },
            encrypted_session_id@,
            client_hello_aad@,
            now_unix as int,
        ),
        (result matches Err(error) && error == AuthenticationError::InvalidSessionId)
            <==> config@.server_names.contains(server_name@) && client_x25519_public is Some
            && encrypted_session_id@.len() != SESSION_ID_LEN,
        (result matches Err(error) && error == AuthenticationError::ServerName) <==> forall|i: int|
            0 <= i < config.server_names@.len() ==> (#[trigger] config.server_names@[i])@
                != server_name@,
        result matches Ok(client) ==> {
            &&& client_x25519_public is Some
            &&& encrypted_session_id@.len() == 32
            &&& config.min_client_version matches Some(min) ==> !version_below(
                client.version@,
                min@,
            )
            &&& config.max_client_version matches Some(max) ==> !version_below(
                max@,
                client.version@,
            )
            &&& config.max_time_diff_secs == 0 || (now_unix - client.unix_time
                <= config.max_time_diff_secs && client.unix_time - now_unix
                <= config.max_time_diff_secs)
            &&& exists|i: int|
                0 <= i < config.short_ids@.len() && (#[trigger] config.short_ids@[i])@
                    == client.short_id@
        },
        forall|client_secret: Seq<u8>, plain: Seq<u8>| #[trigger]
            sealed_for_server(
                client_secret,
                config@.private_key,
                client_random@,
                client_hello_aad@,
                plain,
                encrypted_session_id@,
            ) && config@.server_names.contains(server_name@) && encrypted_session_id@.len()
                == SESSION_ID_LEN && (client_x25519_public matches Some(peer) && peer@
                == x25519_public(client_secret)) ==> client_result(result) == validated(
                config@,
                padded(plain),
                now_unix as int,
            ),
        result matches Ok(client) ==> exists|plain: Seq<u8>|
            {
                &&& client@ == client_of(padded(plain))
                &&& #[trigger] aes256_gcm_seal(
                    session_key(config@.private_key, client_x25519_public->0@, client_random@),
                    session_nonce(client_random@),
                    client_hello_aad@,
                    plain,
                ) == Some(encrypted_session_id@)
            },
{
    proof {
        let listed = texts(config.server_names@);
        assert forall|i: int| 0 <= i < listed.len() implies #[trigger] listed[i]
            == config.server_names@[i]@ by {}
        if listed.contains(server_name@) {
            let i = listed.index_of(server_name@);
            assert(config.server_names@[i]@ == server_name@);
        }
        assert forall|i: int| 0 <= i < config.server_names@.len() && (
        #[trigger] config.server_names@[i])@ == server_name@ implies listed.contains(
            server_name@,
        ) by {
            assert(listed[i] == server_name@);
        }
    }
    if !contains_name(&config.server_names, server_name) {
        return Err(AuthenticationError::ServerName);
    }
    let peer: [u8; 32] = match client_x25519_public {
        Some(peer) => peer,
        None => return Err(AuthenticationError::MissingX25519KeyShare),
    };
    if encrypted_session_id.len() != SESSION_ID_LEN {
        return Err(AuthenticationError::InvalidSessionId);
    }
    let auth_key: [u8; 32] = match derive_session_key(&config.private_key, &peer, client_random) {
        Ok(key) => key,
        Err(error) => return Err(error),
    };
    match decrypt_session_id_with_aad(
        &auth_key,
        client_random,
        encrypted_session_id,
        client_hello_aad,
    ) {
        Ok(plain) => validate_plaintext(config, &plain, now_unix),
        Err(error) => Err(error),
    }
}

/// Derives the key that seals a session ID.
pub fn derive_session_key(
    private_key: &[u8; 32],
    peer: &[u8; 32],
    client_random: &[u8; 32],
) -> (result: Result<[u8; 32], AuthenticationError>)
    ensures
        result is Ok,
        result matches Ok(key) ==> key@ == session_key(private_key@, peer@, client_random@),
        result matches Ok(key) ==> key@ == hkdf_sha256(
            client_random@.take(20),
            x25519_shared(private_key@, peer@),
            seq![0x52u8, 0x45, 0x41, 0x4c, 0x49, 0x54, 0x59],
        ),
        forall|peer_secret: Seq<u8>|
            peer_secret.len() == 32 && peer@ == #[trigger] x25519_public(peer_secret) ==> (
            result matches Ok(key) ==> key@ == session_key(
                peer_secret,
                x25519_public(private_key@),
                client_random@,
            )),
{
    assert(client_random@.take(20) =~= client_random@.subrange(0, 20));
    assert(REALITY_LABEL@ =~= seq![0x52u8, 0x45, 0x41, 0x4c, 0x49, 0x54, 0x59]);
    let shared: [u8; 32] = x25519_diffie_hellman(private_key, peer);
    match hkdf_sha256_expand(
        &client_random.as_slice()[0..20],
        shared.as_slice(),
        REALITY_LABEL.as_slice(),
    ) {
        Ok(key) => Ok(key),
        Err(_) => Err(AuthenticationError::Crypto),
    }
}

/// Decrypts a session ID. Xray uses the final 12 bytes of ClientHello.random as
/// the AES-GCM nonce and authenticates the ClientHello wire image as associated
/// data.
pub fn decrypt_session_id_with_aad(
    auth_key: &[u8; 32],
    client_random: &[u8; 32],
    encrypted: &[u8],
    aad: &[u8],
) -> (result: Result<[u8; SESSION_ID_LEN], AuthenticationError>)
    ensures
        session_plaintext(auth_key@, client_random@, encrypted@, aad@) == match result {
            Ok(plain) => Ok(plain@),
            Err(error) => Err(error),
        },
        (result matches Err(error) && error == AuthenticationError::InvalidSessionId)
            <==> encrypted@.len() != SESSION_ID_LEN,
        encrypted@.len() == 32 ==> match aes256_gcm_open(
            auth_key@,
            client_random@.skip(20),
            aad@,
            encrypted@,
        ) {
            None => result == Err::<[u8; SESSION_ID_LEN], AuthenticationError>(
                AuthenticationError::Crypto,
            ),
            Some(value) => value.len() == 16 && (result matches Ok(plain) && plain@ == value
                + seq![0u8; 16]),
        },
        encrypted@.len() == SESSION_ID_LEN ==> forall|plain: Seq<u8>| #[trigger]
            aes256_gcm_seal(auth_key@, session_nonce(client_random@), aad@, plain) == Some(
                encrypted@,
            ) ==> (result matches Ok(opened) && opened@ == padded(plain)),
        result matches Ok(opened) ==> exists|plain: Seq<u8>|
            {
                &&& plain.len() == 16
                &&& opened@ == padded(plain)
                &&& #[trigger] aes256_gcm_seal(
                    auth_key@,
                    session_nonce(client_random@),
                    aad@,
                    plain,
                ) == Some(encrypted@)
            },
{
    if encrypted.len() != SESSION_ID_LEN {
        return Err(AuthenticationError::InvalidSessionId);
    }
    let nonce: &[u8] = &client_random.as_slice()[20..32];
    assert(nonce@ =~= client_random@.skip(20));
    let opened: Option<Vec<u8>> = match aes256_gcm_decrypt(auth_key, nonce, aad, encrypted) {
        Ok(value) => Some(value),
        Err(_) => None,
    };
    pad_plaintext(opened)
}

/// Pads what a decryption gave to the session-ID length.
pub fn pad_plaintext(opened: Option<Vec<u8>>) -> (result: Result<
    [u8; SESSION_ID_LEN],
    AuthenticationError,
>)
    ensures
        opened_plaintext(bytes_view(opened)) == match result {
            Ok(plain) => Ok(plain@),
            Err(error) => Err(error),
        },
        match opened {
            None => result == Err::<[u8; SESSION_ID_LEN], AuthenticationError>(
                AuthenticationError::Crypto,
            ),
            Some(value) => if value@.len() == 16 {
                result matches Ok(plain) && plain@ == value@ + seq![0u8; 16]
            } else {
                result == Err::<[u8; SESSION_ID_LEN], AuthenticationError>(
                    AuthenticationError::InvalidSessionId,
                )
            },
        },
{
    let value: Vec<u8> = match opened {
        Some(value) => value,
        None => return Err(AuthenticationError::Crypto),
    };
    if value.len() != 16 {
        return Err(AuthenticationError::InvalidSessionId);
    }
    let mut plain: [u8; SESSION_ID_LEN] = [0u8; SESSION_ID_LEN];
    let mut i: usize = 0;
    while i < 16
        invariant
            i <= 16,
            value@.len() == 16,
            plain@.len() == SESSION_ID_LEN,
            forall|j: int| 0 <= j < i ==> plain@[j] == value@[j],
            forall|j: int| i <= j < SESSION_ID_LEN ==> plain@[j] == 0,
        decreases 16 - i,
    {
        plain[i] = value[i];
        i += 1;
    }
    assert(plain@ =~= padded(value@));
    Ok(plain)
}

/// The number that a version stands for; versions compare as these.
fn version_number(version: &[u8; 3]) -> (n: u32)
    ensures
        n == be24(version@, 0),
{
    (version[0] as u32) * 0x1_0000 + (version[1] as u32) * 0x100 + (version[2] as u32)
}

/// Checks the plaintext of a session ID against the configuration.
pub fn validate_plaintext(config: &ServerConfig, plain: &[u8; SESSION_ID_LEN], now: u64) -> (result:
    Result<AuthenticatedClient, AuthenticationError>)
    ensures
        client_result(result) == validated(config@, plain@, now as int),
        result is Ok <==> {
            &&& config.min_client_version matches Some(min) ==> !version_below(plain@, min@)
            &&& config.max_client_version matches Some(max) ==> !version_below(max@, plain@)
            &&& config.max_time_diff_secs == 0 || (now - be32(plain@, 4)
                <= config.max_time_diff_secs && be32(plain@, 4) - now <= config.max_time_diff_secs)
            &&& exists|i: int|
                0 <= i < config.short_ids@.len() && (#[trigger] config.short_ids@[i])@
                    == plain@.subrange(8, 16)
        },
        result matches Ok(client) ==> {
            &&& client.version@ == plain@.subrange(0, 3)
            &&& client.unix_time == be32(plain@, 4)
            &&& client.short_id@ == plain@.subrange(8, 16)
        },
{
    proof {
        let asked = plain@.subrange(8, 16);
        if let Some(min) = config.min_client_version {
            law_version_order(plain@.subrange(0, 3), min@);
        }
        if let Some(max) = config.max_client_version {
            law_version_order(max@, plain@.subrange(0, 3));
        }
        if array_views(config.short_ids@).contains(asked) {
            let i = array_views(config.short_ids@).index_of(asked);
            assert(config.short_ids@[i]@ == asked);
        }
        if exists|i: int|
            0 <= i < config.short_ids@.len() && (#[trigger] config.short_ids@[i])@ == asked {
            let i = choose|i: int|
                0 <= i < config.short_ids@.len() && (#[trigger] config.short_ids@[i])@ == asked;
            assert(array_views(config.short_ids@)[i] == asked);
        }
    }
    let bytes: &[u8] = plain.as_slice();
    let version: [u8; 3] = to_array(&bytes[0..3]);
    let number: u32 = version_number(&version);
    if let Some(min) = &config.min_client_version {
        if number < version_number(min) {
            return Err(AuthenticationError::Version);
        }
    }
    if let Some(max) = &config.max_client_version {
        if number > version_number(max) {
            return Err(AuthenticationError::Version);
        }
    }
    let unix_time: u32 = read_be32(bytes, 4);
    let client_time: u64 = unix_time as u64;
    let diff: u64 = if now < client_time {
        client_time - now
    } else {
        now - client_time
    };
    if config.max_time_diff_secs != 0 && diff > config.max_time_diff_secs {
        return Err(AuthenticationError::ClockSkew);
    }
    let short_id: [u8; 8] = to_array(&bytes[8..16]);
    if !contains_array(&config.short_ids, &short_id) {
        return Err(AuthenticationError::ShortId);
    }
    Ok(AuthenticatedClient { version, unix_time, short_id })
}

/// The plaintext of a session ID, as a client lays it out.
pub open spec fn plaintext(
    version: Seq<u8>,
    reserved: u8,
    unix_time: int,
    short_id: Seq<u8>,
) -> Seq<u8> {
    version + seq![reserved] + be32_bytes(unix_time) + short_id
}

/// A plaintext in the Xray layout has the sixteen bytes that fit a session ID
/// with its tag, and is read as the version, time and short ID that it was made
/// of. It is accepted exactly where each of these is.
pub proof fn law_plaintext_layout(
    config: ConfigView,
    version: Seq<u8>,
    reserved: u8,
    unix_time: u32,
    short_id: Seq<u8>,
    now: int,
)
    requires
        version.len() == 3,
        short_id.len() == 8,
    ensures
        ({
            let plain = plaintext(version, reserved, unix_time as int, short_id);
            let client = ClientView { version, unix_time: unix_time as int, short_id };
            &&& plain.len() == 16
            &&& client_of(padded(plain)) == client
            &&& validated(config, padded(plain), now) == Ok::<ClientView, AuthenticationError>(
                client,
            ) <==> version_allowed(config, version) && clock_allowed(
                config,
                unix_time as int,
                now,
            ) && config.short_ids.contains(short_id)
        }),
{
    let plain = padded(plaintext(version, reserved, unix_time as int, short_id));
    let time = be32_bytes(unix_time as int);
    assert(plain.subrange(0, 3) =~= version);
    assert(plain.subrange(8, 16) =~= short_id);
    assert(plain[4] == time[0] && plain[5] == time[1] && plain[6] == time[2] && plain[7]
        == time[3]);
    assert(be32(plain, 4) == be32(time, 0));
    lemma_be32_bytes(unix_time);
}

proof fn lemma_be32_bytes(n: u32)
    ensures
        be32(be32_bytes(n as int), 0) == n,
{
}

/// The reserved byte and the padding of a plaintext have no say.
pub proof fn law_reserved_bytes_ignored(config: ConfigView, a: Seq<u8>, b: Seq<u8>, now: int)
    requires
        a.len() == SESSION_ID_LEN,
        b.len() == SESSION_ID_LEN,
        forall|i: int| 0 <= i < 16 && i != 3 ==> a[i] == b[i],
    ensures
        validated(config, a, now) == validated(config, b, now),
{
    assert(a.subrange(0, 3) =~= b.subrange(0, 3));
    assert(a.subrange(8, 16) =~= b.subrange(8, 16));
}

/// A maximal time difference of zero disables the clock check: the time of day
/// has no say, and no client is refused for its clock.
pub proof fn law_zero_disables_clock_check(config: ConfigView, plain: Seq<u8>, now: int, later: int)
    requires
        config.max_time_diff_secs == 0,
    ensures
        validated(config, plain, now) == validated(config, plain, later),
        validated(config, plain, now) != Err::<ClientView, AuthenticationError>(
            AuthenticationError::ClockSkew,
        ),
{
}

/// Whether the version in the first three bytes of `a` comes before the one in
/// the first three bytes of `b`: the first byte in which they differ decides.
pub open spec fn version_below(a: Seq<u8>, b: Seq<u8>) -> bool {
    ||| a[0] < b[0]
    ||| a[0] == b[0] && a[1] < b[1]
    ||| a[0] == b[0] && a[1] == b[1] && a[2] < b[2]
}

/// A plaintext is judged by its bytes: the first three against the bounds, each
/// of which counts by itself, the next but one to the eighth against the clock,
/// and the last eight against the short IDs, in this order.
pub proof fn law_plaintext_judged(config: ConfigView, plain: Seq<u8>, now: int)
    requires
        plain.len() == 32,
        config.min_client_version matches Some(min) ==> min.len() == 3,
        config.max_client_version matches Some(max) ==> max.len() == 3,
    ensures
        ({
            let outcome = validated(config, plain, now);
            let time = plain[4] * 0x100_0000 + plain[5] * 0x1_0000 + plain[6] * 0x100 + plain[7];
            let too_old = config.min_client_version matches Some(min) && version_below(plain, min);
            let too_new = config.max_client_version matches Some(max) && version_below(max, plain);
            let limit = config.max_time_diff_secs;
            let skewed = limit != 0 && (now - time > limit || time - now > limit);
            let known = config.short_ids.contains(plain.subrange(8, 16));
            &&& (outcome matches Err(error) && error is Version) <==> too_old || too_new
            &&& (outcome matches Err(error) && error is ClockSkew) <==> !too_old && !too_new
                && skewed
            &&& (outcome matches Err(error) && error is ShortId) <==> !too_old && !too_new
                && !skewed && !known
            &&& outcome is Ok <==> !too_old && !too_new && !skewed && known
            &&& outcome matches Ok(client) ==> client == ClientView {
                version: seq![plain[0], plain[1], plain[2]],
                unix_time: time,
                short_id: plain.subrange(8, 16),
            }
        }),
{
    if let Some(min) = config.min_client_version {
        law_version_order(plain.subrange(0, 3), min);
    }
    if let Some(max) = config.max_client_version {
        law_version_order(max, plain.subrange(0, 3));
    }
    assert(plain.subrange(0, 3) =~= seq![plain[0], plain[1], plain[2]]);
}

/// A client below the configured minimum is never accepted, whether or not there
/// is a maximum.
pub proof fn law_minimum_version_enforced(
    config: ConfigView,
    plain: Seq<u8>,
    min: Seq<u8>,
    now: int,
)
    requires
        plain.len() == 32,
        min.len() == 3,
        config.min_client_version == Some(min),
        plain[0] < min[0] || (plain[0] == min[0] && plain[1] < min[1]) || (plain[0] == min[0]
            && plain[1] == min[1] && plain[2] < min[2]),
    ensures
        validated(config, plain, now) == Err::<ClientView, AuthenticationError>(
            AuthenticationError::Version,
        ),
{
    law_version_order(plain.subrange(0, 3), min);
}

/// A client above the configured maximum is never accepted, whether or not there
/// is a minimum.
pub proof fn law_maximum_version_enforced(
    config: ConfigView,
    plain: Seq<u8>,
    max: Seq<u8>,
    now: int,
)
    requires
        plain.len() == 32,
        max.len() == 3,
        config.max_client_version == Some(max),
        plain[0] > max[0] || (plain[0] == max[0] && plain[1] > max[1]) || (plain[0] == max[0]
            && plain[1] == max[1] && plain[2] > max[2]),
    ensures
        validated(config, plain, now) == Err::<ClientView, AuthenticationError>(
            AuthenticationError::Version,
        ),
{
    law_version_order(max, plain.subrange(0, 3));
}

/// Whoever a configuration accepts, one that is nowhere stricter accepts too, as
/// the same client.
pub proof fn law_looser_config_accepts(
    config: ConfigView,
    looser: ConfigView,
    plain: Seq<u8>,
    now: int,
    client: ClientView,
)
    requires
        plain.len() == 32,
        config.min_client_version matches Some(min) ==> min.len() == 3,
        config.max_client_version matches Some(max) ==> max.len() == 3,
        validated(config, plain, now) == Ok::<ClientView, AuthenticationError>(client),
        looser.min_client_version matches Some(low) ==> low.len() == 3 && (
        config.min_client_version matches Some(min) && !version_below(min, low)),
        looser.max_client_version matches Some(high) ==> high.len() == 3 && (
        config.max_client_version matches Some(max) && !version_below(high, max)),
        looser.max_time_diff_secs == 0 || 0 < config.max_time_diff_secs
            <= looser.max_time_diff_secs,
        config.short_ids.subset_of(looser.short_ids),
    ensures
        validated(looser, plain, now) == Ok::<ClientView, AuthenticationError>(client),
{
    law_plaintext_judged(config, plain, now);
    law_plaintext_judged(looser, plain, now);
}

/// Which ClientHello is accepted, step by step: the name, the key share, the
/// length of the session ID, its decryption, and then the plaintext with zeros
/// behind it. The key comes from the first twenty bytes of the random, the nonce
/// from the last twelve.
pub proof fn law_hello_judged(
    config: ConfigView,
    server_name: Seq<char>,
    random: Seq<u8>,
    peer: Seq<u8>,
    encrypted: Seq<u8>,
    aad: Seq<u8>,
    now: int,
)
    requires
        random.len() == 32,
    ensures
        ({
            let outcome = authenticated(
                config,
                server_name,
                random,
                Some(peer),
                encrypted,
                aad,
                now,
            );
            let without = authenticated(config, server_name, random, None, encrypted, aad, now);
            let key = hkdf_sha256(
                random.take(20),
                x25519_shared(config.private_key, peer),
                seq![0x52u8, 0x45, 0x41, 0x4c, 0x49, 0x54, 0x59],
            );
            let opened = aes256_gcm_open(key, random.skip(20), aad, encrypted);
            if !config.server_names.contains(server_name) {
                &&& outcome == Err::<ClientView, AuthenticationError>(
                    AuthenticationError::ServerName,
                )
                &&& without == Err::<ClientView, AuthenticationError>(
                    AuthenticationError::ServerName,
                )
            } else {
                &&& without == Err::<ClientView, AuthenticationError>(
                    AuthenticationError::MissingX25519KeyShare,
                )
                &&& encrypted.len() != 32 ==> outcome == Err::<ClientView, AuthenticationError>(
                    AuthenticationError::InvalidSessionId,
                )
                &&& encrypted.len() == 32 && opened is None ==> outcome == Err::<
                    ClientView,
                    AuthenticationError,
                >(AuthenticationError::Crypto)
                &&& encrypted.len() == 32 && (opened matches Some(plain) && plain.len() == 16)
                    ==> outcome == validated(config, opened->0 + seq![0u8; 16], now)
            }
        }),
{
    assert(random.take(20) =~= random.subrange(0, 20));
    assert(random.skip(20) =~= random.subrange(20, 32));
    assert(REALITY_LABEL@ =~= seq![0x52u8, 0x45, 0x41, 0x4c, 0x49, 0x54, 0x59]);
    let key = session_key(config.private_key, peer, random);
    if let Some(plain) = aes256_gcm_open(key, session_nonce(random), aad, encrypted) {
        assert(padded(plain) =~= plain + seq![0u8; 16]);
    }
}

/// How a client seals a plaintext for a server whose public key it knows.
pub proof fn law_sealing(
    client_secret: Seq<u8>,
    server_secret: Seq<u8>,
    random: Seq<u8>,
    aad: Seq<u8>,
    plain: Seq<u8>,
    encrypted: Seq<u8>,
)
    requires
        random.len() == 32,
    ensures
        sealed_for_server(client_secret, server_secret, random, aad, plain, encrypted)
            <==> client_secret.len() == 32 && aes256_gcm_seal(
            hkdf_sha256(
                random.take(20),
                x25519_shared(client_secret, x25519_public(server_secret)),
                seq![0x52u8, 0x45, 0x41, 0x4c, 0x49, 0x54, 0x59],
            ),
            random.skip(20),
            aad,
            plain,
        ) == Some(encrypted),
        padded(plain).take(plain.len() as int) == plain,
        padded(plain).skip(plain.len() as int) == seq![0u8; 16],
{
    assert(random.take(20) =~= random.subrange(0, 20));
    assert(random.skip(20) =~= random.subrange(20, 32));
    assert(REALITY_LABEL@ =~= seq![0x52u8, 0x45, 0x41, 0x4c, 0x49, 0x54, 0x59]);
    assert(padded(plain).take(plain.len() as int) =~= plain);
    assert(padded(plain).skip(plain.len() as int) =~= seq![0u8; 16]);
}

/// Versions compare like the arrays that they are: by the first number in which
/// they differ.
pub proof fn law_version_order(a: Seq<u8>, b: Seq<u8>)
    requires
        a.len() == 3,
        b.len() == 3,
    ensures
        be24(a, 0) < be24(b, 0) <==> a[0] < b[0] || (a[0] == b[0] && (a[1] < b[1] || (a[1] == b[1]
            && a[2] < b[2]))),
        be24(a, 0) == be24(b, 0) <==> a == b,
{
    if be24(a, 0) == be24(b, 0) {
        assert(a =~= b);
    }
}

} // verus!
