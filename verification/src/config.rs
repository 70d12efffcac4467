//! Server configuration: from the texts of a configuration file to the values
//! that the server works with, and the texts of a fresh key pair.
use crate::bytes::{array_views, bytes_view, insert_array, to_array};
use crate::crypto::{
    base64_url_decode, base64_url_encode, decode_base64_url, encode_base64_url, parse_uuid,
    random_x25519_secret, uuid_bytes, x25519_public, x25519_public_key,
};
use crate::reality::{version_view, ConfigView, ServerConfig};
use crate::text;
use crate::text::{insert_name, lower, texts};
use vstd::prelude::*;
use vstd::utf8::{
    encode_utf8, encode_utf8_decode_utf8, encode_utf8_valid_utf8, is_ascii_chars,
    is_ascii_chars_encode_utf8, valid_utf8,
};

verus! {

/// A configuration file, as it is written.
#[derive(Debug, Clone)]
pub struct FileConfig {
    pub listen: String,
    pub users: Vec<String>,
    pub reality: RealityFileConfig,
}

/// The REALITY part of a configuration file, as it is written.
#[derive(Debug, Clone)]
pub struct RealityFileConfig {
    pub private_key: String,
    pub server_names: Vec<String>,
    pub short_ids: Vec<String>,
    pub min_client_version: Option<[u8; 3]>,
    pub max_client_version: Option<[u8; 3]>,
    pub max_time_diff_secs: u64,
    pub fallback: String,
}

/// A configuration that the server can work with. `users` is a set: its order
/// has no meaning.
#[derive(Debug, Clone)]
pub struct RuntimeConfig {
    pub listen: String,
    pub users: Vec<[u8; 16]>,
    pub reality: ServerConfig,
    pub fallback: String,
}

#[derive(Debug, Clone, PartialEq, Eq)]
pub enum ShortIdError {
    /// More than sixteen bytes, or an odd number of them.
    Length,
    /// A pair of bytes that is no text.
    Encoding,
    /// A pair of characters that is no hexadecimal number.
    Digit,
}

#[derive(Debug, Clone, PartialEq, Eq)]
pub enum ConfigError {
    /// The private key is not URL-safe base64 without padding.
    PrivateKeyEncoding,
    /// The private key does not decode to 32 bytes.
    PrivateKeyLength,
    ShortId(ShortIdError),
    /// A user is not a UUID.
    UserId,
    /// There are no users or no short IDs.
    Empty,
}

/// What a [`RuntimeConfig`] holds, as mathematical values.
pub struct RuntimeView {
    pub listen: Seq<char>,
    pub users: Set<Seq<u8>>,
    pub reality: ConfigView,
    pub fallback: Seq<char>,
}

impl View for RuntimeConfig {
    type V = RuntimeView;

    open spec fn view(&self) -> RuntimeView {
        RuntimeView {
            listen: self.listen@,
            users: array_views(self.users@).to_set(),
            reality: self.reality@,
            fallback: self.fallback@,
        }
    }
}

impl RuntimeConfig {
    /// The lists that stand for sets hold nothing twice, and the server knows at
    /// least one user and one short ID.
    pub open spec fn well_formed(self) -> bool {
        &&& array_views(self.users@).no_duplicates()
        &&& self.reality.well_formed()
        &&& self.users@.len() > 0
        &&& self.reality.short_ids@.len() > 0
    }
}

/// The time difference that a configuration file allows when it does not say.
pub fn default_time_diff() -> (secs: u64)
    ensures
        secs == 600,
{
    600
}

/// The value of a hexadecimal digit.
pub open spec fn hex_value(c: u8) -> Option<int> {
    if 0x30 <= c <= 0x39 {
        Some(c - 0x30)
    } else if 0x61 <= c <= 0x66 {
        Some(c - 0x61 + 10)
    } else if 0x41 <= c <= 0x46 {
        Some(c - 0x41 + 10)
    } else {
        None
    }
}

/// The number that two hexadecimal digits stand for.
pub open spec fn pair_value(high: u8, low: u8) -> Option<int> {
    match (hex_value(high), hex_value(low)) {
        (Some(h), Some(l)) => Some(16 * h + l),
        _ => None,
    }
}

/// What is wrong with the pairs from `from` on, if anything: the first that is
/// no number counts.
pub open spec fn bad_pair(bytes: Seq<u8>, from: int) -> Option<ShortIdError>
    decreases bytes.len() - from,
{
    if from + 2 > bytes.len() {
        None
    } else if !valid_utf8(bytes.subrange(from, from + 2)) {
        Some(ShortIdError::Encoding)
    } else if pair_value(bytes[from], bytes[from + 1]) is None {
        Some(ShortIdError::Digit)
    } else {
        bad_pair(bytes, from + 2)
    }
}

/// The eight bytes that pairs of digits stand for; missing ones are zero.
pub open spec fn pair_bytes(bytes: Seq<u8>) -> Seq<u8> {
    Seq::new(
        8,
        |i: int|
            if 2 * i + 2 <= bytes.len() {
                pair_value(bytes[2 * i], bytes[2 * i + 1])->0 as u8
            } else {
                0u8
            },
    )
}

/// The short ID that a text stands for: up to eight pairs of digits.
pub open spec fn short_id(text: Seq<char>) -> Result<Seq<u8>, ShortIdError> {
    let bytes = encode_utf8(text);
    if bytes.len() > 16 || bytes.len() % 2 != 0 {
        Err(ShortIdError::Length)
    } else {
        match bad_pair(bytes, 0) {
            Some(error) => Err(error),
            None => Ok(pair_bytes(bytes)),
        }
    }
}

/// The value of a hexadecimal digit.
fn hex_digit(c: u8) -> (value: Option<u8>)
    ensures
        match value {
            Some(v) => hex_value(c) == Some(v as int) && v < 16,
            None => hex_value(c) is None,
        },
{
    if 0x30 <= c && c <= 0x39 {
        Some(c - 0x30)
    } else if 0x61 <= c && c <= 0x66 {
        Some(c - 0x61 + 10)
    } else if 0x41 <= c && c <= 0x46 {
        Some(c - 0x41 + 10)
    } else {
        None
    }
}

/// The number that two hexadecimal digits stand for.
fn hex_pair(high: u8, low: u8) -> (value: Option<u8>)
    ensures
        match value {
            Some(v) => pair_value(high, low) == Some(v as int),
            None => pair_value(high, low) is None,
        },
{
    match (hex_digit(high), hex_digit(low)) {
        (Some(h), Some(l)) => Some(16 * h + l),
        _ => None,
    }
}

/// Parses a short ID.
pub fn parse_short_id(input: &str) -> (result: Result<[u8; 8], ShortIdError>)
    ensures
        short_id(input@) == match result {
            Ok(id) => Ok(id@),
            Err(error) => Err(error),
        },
{
    let bytes: &[u8] = input.as_bytes();
    if bytes.len() > 16 || bytes.len() % 2 != 0 {
        return Err(ShortIdError::Length);
    }
    let mut id: [u8; 8] = [0u8; 8];
    let mut i: usize = 0;
    while 2 * i < bytes.len()
        invariant
            bytes@ == encode_utf8(input@),
            bytes@.len() <= 16,
            bytes@.len() % 2 == 0,
            2 * i <= bytes@.len(),
            bad_pair(bytes@, 0) == bad_pair(bytes@, 2 * i as int),
            forall|j: int| 0 <= j < i ==> id@[j] == pair_bytes(bytes@)[j],
            forall|j: int| i <= j < 8 ==> id@[j] == 0,
        decreases bytes@.len() - 2 * i,
    {
        let pair: &[u8] = &bytes[2 * i..2 * i + 2];
        if text::decode(pair).is_none() {
            return Err(ShortIdError::Encoding);
        }
        match hex_pair(bytes[2 * i], bytes[2 * i + 1]) {
            Some(value) => id[i] = value,
            None => return Err(ShortIdError::Digit),
        }
        i += 1;
    }
    assert(id@ =~= pair_bytes(bytes@));
    Ok(id)
}

/// The private key in decoded bytes, if there are any.
pub open spec fn key_from(bytes: Option<Seq<u8>>) -> Result<Seq<u8>, ConfigError> {
    match bytes {
        None => Err(ConfigError::PrivateKeyEncoding),
        Some(bytes) => if bytes.len() != 32 {
            Err(ConfigError::PrivateKeyLength)
        } else {
            Ok(bytes)
        },
    }
}

/// Takes decoded bytes as a private key.
pub fn private_key_from(bytes: Option<Vec<u8>>) -> (result: Result<[u8; 32], ConfigError>)
    ensures
        key_from(bytes_view(bytes)) == match result {
            Ok(key) => Ok(key@),
            Err(error) => Err(error),
        },
        match bytes {
            None => result == Err::<[u8; 32], ConfigError>(ConfigError::PrivateKeyEncoding),
            Some(bytes) => if bytes@.len() == 32 {
                result matches Ok(key) && key@ == bytes@
            } else {
                result == Err::<[u8; 32], ConfigError>(ConfigError::PrivateKeyLength)
            },
        },
{
    match bytes {
        None => Err(ConfigError::PrivateKeyEncoding),
        Some(bytes) => {
            if bytes.len() != 32 {
                return Err(ConfigError::PrivateKeyLength);
            }
            Ok(to_array(bytes.as_slice()))
        },
    }
}

/// A key pair in the form in which it is written down.
#[derive(Debug, Clone, PartialEq, Eq)]
pub struct KeyText {
    pub private_key: String,
    pub public_key: String,
}

/// Writes down the key pair of a private key. The text of the private key is
/// read back as the same key.
pub fn key_text(private: &[u8; 32]) -> (keys: KeyText)
    ensures
        keys.private_key@ == base64_url_encode(private@),
        keys.public_key@ == base64_url_encode(x25519_public(private@)),
        key_from(base64_url_decode(keys.private_key@)) == Ok::<Seq<u8>, ConfigError>(private@),
        base64_url_decode(keys.public_key@) == Some(x25519_public(private@)),
{
    let public: [u8; 32] = x25519_public_key(private);
    KeyText { private_key: encode_base64_url(private), public_key: encode_base64_url(&public) }
}

/// Whether a secret key came from the source of random ones. No contract says
/// which ones do, so that only one that did come back is known to.
pub closed spec fn freshly_drawn(secret: [u8; 32]) -> bool {
    call_ensures(random_x25519_secret, (), secret)
}

/// Makes a fresh key pair and writes it down.
pub fn generate_keys() -> (keys: KeyText)
    ensures
        exists|private: Seq<u8>|
            {
                &&& private.len() == 32
                &&& keys.private_key@ == base64_url_encode(private)
                &&& keys.public_key@ == base64_url_encode(#[trigger] x25519_public(private))
                &&& key_from(base64_url_decode(keys.private_key@)) == Ok::<Seq<u8>, ConfigError>(
                    private,
                )
                &&& base64_url_decode(keys.public_key@) == Some(x25519_public(private))
            },
        exists|private: [u8; 32]| #[trigger]
            freshly_drawn(private) && keys.private_key@ == base64_url_encode(private@)
                && keys.public_key@ == base64_url_encode(x25519_public(private@)),
{
    let private: [u8; 32] = random_x25519_secret();
    let keys: KeyText = key_text(&private);
    assert(private@.len() == 32);
    assert(freshly_drawn(private));
    keys
}

/// The names of a list, in lower case.
pub open spec fn lower_names(names: Seq<Seq<char>>) -> Set<Seq<char>> {
    names.map_values(|name: Seq<char>| lower(name)).to_set()
}

/// The short IDs of a list, unless one is wrong: the first wrong one counts.
pub open spec fn short_ids(list: Seq<Seq<char>>) -> Result<Set<Seq<u8>>, ShortIdError>
    decreases list.len(),
{
    if list.len() == 0 {
        Ok(Set::empty())
    } else {
        match short_ids(list.drop_last()) {
            Err(error) => Err(error),
            Ok(ids) => match short_id(list.last()) {
                Err(error) => Err(error),
                Ok(id) => Ok(ids.insert(id)),
            },
        }
    }
}

/// The users of a list of parsed user IDs, unless one was no UUID.
pub open spec fn user_set(ids: Seq<Option<Seq<u8>>>) -> Option<Set<Seq<u8>>> {
    if ids.contains(None) {
        None
    } else {
        Some(ids.map_values(|id: Option<Seq<u8>>| id->0).to_set())
    }
}

/// The configuration that a file stands for, given the bytes behind its private
/// key and its users. The private key is looked at first, then the short IDs,
/// then the users.
pub open spec fn runtime_from(
    file: FileConfig,
    key: Option<Seq<u8>>,
    user_ids: Seq<Option<Seq<u8>>>,
) -> Result<RuntimeView, ConfigError> {
    match key_from(key) {
        Err(error) => Err(error),
        Ok(key) => match short_ids(texts(file.reality.short_ids@)) {
            Err(error) => Err(ConfigError::ShortId(error)),
            Ok(ids) => match user_set(user_ids) {
                None => Err(ConfigError::UserId),
                Some(users) => if users.is_empty() || ids.is_empty() {
                    Err(ConfigError::Empty)
                } else {
                    Ok(
                        RuntimeView {
                            listen: file.listen@,
                            users,
                            reality: ConfigView {
                                private_key: key,
                                server_names: lower_names(texts(file.reality.server_names@)),
                                short_ids: ids,
                                min_client_version: version_view(file.reality.min_client_version),
                                max_client_version: version_view(file.reality.max_client_version),
                                max_time_diff_secs: file.reality.max_time_diff_secs as int,
                            },
                            fallback: file.reality.fallback@,
                        },
                    )
                },
            },
        },
    }
}

/// The configuration that a file stands for.
pub open spec fn runtime(file: FileConfig) -> Result<RuntimeView, ConfigError> {
    runtime_from(
        file,
        base64_url_decode(file.reality.private_key@),
        texts(file.users@).map_values(|id: Seq<char>| uuid_bytes(id)),
    )
}

/// Folds a list of names to lower case.
fn build_names(list: &Vec<String>) -> (names: Vec<String>)
    ensures
        texts(names@).no_duplicates(),
        texts(names@).to_set() == lower_names(texts(list@)),
{
    let mut names: Vec<String> = Vec::new();
    let mut i: usize = 0;
    let ghost all = texts(list@).map_values(|name: Seq<char>| lower(name));
    assert(all.take(0).to_set() =~= texts(names@).to_set());
    while i < list.len()
        invariant
            i <= list@.len(),
            all == texts(list@).map_values(|name: Seq<char>| lower(name)),
            texts(names@).no_duplicates(),
            texts(names@).to_set() == all.take(i as int).to_set(),
        decreases list@.len() - i,
    {
        insert_name(&mut names, list[i].as_str().to_ascii_lowercase());
        proof {
            assert(all[i as int] == lower(list@[i as int]@));
            assert(all.take(i + 1) =~= all.take(i as int).push(all[i as int]));
            all.take(i as int).lemma_push_to_set_commute(all[i as int]);
        }
        i += 1;
    }
    assert(all.take(list@.len() as int) =~= all);
    names
}

/// Parses a list of short IDs.
fn build_short_ids(list: &Vec<String>) -> (result: Result<Vec<[u8; 8]>, ShortIdError>)
    ensures
        short_ids(texts(list@)) == match result {
            Ok(ids) => Ok(array_views(ids@).to_set()),
            Err(error) => Err(error),
        },
        result matches Ok(ids) ==> array_views(ids@).no_duplicates(),
{
    let mut ids: Vec<[u8; 8]> = Vec::new();
    let mut i: usize = 0;
    let ghost all = texts(list@);
    assert(array_views(ids@).to_set() =~= Set::empty());
    assert(all.take(0).len() == 0);
    while i < list.len()
        invariant
            i <= list@.len(),
            all == texts(list@),
            array_views(ids@).no_duplicates(),
            short_ids(all.take(i as int)) == Ok::<Set<Seq<u8>>, ShortIdError>(
                array_views(ids@).to_set(),
            ),
        decreases list@.len() - i,
    {
        proof {
            assert(all.take(i + 1).drop_last() =~= all.take(i as int));
            assert(all.take(i + 1).last() == list@[i as int]@);
        }
        match parse_short_id(list[i].as_str()) {
            Ok(id) => insert_array(&mut ids, id),
            Err(error) => {
                proof {
                    lemma_short_ids_error(all, i + 1, error);
                }
                return Err(error);
            },
        }
        i += 1;
    }
    assert(all.take(list@.len() as int) =~= all);
    Ok(ids)
}

/// An error in a part of the list is the error of the list.
proof fn lemma_short_ids_error(list: Seq<Seq<char>>, upto: int, error: ShortIdError)
    requires
        0 <= upto <= list.len(),
        short_ids(list.take(upto)) == Err::<Set<Seq<u8>>, ShortIdError>(error),
    ensures
        short_ids(list) == Err::<Set<Seq<u8>>, ShortIdError>(error),
    decreases list.len(),
{
    if upto == list.len() {
        assert(list.take(upto) =~= list);
    } else {
        assert(list.drop_last().take(upto) =~= list.take(upto));
        lemma_short_ids_error(list.drop_last(), upto, error);
    }
}

/// What a list of parsed user IDs holds.
pub open spec fn id_views(ids: Seq<Option<[u8; 16]>>) -> Seq<Option<Seq<u8>>> {
    ids.map_values(
        |id: Option<[u8; 16]>|
            match id {
                Some(id) => Some(id@),
                None => None,
            },
    )
}

/// Parses a list of user IDs; `None` stands for one that is no UUID.
fn parse_users(list: &Vec<String>) -> (ids: Vec<Option<[u8; 16]>>)
    ensures
        id_views(ids@) == texts(list@).map_values(|id: Seq<char>| uuid_bytes(id)),
{
    let mut ids: Vec<Option<[u8; 16]>> = Vec::new();
    let mut i: usize = 0;
    let ghost all = texts(list@).map_values(|id: Seq<char>| uuid_bytes(id));
    while i < list.len()
        invariant
            i <= list@.len(),
            all == texts(list@).map_values(|id: Seq<char>| uuid_bytes(id)),
            id_views(ids@) == all.take(i as int),
        decreases list@.len() - i,
    {
        let id: Option<[u8; 16]> = match parse_uuid(list[i].as_str()) {
            Ok(id) => Some(id),
            Err(_) => None,
        };
        let ghost before = id_views(ids@);
        ids.push(id);
        proof {
            assert(all[i as int] == uuid_bytes(list@[i as int]@));
            assert(id_views(ids@) =~= before.push(all[i as int]));
            assert(all.take(i + 1) =~= all.take(i as int).push(all[i as int]));
        }
        i += 1;
    }
    assert(all.take(list@.len() as int) =~= all);
    ids
}

/// Collects parsed user IDs; `None` where one was no UUID.
fn collect_users(ids: &Vec<Option<[u8; 16]>>) -> (result: Option<Vec<[u8; 16]>>)
    ensures
        user_set(id_views(ids@)) == match result {
            Some(users) => Some(array_views(users@).to_set()),
            None => None,
        },
        result matches Some(users) ==> array_views(users@).no_duplicates(),
{
    let mut users: Vec<[u8; 16]> = Vec::new();
    let mut i: usize = 0;
    let ghost all = id_views(ids@);
    let ghost bytes = all.map_values(|id: Option<Seq<u8>>| id->0);
    assert(array_views(users@).to_set() =~= bytes.take(0).to_set());
    while i < ids.len()
        invariant
            i <= ids@.len(),
            all == id_views(ids@),
            bytes == all.map_values(|id: Option<Seq<u8>>| id->0),
            forall|j: int| 0 <= j < i ==> all[j] is Some,
            array_views(users@).no_duplicates(),
            array_views(users@).to_set() == bytes.take(i as int).to_set(),
        decreases ids@.len() - i,
    {
        match ids[i] {
            Some(id) => {
                insert_array(&mut users, id);
                proof {
                    assert(bytes[i as int] == id@);
                    assert(bytes.take(i + 1) =~= bytes.take(i as int).push(id@));
                    bytes.take(i as int).lemma_push_to_set_commute(id@);
                }
            },
            None => {
                assert(all[i as int] is None);
                return None;
            },
        }
        i += 1;
    }
    assert(bytes.take(ids@.len() as int) =~= bytes);
    Some(users)
}

/// Whether what a file says without any encoding stands in a configuration as it
/// was written.
pub open spec fn keeps_fields(file: FileConfig, config: RuntimeConfig) -> bool {
    &&& config.listen@ == file.listen@
    &&& config.fallback@ == file.reality.fallback@
    &&& config.reality.max_time_diff_secs == file.reality.max_time_diff_secs
    &&& config.reality.min_client_version == file.reality.min_client_version
    &&& config.reality.max_client_version == file.reality.max_client_version
}

/// Whether a list of strings holds a text.
pub open spec fn has_text(list: Seq<String>, text: Seq<char>) -> bool {
    exists|i: int| 0 <= i < list.len() && (#[trigger] list[i])@ == text
}

/// Whether a list of arrays holds a byte string.
pub open spec fn has_bytes<const N: usize>(list: Seq<[u8; N]>, bytes: Seq<u8>) -> bool {
    exists|i: int| 0 <= i < list.len() && (#[trigger] list[i])@ == bytes
}

/// The short IDs of a list are those of its texts, and all of them must be
/// sound. Otherwise the first fault is reported.
pub proof fn law_short_ids_listed(list: Seq<Seq<char>>)
    ensures
        short_ids(list) is Ok <==> forall|i: int|
            0 <= i < list.len() ==> short_id(#[trigger] list[i]) is Ok,
        short_ids(list) matches Ok(ids) ==> forall|id: Seq<u8>|
            #[trigger] ids.contains(id) <==> exists|i: int|
                0 <= i < list.len() && short_id(#[trigger] list[i]) == Ok::<
                    Seq<u8>,
                    ShortIdError,
                >(id),
        short_ids(list) matches Err(error) ==> exists|i: int|
            {
                &&& 0 <= i < list.len()
                &&& short_id(#[trigger] list[i]) == Err::<Seq<u8>, ShortIdError>(error)
                &&& forall|j: int| 0 <= j < i ==> short_id(#[trigger] list[j]) is Ok
            },
    decreases list.len(),
{
    if list.len() > 0 {
        let rest = list.drop_last();
        let last = list.len() - 1;
        law_short_ids_listed(rest);
        assert forall|i: int| 0 <= i < last implies #[trigger] rest[i] == list[i] by {}
        match short_ids(rest) {
            Err(error) => {
                let i = choose|i: int|
                    {
                        &&& 0 <= i < rest.len()
                        &&& short_id(#[trigger] rest[i]) == Err::<Seq<u8>, ShortIdError>(error)
                        &&& forall|j: int| 0 <= j < i ==> short_id(#[trigger] rest[j]) is Ok
                    };
                assert(short_id(list[i]) == Err::<Seq<u8>, ShortIdError>(error));
                assert forall|j: int| 0 <= j < i implies short_id(#[trigger] list[j]) is Ok by {
                    assert(rest[j] == list[j]);
                }
            },
            Ok(ids) => {
                assert forall|j: int| 0 <= j < last implies short_id(#[trigger] list[j]) is Ok by {
                    assert(rest[j] == list[j]);
                }
                assert(list[last] == list.last());
                if let Ok(found) = short_ids(list) {
                    assert forall|id: Seq<u8>| #[trigger] found.contains(id) <==> exists|i: int|
                        0 <= i < list.len() && short_id(#[trigger] list[i]) == Ok::<
                            Seq<u8>,
                            ShortIdError,
                        >(id) by {
                        if ids.contains(id) {
                            let i = choose|i: int|
                                0 <= i < rest.len() && short_id(#[trigger] rest[i]) == Ok::<
                                    Seq<u8>,
                                    ShortIdError,
                                >(id);
                            assert(short_id(list[i]) == Ok::<Seq<u8>, ShortIdError>(id));
                        }
                        if exists|i: int|
                            0 <= i < list.len() && short_id(#[trigger] list[i]) == Ok::<
                                Seq<u8>,
                                ShortIdError,
                            >(id) {
                            let i = choose|i: int|
                                0 <= i < list.len() && short_id(#[trigger] list[i]) == Ok::<
                                    Seq<u8>,
                                    ShortIdError,
                                >(id);
                            if i < last {
                                assert(short_id(rest[i]) == Ok::<Seq<u8>, ShortIdError>(id));
                            }
                        }
                    }
                }
            },
        }
    }
}

/// The users of a list of parsed user IDs are those in it, and each one must have
/// been a UUID.
pub proof fn law_users_listed(ids: Seq<Option<Seq<u8>>>)
    ensures
        user_set(ids) is Some <==> forall|i: int| 0 <= i < ids.len() ==> (#[trigger] ids[i]) is Some,
        user_set(ids) matches Some(users) ==> forall|user: Seq<u8>|
            #[trigger] users.contains(user) <==> exists|i: int|
                0 <= i < ids.len() && #[trigger] ids[i] == Some(user),
{
    let bytes = ids.map_values(|id: Option<Seq<u8>>| id->0);
    if ids.contains(None) {
        let i = ids.index_of(None);
        assert(ids[i] is None);
    } else {
        assert forall|i: int| 0 <= i < ids.len() implies (#[trigger] ids[i]) is Some by {
            assert(ids.contains(ids[i]));
        }
        assert forall|user: Seq<u8>| #[trigger] bytes.to_set().contains(user) <==> exists|i: int|
            0 <= i < ids.len() && #[trigger] ids[i] == Some(user) by {
            if bytes.contains(user) {
                let i = bytes.index_of(user);
                assert(ids[i] == Some(user));
            }
            if exists|i: int| 0 <= i < ids.len() && #[trigger] ids[i] == Some(user) {
                let i = choose|i: int| 0 <= i < ids.len() && #[trigger] ids[i] == Some(user);
                assert(bytes[i] == user);
            }
        }
    }
}

/// The names of a list, in lower case, are those of its texts.
pub proof fn law_names_listed(names: Seq<Seq<char>>, name: Seq<char>)
    ensures
        lower_names(names).contains(name) <==> exists|i: int|
            0 <= i < names.len() && lower(#[trigger] names[i]) == name,
{
    if lower_names(names).contains(name) {
        law_no_other_names(names, name);
    }
    if exists|i: int| 0 <= i < names.len() && lower(#[trigger] names[i]) == name {
        let i = choose|i: int| 0 <= i < names.len() && lower(#[trigger] names[i]) == name;
        assert(names.map_values(|name: Seq<char>| lower(name))[i] == name);
    }
}

/// A list of strings holds what its texts hold.
proof fn lemma_has_text(list: Seq<String>, text: Seq<char>)
    ensures
        has_text(list, text) <==> texts(list).to_set().contains(text),
{
    if has_text(list, text) {
        let i = choose|i: int| 0 <= i < list.len() && (#[trigger] list[i])@ == text;
        assert(texts(list)[i] == text);
    }
    if texts(list).contains(text) {
        let i = texts(list).index_of(text);
        assert(list[i]@ == text);
    }
}

/// A list of arrays holds what its byte strings hold.
proof fn lemma_has_bytes<const N: usize>(list: Seq<[u8; N]>, bytes: Seq<u8>)
    ensures
        has_bytes(list, bytes) <==> array_views(list).to_set().contains(bytes),
{
    if has_bytes(list, bytes) {
        let i = choose|i: int| 0 <= i < list.len() && (#[trigger] list[i])@ == bytes;
        assert(array_views(list)[i] == bytes);
    }
    if array_views(list).contains(bytes) {
        let i = array_views(list).index_of(bytes);
        assert(list[i]@ == bytes);
    }
}

/// The short IDs of a configuration are those of the file.
proof fn lemma_short_ids_kept(list: Seq<String>, ids: Seq<[u8; 8]>, id: Seq<u8>)
    requires
        short_ids(texts(list)) == Ok::<Set<Seq<u8>>, ShortIdError>(array_views(ids).to_set()),
    ensures
        has_bytes(ids, id) <==> exists|i: int|
            0 <= i < list.len() && short_id(#[trigger] list[i]@) == Ok::<Seq<u8>, ShortIdError>(id),
{
    let found = short_ids(texts(list))->Ok_0;
    law_short_ids_listed(texts(list));
    lemma_has_bytes(ids, id);
    assert(found.contains(id) <==> has_bytes(ids, id));
    assert forall|i: int| 0 <= i < list.len() implies #[trigger] texts(list)[i] == list[i]@ by {}
    if found.contains(id) {
        let i = choose|i: int|
            0 <= i < texts(list).len() && short_id(#[trigger] texts(list)[i]) == Ok::<
                Seq<u8>,
                ShortIdError,
            >(id);
        assert(short_id(list[i]@) == Ok::<Seq<u8>, ShortIdError>(id));
    }
    if exists|i: int|
        0 <= i < list.len() && short_id(#[trigger] list[i]@) == Ok::<Seq<u8>, ShortIdError>(id) {
        let i = choose|i: int|
            0 <= i < list.len() && short_id(#[trigger] list[i]@) == Ok::<Seq<u8>, ShortIdError>(id);
        assert(short_id(texts(list)[i]) == Ok::<Seq<u8>, ShortIdError>(id));
    }
}

/// The short IDs of a file are sound exactly where each one is.
proof fn lemma_short_ids_sound(list: Seq<String>)
    ensures
        short_ids(texts(list)) is Ok <==> forall|i: int|
            0 <= i < list.len() ==> short_id(#[trigger] list[i]@) is Ok,
        short_ids(texts(list)) matches Ok(ids) ==> (ids.is_empty() <==> list.len() == 0),
{
    let all = texts(list);
    law_short_ids_listed(all);
    assert forall|i: int| 0 <= i < list.len() implies #[trigger] all[i] == list[i]@ by {}
    if forall|i: int| 0 <= i < list.len() ==> short_id(#[trigger] list[i]@) is Ok {
        assert forall|i: int| 0 <= i < all.len() implies short_id(#[trigger] all[i]) is Ok by {
            assert(short_id(list[i]@) is Ok);
        }
    }
    if short_ids(all) is Ok {
        let ids = short_ids(all)->Ok_0;
        assert forall|i: int| 0 <= i < list.len() implies short_id(#[trigger] list[i]@) is Ok by {
            assert(short_id(all[i]) is Ok);
        }
        if list.len() > 0 {
            assert(short_id(all[0]) is Ok);
            assert(ids.contains(short_id(all[0])->Ok_0));
        } else {
            assert(ids =~= Set::empty());
        }
    }
}

/// The names of a configuration are those of the file.
proof fn lemma_names_kept(list: Seq<String>, names: Seq<String>, name: Seq<char>)
    requires
        texts(names).to_set() == lower_names(texts(list)),
    ensures
        has_text(names, name) <==> exists|i: int|
            0 <= i < list.len() && lower(#[trigger] list[i]@) == name,
{
    law_names_listed(texts(list), name);
    lemma_has_text(names, name);
    if has_text(names, name) {
        let i = choose|i: int|
            0 <= i < texts(list).len() && lower(#[trigger] texts(list)[i]) == name;
        assert(lower(list[i]@) == name);
    }
    if exists|i: int| 0 <= i < list.len() && lower(#[trigger] list[i]@) == name {
        let i = choose|i: int| 0 <= i < list.len() && lower(#[trigger] list[i]@) == name;
        assert(lower(texts(list)[i]) == name);
    }
}

/// The users of a configuration are the parsed ones.
proof fn lemma_users_kept(ids: Seq<Option<[u8; 16]>>, users: Seq<[u8; 16]>, user: Seq<u8>)
    requires
        user_set(id_views(ids)) == Some(array_views(users).to_set()),
    ensures
        has_bytes(users, user) <==> exists|i: int|
            0 <= i < ids.len() && ((#[trigger] ids[i]) matches Some(id) && id@ == user),
{
    let all = id_views(ids);
    let found = user_set(all)->0;
    law_users_listed(all);
    lemma_has_bytes(users, user);
    assert(found.contains(user) <==> has_bytes(users, user));
    if has_bytes(users, user) {
        let i = choose|i: int| 0 <= i < all.len() && #[trigger] all[i] == Some(user);
        assert(ids[i] matches Some(id) && id@ == user);
    }
    if exists|i: int| 0 <= i < ids.len() && ((#[trigger] ids[i]) matches Some(id) && id@ == user) {
        let i = choose|i: int|
            0 <= i < ids.len() && ((#[trigger] ids[i]) matches Some(id) && id@ == user);
        assert(all[i] == Some(user));
    }
}

/// Parsed users make a set exactly where each one was a UUID.
proof fn lemma_users_sound(ids: Seq<Option<[u8; 16]>>)
    ensures
        user_set(id_views(ids)) is Some <==> forall|i: int|
            0 <= i < ids.len() ==> (#[trigger] ids[i]) is Some,
        user_set(id_views(ids)) matches Some(users) ==> (users.is_empty() <==> ids.len() == 0),
{
    let all = id_views(ids);
    law_users_listed(all);
    assert forall|i: int| 0 <= i < ids.len() implies (all[i] is Some <==> (#[trigger] ids[i])
        is Some) by {}
    if forall|i: int| 0 <= i < ids.len() ==> (#[trigger] ids[i]) is Some {
        assert forall|i: int| 0 <= i < all.len() implies (#[trigger] all[i]) is Some by {
            assert(ids[i] is Some);
        }
    }
    if user_set(all) is Some {
        let users = user_set(all)->0;
        if ids.len() > 0 {
            assert(all[0] is Some);
            assert(all[0] == Some(all[0]->0));
            assert(users.contains(all[0]->0));
        } else {
            assert(users =~= Set::empty());
        }
    }
}

/// Turns a configuration file into a configuration, given the bytes behind its
/// private key and its users.
pub fn build_config_from(
    file: FileConfig,
    key: Option<Vec<u8>>,
    user_ids: &Vec<Option<[u8; 16]>>,
) -> (result: Result<RuntimeConfig, ConfigError>)
    ensures
        runtime_from(file, bytes_view(key), id_views(user_ids@)) == match result {
            Ok(config) => Ok(config@),
            Err(error) => Err(error),
        },
        result matches Ok(config) ==> config.well_formed(),
        result matches Ok(config) ==> {
            &&& keeps_fields(file, config)
            &&& bytes_view(key) == Some(config.reality.private_key@)
            &&& forall|name: Seq<char>|
                #[trigger] has_text(config.reality.server_names@, name) <==> exists|i: int|
                    0 <= i < file.reality.server_names@.len() && lower(
                        #[trigger] file.reality.server_names@[i]@,
                    ) == name
            &&& forall|id: Seq<u8>|
                #[trigger] has_bytes(config.reality.short_ids@, id) <==> exists|i: int|
                    0 <= i < file.reality.short_ids@.len() && short_id(
                        #[trigger] file.reality.short_ids@[i]@,
                    ) == Ok::<Seq<u8>, ShortIdError>(id)
            &&& forall|user: Seq<u8>|
                #[trigger] has_bytes(config.users@, user) <==> exists|i: int|
                    0 <= i < user_ids@.len() && ((#[trigger] user_ids@[i]) matches Some(id) && id@
                        == user)
        },
        result is Ok <==> {
            &&& bytes_view(key) matches Some(bytes) && bytes.len() == 32
            &&& file.reality.short_ids@.len() > 0
            &&& user_ids@.len() > 0
            &&& forall|i: int|
                0 <= i < file.reality.short_ids@.len() ==> short_id(
                    #[trigger] file.reality.short_ids@[i]@,
                ) is Ok
            &&& forall|i: int| 0 <= i < user_ids@.len() ==> (#[trigger] user_ids@[i]) is Some
        },
{
    proof {
        lemma_short_ids_sound(file.reality.short_ids@);
        lemma_users_sound(user_ids@);
    }
    let private_key: [u8; 32] = match private_key_from(key) {
        Ok(key) => key,
        Err(error) => return Err(error),
    };
    let server_names: Vec<String> = build_names(&file.reality.server_names);
    let short_ids: Vec<[u8; 8]> = match build_short_ids(&file.reality.short_ids) {
        Ok(ids) => ids,
        Err(error) => return Err(ConfigError::ShortId(error)),
    };
    let users: Vec<[u8; 16]> = match collect_users(user_ids) {
        Some(users) => users,
        None => return Err(ConfigError::UserId),
    };
    proof {
        lemma_empty_list(array_views(users@));
        lemma_empty_list(array_views(short_ids@));
    }
    if users.len() == 0 || short_ids.len() == 0 {
        return Err(ConfigError::Empty);
    }
    proof {
        assert forall|name: Seq<char>|
            #[trigger] has_text(server_names@, name) <==> exists|i: int|
                0 <= i < file.reality.server_names@.len() && lower(
                    #[trigger] file.reality.server_names@[i]@,
                ) == name by {
            lemma_names_kept(file.reality.server_names@, server_names@, name);
        }
        assert forall|id: Seq<u8>|
            #[trigger] has_bytes(short_ids@, id) <==> exists|i: int|
                0 <= i < file.reality.short_ids@.len() && short_id(
                    #[trigger] file.reality.short_ids@[i]@,
                ) == Ok::<Seq<u8>, ShortIdError>(id) by {
            lemma_short_ids_kept(file.reality.short_ids@, short_ids@, id);
        }
        assert forall|user: Seq<u8>|
            #[trigger] has_bytes(users@, user) <==> exists|i: int|
                0 <= i < user_ids@.len() && ((#[trigger] user_ids@[i]) matches Some(id) && id@
                    == user) by {
            lemma_users_kept(user_ids@, users@, user);
        }
    }
    Ok(
        RuntimeConfig {
            listen: file.listen,
            users,
            reality: ServerConfig {
                private_key,
                server_names,
                short_ids,
                min_client_version: file.reality.min_client_version,
                max_client_version: file.reality.max_client_version,
                max_time_diff_secs: file.reality.max_time_diff_secs,
            },
            fallback: file.reality.fallback,
        },
    )
}

/// Turns a configuration file into a configuration.
pub fn build_config(file: FileConfig) -> (result: Result<RuntimeConfig, ConfigError>)
    ensures
        runtime(file) == match result {
            Ok(config) => Ok(config@),
            Err(error) => Err(error),
        },
        result matches Ok(config) ==> config.well_formed(),
        result matches Ok(config) ==> {
            &&& keeps_fields(file, config)
            &&& base64_url_decode(file.reality.private_key@) == Some(config.reality.private_key@)
            &&& forall|name: Seq<char>|
                #[trigger] has_text(config.reality.server_names@, name) <==> exists|i: int|
                    0 <= i < file.reality.server_names@.len() && lower(
                        #[trigger] file.reality.server_names@[i]@,
                    ) == name
            &&& forall|id: Seq<u8>|
                #[trigger] has_bytes(config.reality.short_ids@, id) <==> exists|i: int|
                    0 <= i < file.reality.short_ids@.len() && short_id(
                        #[trigger] file.reality.short_ids@[i]@,
                    ) == Ok::<Seq<u8>, ShortIdError>(id)
            &&& forall|user: Seq<u8>|
                #[trigger] has_bytes(config.users@, user) <==> exists|i: int|
                    0 <= i < file.users@.len() && uuid_bytes(#[trigger] file.users@[i]@) == Some(
                        user,
                    )
        },
        result is Ok <==> {
            &&& base64_url_decode(file.reality.private_key@) matches Some(key) && key.len() == 32
            &&& file.reality.short_ids@.len() > 0
            &&& file.users@.len() > 0
            &&& forall|i: int|
                0 <= i < file.reality.short_ids@.len() ==> short_id(
                    #[trigger] file.reality.short_ids@[i]@,
                ) is Ok
            &&& forall|i: int| 0 <= i < file.users@.len() ==> uuid_bytes(#[trigger] file.users@[i]@) is Some
        },
{
    let key: Option<Vec<u8>> = match decode_base64_url(file.reality.private_key.as_str()) {
        Ok(bytes) => Some(bytes),
        Err(_) => None,
    };
    let user_ids: Vec<Option<[u8; 16]>> = parse_users(&file.users);
    proof {
        let parsed = texts(file.users@).map_values(|id: Seq<char>| uuid_bytes(id));
        assert forall|i: int| 0 <= i < file.users@.len() implies uuid_bytes(
            #[trigger] file.users@[i]@,
        ) == (match user_ids@[i] {
            Some(id) => Some(id@),
            None => None,
        }) by {
            assert(id_views(user_ids@)[i] == parsed[i]);
        }
        assert(id_views(user_ids@).len() == parsed.len());
        assert forall|i: int| 0 <= i < user_ids@.len() implies uuid_bytes(file.users@[i]@)
            == (match #[trigger] user_ids@[i] {
            Some(id) => Some(id@),
            None => None,
        }) by {}
    }
    build_config_from(file, key, &user_ids)
}

/// A list is empty exactly where its set is.
proof fn lemma_empty_list(list: Seq<Seq<u8>>)
    ensures
        list.len() == 0 <==> list.to_set().is_empty(),
{
    if list.len() > 0 {
        assert(list.to_set().contains(list[0]));
    } else {
        assert(list.to_set() =~= Set::empty());
    }
}

/// The bytes of an ASCII text.
pub open spec fn ascii_bytes(text: Seq<char>) -> Seq<u8> {
    Seq::new(text.len(), |i: int| text[i] as u8)
}

/// The eight bytes that hexadecimal digits stand for, two digits a byte; the
/// bytes behind the last pair are zero.
pub open spec fn hex_bytes(text: Seq<char>) -> Seq<u8> {
    Seq::new(
        8,
        |i: int|
            if 2 * i < text.len() {
                (16 * hex_value(text[2 * i] as u8)->0 + hex_value(text[2 * i + 1] as u8)->0) as u8
            } else {
                0u8
            },
    )
}

/// Whether a character is a hexadecimal digit, in either case.
pub open spec fn is_hex(c: char) -> bool {
    ||| '0' <= c && c <= '9'
    ||| 'a' <= c && c <= 'f'
    ||| 'A' <= c && c <= 'F'
}

/// Whether a text is made of up to sixteen hexadecimal digits, an even number of
/// them.
pub open spec fn is_hex_text(text: Seq<char>) -> bool {
    &&& text.len() <= 16
    &&& text.len() % 2 == 0
    &&& forall|i: int| 0 <= i < text.len() ==> is_hex(#[trigger] text[i])
}

/// Up to sixteen hexadecimal digits, an even number of them, in either case, are
/// a short ID, and no other text is.
pub proof fn law_short_ids_are_hex(text: Seq<char>)
    ensures
        short_id(text) is Ok <==> is_hex_text(text),
        is_hex_text(text) ==> short_id(text) == Ok::<Seq<u8>, ShortIdError>(hex_bytes(text)),
{
    if is_hex_text(text) {
        assert(is_ascii_chars(text));
        is_ascii_chars_encode_utf8(text);
        assert(encode_utf8(text) =~= ascii_bytes(text));
        lemma_no_bad_pair(text, 0);
        assert forall|i: int| 0 <= i < 8 implies pair_bytes(ascii_bytes(text))[i] == hex_bytes(
            text,
        )[i] by {
            if 2 * i < text.len() {
                assert(is_hex(text[2 * i]) && is_hex(text[2 * i + 1]));
            }
        }
        assert(pair_bytes(ascii_bytes(text)) =~= hex_bytes(text));
    }
    if short_id(text) is Ok {
        let bytes = encode_utf8(text);
        let digits = Seq::new(bytes.len(), |i: int| bytes[i] as char);
        lemma_all_digits(bytes, 0);
        assert forall|i: int| 0 <= i < digits.len() implies is_hex(#[trigger] digits[i]) by {
            assert(hex_value(bytes[i]) is Some);
        }
        assert(is_ascii_chars(digits));
        is_ascii_chars_encode_utf8(digits);
        assert(encode_utf8(digits) =~= bytes);
        encode_utf8_decode_utf8(digits);
        encode_utf8_decode_utf8(text);
    }
}

/// Pairs without a fault are made of digits.
proof fn lemma_all_digits(bytes: Seq<u8>, from: int)
    requires
        0 <= from <= bytes.len(),
        from % 2 == 0,
        bytes.len() % 2 == 0,
        bad_pair(bytes, from) is None,
    ensures
        forall|i: int| from <= i < bytes.len() ==> hex_value(#[trigger] bytes[i]) is Some,
    decreases bytes.len() - from,
{
    if from + 2 <= bytes.len() {
        lemma_all_digits(bytes, from + 2);
    }
}

/// Digits are pairs without a fault.
proof fn lemma_no_bad_pair(text: Seq<char>, from: int)
    requires
        0 <= from <= text.len(),
        from % 2 == 0,
        text.len() % 2 == 0,
        forall|i: int| 0 <= i < text.len() ==> is_hex(#[trigger] text[i]),
    ensures
        bad_pair(ascii_bytes(text), from) is None,
    decreases text.len() - from,
{
    if from + 2 <= text.len() {
        let bytes = ascii_bytes(text);
        let pair = text.subrange(from, from + 2);
        assert(is_ascii_chars(pair));
        is_ascii_chars_encode_utf8(pair);
        encode_utf8_valid_utf8(pair);
        assert(bytes.subrange(from, from + 2) =~= encode_utf8(pair));
        assert(is_hex(text[from]) && is_hex(text[from + 1]));
        lemma_no_bad_pair(text, from + 2);
    }
}

/// A server name is matched without regard to the case of its ASCII letters:
/// whoever asks for a configured name, in whatever case, asks for a name that
/// the server knows.
pub proof fn law_name_case_insensitive(names: Seq<Seq<char>>, at: int, asked: Seq<char>)
    requires
        0 <= at < names.len(),
        lower(asked) == lower(names[at]),
    ensures
        lower_names(names).contains(lower(asked)),
{
    assert(names.map_values(|name: Seq<char>| lower(name))[at] == lower(asked));
}

/// The server knows no other names than those of its configuration.
pub proof fn law_no_other_names(names: Seq<Seq<char>>, asked: Seq<char>)
    requires
        lower_names(names).contains(asked),
    ensures
        exists|at: int| 0 <= at < names.len() && lower(#[trigger] names[at]) == asked,
{
    let folded = names.map_values(|name: Seq<char>| lower(name));
    let at = choose|at: int| 0 <= at < folded.len() && folded[at] == asked;
    assert(lower(names[at]) == asked);
}

/// Whether a byte is the code of a hexadecimal digit, in either case.
pub open spec fn is_hex_code(code: u8) -> bool {
    0x30 <= code <= 0x39 || 0x41 <= code <= 0x46 || 0x61 <= code <= 0x66
}

/// A text that is no short ID is refused for its length in bytes, or else for the
/// first pair of bytes that is not two digits: as no text where it is not UTF-8,
/// as no digits otherwise.
pub proof fn law_short_id_faults(text: Seq<char>)
    ensures
        ({
            let bytes = encode_utf8(text);
            let outcome = short_id(text);
            &&& (outcome matches Err(error) && error is Length) <==> bytes.len() > 16
                || bytes.len() % 2 != 0
            &&& outcome matches Err(error) ==> error is Length || exists|at: int|
                #![trigger bytes[2 * at]]
                {
                    &&& 0 <= at
                    &&& 2 * at + 2 <= bytes.len()
                    &&& !(is_hex_code(bytes[2 * at]) && is_hex_code(bytes[2 * at + 1]))
                    &&& error is Encoding <==> !valid_utf8(bytes.subrange(2 * at, 2 * at + 2))
                    &&& forall|i: int| 0 <= i < 2 * at ==> is_hex_code(#[trigger] bytes[i])
                }
        }),
{
    let bytes = encode_utf8(text);
    if bytes.len() <= 16 && bytes.len() % 2 == 0 && short_id(text) is Err {
        let at = lemma_bad_pair_at(bytes, 0);
        assert(0 <= at && 2 * at + 2 <= bytes.len());
        assert(bytes[2 * at] == bytes[2 * at]);
    }
}

/// Where the first pair stands that is not two digits.
proof fn lemma_bad_pair_at(bytes: Seq<u8>, from: int) -> (at: int)
    requires
        0 <= from,
        bytes.len() % 2 == 0,
        bad_pair(bytes, 2 * from) is Some,
    ensures
        from <= at,
        2 * at + 2 <= bytes.len(),
        !(is_hex_code(bytes[2 * at]) && is_hex_code(bytes[2 * at + 1])),
        bad_pair(bytes, 2 * from) is Some,
        !(bad_pair(bytes, 2 * from)->0 is Length),
        bad_pair(bytes, 2 * from)->0 is Encoding <==> !valid_utf8(
            bytes.subrange(2 * at, 2 * at + 2),
        ),
        forall|i: int| 2 * from <= i < 2 * at ==> is_hex_code(#[trigger] bytes[i]),
    decreases bytes.len() - 2 * from,
{
    let pair = bytes.subrange(2 * from, 2 * from + 2);
    if !valid_utf8(pair) {
        if is_hex_code(pair[0]) && is_hex_code(pair[1]) {
            let digits = seq![pair[0] as char, pair[1] as char];
            is_ascii_chars_encode_utf8(digits);
            assert(encode_utf8(digits) =~= pair);
            encode_utf8_valid_utf8(digits);
        }
        assert(pair[0] == bytes[2 * from] && pair[1] == bytes[2 * from + 1]);
        from
    } else if pair_value(bytes[2 * from], bytes[2 * from + 1]) is None {
        from
    } else {
        assert(2 * from + 2 == 2 * (from + 1));
        lemma_bad_pair_at(bytes, from + 1)
    }
}

/// The hexadecimal digit for a number below sixteen, in either case.
pub open spec fn hex_char(n: int, upper: bool) -> char {
    if n < 10 {
        (48 + n) as char
    } else if upper {
        (55 + n) as char
    } else {
        (87 + n) as char
    }
}

/// Whether a text writes bytes in hexadecimal, two digits a byte, the more
/// significant one first, each digit in either case.
pub open spec fn writes_hex(bytes: Seq<u8>, text: Seq<char>) -> bool {
    &&& text.len() == 2 * bytes.len()
    &&& forall|i: int|
        0 <= i < bytes.len() ==> {
            &&& (text[2 * i] == hex_char(#[trigger] bytes[i] as int / 16, false) || text[2 * i]
                == hex_char(bytes[i] as int / 16, true))
            &&& (text[2 * i + 1] == hex_char(bytes[i] as int % 16, false) || text[2 * i + 1]
                == hex_char(bytes[i] as int % 16, true))
        }
}

/// Up to eight bytes, written in hexadecimal, are read back as a short ID that
/// starts with them and goes on with zeros.
pub proof fn law_short_id_round_trip(bytes: Seq<u8>, text: Seq<char>)
    requires
        bytes.len() <= 8,
        writes_hex(bytes, text),
    ensures
        short_id(text) matches Ok(id) && {
            &&& id.len() == 8
            &&& id.take(bytes.len() as int) == bytes
            &&& forall|i: int| bytes.len() <= i < 8 ==> id[i] == 0
        },
{
    assert forall|i: int| 0 <= i < text.len() implies is_hex(#[trigger] text[i]) by {
        let byte = bytes[i / 2];
        assert(i == 2 * (i / 2) || i == 2 * (i / 2) + 1);
    }
    law_short_ids_are_hex(text);
    let id = hex_bytes(text);
    assert forall|i: int| 0 <= i < bytes.len() implies id[i] == bytes[i] by {
        let high = bytes[i] as int / 16;
        let low = bytes[i] as int % 16;
        assert(hex_value(text[2 * i] as u8) == Some(high));
        assert(hex_value(text[2 * i + 1] as u8) == Some(low));
    }
    assert(id.take(bytes.len() as int) =~= bytes);
}

/// What a file says without any encoding stands in its configuration as it was
/// written, and the private key is what its text decodes to.
pub proof fn law_file_fields_kept(
    file: FileConfig,
    key: Option<Seq<u8>>,
    user_ids: Seq<Option<Seq<u8>>>,
    config: RuntimeView,
)
    requires
        runtime_from(file, key, user_ids) == Ok::<RuntimeView, ConfigError>(config),
    ensures
        config.listen == file.listen@,
        config.fallback == file.reality.fallback@,
        config.reality.max_time_diff_secs == file.reality.max_time_diff_secs,
        config.reality.min_client_version matches Some(version) ==> (
        file.reality.min_client_version matches Some(written) && written@ == version),
        config.reality.max_client_version matches Some(version) ==> (
        file.reality.max_client_version matches Some(written) && written@ == version),
        config.reality.min_client_version is None ==> file.reality.min_client_version is None,
        config.reality.max_client_version is None ==> file.reality.max_client_version is None,
        key == Some(config.reality.private_key),
        config.reality.private_key.len() == 32,
{
}

/// Two files that differ in nothing but a field that is taken as it is give
/// configurations that differ in nothing but that field.
pub proof fn law_clock_setting_independent(
    file: FileConfig,
    other: FileConfig,
    key: Option<Seq<u8>>,
    user_ids: Seq<Option<Seq<u8>>>,
)
    requires
        other == (FileConfig {
            reality: RealityFileConfig {
                max_time_diff_secs: other.reality.max_time_diff_secs,
                ..file.reality
            },
            ..file
        }),
    ensures
        runtime_from(other, key, user_ids) == match runtime_from(file, key, user_ids) {
            Err(error) => Err(error),
            Ok(config) => Ok(
                RuntimeView {
                    reality: ConfigView {
                        max_time_diff_secs: other.reality.max_time_diff_secs as int,
                        ..config.reality
                    },
                    ..config
                },
            ),
        },
{
}

/// A file is refused for its first fault: its key, then its short IDs, then its
/// users, then the lack of either; and for no other reason.
pub proof fn law_first_fault_reported(
    file: FileConfig,
    key: Option<Seq<u8>>,
    user_ids: Seq<Option<Seq<u8>>>,
)
    ensures
        ({
            let listed = texts(file.reality.short_ids@);
            let outcome = runtime_from(file, key, user_ids);
            let key_sound = key matches Some(bytes) && bytes.len() == 32;
            let ids_sound = forall|i: int|
                0 <= i < listed.len() ==> short_id(#[trigger] listed[i]) is Ok;
            let users_sound = forall|i: int|
                0 <= i < user_ids.len() ==> (#[trigger] user_ids[i]) is Some;
            let empty = user_ids.len() == 0 || listed.len() == 0;
            &&& (outcome matches Err(error) && error is PrivateKeyEncoding) <==> key is None
            &&& (outcome matches Err(error) && error is PrivateKeyLength) <==> key is Some
                && !key_sound
            &&& (outcome matches Err(error) && error is ShortId) <==> key_sound && !ids_sound
            &&& (outcome matches Err(error) && error is UserId) <==> key_sound && ids_sound
                && !users_sound
            &&& (outcome matches Err(error) && error is Empty) <==> key_sound && ids_sound
                && users_sound && empty
            &&& outcome matches Err(ConfigError::ShortId(error)) ==> exists|i: int|
                {
                    &&& 0 <= i < listed.len()
                    &&& short_id(#[trigger] listed[i]) == Err::<Seq<u8>, ShortIdError>(error)
                    &&& forall|j: int| 0 <= j < i ==> short_id(#[trigger] listed[j]) is Ok
                }
        }),
{
    let listed = texts(file.reality.short_ids@);
    law_short_ids_listed(listed);
    law_users_listed(user_ids);
    lemma_short_ids_sound(file.reality.short_ids@);
    if let Some(users) = user_set(user_ids) {
        if user_ids.len() > 0 {
            assert(user_ids[0] is Some);
            assert(user_ids[0] == Some(user_ids[0]->0));
            assert(users.contains(user_ids[0]->0));
        } else {
            assert(users =~= Set::empty());
        }
    }
}

} // verus!
