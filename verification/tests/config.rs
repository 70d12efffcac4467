use reality_rs::config::{
    build_config, build_config_from, default_time_diff, generate_keys, key_text, parse_short_id,
    private_key_from, ConfigError, FileConfig, RealityFileConfig, ShortIdError,
};

const USER: &str = "67e55044-10b1-426f-9247-bb680e5fe0c8";
const USER_BYTES: [u8; 16] = [
    0x67, 0xe5, 0x50, 0x44, 0x10, 0xb1, 0x42, 0x6f, 0x92, 0x47, 0xbb, 0x68, 0x0e, 0x5f, 0xe0, 0xc8,
];
const PRIVATE_TEXT: &str = "AQIDBAUGBwgJCgsMDQ4PEBESExQVFhcYGRobHB0eHyA";
const PUBLIC_TEXT: &str = "B6N8vBQgk8i3VdwbEOhstCY3StFqqFPtC9_AsrhtHHw";

fn counting() -> [u8; 32] {
    let mut key = [0u8; 32];
    for i in 0..32u8 {
        key[usize::from(i)] = i + 1;
    }
    key
}

fn file() -> FileConfig {
    FileConfig {
        listen: "0.0.0.0:443".to_owned(),
        users: vec![USER.to_owned()],
        reality: RealityFileConfig {
            private_key: PRIVATE_TEXT.to_owned(),
            server_names: vec!["WWW.Example.com".to_owned()],
            short_ids: vec!["0123456789abcdef".to_owned()],
            min_client_version: Some([1, 8, 0]),
            max_client_version: None,
            max_time_diff_secs: 600,
            fallback: "www.example.com:443".to_owned(),
        },
    }
}

fn error_of(file: FileConfig) -> ConfigError {
    build_config(file).unwrap_err()
}

#[test]
fn short_ids_are_up_to_eight_pairs_of_digits() {
    assert_eq!(parse_short_id(""), Ok([0; 8]));
    assert_eq!(parse_short_id("0f"), Ok([0x0f, 0, 0, 0, 0, 0, 0, 0]));
    assert_eq!(parse_short_id("aAbBcC"), Ok([0xaa, 0xbb, 0xcc, 0, 0, 0, 0, 0]));
    assert_eq!(
        parse_short_id("0123456789abcdef"),
        Ok([0x01, 0x23, 0x45, 0x67, 0x89, 0xab, 0xcd, 0xef])
    );
    assert_eq!(
        parse_short_id("FFFFFFFFFFFFFFFF"),
        Ok([0xff, 0xff, 0xff, 0xff, 0xff, 0xff, 0xff, 0xff])
    );
}

#[test]
fn wrong_short_ids_are_refused() {
    assert_eq!(parse_short_id("0123456789abcdef00"), Err(ShortIdError::Length));
    assert_eq!(parse_short_id("abc"), Err(ShortIdError::Length));
    assert_eq!(parse_short_id("0g"), Err(ShortIdError::Digit));
    assert_eq!(parse_short_id("g0"), Err(ShortIdError::Digit));
    assert_eq!(parse_short_id("+f"), Err(ShortIdError::Digit));
    assert_eq!(parse_short_id("00+f"), Err(ShortIdError::Digit));
    assert_eq!(parse_short_id("f+"), Err(ShortIdError::Digit));
    assert_eq!(parse_short_id("-f"), Err(ShortIdError::Digit));
    assert_eq!(parse_short_id("\u{e9}"), Err(ShortIdError::Digit));
    assert_eq!(parse_short_id("a\u{e9}b"), Err(ShortIdError::Encoding));
    // The first wrong pair counts.
    assert_eq!(parse_short_id("zza\u{e9}b"), Err(ShortIdError::Digit));
    assert_eq!(parse_short_id("a\u{e9}bzz"), Err(ShortIdError::Encoding));
}

#[test]
fn a_file_becomes_a_configuration() {
    let config = build_config(file()).unwrap();
    assert_eq!(config.listen, "0.0.0.0:443");
    assert_eq!(config.users, vec![USER_BYTES]);
    assert_eq!(config.fallback, "www.example.com:443");
    assert_eq!(config.reality.private_key, counting());
    assert_eq!(config.reality.server_names, vec!["www.example.com".to_owned()]);
    assert_eq!(
        config.reality.short_ids,
        vec![[0x01, 0x23, 0x45, 0x67, 0x89, 0xab, 0xcd, 0xef]]
    );
    assert_eq!(config.reality.min_client_version, Some([1, 8, 0]));
    assert_eq!(config.reality.max_client_version, None);
    assert_eq!(config.reality.max_time_diff_secs, 600);
}

#[test]
fn repetitions_are_dropped() {
    let mut raw = file();
    raw.users.push(USER.to_uppercase());
    raw.users.push(USER.replace('-', ""));
    raw.reality.server_names.push("www.EXAMPLE.com".to_owned());
    raw.reality.server_names.push("other".to_owned());
    raw.reality.short_ids.push("0123456789ABCDEF".to_owned());
    raw.reality.short_ids.push("".to_owned());
    raw.reality.short_ids.push("00".to_owned());
    let config = build_config(raw).unwrap();
    assert_eq!(config.users, vec![USER_BYTES]);
    assert_eq!(
        config.reality.server_names,
        vec!["www.example.com".to_owned(), "other".to_owned()]
    );
    assert_eq!(
        config.reality.short_ids,
        vec![[0x01, 0x23, 0x45, 0x67, 0x89, 0xab, 0xcd, 0xef], [0; 8]]
    );
}

#[test]
fn wrong_files_are_refused() {
    let mut raw = file();
    raw.reality.private_key = "not base64!".to_owned();
    assert_eq!(error_of(raw), ConfigError::PrivateKeyEncoding);
    let mut raw = file();
    raw.reality.private_key = format!("{PRIVATE_TEXT}=");
    assert_eq!(error_of(raw), ConfigError::PrivateKeyEncoding);
    let mut raw = file();
    raw.reality.private_key = "AQID".to_owned();
    assert_eq!(error_of(raw), ConfigError::PrivateKeyLength);
    let mut raw = file();
    raw.reality.short_ids.push("abc".to_owned());
    assert_eq!(error_of(raw), ConfigError::ShortId(ShortIdError::Length));
    let mut raw = file();
    raw.users.push("nobody".to_owned());
    assert_eq!(error_of(raw), ConfigError::UserId);
    let mut raw = file();
    raw.users.clear();
    assert_eq!(error_of(raw), ConfigError::Empty);
    let mut raw = file();
    raw.reality.short_ids.clear();
    assert_eq!(error_of(raw), ConfigError::Empty);
    let mut raw = file();
    raw.reality.server_names.clear();
    assert!(build_config(raw).is_ok());
}

#[test]
fn the_first_fault_counts() {
    let mut raw = file();
    raw.reality.private_key = "AQID".to_owned();
    raw.reality.short_ids = vec!["abc".to_owned(), "zz".to_owned()];
    raw.users = vec!["nobody".to_owned()];
    assert_eq!(error_of(raw.clone()), ConfigError::PrivateKeyLength);
    raw.reality.private_key = PRIVATE_TEXT.to_owned();
    assert_eq!(error_of(raw.clone()), ConfigError::ShortId(ShortIdError::Length));
    raw.reality.short_ids = vec![];
    assert_eq!(error_of(raw.clone()), ConfigError::UserId);
    raw.users = vec![USER.to_owned()];
    assert_eq!(error_of(raw), ConfigError::Empty);
}

#[test]
fn decoded_values_decide() {
    assert_eq!(private_key_from(Some(vec![5; 32])), Ok([5; 32]));
    assert_eq!(private_key_from(Some(vec![5; 31])), Err(ConfigError::PrivateKeyLength));
    assert_eq!(private_key_from(None), Err(ConfigError::PrivateKeyEncoding));
    let users = vec![Some([1; 16]), Some([2; 16]), Some([1; 16])];
    let config = build_config_from(file(), Some(vec![5; 32]), &users).unwrap();
    assert_eq!(config.reality.private_key, [5; 32]);
    assert_eq!(config.users, vec![[1; 16], [2; 16]]);
    let users = vec![Some([1; 16]), None];
    assert_eq!(
        build_config_from(file(), Some(vec![5; 32]), &users).unwrap_err(),
        ConfigError::UserId
    );
}

#[test]
fn keys_are_written_and_read_back() {
    let keys = key_text(&counting());
    assert_eq!(keys.private_key, PRIVATE_TEXT);
    assert_eq!(keys.public_key, PUBLIC_TEXT);
    let mut raw = file();
    raw.reality.private_key = keys.private_key;
    assert_eq!(build_config(raw).unwrap().reality.private_key, counting());
}

#[test]
fn fresh_keys_are_usable_and_differ() {
    let keys = generate_keys();
    assert_ne!(keys, generate_keys());
    let mut raw = file();
    raw.reality.private_key = keys.private_key.clone();
    let config = build_config(raw).unwrap();
    assert_eq!(key_text(&config.reality.private_key), keys);
}

#[test]
fn ten_minutes_are_the_default() {
    assert_eq!(default_time_diff(), 600);
}
