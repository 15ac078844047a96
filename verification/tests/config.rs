use norn_rs::config::{
    config_toml, default_admin_socket, default_listen, default_log_level, default_multicast_port,
    default_true, default_tun_name, parse_key, ConfigError, ConfigFile, NodeConfig,
};

#[test]
fn default_listen_is_nonempty() {
    let v = default_listen();
    assert!(!v.is_empty(), "default_listen must return at least one address");
    assert!(v[0].starts_with("tcp://"), "default listen must be a tcp URI");
}

#[test]
fn default_tun_name_is_some() {
    let t = default_tun_name();
    assert_eq!(t, Some("norn0".to_string()), "default_tun_name must be Some(\"norn0\")");
}

#[test]
fn default_admin_socket_is_nonempty() {
    let s = default_admin_socket();
    assert_eq!(s, "/var/run/norn.sock", "default_admin_socket must be /var/run/norn.sock");
}

#[test]
fn default_true_returns_true() {
    assert!(default_true(), "default_true must return true, not false");
}

#[test]
fn default_multicast_port_nonzero() {
    let p = default_multicast_port();
    assert_ne!(p, 0, "multicast port must not be 0");
    assert_eq!(p, 9001);
}

#[test]
fn default_log_level_is_nonempty() {
    let l = default_log_level();
    assert_eq!(l, "info", "default_log_level must be \"info\"");
}

#[test]
fn signing_key_from_valid_hex() {
    let sk = ed25519_dalek::SigningKey::generate(&mut rand::rngs::OsRng);
    let hex = hex::encode(sk.to_bytes());
    let cfg = NodeConfig { private_key: Some(hex), ..Default::default() };
    let loaded = cfg.signing_key(false).unwrap();
    assert_eq!(loaded, sk.to_bytes(), "signing key must round-trip via hex");
}

#[test]
fn signing_key_invalid_hex_fails() {
    let cfg = NodeConfig { private_key: Some("not_hex!".into()), ..Default::default() };
    assert!(cfg.signing_key(false).is_err(), "invalid hex must fail");
    assert_eq!(cfg.signing_key(true), Err(ConfigError::KeyNotHex));
}

#[test]
fn signing_key_wrong_length_fails() {
    let cfg = NodeConfig { private_key: Some("aabbccdd".repeat(4)), ..Default::default() };
    assert!(cfg.signing_key(false).is_err(), "wrong-length key must fail");
    let e = cfg.signing_key(true).unwrap_err();
    assert_eq!(e, ConfigError::KeyNot32Bytes(16));
    assert_eq!(e.describe(""), "private_key must be 32 bytes (64 hex chars), got 16");
}

#[test]
fn signing_key_none_requires_explicit_opt_in() {
    let cfg = NodeConfig { private_key: None, ..Default::default() };
    assert!(
        cfg.signing_key(false).is_err(),
        "ephemeral key must require explicit opt-in via NORN_ALLOW_EPHEMERAL_KEY"
    );
    let result = cfg.signing_key(true);
    assert!(result.is_ok(), "explicit opt-in must allow ephemeral key");
}

#[test]
fn ephemeral_keys_differ() {
    let cfg = NodeConfig { private_key: None, ..Default::default() };
    assert_ne!(cfg.signing_key(true), cfg.signing_key(true));
}

#[test]
fn tcp_listen_port_extracts_correctly() {
    let cfg = NodeConfig { listen: vec!["tcp://0.0.0.0:9001".into()], ..Default::default() };
    assert_eq!(cfg.tcp_listen_port(), Some(9001));
}

#[test]
fn tcp_listen_port_empty_listen_returns_none() {
    let cfg = NodeConfig { listen: vec![], ..Default::default() };
    assert_eq!(cfg.tcp_listen_port(), None);
}

#[test]
fn tcp_listen_port_non_tcp_returns_none() {
    let cfg = NodeConfig { listen: vec!["invalid".into()], ..Default::default() };
    assert_eq!(cfg.tcp_listen_port(), None);
}

#[test]
fn tcp_listen_port_must_fit() {
    for (uri, port) in [
        ("tcp://[::]:65535", Some(65535)),
        ("tcp://[::]:65536", None),
        ("tcp://[::]:", None),
        ("tcp://9001", Some(9001)),
        ("quic://0.0.0.0:9001", None),
    ] {
        let cfg = NodeConfig { listen: vec![uri.into()], ..Default::default() };
        assert_eq!(cfg.tcp_listen_port(), port, "{uri}");
    }
}

#[test]
fn generate_toml_contains_private_key() {
    let toml = NodeConfig::generate_toml();
    assert!(toml.contains("private_key"), "generate_toml must include private_key field");
    assert!(!toml.is_empty(), "generate_toml must not be empty");
}

#[test]
fn generate_toml_is_valid_toml() {
    let toml_str = NodeConfig::generate_toml();
    let parsed: Result<toml::Table, toml::de::Error> = toml::from_str(&toml_str);
    assert!(parsed.is_ok(), "generate_toml must produce valid TOML: {:?}", parsed);
    let table = parsed.unwrap();
    assert_eq!(table["listen"][0].as_str(), Some("tcp://0.0.0.0:9001"));
    assert_eq!(table["multicast_port"].as_integer(), Some(9001));
}

#[test]
fn a_generated_key_reads_back() {
    let key: [u8; 32] = std::array::from_fn(|i| 7 * i as u8);
    let text = config_toml(&key);
    let table: toml::Table = toml::from_str(&text).unwrap();
    let hex_key = table["private_key"].as_str().unwrap();
    assert_eq!(hex_key, hex::encode(key));
    assert_eq!(parse_key(hex_key), Ok(key));
}

#[test]
fn load_valid_config() {
    let cfg = NodeConfig { private_key: Some("00".repeat(32)), ..Default::default() };
    let cfg = NodeConfig::load(ConfigFile::Found(0o100600, cfg)).unwrap();
    assert!(cfg.private_key.is_some(), "loaded config must have private_key");
}

#[test]
fn load_nonexistent_file_fails() {
    let result = NodeConfig::load(ConfigFile::Missing);
    assert!(result.is_err(), "loading nonexistent file must fail");
    let err = result.unwrap_err();
    assert_eq!(
        err.describe("\"/nonexistent/path/norn.toml\""),
        "stat'ing config \"/nonexistent/path/norn.toml\""
    );
}

#[test]
fn load_refuses_world_readable_config() {
    let err = NodeConfig::load(ConfigFile::Found(0o100644, NodeConfig::default())).unwrap_err();
    let text = err.describe("\"norn.toml\"");
    assert!(
        text.contains("mode") || text.contains("600"),
        "must reject world-readable config; got: {text}"
    );
    assert_eq!(
        text,
        "refusing to load config \"norn.toml\" with mode 644: it contains the private key. \
         Run: chmod 600 \"norn.toml\""
    );
}

#[test]
fn other_load_errors() {
    let unreadable = NodeConfig::load(ConfigFile::Unreadable(0o600)).unwrap_err();
    assert_eq!(unreadable, ConfigError::Unreadable);
    assert_eq!(unreadable.describe("x"), "reading config x");
    let malformed = NodeConfig::load(ConfigFile::Malformed(0o600)).unwrap_err();
    assert_eq!(malformed.describe("x"), "parsing TOML config");
    let open = NodeConfig::load(ConfigFile::Malformed(0o640)).unwrap_err();
    assert_eq!(open, ConfigError::OpenToOthers(0o640));
    assert_eq!(ConfigError::KeyNotHex.describe(""), "decoding private_key hex");
    assert!(ConfigError::NoKey.describe("").contains("NORN_ALLOW_EPHEMERAL_KEY"));
}
