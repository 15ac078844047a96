//! Node configuration.

use crate::bytes::read_array;
use crate::crypto::{random_key, wipe_bytes};
use crate::text::{
    after_last, decimal, hex_chars, hex_decode, hex_encode, hex_value, octal, parse_number,
    parsed_number, push_decimal, push_octal, push_text, rest_after_last, strip_prefix,
};
use vstd::prelude::*;
use vstd::utf8::encode_utf8;

verus! {

broadcast use vstd::array::group_array_axioms;

/// Everything that a configuration file can set.
#[derive(Clone, Debug)]
pub struct NodeConfig {
    /// The node's Ed25519 secret in hexadecimal.
    pub private_key: Option<String>,
    /// Addresses to listen on, such as `tcp://0.0.0.0:9001`.
    pub listen: Vec<String>,
    /// Addresses of peers to connect to.
    pub peers: Vec<String>,
    /// Name of the TUN interface, if there is to be one.
    pub tun_name: Option<String>,
    /// Path of the admin socket.
    pub admin_socket: String,
    /// Whether to look for peers by multicast.
    pub multicast_enabled: bool,
    /// UDP port of multicast beacons.
    pub multicast_port: u16,
    /// `error`, `warn`, `info`, `debug` or `trace`.
    pub log_level: String,
    /// Path of the known-peers cache; empty for none.
    pub peer_cache_path: String,
    /// Address of the metrics endpoint; empty for none.
    pub metrics_addr: String,
    /// Least difficulty that a peer's key must have; 0 for any.
    pub min_peer_difficulty_bits: u32,
    /// Whether to look for peers by mDNS.
    pub mdns_enabled: bool,
    /// Number of tasks that encrypt; 0 to encrypt on the caller's task.
    pub crypto_workers: u8,
    /// Pre-shared key for obfuscated links; empty for plain ones.
    pub obfuscation_psk: String,
}

/// What was found where the configuration should be. The number holds the
/// permission bits of the file.
pub enum ConfigFile {
    Missing,
    /// The file cannot be read.
    Unreadable(u32),
    /// The file holds no configuration.
    Malformed(u32),
    Found(u32, NodeConfig),
}

/// Why a configuration cannot be used.
#[derive(Clone, Copy, Debug, PartialEq, Eq, Structural)]
pub enum ConfigError {
    Missing,
    /// The file can be read by others than its owner; its permission bits.
    OpenToOthers(u32),
    Unreadable,
    Malformed,
    KeyNotHex,
    /// The number of bytes that the key has.
    KeyNot32Bytes(u64),
    NoKey,
}

impl ConfigError {
    /// The message that describes the error for the file at `path`.
    pub open spec fn message(self, path: Seq<char>) -> Seq<char> {
        match self {
            ConfigError::Missing => "stat'ing config "@ + path,
            ConfigError::OpenToOthers(mode) => "refusing to load config "@ + path + " with mode "@
                + octal(mode as nat) + ": it contains the private key. Run: chmod 600 "@ + path,
            ConfigError::Unreadable => "reading config "@ + path,
            ConfigError::Malformed => "parsing TOML config"@,
            ConfigError::KeyNotHex => "decoding private_key hex"@,
            ConfigError::KeyNot32Bytes(n) => "private_key must be 32 bytes (64 hex chars), got "@
                + decimal(n as nat),
            ConfigError::NoKey =>
                "no private_key in config and NORN_ALLOW_EPHEMERAL_KEY is not set. Run `nornd genconfig > norn.toml && chmod 600 norn.toml` for a stable identity."@,
        }
    }

    /// The message that describes the error for the file at `path`.
    pub fn describe(&self, path: &str) -> (s: String)
        ensures
            s@ == self.message(path@),
    {
        let mut out: String = String::new();
        match *self {
            ConfigError::Missing => {
                push_text(&mut out, "stat'ing config ");
                push_text(&mut out, path);
            },
            ConfigError::OpenToOthers(mode) => {
                push_text(&mut out, "refusing to load config ");
                push_text(&mut out, path);
                push_text(&mut out, " with mode ");
                push_octal(&mut out, mode);
                push_text(&mut out, ": it contains the private key. Run: chmod 600 ");
                push_text(&mut out, path);
            },
            ConfigError::Unreadable => {
                push_text(&mut out, "reading config ");
                push_text(&mut out, path);
            },
            ConfigError::Malformed => push_text(&mut out, "parsing TOML config"),
            ConfigError::KeyNotHex => push_text(&mut out, "decoding private_key hex"),
            ConfigError::KeyNot32Bytes(n) => {
                push_text(&mut out, "private_key must be 32 bytes (64 hex chars), got ");
                push_decimal(&mut out, n);
            },
            ConfigError::NoKey => push_text(
                &mut out,
                "no private_key in config and NORN_ALLOW_EPHEMERAL_KEY is not set. Run `nornd genconfig > norn.toml && chmod 600 norn.toml` for a stable identity.",
            ),
        }
        assert(out@ =~= self.message(path@));
        out
    }
}

pub fn default_listen() -> (v: Vec<String>)
    ensures
        v@.len() == 1,
        v@[0]@ == "tcp://0.0.0.0:9001"@,
{
    let mut v: Vec<String> = Vec::new();
    v.push("tcp://0.0.0.0:9001".to_owned());
    v
}

pub fn default_tun_name() -> (t: Option<String>)
    ensures
        t matches Some(s) && s@ == "norn0"@,
{
    Some("norn0".to_owned())
}

pub fn default_admin_socket() -> (s: String)
    ensures
        s@ == "/var/run/norn.sock"@,
{
    "/var/run/norn.sock".to_owned()
}

pub fn default_true() -> (b: bool)
    ensures
        b,
{
    true
}

pub fn default_multicast_port() -> (p: u16)
    ensures
        p == 9001,
{
    9001
}

pub fn default_log_level() -> (s: String)
    ensures
        s@ == "info"@,
{
    "info".to_owned()
}

pub fn default_peer_cache_path() -> (s: String)
    ensures
        s@ == "/var/lib/norn/peers.json"@,
{
    "/var/lib/norn/peers.json".to_owned()
}

/// There is no metrics endpoint by default.
pub fn default_metrics_addr() -> (s: String)
    ensures
        s@.len() == 0,
{
    String::new()
}

impl Default for NodeConfig {
    fn default() -> (c: NodeConfig)
        ensures
            c.private_key is None,
            c.listen@.len() == 1 && c.listen@[0]@ == "tcp://0.0.0.0:9001"@,
            c.peers@.len() == 0,
            c.tun_name matches Some(t) && t@ == "norn0"@,
            c.admin_socket@ == "/var/run/norn.sock"@,
            c.multicast_enabled,
            c.multicast_port == 9001,
            c.log_level@ == "info"@,
            c.peer_cache_path@ == "/var/lib/norn/peers.json"@,
            c.metrics_addr@.len() == 0,
            c.min_peer_difficulty_bits == 0,
            c.mdns_enabled,
            c.crypto_workers == 0,
            c.obfuscation_psk@.len() == 0,
    {
        NodeConfig {
            private_key: None,
            listen: default_listen(),
            peers: Vec::new(),
            tun_name: default_tun_name(),
            admin_socket: default_admin_socket(),
            multicast_enabled: true,
            multicast_port: default_multicast_port(),
            log_level: default_log_level(),
            peer_cache_path: default_peer_cache_path(),
            metrics_addr: default_metrics_addr(),
            min_peer_difficulty_bits: 0,
            mdns_enabled: true,
            crypto_workers: 0,
            obfuscation_psk: String::new(),
        }
    }
}

/// The port at the end of a `tcp://` address.
pub open spec fn tcp_port(uri: Seq<char>) -> Option<nat> {
    if ("tcp://"@).is_prefix_of(uri) {
        parsed_number(after_last(uri.skip(("tcp://"@).len() as int), ':'), 65535)
    } else {
        None
    }
}

/// The key that a hexadecimal text denotes.
pub open spec fn key_of_hex(text: Seq<char>) -> Result<Seq<u8>, ConfigError> {
    match hex_value(encode_utf8(text)) {
        None => Err(ConfigError::KeyNotHex),
        Some(bytes) => if bytes.len() == 32 {
            Ok(bytes)
        } else {
            Err(ConfigError::KeyNot32Bytes(bytes.len() as u64))
        },
    }
}

/// A configuration file with the private key `key`.
pub open spec fn toml_for(key: Seq<u8>) -> Seq<char> {
    "# norn-rs configuration\n\n# Your node's private key (ed25519, 32 bytes hex).\n# KEEP THIS SECRET. Regenerate to get a new identity and address.\nprivate_key = \""@
        + hex_chars(key)
        + "\"\n\n# TCP addresses to listen on for incoming peer connections.\nlisten = [\"tcp://0.0.0.0:9001\"]\n\n# Static peers to dial on startup.\n# peers = [\"tcp://peer.example.com:9001\"]\npeers = []\n\n# TUN interface name. Comment out or set to null to disable.\ntun_name = \"norn0\"\n\n# Admin socket (UNIX). Use with nornctl.\nadmin_socket = \"/var/run/norn.sock\"\n\n# Enable multicast peer discovery on the local network.\nmulticast_enabled = true\nmulticast_port = 9001\n\n# Logging verbosity: error | warn | info | debug | trace\nlog_level = \"info\"\n"@
}

/// A configuration file with the private key `key`.
pub fn config_toml(key: &[u8; 32]) -> (s: String)
    ensures
        s@ == toml_for(key@),
{
    let mut out: String = String::new();
    push_text(
        &mut out,
        "# norn-rs configuration\n\n# Your node's private key (ed25519, 32 bytes hex).\n# KEEP THIS SECRET. Regenerate to get a new identity and address.\nprivate_key = \"",
    );
    let key_hex: String = hex_encode(key.as_slice());
    push_text(&mut out, key_hex.as_str());
    push_text(
        &mut out,
        "\"\n\n# TCP addresses to listen on for incoming peer connections.\nlisten = [\"tcp://0.0.0.0:9001\"]\n\n# Static peers to dial on startup.\n# peers = [\"tcp://peer.example.com:9001\"]\npeers = []\n\n# TUN interface name. Comment out or set to null to disable.\ntun_name = \"norn0\"\n\n# Admin socket (UNIX). Use with nornctl.\nadmin_socket = \"/var/run/norn.sock\"\n\n# Enable multicast peer discovery on the local network.\nmulticast_enabled = true\nmulticast_port = 9001\n\n# Logging verbosity: error | warn | info | debug | trace\nlog_level = \"info\"\n",
    );
    assert(out@ =~= toml_for(key@));
    out
}

/// Read a 32-byte key in hexadecimal.
pub fn parse_key(hex_key: &str) -> (r: Result<[u8; 32], ConfigError>)
    ensures
        match key_of_hex(hex_key@) {
            Ok(k) => r matches Ok(key) && key@ == k,
            Err(e) => r matches Err(f) && f == e,
        },
{
    match hex_decode(hex_key) {
        None => Err(ConfigError::KeyNotHex),
        Some(mut bytes) => {
            if bytes.len() != 32 {
                let n: u64 = bytes.len() as u64;
                wipe_bytes(&mut bytes);
                return Err(ConfigError::KeyNot32Bytes(n));
            }
            let key: [u8; 32] = read_array(bytes.as_slice(), 0);
            assert(key@ =~= bytes@);
            wipe_bytes(&mut bytes);
            Ok(key)
        },
    }
}

impl NodeConfig {
    /// Whether a configuration file with the permission bits `mode` may be
    /// read: it holds the private key, so nobody but its owner may have access.
    pub fn check_mode(mode: u32) -> (r: Result<(), ConfigError>)
        ensures
            r == if mode & 0o077 == 0 {
                Ok::<(), ConfigError>(())
            } else {
                Err::<(), ConfigError>(ConfigError::OpenToOthers(mode & 0o777))
            },
    {
        let bits: u32 = mode & 0o777;
        assert((mode & 0o777) & 0o077 == mode & 0o077) by (bit_vector);
        if bits & 0o077 != 0 {
            return Err(ConfigError::OpenToOthers(bits));
        }
        Ok(())
    }

    /// The configuration in a file, if the file may be read and holds one.
    pub fn load(file: ConfigFile) -> (r: Result<NodeConfig, ConfigError>)
        ensures
            match file {
                ConfigFile::Missing => r == Err::<NodeConfig, ConfigError>(ConfigError::Missing),
                ConfigFile::Unreadable(mode) => r == Err::<NodeConfig, ConfigError>(
                    if mode & 0o077 == 0 {
                        ConfigError::Unreadable
                    } else {
                        ConfigError::OpenToOthers(mode & 0o777)
                    },
                ),
                ConfigFile::Malformed(mode) => r == Err::<NodeConfig, ConfigError>(
                    if mode & 0o077 == 0 {
                        ConfigError::Malformed
                    } else {
                        ConfigError::OpenToOthers(mode & 0o777)
                    },
                ),
                ConfigFile::Found(mode, config) => r == if mode & 0o077 == 0 {
                    Ok::<NodeConfig, ConfigError>(config)
                } else {
                    Err::<NodeConfig, ConfigError>(ConfigError::OpenToOthers(mode & 0o777))
                },
            },
    {
        match file {
            ConfigFile::Missing => Err(ConfigError::Missing),
            ConfigFile::Unreadable(mode) => match NodeConfig::check_mode(mode) {
                Ok(_) => Err(ConfigError::Unreadable),
                Err(e) => Err(e),
            },
            ConfigFile::Malformed(mode) => match NodeConfig::check_mode(mode) {
                Ok(_) => Err(ConfigError::Malformed),
                Err(e) => Err(e),
            },
            ConfigFile::Found(mode, config) => match NodeConfig::check_mode(mode) {
                Ok(_) => Ok(config),
                Err(e) => Err(e),
            },
        }
    }

    /// A configuration file with a fresh private key.
    pub fn generate_toml() -> (s: String)
        ensures
            exists|key: Seq<u8>| key.len() == 32 && s@ == #[trigger] toml_for(key),
    {
        let key: [u8; 32] = random_key();
        config_toml(&key)
    }

    /// The node's Ed25519 secret. Without one in the configuration a random
    /// one is made, where `allow_ephemeral` says so.
    pub fn signing_key(&self, allow_ephemeral: bool) -> (r: Result<[u8; 32], ConfigError>)
        ensures
            match self.private_key {
                Some(text) => match key_of_hex(text@) {
                    Ok(k) => r matches Ok(key) && key@ == k,
                    Err(e) => r matches Err(f) && f == e,
                },
                None => if allow_ephemeral {
                    r is Ok
                } else {
                    r matches Err(f) && f == ConfigError::NoKey
                },
            },
    {
        match &self.private_key {
            Some(text) => parse_key(text.as_str()),
            None => {
                if !allow_ephemeral {
                    return Err(ConfigError::NoKey);
                }
                Ok(random_key())
            },
        }
    }

    /// The port of the first listen address, if that is a `tcp://` one.
    pub fn tcp_listen_port(&self) -> (r: Option<u16>)
        ensures
            match r {
                Some(p) => self.listen@.len() > 0 && tcp_port(self.listen@[0]@) == Some(p as nat),
                None => self.listen@.len() == 0 || tcp_port(self.listen@[0]@) is None,
            },
    {
        if self.listen.len() == 0 {
            return None;
        }
        let uri: &str = self.listen[0].as_str();
        match strip_prefix(uri, "tcp://") {
            None => None,
            Some(addr) => {
                assert(uri@.skip(("tcp://"@).len() as int) =~= addr@);
                let port: &str = rest_after_last(addr, ':');
                match parse_number(port, 65535) {
                    Some(p) => Some(p as u16),
                    None => None,
                }
            },
        }
    }
}

/// A generated configuration holds the key it was generated with: reading the
/// hexadecimal text in it gives that key.
pub proof fn generated_key_reads_back(key: Seq<u8>)
    requires
        key.len() == 32,
    ensures
        key_of_hex(hex_chars(key)) == Ok::<Seq<u8>, ConfigError>(key),
{
    crate::text::hex_round_trip(key);
}

/// A `tcp://` address that ends with a colon and a port has that port, whatever the host.
pub proof fn the_port_follows_the_last_colon(host: Seq<char>, port: u16)
    ensures
        tcp_port("tcp://"@ + host + ":"@ + crate::text::decimal(port as nat)) == Some(port as nat),
{
    let digits = crate::text::decimal(port as nat);
    let uri = "tcp://"@ + host + ":"@ + digits;
    reveal_strlit("tcp://");
    reveal_strlit(":");
    crate::text::numerals_denote_their_number(port as nat, 65535);
    assert(("tcp://"@).is_prefix_of(uri)) by {
        assert(uri.subrange(0, ("tcp://"@).len() as int) =~= "tcp://"@);
    }
    assert(uri.skip(("tcp://"@).len() as int) =~= host.push(':') + digits);
    assert forall|i: int| 0 <= i < digits.len() implies #[trigger] digits[i] != ':' by {
        assert(48 <= digits[i] as u32 <= 57);
    }
    crate::text::the_last_one_divides(host, ':', digits);
}

} // verus!
