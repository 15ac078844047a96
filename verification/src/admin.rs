//! Requests to a running node.

use crate::address::{derived, leading_ones, try_address_from_key, ADDRESS_PREFIX};
use crate::conn::PacketConn;
use crate::hash::blake2b_64;
use crate::router::{elapsed, time_since};
use crate::state::CoordEntry;
use crate::text::{
    decimal, hex_chars, hex_decode, hex_encode, hex_value, push_decimal, push_text, text_eq, trim,
    trimmed,
};
use vstd::prelude::*;
use vstd::utf8::encode_utf8;

verus! {

broadcast use vstd::array::group_array_axioms;

/// What a request asks for.
#[derive(Debug)]
pub enum AdminStep {
    /// The identity of the node, how long it has been running, and how many
    /// neighbours it has.
    GetSelf,
    /// The statistics of all neighbours.
    GetPeers,
    /// The coordinates that the node knows.
    GetRoutes,
    /// Connect to the node at this address.
    AddPeer(String),
    /// Nothing that the node can do, with the reason.
    Error(String),
}

/// What the node says of itself.
#[derive(Debug)]
pub struct SelfInfo {
    /// The public key in hexadecimal.
    pub pub_key: String,
    /// The address; a key from which none follows is all but impossible.
    pub address: Option<[u8; 16]>,
    /// The time since the node started, in microseconds.
    pub uptime_us: u64,
    pub peer_count: usize,
}

/// A node whose coordinate is known.
#[derive(Debug)]
pub struct RouteInfo {
    /// The public key in hexadecimal.
    pub pub_key: String,
    pub coord: [u8; 16],
}

/// Why a text is not the key of a node.
#[derive(Clone, Copy, Debug, PartialEq, Eq, Structural)]
pub enum KeyTextError {
    NotHex,
    /// The number of bytes that the text stands for.
    Length(u64),
}

impl KeyTextError {
    /// The text of the error.
    pub open spec fn message(self) -> Seq<char> {
        match self {
            KeyTextError::NotHex => "public key must be hex"@,
            KeyTextError::Length(n) => "public key must decode to 32 bytes, got "@ + decimal(
                n as nat,
            ),
        }
    }

    pub fn to_string(&self) -> (s: String)
        ensures
            s@ == self.message(),
    {
        let mut out: String = String::new();
        match *self {
            KeyTextError::NotHex => push_text(&mut out, "public key must be hex"),
            KeyTextError::Length(n) => {
                push_text(&mut out, "public key must decode to 32 bytes, got ");
                push_decimal(&mut out, n);
            },
        }
        assert(out@ =~= self.message());
        out
    }
}

/// The answer to a request for an unknown method.
pub open spec fn unknown_method(method: Seq<char>) -> Seq<char> {
    "unknown method: \""@ + method + "\""@
}

/// What the request for `method` asks for.
pub fn dispatch(method: &str, uri: Option<String>) -> (r: AdminStep)
    ensures
        if method@ == "getSelf"@ {
            r is GetSelf
        } else if method@ == "getPeers"@ {
            r is GetPeers
        } else if method@ == "getRoutes"@ {
            r is GetRoutes
        } else if method@ == "addPeer"@ {
            match uri {
                Some(u) => r matches AdminStep::AddPeer(v) && v@ == u@,
                None => r matches AdminStep::Error(e) && e@ == "missing \"uri\" field"@,
            }
        } else {
            r matches AdminStep::Error(e) && e@ == unknown_method(method@)
        },
{
    if text_eq(method, "getSelf") {
        return AdminStep::GetSelf;
    }
    if text_eq(method, "getPeers") {
        return AdminStep::GetPeers;
    }
    if text_eq(method, "getRoutes") {
        return AdminStep::GetRoutes;
    }
    if text_eq(method, "addPeer") {
        return match uri {
            Some(u) => AdminStep::AddPeer(u),
            None => AdminStep::Error("missing \"uri\" field".to_owned()),
        };
    }
    let mut e: String = String::new();
    push_text(&mut e, "unknown method: \"");
    push_text(&mut e, method);
    push_text(&mut e, "\"");
    assert(e@ =~= unknown_method(method@));
    AdminStep::Error(e)
}

/// The request in a line, without white space around it. There is none in a
/// line of white space.
pub fn request_text<'a>(line: &'a str) -> (r: Option<&'a str>)
    ensures
        match r {
            Some(t) => t@ == trimmed(line@) && t@.len() > 0,
            None => trimmed(line@).len() == 0,
        },
{
    let t: &str = trim(line);
    if t.unicode_len() == 0 {
        None
    } else {
        Some(t)
    }
}

/// What the node, which started at the time `started`, says of itself at the time
/// `now`. Times are in microseconds.
pub fn self_info(conn: &PacketConn, started: u64, now: u64) -> (r: SelfInfo)
    ensures
        r.pub_key@ == hex_chars(conn.state.pub_key@),
        match r.address {
            Some(a) => derived(ADDRESS_PREFIX, blake2b_64(conn.state.pub_key@), a@),
            None => leading_ones(blake2b_64(conn.state.pub_key@)) > 399,
        },
        r.uptime_us == elapsed(now, started),
        r.peer_count == conn.state.peers@.len(),
{
    SelfInfo {
        pub_key: hex_encode(conn.state.pub_key.as_slice()),
        address: try_address_from_key(&conn.state.pub_key),
        uptime_us: time_since(now, started),
        peer_count: conn.state.peers.len(),
    }
}

/// The coordinates that the node knows, in the order of its table.
pub fn routes(conn: &PacketConn) -> (r: Vec<RouteInfo>)
    ensures
        r@.len() == conn.state.coord_table@.len(),
        forall|i: int|
            0 <= i < r@.len() ==> (#[trigger] r@[i]).pub_key@ == hex_chars(
                conn.state.coord_table@[i].key@,
            ) && r@[i].coord == conn.state.coord_table@[i].coord,
{
    let table: &Vec<CoordEntry> = &conn.state.coord_table;
    let mut r: Vec<RouteInfo> = Vec::new();
    while r.len() < table.len()
        invariant
            *table == conn.state.coord_table,
            r@.len() <= table@.len(),
            forall|i: int|
                0 <= i < r@.len() ==> (#[trigger] r@[i]).pub_key@ == hex_chars(table@[i].key@)
                    && r@[i].coord == table@[i].coord,
        decreases table@.len() - r@.len(),
    {
        let e: CoordEntry = table[r.len()];
        r.push(RouteInfo { pub_key: hex_encode(e.key.as_slice()), coord: e.coord });
    }
    r
}

/// The key that a text of 64 hexadecimal digits stands for. White space around
/// it does not matter.
pub open spec fn key_of_text(s: Seq<char>) -> Result<Seq<u8>, KeyTextError> {
    match hex_value(encode_utf8(trimmed(s))) {
        None => Err(KeyTextError::NotHex),
        Some(bytes) => if bytes.len() == 32 {
            Ok(bytes)
        } else {
            Err(KeyTextError::Length(bytes.len() as u64))
        },
    }
}

/// The key that a text of 64 hexadecimal digits stands for.
pub fn parse_hex_key(hex_str: &str) -> (r: Result<[u8; 32], KeyTextError>)
    ensures
        match key_of_text(hex_str@) {
            Ok(k) => r matches Ok(x) && x@ == k,
            Err(e) => r matches Err(f) && f == e,
        },
{
    let bytes: Vec<u8> = match hex_decode(trim(hex_str)) {
        Some(b) => b,
        None => {
            return Err(KeyTextError::NotHex);
        },
    };
    if bytes.len() != 32 {
        return Err(KeyTextError::Length(bytes.len() as u64));
    }
    let key: [u8; 32] = crate::bytes::read_array(bytes.as_slice(), 0);
    assert(key@ =~= bytes@);
    Ok(key)
}

} // verus!
