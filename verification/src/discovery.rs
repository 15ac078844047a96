//! Discovery of nodes on the same link, by beacons sent to a multicast group.

use crate::bytes::{
    append, append_ascii, append_le, ascii, bytes_eq, key_eq, le_bytes, le_value, read_array,
    read_le,
};
use crate::conn::PacketConn;
use crate::router::PeerId;
use crate::state::has_peer;
use crate::text::{decimal, push_decimal, push_text};
use vstd::prelude::*;

verus! {

broadcast use vstd::array::group_array_axioms;

/// Time between two beacons, in seconds.
pub const BEACON_INTERVAL: u64 = 30;

/// A beacon: the node that sends it, and the TCP port that it listens on.
#[derive(Clone, Copy, Debug)]
pub struct Beacon {
    pub pub_key: PeerId,
    pub port: u16,
}

/// The wire form of a beacon.
pub open spec fn beacon_wire(key: Seq<u8>, port: u16) -> Seq<u8> {
    ascii("NORN"@) + key + le_bytes(port as nat, 2)
}

/// What `s` says as a beacon. Bytes after it do not matter.
pub open spec fn parse_beacon(s: Seq<u8>) -> Option<(Seq<u8>, nat)> {
    if s.len() < 38 || s.take(4) != ascii("NORN"@) {
        None
    } else {
        Some((s.subrange(4, 36), le_value(s.subrange(36, 38))))
    }
}

impl Beacon {
    pub fn encode(&self) -> (buf: Vec<u8>)
        ensures
            buf@ == beacon_wire(self.pub_key@, self.port),
    {
        let mut buf: Vec<u8> = Vec::new();
        proof {
            reveal_strlit("NORN");
        }
        append_ascii(&mut buf, "NORN");
        append(&mut buf, self.pub_key.as_slice());
        append_le(&mut buf, self.port as u64, 2);
        assert(buf@ =~= beacon_wire(self.pub_key@, self.port));
        buf
    }

    pub fn decode(data: &[u8]) -> (r: Option<Beacon>)
        ensures
            match parse_beacon(data@) {
                Some((key, port)) => r matches Some(b) && b.pub_key@ == key && b.port == port,
                None => r is None,
            },
    {
        if data.len() < 38 {
            return None;
        }
        let mut magic: Vec<u8> = Vec::new();
        proof {
            reveal_strlit("NORN");
        }
        append_ascii(&mut magic, "NORN");
        assert(magic@ =~= ascii("NORN"@));
        assert(data@.subrange(0, 4) =~= data@.take(4));
        if !bytes_eq(&data[0..4], magic.as_slice()) {
            return None;
        }
        let pub_key: PeerId = read_array(data, 4);
        let port: u64 = read_le(&data[36..38]);
        proof {
            reveal_with_fuel(le_value, 3);
        }
        Some(Beacon { pub_key, port: port as u16 })
    }
}

/// The node behind a beacon, if it is to be dialled: another than this one, and
/// no neighbour yet.
pub fn beacon_to_dial(conn: &PacketConn, data: &[u8]) -> (r: Option<Beacon>)
    requires
        conn.wf(),
    ensures
        match parse_beacon(data@) {
            Some((key, port)) => match r {
                Some(b) => b.pub_key@ == key && b.port == port && b.pub_key != conn.state.pub_key
                    && !has_peer(conn.state.peers@, b.pub_key),
                None => key == conn.state.pub_key@ || exists|k: PeerId|
                    k@ == key && #[trigger] has_peer(conn.state.peers@, k),
            },
            None => r is None,
        },
{
    match Beacon::decode(data) {
        Some(b) => {
            if key_eq(&b.pub_key, &conn.state.pub_key) {
                return None;
            }
            if conn.state.find_peer(&b.pub_key).is_some() {
                assert(has_peer(conn.state.peers@, b.pub_key));
                return None;
            }
            Some(b)
        },
        None => None,
    }
}

/// The address to dial for a beacon that came from the IPv6 address `ip`. For
/// the loopback address that of IPv4 is taken, which stands without brackets.
pub open spec fn dial_text(ip: Seq<char>, loopback: bool, port: u16) -> Seq<char> {
    (if loopback {
        "tcp://127.0.0.1:"@
    } else {
        "tcp://["@ + ip + "]:"@
    }) + decimal(port as nat)
}

/// The address to dial for a beacon that came from the IPv6 address `ip`, which
/// is `loopback` or not.
pub fn dial_uri(ip: &str, loopback: bool, port: u16) -> (s: String)
    ensures
        s@ == dial_text(ip@, loopback, port),
{
    let mut s: String = String::new();
    if loopback {
        push_text(&mut s, "tcp://127.0.0.1:");
    } else {
        push_text(&mut s, "tcp://[");
        push_text(&mut s, ip);
        push_text(&mut s, "]:");
    }
    push_decimal(&mut s, port as u64);
    assert(s@ =~= dial_text(ip@, loopback, port));
    s
}

/// A beacon reads back as itself, whatever follows it.
pub proof fn beacon_round_trip(key: Seq<u8>, port: u16, rest: Seq<u8>)
    requires
        key.len() == 32,
    ensures
        parse_beacon(beacon_wire(key, port) + rest) == Some((key, port as nat)),
{
    let s = beacon_wire(key, port) + rest;
    reveal_strlit("NORN");
    assert(ascii("NORN"@).len() == 4);
    reveal_with_fuel(crate::bytes::pow256, 3);
    crate::bytes::le_value_of_le_bytes(port as nat, 2);
    assert(s.take(4) =~= ascii("NORN"@));
    assert(s.subrange(4, 36) =~= key);
    assert(s.subrange(36, 38) =~= le_bytes(port as nat, 2));
}

} // verus!
