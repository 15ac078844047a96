//! Connections to QUIC peers: their addresses, when to dial again, and who may
//! stay.

use crate::address::{key_difficulty_bits, leading_ones};
use crate::bytes::key_eq;
use crate::conn::PacketConn;
use crate::hash::blake2b_64;
use crate::router::PeerId;
use crate::text::{push_text, strip_prefix};
use vstd::prelude::*;

verus! {

/// The address of a peer is not a `quic://` URI.
#[derive(Clone, Debug)]
pub struct UnsupportedScheme {
    pub uri: String,
}

impl UnsupportedScheme {
    /// The message that describes the error.
    pub fn to_string(&self) -> (s: String)
        ensures
            s@ == "unsupported URI scheme (expected quic://): "@ + self.uri@,
    {
        let mut out: String = String::new();
        push_text(&mut out, "unsupported URI scheme (expected quic://): ");
        push_text(&mut out, self.uri.as_str());
        assert(out@ =~= "unsupported URI scheme (expected quic://): "@ + self.uri@);
        out
    }
}

/// The socket address in a `quic://host:port` URI.
pub fn parse_quic_uri(uri: &str) -> (r: Result<String, UnsupportedScheme>)
    ensures
        match r {
            Ok(addr) => uri@ == "quic://"@ + addr@,
            Err(e) => !("quic://"@).is_prefix_of(uri@) && e.uri@ == uri@,
        },
{
    match strip_prefix(uri, "quic://") {
        Some(rest) => Ok(rest.to_owned()),
        None => Err(UnsupportedScheme { uri: uri.to_owned() }),
    }
}

/// The delay before a node is dialled again for the first time, in
/// milliseconds.
pub const FIRST_DELAY_MS: u64 = 1000;

/// The delay before a node is dialled again after it had been connected.
pub const RECONNECT_DELAY_MS: u64 = 5000;

/// The longest delay.
pub const MAX_DELAY_MS: u64 = 60000;

/// The delay before a node is dialled again, where it would have grown to
/// `grown` milliseconds.
pub fn capped_delay(grown: u64) -> (ms: u64)
    ensures
        ms == if grown < MAX_DELAY_MS {
            grown
        } else {
            MAX_DELAY_MS
        },
{
    if grown < MAX_DELAY_MS {
        grown
    } else {
        MAX_DELAY_MS
    }
}

/// How an attempt to connect to a node ended.
#[derive(Clone, Copy, Debug, PartialEq, Eq, Structural)]
pub enum DialOutcome {
    /// The node was not reached in time, or not at all.
    NotReached,
    /// The node was reached, but opened no stream.
    NoStream,
    /// The link was up, and is not any more.
    LinkEnded,
}

/// How long to wait before the next attempt, in milliseconds, where the delay has
/// grown to `delay_ms`. Without a wait the node is dialled again at once.
pub fn next_wait(delay_ms: u64, outcome: DialOutcome) -> (r: Option<u64>)
    ensures
        r == match outcome {
            DialOutcome::NotReached => Some(delay_ms),
            DialOutcome::NoStream => None,
            DialOutcome::LinkEnded => Some(RECONNECT_DELAY_MS),
        },
{
    match outcome {
        DialOutcome::NotReached => Some(delay_ms),
        DialOutcome::NoStream => None,
        DialOutcome::LinkEnded => Some(RECONNECT_DELAY_MS),
    }
}

/// Whether a node that connected may stay.
#[derive(Clone, Copy, Debug, PartialEq, Eq, Structural)]
pub enum Admission {
    Admitted,
    /// The key has too low a difficulty, which is given.
    TooEasy(u32),
    /// The node is connected already.
    Duplicate,
}

/// What becomes of the node `key`, which connected.
pub open spec fn admission(min_bits: u32, connected: Seq<PeerId>, key: PeerId) -> Admission {
    let bits = leading_ones(blake2b_64(key@));
    if bits < min_bits {
        Admission::TooEasy(bits as u32)
    } else if connected.contains(key) {
        Admission::Duplicate
    } else {
        Admission::Admitted
    }
}

fn position(connected: &Vec<PeerId>, key: &PeerId) -> (r: Option<usize>)
    ensures
        match r {
            Some(i) => i < connected@.len() && connected@[i as int] == *key && forall|j: int|
                0 <= j < i ==> connected@[j] != *key,
            None => !connected@.contains(*key),
        },
{
    let mut i: usize = 0;
    while i < connected.len()
        invariant
            i <= connected@.len(),
            forall|j: int| 0 <= j < i ==> connected@[j] != *key,
        decreases connected@.len() - i,
    {
        if key_eq(&connected[i], key) {
            return Some(i);
        }
        i = i + 1;
    }
    None
}

/// Decide whether the node `key`, which connected, may stay; if so, it is
/// connected from now on.
pub fn welcome(conn: &PacketConn, connected: &mut Vec<PeerId>, key: PeerId) -> (r: Admission)
    ensures
        r == admission(conn.min_bits, old(connected)@, key),
        final(connected)@ == if r == Admission::Admitted {
            old(connected)@.push(key)
        } else {
            old(connected)@
        },
{
    let bits: u32 = key_difficulty_bits(&key);
    if bits < conn.min_peer_difficulty_bits() {
        return Admission::TooEasy(bits);
    }
    if position(connected, &key).is_some() {
        return Admission::Duplicate;
    }
    connected.push(key);
    Admission::Admitted
}

/// The node `key` is not connected any more.
pub fn release(connected: &mut Vec<PeerId>, key: &PeerId)
    requires
        old(connected)@.no_duplicates(),
    ensures
        final(connected)@.no_duplicates(),
        !final(connected)@.contains(*key),
        forall|k: PeerId|
            k != *key ==> final(connected)@.contains(k) == #[trigger] old(connected)@.contains(k),
{
    let ghost before = connected@;
    if let Some(i) = position(connected, key) {
        let gone: PeerId = connected.remove(i);
        proof {
            let after = connected@;
            assert forall|k: PeerId| k != *key implies after.contains(k)
                == #[trigger] before.contains(k) by {
                if before.contains(k) {
                    let j = choose|j: int| 0 <= j < before.len() && before[j] == k;
                    let m = if j < i {
                        j
                    } else {
                        j - 1
                    };
                    assert(after[m] == k);
                }
            }
        }
    }
}

/// A node that is connected is not admitted again until it is released.
pub proof fn nodes_are_admitted_once(min_bits: u32, connected: Seq<PeerId>, key: PeerId)
    requires
        admission(min_bits, connected, key) == Admission::Admitted,
    ensures
        admission(min_bits, connected.push(key), key) == Admission::Duplicate,
        connected.no_duplicates() ==> connected.push(key).no_duplicates(),
{
    assert(connected.push(key)[connected.len() as int] == key);
}

/// A node may stay exactly where its key is hard enough and it is not connected yet; one
/// with too easy a key is told how easy, whether it is connected or not.
pub proof fn only_new_nodes_with_hard_keys_stay(
    min_bits: u32,
    connected: Seq<PeerId>,
    key: PeerId,
)
    ensures
        admission(min_bits, connected, key) == Admission::Admitted <==> leading_ones(
            blake2b_64(key@),
        ) >= min_bits && !connected.contains(key),
        admission(min_bits, connected, key) is TooEasy <==> leading_ones(blake2b_64(key@))
            < min_bits,
        min_bits == 0 && !connected.contains(key) ==> admission(min_bits, connected, key)
            == Admission::Admitted,
{
    crate::address::difficulty_counts_the_leading_ones(blake2b_64(key@));
}

} // verus!
