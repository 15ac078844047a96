//! Discovery of nodes on the same link, by DNS service discovery.

use crate::bytes::{key_eq, read_array};
use crate::router::PeerId;
use crate::text::{decimal, hex_decode, hex_value, push_decimal, push_text, text_eq};
use vstd::prelude::*;
use vstd::utf8::encode_utf8;

verus! {

broadcast use vstd::array::group_array_axioms;

/// The service that nodes offer.
pub const SERVICE_TYPE: &'static str = "_norn._tcp.local.";

/// The property that holds a node's public key, in hexadecimal.
pub const TXT_PUB_KEY: &'static str = "pub_key";

/// The property that holds the version of the protocol.
pub const TXT_VERSION: &'static str = "version";

/// A character that a host label may have.
pub open spec fn is_label_char(c: char) -> bool {
    ||| 'a' <= c <= 'z'
    ||| 'A' <= c <= 'Z'
    ||| '0' <= c <= '9'
    ||| c == '-'
}

/// The characters of `s` that a host label may have.
pub open spec fn label_chars(s: Seq<char>) -> Seq<char>
    decreases s.len(),
{
    if s.len() == 0 {
        Seq::empty()
    } else if is_label_char(s.last()) {
        label_chars(s.drop_last()).push(s.last())
    } else {
        label_chars(s.drop_last())
    }
}

/// The label of a host with the name `s`.
pub open spec fn label_of(s: Seq<char>) -> Seq<char> {
    if label_chars(s).len() == 0 {
        "norn"@
    } else {
        label_chars(s)
    }
}

/// The label of the host named `raw`: what of the name a label may have, or
/// `norn` where nothing is left.
pub fn hostname_label(raw: &str) -> (s: String)
    ensures
        s@ == label_of(raw@),
{
    let n: usize = raw.unicode_len();
    let mut out: String = String::new();
    let mut left: bool = false;
    let mut i: usize = 0;
    assert(raw@.take(0) =~= Seq::<char>::empty());
    assert(out@ =~= label_chars(raw@.take(0)));
    while i < n
        invariant
            i <= n == raw@.len(),
            out@ == label_chars(raw@.take(i as int)),
            left == (out@.len() > 0),
        decreases n - i,
    {
        let c: char = raw.get_char(i);
        proof {
            assert(raw@.take(i + 1).drop_last() =~= raw@.take(i as int));
            assert(raw@.take(i + 1).last() == c);
        }
        if ('a' <= c && c <= 'z') || ('A' <= c && c <= 'Z') || ('0' <= c && c <= '9') || c == '-' {
            out.push(c);
            left = true;
        }
        i = i + 1;
    }
    assert(raw@.take(i as int) =~= raw@);
    if left {
        out
    } else {
        "norn".to_owned()
    }
}

/// The name under which a node offers its service; `pub_hex` is its key in
/// hexadecimal.
pub fn instance_name(pub_hex: &str) -> (s: String)
    requires
        pub_hex@.len() >= 8,
    ensures
        s@ == "norn-"@ + pub_hex@.take(8),
{
    let mut s: String = String::new();
    push_text(&mut s, "norn-");
    let front: &str = pub_hex.substring_char(0, 8);
    push_text(&mut s, front);
    assert(s@ =~= "norn-"@ + pub_hex@.take(8));
    s
}

/// The name of a host with the label `label`.
pub fn host_name(label: &str) -> (s: String)
    ensures
        s@ == label@ + ".local."@,
{
    let mut s: String = String::new();
    push_text(&mut s, label);
    push_text(&mut s, ".local.");
    assert(s@ =~= label@ + ".local."@);
    s
}

/// The key that an offered service names, if it is one to connect to: the key
/// is another than this node's, has the right form, and is not connected.
pub open spec fn key_to_dial(
    pub_hex: Option<Seq<char>>,
    own_hex: Seq<char>,
    connected: Seq<PeerId>,
) -> Option<Seq<u8>> {
    match pub_hex {
        None => None,
        Some(h) => if h == own_hex {
            None
        } else {
            match hex_value(encode_utf8(h)) {
                None => None,
                Some(bytes) => if bytes.len() != 32 || is_connected(connected, bytes) {
                    None
                } else {
                    Some(bytes)
                },
            }
        },
    }
}

pub open spec fn is_connected(connected: Seq<PeerId>, key: Seq<u8>) -> bool {
    exists|i: int| 0 <= i < connected.len() && (#[trigger] connected[i])@ == key
}

/// The key that an offered service names, if it is one to connect to.
/// `connected` holds the keys of the nodes connected so far.
pub fn service_to_dial(pub_hex: Option<&str>, own_hex: &str, connected: &Vec<PeerId>) -> (r: Option<
    PeerId,
>)
    ensures
        ({
            let h = match pub_hex {
                Some(t) => Some(t@),
                None => None,
            };
            match key_to_dial(h, own_hex@, connected@) {
                Some(k) => r matches Some(x) && x@ == k,
                None => r is None,
            }
        }),
{
    let text: &str = match pub_hex {
        Some(t) => t,
        None => {
            return None;
        },
    };
    if text_eq(text, own_hex) {
        return None;
    }
    let bytes: Vec<u8> = match hex_decode(text) {
        Some(b) => b,
        None => {
            return None;
        },
    };
    if bytes.len() != 32 {
        return None;
    }
    let key: PeerId = read_array(bytes.as_slice(), 0);
    assert(key@ =~= bytes@);
    let mut i: usize = 0;
    while i < connected.len()
        invariant
            i <= connected@.len(),
            key@ == bytes@,
            bytes@.len() == 32,
            pub_hex == Some(text),
            text@ != own_hex@,
            hex_value(encode_utf8(text@)) == Some(bytes@),
            forall|j: int| 0 <= j < i ==> (#[trigger] connected@[j])@ != bytes@,
        decreases connected@.len() - i,
    {
        if key_eq(&connected[i], &key) {
            assert(connected@[i as int]@ == bytes@);
            assert(is_connected(connected@, bytes@));
            return None;
        }
        assert(connected@[i as int]@ != bytes@) by {
            if connected@[i as int]@ == bytes@ {
                assert(connected@[i as int] =~= key);
            }
        }
        i = i + 1;
    }
    Some(key)
}

/// `i` is the first of `v6` that is set, or else the first at all.
pub open spec fn preferred(v6: Seq<bool>, i: int) -> bool {
    &&& 0 <= i < v6.len()
    &&& v6[i] || i == 0
    &&& forall|j: int| 0 <= j < (if v6[i] {
        i
    } else {
        v6.len() as int
    }) ==> !#[trigger] v6[j]
}

/// Which of a node's addresses to use: the first of IP version 6, or else the
/// first. `v6` says of each address whether it is of version 6.
pub fn choose_address(v6: &Vec<bool>) -> (r: Option<usize>)
    ensures
        match r {
            Some(i) => preferred(v6@, i as int),
            None => v6@.len() == 0,
        },
{
    let mut i: usize = 0;
    while i < v6.len()
        invariant
            i <= v6@.len(),
            forall|j: int| 0 <= j < i ==> !#[trigger] v6@[j],
        decreases v6@.len() - i,
    {
        if v6[i] {
            return Some(i);
        }
        i = i + 1;
    }
    if v6.len() == 0 {
        None
    } else {
        Some(0)
    }
}

/// The address to dial for a node at `ip` and `port`.
pub open spec fn service_text(ip: Seq<char>, v6: bool, port: u16) -> Seq<char> {
    if v6 {
        "tcp://["@ + ip + "]:"@ + decimal(port as nat)
    } else {
        "tcp://"@ + ip + ":"@ + decimal(port as nat)
    }
}

/// The address to dial for a node at `ip`, of version 6 or not, and `port`.
pub fn service_uri(ip: &str, v6: bool, port: u16) -> (s: String)
    ensures
        s@ == service_text(ip@, v6, port),
{
    let mut s: String = String::new();
    if v6 {
        push_text(&mut s, "tcp://[");
        push_text(&mut s, ip);
        push_text(&mut s, "]:");
    } else {
        push_text(&mut s, "tcp://");
        push_text(&mut s, ip);
        push_text(&mut s, ":");
    }
    push_decimal(&mut s, port as u64);
    assert(s@ =~= service_text(ip@, v6, port));
    s
}

/// A label is never empty, and has only characters that a label may have.
pub proof fn labels_are_safe(s: Seq<char>)
    ensures
        label_of(s).len() > 0,
        forall|i: int| 0 <= i < label_of(s).len() ==> is_label_char(#[trigger] label_of(s)[i]),
{
    reveal_strlit("norn");
    lemma_label_chars(s);
}

proof fn lemma_label_chars(s: Seq<char>)
    ensures
        forall|i: int| 0 <= i < label_chars(s).len() ==> is_label_char(#[trigger] label_chars(s)[i]),
    decreases s.len(),
{
    if s.len() > 0 {
        let rest = label_chars(s.drop_last());
        lemma_label_chars(s.drop_last());
        assert forall|i: int| 0 <= i < label_chars(s).len() implies is_label_char(
            #[trigger] label_chars(s)[i],
        ) by {
            if i < rest.len() {
                assert(label_chars(s)[i] == rest[i]);
            }
        }
    }
}

/// A label is the name of the host without the characters that a label may not have: the
/// others are kept, in their order.
pub proof fn labels_keep_what_they_may(s: Seq<char>)
    ensures
        label_chars(s) == s.filter(|c: char| is_label_char(c)),
        (exists|i: int| 0 <= i < s.len() && is_label_char(#[trigger] s[i])) ==> label_of(s)
            == label_chars(s) && label_chars(s).len() > 0,
        (forall|i: int| 0 <= i < s.len() ==> is_label_char(#[trigger] s[i])) && s.len() > 0
            ==> label_of(s) == s,
    decreases s.len(),
{
    reveal(Seq::filter);
    let keep = |c: char| is_label_char(c);
    if s.len() > 0 {
        let t = s.drop_last();
        labels_keep_what_they_may(t);
        assert(s[s.len() - 1] == s.last());
        if forall|i: int| 0 <= i < s.len() ==> is_label_char(#[trigger] s[i]) {
            assert forall|i: int| 0 <= i < t.len() implies is_label_char(#[trigger] t[i]) by {
                assert(is_label_char(s[i]));
            }
            assert(t.push(s.last()) =~= s);
            if t.len() == 0 {
                assert(t =~= Seq::<char>::empty());
            }
        }
        if exists|i: int| 0 <= i < s.len() && is_label_char(#[trigger] s[i]) {
            let i = choose|i: int| 0 <= i < s.len() && is_label_char(#[trigger] s[i]);
            if i < t.len() {
                assert(is_label_char(t[i]));
            }
        }
    } else {
        assert(s.filter(keep) =~= Seq::<char>::empty());
    }
}

/// A service is one to connect to exactly where its key is given in hexadecimal, with 32
/// bytes, is not that of this node, and is not connected.
pub proof fn only_new_nodes_are_dialled(
    h: Seq<char>,
    own_hex: Seq<char>,
    connected: Seq<PeerId>,
    key: PeerId,
)
    ensures
        key_to_dial(Some(h), own_hex, connected) == Some(key@) <==> hex_value(encode_utf8(h))
            == Some(key@) && h != own_hex && !connected.contains(key),
        key_to_dial(None, own_hex, connected) is None,
{
    assert(key@.len() == 32);
    if connected.contains(key) {
        let i = choose|i: int| 0 <= i < connected.len() && connected[i] == key;
        assert(connected[i]@ == key@);
    }
    if is_connected(connected, key@) {
        let i = choose|i: int| 0 <= i < connected.len() && (#[trigger] connected[i])@ == key@;
        assert(connected[i] =~= key);
    }
}

/// Of a node's addresses the first of IP version 6 is used, where there is one, and the first
/// of all otherwise.
pub proof fn version_6_comes_first(v6: Seq<bool>, i: int, j: int)
    requires
        preferred(v6, i),
        0 <= j < v6.len(),
    ensures
        v6[j] ==> v6[i] && i <= j,
        !v6[i] ==> i == 0 && !v6[j],
{
}

} // verus!
