//! The cache of peers that were reached before.
//!
//! At start a node connects to the peers in the cache beside those in its
//! configuration. The cache holds one record per key, the latest one.

use crate::text::{hex_chars, hex_encode, text_eq};
use vstd::prelude::*;

verus! {

broadcast use vstd::array::group_array_axioms;

/// Age above which a record is dropped when the cache is loaded: 30 days, in
/// milliseconds.
pub const DEFAULT_MAX_AGE: u64 = 2592000000;

/// One peer.
#[derive(Clone, Debug, PartialEq, Eq)]
pub struct PeerRecord {
    /// The peer's key in hexadecimal.
    pub pub_key_hex: String,
    /// The address at which it was last reached.
    pub uri: String,
    /// When it was last reached, in milliseconds since the Unix epoch.
    pub last_seen_ms: u64,
}

/// The contents of a cache file.
#[derive(Clone, Debug)]
pub struct PeerCacheFile {
    /// Version of the file format.
    pub version: u32,
    pub peers: Vec<PeerRecord>,
}

pub fn default_version() -> (v: u32)
    ensures
        v == 1,
{
    1
}

/// What a record says of its peer: the address and the time.
pub type Seen = (Seq<char>, u64);

/// The last record for each key, those older than `cutoff` left out.
pub open spec fn latest(peers: Seq<PeerRecord>, cutoff: u64) -> Map<Seq<char>, Seen>
    decreases peers.len(),
{
    if peers.len() == 0 {
        Map::empty()
    } else {
        let rest = latest(peers.drop_last(), cutoff);
        let p = peers.last();
        if p.last_seen_ms >= cutoff {
            rest.insert(p.pub_key_hex@, (p.uri@, p.last_seen_ms))
        } else {
            rest
        }
    }
}

/// The time `age` before `now`, or the epoch.
pub open spec fn cutoff(now: u64, age: u64) -> u64 {
    if now >= age {
        (now - age) as u64
    } else {
        0
    }
}

/// No two records are for the same key.
pub open spec fn distinct_keys(s: Seq<PeerRecord>) -> bool {
    forall|i: int, j: int|
        #![trigger s[i], s[j]]
        0 <= i < j < s.len() ==> s[i].pub_key_hex@ != s[j].pub_key_hex@
}

/// The known peers.
pub struct PeerCache {
    entries: Vec<PeerRecord>,
}

impl View for PeerCache {
    type V = Map<Seq<char>, Seen>;

    closed spec fn view(&self) -> Map<Seq<char>, Seen> {
        latest(self.entries@, 0)
    }
}

proof fn lemma_latest_has(s: Seq<PeerRecord>, k: int)
    requires
        distinct_keys(s),
        0 <= k < s.len(),
    ensures
        latest(s, 0).contains_key(s[k].pub_key_hex@),
        latest(s, 0)[s[k].pub_key_hex@] == (s[k].uri@, s[k].last_seen_ms),
    decreases s.len(),
{
    if k < s.len() - 1 {
        let t = s.drop_last();
        assert(distinct_keys(t)) by {
            assert forall|i: int, j: int|
                #![trigger t[i], t[j]]
                0 <= i < j < t.len() implies t[i].pub_key_hex@ != t[j].pub_key_hex@ by {
                assert(s[i].pub_key_hex@ != s[j].pub_key_hex@);
            }
        }
        lemma_latest_has(t, k);
        assert(s[k].pub_key_hex@ != s[s.len() - 1].pub_key_hex@);
    }
}

proof fn lemma_latest_lacks(s: Seq<PeerRecord>, key: Seq<char>)
    requires
        forall|i: int| 0 <= i < s.len() ==> (#[trigger] s[i]).pub_key_hex@ != key,
    ensures
        !latest(s, 0).contains_key(key),
    decreases s.len(),
{
    if s.len() > 0 {
        let t = s.drop_last();
        assert forall|i: int| 0 <= i < t.len() implies (#[trigger] t[i]).pub_key_hex@ != key by {
            assert(s[i].pub_key_hex@ != key);
        }
        lemma_latest_lacks(t, key);
        assert(s[s.len() - 1].pub_key_hex@ != key);
    }
}

proof fn lemma_latest_len(s: Seq<PeerRecord>)
    requires
        distinct_keys(s),
    ensures
        latest(s, 0).dom().finite(),
        latest(s, 0).dom().len() == s.len(),
    decreases s.len(),
{
    if s.len() == 0 {
        assert(latest(s, 0).dom() =~= Set::empty());
    } else {
        let t = s.drop_last();
        let last = s.last();
        assert forall|i: int, j: int|
            #![trigger t[i], t[j]]
            0 <= i < j < t.len() implies t[i].pub_key_hex@ != t[j].pub_key_hex@ by {
            assert(s[i].pub_key_hex@ != s[j].pub_key_hex@);
        }
        lemma_latest_len(t);
        assert forall|i: int| 0 <= i < t.len() implies (#[trigger] t[i]).pub_key_hex@
            != last.pub_key_hex@ by {
            assert(s[i].pub_key_hex@ != s[s.len() - 1].pub_key_hex@);
        }
        lemma_latest_lacks(t, last.pub_key_hex@);
        assert(latest(s, 0).dom() =~= latest(t, 0).dom().insert(last.pub_key_hex@));
    }
}

/// Replacing the record of a key changes the map at that key alone.
proof fn lemma_latest_update(s: Seq<PeerRecord>, k: int, r: PeerRecord)
    requires
        distinct_keys(s),
        0 <= k < s.len(),
        r.pub_key_hex@ == s[k].pub_key_hex@,
    ensures
        distinct_keys(s.update(k, r)),
        latest(s.update(k, r), 0) == latest(s, 0).insert(r.pub_key_hex@, (r.uri@, r.last_seen_ms)),
    decreases s.len(),
{
    let u = s.update(k, r);
    assert forall|i: int, j: int|
        #![trigger u[i], u[j]]
        0 <= i < j < u.len() implies u[i].pub_key_hex@ != u[j].pub_key_hex@ by {
        assert(s[i].pub_key_hex@ != s[j].pub_key_hex@);
    }
    let t = s.drop_last();
    if k == s.len() - 1 {
        assert(u.drop_last() =~= t);
        assert(latest(u, 0) =~= latest(s, 0).insert(r.pub_key_hex@, (r.uri@, r.last_seen_ms)));
    } else {
        assert forall|i: int, j: int|
            #![trigger t[i], t[j]]
            0 <= i < j < t.len() implies t[i].pub_key_hex@ != t[j].pub_key_hex@ by {
            assert(s[i].pub_key_hex@ != s[j].pub_key_hex@);
        }
        lemma_latest_update(t, k, r);
        assert(u.drop_last() =~= t.update(k, r));
        assert(s[k].pub_key_hex@ != s[s.len() - 1].pub_key_hex@);
        assert(latest(u, 0) =~= latest(s, 0).insert(r.pub_key_hex@, (r.uri@, r.last_seen_ms)));
    }
}

impl PeerCache {
    pub closed spec fn wf(&self) -> bool {
        distinct_keys(self.entries@)
    }

    /// The records, in the order in which `uris` and `save` give them.
    pub closed spec fn records(&self) -> Seq<PeerRecord> {
        self.entries@
    }

    /// Put in a record in place of any other for the same key.
    fn put(&mut self, r: PeerRecord)
        requires
            old(self).wf(),
        ensures
            final(self).wf(),
            final(self)@ == old(self)@.insert(r.pub_key_hex@, (r.uri@, r.last_seen_ms)),
    {
        let mut i: usize = 0;
        while i < self.entries.len()
            invariant
                self.wf(),
                *self == *old(self),
                i <= self.entries@.len(),
                forall|j: int|
                    0 <= j < i ==> (#[trigger] self.entries@[j]).pub_key_hex@ != r.pub_key_hex@,
            decreases self.entries@.len() - i,
        {
            if text_eq(self.entries[i].pub_key_hex.as_str(), r.pub_key_hex.as_str()) {
                proof {
                    lemma_latest_update(self.entries@, i as int, r);
                }
                self.entries.set(i, r);
                return ;
            }
            i = i + 1;
        }
        let ghost before = self.entries@;
        self.entries.push(r);
        proof {
            assert(self.entries@.drop_last() =~= before);
            let s = self.entries@;
            assert forall|a: int, b: int|
                #![trigger s[a], s[b]]
                0 <= a < b < s.len() implies s[a].pub_key_hex@ != s[b].pub_key_hex@ by {
                if b < before.len() {
                    assert(before[a].pub_key_hex@ != before[b].pub_key_hex@);
                } else {
                    assert(before[a].pub_key_hex@ != r.pub_key_hex@);
                }
            }
        }
    }

    /// The cache that a file describes. A missing or unreadable file is an
    /// empty cache.
    pub fn load(file: Option<PeerCacheFile>, now: u64) -> (c: PeerCache)
        ensures
            c.wf(),
            match file {
                Some(f) => c@ == latest(f.peers@, cutoff(now, DEFAULT_MAX_AGE)),
                None => c@ == Map::<Seq<char>, Seen>::empty(),
            },
    {
        PeerCache::load_with_max_age(file, now, DEFAULT_MAX_AGE)
    }

    /// The cache that a file describes, without the records that are older
    /// than `max_age` at time `now`. Of several records for a key the last one
    /// counts.
    pub fn load_with_max_age(file: Option<PeerCacheFile>, now: u64, max_age: u64) -> (c: PeerCache)
        ensures
            c.wf(),
            match file {
                Some(f) => c@ == latest(f.peers@, cutoff(now, max_age)),
                None => c@ == Map::<Seq<char>, Seen>::empty(),
            },
    {
        let mut c = PeerCache { entries: Vec::new() };
        if let Some(f) = file {
            let limit: u64 = if now >= max_age {
                now - max_age
            } else {
                0
            };
            let mut i: usize = 0;
            assert(f.peers@.take(0) =~= Seq::<PeerRecord>::empty());
            while i < f.peers.len()
                invariant
                    c.wf(),
                    i <= f.peers@.len(),
                    c@ == latest(f.peers@.take(i as int), limit),
                decreases f.peers@.len() - i,
            {
                assert(f.peers@.take(i + 1).drop_last() =~= f.peers@.take(i as int));
                let p: &PeerRecord = &f.peers[i];
                if p.last_seen_ms >= limit {
                    c.put(
                        PeerRecord {
                            pub_key_hex: p.pub_key_hex.clone(),
                            uri: p.uri.clone(),
                            last_seen_ms: p.last_seen_ms,
                        },
                    );
                }
                i = i + 1;
            }
            assert(f.peers@.take(i as int) =~= f.peers@);
        }
        c
    }

    /// How many peers are known.
    pub fn len(&self) -> (n: usize)
        requires
            self.wf(),
        ensures
            self@.dom().finite(),
            n == self@.dom().len(),
    {
        proof {
            lemma_latest_len(self.entries@);
        }
        self.entries.len()
    }

    pub fn is_empty(&self) -> (b: bool)
        requires
            self.wf(),
        ensures
            b == (self@ == Map::<Seq<char>, Seen>::empty()),
    {
        proof {
            lemma_latest_len(self.entries@);
            if self.entries@.len() > 0 {
                lemma_latest_has(self.entries@, 0);
            } else {
                assert(self@ =~= Map::<Seq<char>, Seen>::empty());
            }
        }
        self.entries.len() == 0
    }

    /// The addresses of the known peers, one per record.
    pub fn uris(&self) -> (v: Vec<String>)
        requires
            self.wf(),
        ensures
            distinct_keys(self.records()) && latest(self.records(), 0) == self@,
            v@.len() == self.records().len(),
            forall|i: int| 0 <= i < v@.len() ==> #[trigger] v@[i]@ == self.records()[i].uri@,
    {
        let mut v: Vec<String> = Vec::new();
        let mut i: usize = 0;
        while i < self.entries.len()
            invariant
                i <= self.entries@.len(),
                v@.len() == i,
                forall|j: int| 0 <= j < i ==> #[trigger] v@[j]@ == self.entries@[j].uri@,
            decreases self.entries@.len() - i,
        {
            v.push(self.entries[i].uri.clone());
            i = i + 1;
        }
        v
    }

    /// Note that the peer with key `pub_key` was reached at `uri`.
    pub fn record(&mut self, pub_key: &[u8; 32], uri: String, now: u64)
        requires
            old(self).wf(),
        ensures
            final(self).wf(),
            final(self)@ == old(self)@.insert(hex_chars(pub_key@), (uri@, now)),
    {
        let pub_key_hex: String = hex_encode(pub_key.as_slice());
        self.put(PeerRecord { pub_key_hex, uri, last_seen_ms: now });
    }

    /// The file that describes the cache.
    pub fn save(&self) -> (f: PeerCacheFile)
        requires
            self.wf(),
        ensures
            f.version == 1,
            latest(f.peers@, 0) == self@,
            distinct_keys(f.peers@),
    {
        let mut peers: Vec<PeerRecord> = Vec::new();
        let mut i: usize = 0;
        assert(self.entries@.take(0) =~= Seq::<PeerRecord>::empty());
        while i < self.entries.len()
            invariant
                i <= self.entries@.len(),
                peers@.len() == i,
                forall|j: int|
                    0 <= j < i ==> (#[trigger] peers@[j]).pub_key_hex@
                        == self.entries@[j].pub_key_hex@,
                latest(peers@, 0) == latest(self.entries@.take(i as int), 0),
            decreases self.entries@.len() - i,
        {
            let p: &PeerRecord = &self.entries[i];
            let ghost before = peers@;
            peers.push(
                PeerRecord {
                    pub_key_hex: p.pub_key_hex.clone(),
                    uri: p.uri.clone(),
                    last_seen_ms: p.last_seen_ms,
                },
            );
            assert(peers@.drop_last() =~= before);
            assert(self.entries@.take(i + 1).drop_last() =~= self.entries@.take(i as int));
            i = i + 1;
        }
        assert(self.entries@.take(i as int) =~= self.entries@);
        proof {
            let s = peers@;
            assert forall|a: int, b: int|
                #![trigger s[a], s[b]]
                0 <= a < b < s.len() implies s[a].pub_key_hex@ != s[b].pub_key_hex@ by {
                assert(self.entries@[a].pub_key_hex@ != self.entries@[b].pub_key_hex@);
            }
        }
        PeerCacheFile { version: default_version(), peers }
    }
}

/// Loading what was saved gives the same peers, as long as none of them is too
/// old by then.
pub proof fn saved_cache_loads_back(peers: Seq<PeerRecord>, limit: u64)
    requires
        forall|i: int| 0 <= i < peers.len() ==> (#[trigger] peers[i]).last_seen_ms >= limit,
    ensures
        latest(peers, limit) == latest(peers, 0),
    decreases peers.len(),
{
    if peers.len() > 0 {
        let t = peers.drop_last();
        assert forall|i: int| 0 <= i < t.len() implies (#[trigger] t[i]).last_seen_ms >= limit by {
            assert(peers[i].last_seen_ms >= limit);
        }
        saved_cache_loads_back(t, limit);
        assert(peers[peers.len() - 1].last_seen_ms >= limit);
    }
}

/// A cache has a peer exactly where some record for it is recent enough, and
/// knows the last such record.
pub proof fn stale_records_are_dropped(peers: Seq<PeerRecord>, limit: u64, key: Seq<char>)
    ensures
        latest(peers, limit).contains_key(key) <==> exists|i: int|
            0 <= i < peers.len() && (#[trigger] peers[i]).pub_key_hex@ == key
                && peers[i].last_seen_ms >= limit,
        latest(peers, limit).contains_key(key) ==> latest(peers, limit)[key].1 >= limit,
    decreases peers.len(),
{
    if peers.len() > 0 {
        let t = peers.drop_last();
        stale_records_are_dropped(t, limit, key);
        let p = peers[peers.len() - 1];
        if latest(t, limit).contains_key(key) {
            let i = choose|i: int|
                0 <= i < t.len() && (#[trigger] t[i]).pub_key_hex@ == key && t[i].last_seen_ms
                    >= limit;
            assert(peers[i].pub_key_hex@ == key);
        }
        if exists|i: int|
            0 <= i < peers.len() && (#[trigger] peers[i]).pub_key_hex@ == key
                && peers[i].last_seen_ms >= limit {
            let i = choose|i: int|
                0 <= i < peers.len() && (#[trigger] peers[i]).pub_key_hex@ == key
                    && peers[i].last_seen_ms >= limit;
            if i < t.len() {
                assert(t[i].pub_key_hex@ == key);
            }
        }
    }
}

/// Of several records for a key that are recent enough, the last one counts.
pub proof fn the_last_record_counts(peers: Seq<PeerRecord>, limit: u64, i: int)
    requires
        0 <= i < peers.len(),
        peers[i].last_seen_ms >= limit,
        forall|j: int|
            i < j < peers.len() && (#[trigger] peers[j]).pub_key_hex@ == peers[i].pub_key_hex@
                ==> peers[j].last_seen_ms < limit,
    ensures
        latest(peers, limit).contains_key(peers[i].pub_key_hex@),
        latest(peers, limit)[peers[i].pub_key_hex@] == (peers[i].uri@, peers[i].last_seen_ms),
    decreases peers.len(),
{
    let t = peers.drop_last();
    if i < t.len() {
        assert(t[i] == peers[i]);
        assert forall|j: int|
            i < j < t.len() && (#[trigger] t[j]).pub_key_hex@
                == t[i].pub_key_hex@ implies t[j].last_seen_ms < limit by {
            assert(peers[j].pub_key_hex@ == peers[i].pub_key_hex@);
        }
        the_last_record_counts(t, limit, i);
        let last = peers[peers.len() - 1];
        assert(last.pub_key_hex@ == peers[i].pub_key_hex@ ==> last.last_seen_ms < limit);
    }
}

/// A record is too old exactly where it was last reached more than `age` milliseconds ago;
/// the usual age is thirty days.
pub proof fn records_last_thirty_days(now: u64, age: u64, seen: u64)
    ensures
        seen >= cutoff(now, age) <==> now <= seen + age,
        DEFAULT_MAX_AGE == 30 * 24 * 60 * 60 * 1000,
{
}

} // verus!
