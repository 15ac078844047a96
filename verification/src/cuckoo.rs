//! Cuckoo filters: approximate sets of byte strings, with removal.
//!
//! A filter has 512 buckets of four slots. A key leaves a 16-bit fingerprint
//! in one of two buckets; each of the two is found from the other and the
//! fingerprint, so that a fingerprint can move without its key. What a filter
//! holds is thus a multiset of items, an item being a pair of buckets together
//! with a fingerprint.

use crate::bytes::{append, append_ascii, append_le, ascii, le_bytes, le_value, read_le};
use crate::hash::{blake2b_8, digest_8};
use rand::Rng;
use vstd::multiset::Multiset;
use vstd::prelude::*;

verus! {

broadcast use {vstd::array::group_array_axioms, vstd::multiset::group_multiset_axioms};

/// Size of a serialized filter.
pub const FILTER_BYTES: usize = 4096;

pub const NUM_BUCKETS: usize = 512;

pub const SLOTS_PER_BUCKET: usize = 4;

/// All slots of all buckets.
pub const NUM_SLOTS: usize = 2048;

/// How many fingerprints `add` moves before it gives up.
pub const MAX_KICKS: usize = 500;

/// How many fingerprints `merge` moves, per item, before it gives up.
pub const MERGE_KICKS: usize = 32;

/// An approximate set of byte strings.
pub struct CuckooFilter {
    /// Slot `s` of bucket `b` is at `4 * b + s`; zero means empty.
    slots: [u16; NUM_SLOTS],
    count: usize,
}

/// A fingerprint with the lower-numbered of its two buckets.
pub type Item = (int, u16);

/// The fingerprint of `key`, never zero.
pub open spec fn key_fingerprint(key: Seq<u8>) -> u16 {
    let v = le_value(blake2b_8(key).take(2)) as u16;
    if v == 0 {
        1u16
    } else {
        v
    }
}

/// The first bucket of `key`.
pub open spec fn key_bucket(key: Seq<u8>) -> int {
    (le_value(blake2b_8(ascii("b1"@) + key)) % 512) as int
}

/// What distinguishes the two buckets of a fingerprint.
pub open spec fn bucket_offset(fp: u16) -> u64 {
    (le_value(blake2b_8(ascii("b2"@) + le_bytes(fp as nat, 2))) as u64) & 511
}

/// The other bucket of a fingerprint that is in bucket `b`.
pub open spec fn other_bucket(b: int, fp: u16) -> int {
    ((b as u64 ^ bucket_offset(fp)) & 511) as int
}

/// What a fingerprint in bucket `b` stands for, whichever of its two buckets
/// `b` is.
pub open spec fn item(b: int, fp: u16) -> Item {
    let c = other_bucket(b, fp);
    (if b <= c {
        b
    } else {
        c
    }, fp)
}

/// What `key` leaves in a filter.
pub open spec fn key_item(key: Seq<u8>) -> Item {
    item(key_bucket(key), key_fingerprint(key))
}

/// The items in the first `n` slots.
pub open spec fn items_of(slots: Seq<u16>, n: int) -> Multiset<Item>
    decreases n,
{
    if n <= 0 {
        Multiset::empty()
    } else if slots[n - 1] == 0 {
        items_of(slots, n - 1)
    } else {
        items_of(slots, n - 1).insert(item((n - 1) / 4, slots[n - 1]))
    }
}

/// The first slot of bucket `b` that holds `v`, or -1.
pub open spec fn find_slot(slots: Seq<u16>, b: int, v: u16) -> int {
    if slots[4 * b] == v {
        4 * b
    } else if slots[4 * b + 1] == v {
        4 * b + 1
    } else if slots[4 * b + 2] == v {
        4 * b + 2
    } else if slots[4 * b + 3] == v {
        4 * b + 3
    } else {
        -1
    }
}

/// Whether the bucket `b`, or the other bucket of `fp`, holds `v`.
pub open spec fn either_holds(slots: Seq<u16>, b: int, fp: u16, v: u16) -> bool {
    find_slot(slots, b, v) >= 0 || find_slot(slots, other_bucket(b, fp), v) >= 0
}

/// `slots` with `fp` in the first free slot of bucket `b` or, where that is
/// full, of the other bucket of `fp`.
pub open spec fn placed(slots: Seq<u16>, b: int, fp: u16) -> Seq<u16> {
    let k = find_slot(slots, b, 0);
    if k >= 0 {
        slots.update(k, fp)
    } else {
        slots.update(find_slot(slots, other_bucket(b, fp), 0), fp)
    }
}

/// `after` is `before` with `x` added and one item dropped.
pub open spec fn added_with_loss(
    before: Multiset<Item>,
    x: Item,
    after: Multiset<Item>,
) -> bool {
    exists|lost: Item| #[trigger]
        before.insert(x).count(lost) > 0 && after == before.insert(x).remove(lost)
}

/// Some slot of bucket `b` is free.
pub open spec fn has_free_slot(slots: Seq<u16>, b: int) -> bool {
    slots[4 * b] == 0 || slots[4 * b + 1] == 0 || slots[4 * b + 2] == 0 || slots[4 * b + 3] == 0
}

/// Whichever fingerprint of bucket `b` has to leave, its other bucket has room for it.
pub open spec fn all_can_move(slots: Seq<u16>, b: int) -> bool {
    forall|s: int|
        4 * b <= s < 4 * b + 4 ==> has_free_slot(slots, other_bucket(b, #[trigger] slots[s]))
}

/// What merging one slot, with `fp` in bucket `b`, may make of `before`.
pub open spec fn merge_step(before: Seq<u16>, b: int, fp: u16, after: Seq<u16>) -> bool {
    if fp == 0 || either_holds(before, b, fp, fp) {
        after == before
    } else if either_holds(before, b, fp, 0) {
        after == placed(before, b, fp)
    } else {
        after.len() == NUM_SLOTS && (items_of(after, NUM_SLOTS as int) == items_of(
            before,
            NUM_SLOTS as int,
        ).insert(item(b, fp)) || (!all_can_move(before, b) && added_with_loss(
            items_of(before, NUM_SLOTS as int),
            item(b, fp),
            items_of(after, NUM_SLOTS as int),
        )))
    }
}

/// What adding `key` may make of `before`.
pub open spec fn add_reaches(before: Seq<u16>, key: Seq<u8>, after: Seq<u16>) -> bool {
    let b = key_bucket(key);
    let fp = key_fingerprint(key);
    if either_holds(before, b, fp, 0) {
        after == placed(before, b, fp)
    } else {
        after.len() == NUM_SLOTS && (items_of(after, NUM_SLOTS as int) == items_of(
            before,
            NUM_SLOTS as int,
        ).insert(key_item(key)) || (!(all_can_move(before, b) && all_can_move(
            before,
            other_bucket(b, fp),
        )) && added_with_loss(
            items_of(before, NUM_SLOTS as int),
            key_item(key),
            items_of(after, NUM_SLOTS as int),
        )))
    }
}

/// What merging the first `n` slots of `other` may make of `before`.
pub open spec fn merge_reaches(before: Seq<u16>, other: Seq<u16>, n: int, after: Seq<u16>) -> bool
    decreases n,
{
    if n <= 0 {
        after == before
    } else {
        exists|mid: Seq<u16>|
            merge_reaches(before, other, n - 1, mid) && #[trigger] merge_step(
                mid,
                (n - 1) / 4,
                other[n - 1],
                after,
            )
    }
}

/// The serialized form: two bytes per slot, low byte first.
pub open spec fn encoded(slots: Seq<u16>) -> Seq<u8> {
    Seq::new(
        2 * slots.len(),
        |i: int|
            if i % 2 == 0 {
                (slots[i / 2] % 256) as u8
            } else {
                (slots[i / 2] / 256) as u8
            },
    )
}

/// The slots that a serialized form says.
pub open spec fn decoded(data: Seq<u8>) -> Seq<u16> {
    Seq::new(data.len() / 2, |k: int| (data[2 * k] + 256 * data[2 * k + 1]) as u16)
}

proof fn lemma_other_bucket(b: int, fp: u16)
    requires
        0 <= b < 512,
    ensures
        0 <= other_bucket(b, fp) < 512,
        other_bucket(other_bucket(b, fp), fp) == b,
{
    let x = b as u64;
    let o = bucket_offset(fp);
    let raw = le_value(blake2b_8(ascii("b2"@) + le_bytes(fp as nat, 2))) as u64;
    assert((x ^ o) & 511 < 512) by (bit_vector);
    assert((((x ^ o) & 511) ^ o) & 511 == x) by (bit_vector)
        requires
            x < 512,
            o == raw & 511,
    ;
}

/// The two buckets of a fingerprint are in range, and each is found from the
/// other.
pub proof fn other_bucket_is_an_involution(b: int, fp: u16)
    requires
        0 <= b < NUM_BUCKETS,
    ensures
        0 <= other_bucket(b, fp) < NUM_BUCKETS,
        other_bucket(other_bucket(b, fp), fp) == b,
        item(other_bucket(b, fp), fp) == item(b, fp),
{
    lemma_other_bucket(b, fp);
}

/// Two fingerprints in slots stand for the same item exactly when they are
/// equal and their buckets are the same or each other's alternative.
proof fn lemma_same_item(b: int, c: int, fp: u16, fq: u16)
    requires
        0 <= b < 512,
        0 <= c < 512,
    ensures
        item(b, fp) == item(c, fq) <==> fp == fq && (c == b || c == other_bucket(b, fp)),
{
    lemma_other_bucket(b, fp);
    lemma_other_bucket(c, fq);
    lemma_other_bucket(c, fp);
}

proof fn lemma_items_update(slots: Seq<u16>, n: int, k: int, v: u16)
    requires
        0 <= n <= slots.len(),
        0 <= k < slots.len(),
    ensures
        k >= n ==> items_of(slots.update(k, v), n) == items_of(slots, n),
        k < n ==> {
            let kept = if slots[k] == 0 {
                items_of(slots, n)
            } else {
                items_of(slots, n).remove(item(k / 4, slots[k]))
            };
            items_of(slots.update(k, v), n) == if v == 0 {
                kept
            } else {
                kept.insert(item(k / 4, v))
            }
        },
        k < n && slots[k] != 0 ==> items_of(slots, n).count(item(k / 4, slots[k])) > 0,
    decreases n,
{
    let t = slots.update(k, v);
    if n > 0 {
        lemma_items_update(slots, n - 1, k, v);
        if k == n - 1 {
            if slots[k] != 0 {
                assert(items_of(slots, n).remove(item(k / 4, slots[k])) =~= items_of(slots, n - 1));
            }
        } else if k < n - 1 {
            assert(t[n - 1] == slots[n - 1]);
            if slots[n - 1] != 0 {
                let x = item((n - 1) / 4, slots[n - 1]);
                let prev = items_of(slots, n - 1);
                if slots[k] != 0 {
                    let y = item(k / 4, slots[k]);
                    assert(prev.remove(y).insert(x) =~= prev.insert(x).remove(y));
                    assert(prev.remove(y).insert(item(k / 4, v)).insert(x) =~= prev.insert(x).remove(
                        y,
                    ).insert(item(k / 4, v)));
                } else {
                    assert(prev.insert(item(k / 4, v)).insert(x) =~= prev.insert(x).insert(
                        item(k / 4, v),
                    ));
                }
            }
        }
    }
}

proof fn lemma_items_has(slots: Seq<u16>, n: int, x: Item)
    requires
        0 <= n <= slots.len(),
    ensures
        items_of(slots, n).count(x) > 0 <==> exists|k: int|
            0 <= k < n && #[trigger] slots[k] != 0 && item(k / 4, slots[k]) == x,
    decreases n,
{
    if n > 0 {
        lemma_items_has(slots, n - 1, x);
        if items_of(slots, n).count(x) > 0 {
            if items_of(slots, n - 1).count(x) > 0 {
                let k = choose|k: int|
                    0 <= k < n - 1 && #[trigger] slots[k] != 0 && item(k / 4, slots[k]) == x;
                assert(slots[k] != 0);
            } else {
                assert(slots[n - 1] != 0);
            }
        }
        if exists|k: int| 0 <= k < n && #[trigger] slots[k] != 0 && item(k / 4, slots[k]) == x {
            let k = choose|k: int|
                0 <= k < n && #[trigger] slots[k] != 0 && item(k / 4, slots[k]) == x;
            if k < n - 1 {
                assert(slots[k] != 0);
            }
        }
    }
}

proof fn lemma_either_holds(slots: Seq<u16>, b: int, fp: u16)
    requires
        slots.len() == NUM_SLOTS,
        0 <= b < 512,
        fp != 0,
    ensures
        either_holds(slots, b, fp, fp) <==> items_of(slots, NUM_SLOTS as int).count(item(b, fp))
            > 0,
{
    lemma_other_bucket(b, fp);
    lemma_items_has(slots, NUM_SLOTS as int, item(b, fp));
    let c = other_bucket(b, fp);
    if either_holds(slots, b, fp, fp) {
        let k = if find_slot(slots, b, fp) >= 0 {
            find_slot(slots, b, fp)
        } else {
            find_slot(slots, c, fp)
        };
        assert(slots[k] == fp);
        lemma_same_item(b, k / 4, fp, fp);
    }
    if exists|k: int|
        0 <= k < NUM_SLOTS && #[trigger] slots[k] != 0 && item(k / 4, slots[k]) == item(b, fp) {
        let k = choose|k: int|
            0 <= k < NUM_SLOTS && #[trigger] slots[k] != 0 && item(k / 4, slots[k]) == item(b, fp);
        lemma_same_item(b, k / 4, fp, slots[k]);
        let d = k / 4;
        assert(k == 4 * d || k == 4 * d + 1 || k == 4 * d + 2 || k == 4 * d + 3);
        assert(find_slot(slots, d, fp) >= 0);
    }
}

proof fn lemma_items_len(slots: Seq<u16>, n: int)
    requires
        0 <= n <= slots.len(),
    ensures
        items_of(slots, n).len() <= n,
    decreases n,
{
    if n > 0 {
        lemma_items_len(slots, n - 1);
    }
}

/// Calls `rand::Rng::gen_range` on the thread's generator. Trusted: the number
/// is below `n`.
#[verifier::external_body]
fn random_below(n: usize) -> (r: usize)
    requires
        n > 0,
    ensures
        r < n,
{
    rand::thread_rng().gen_range(0..n)
}

/// Calls `rand::Rng::gen_ratio` on the thread's generator, for even odds.
/// Nothing is claimed of the answer.
#[verifier::external_body]
fn random_coin() -> (r: bool) {
    rand::thread_rng().gen_ratio(1, 2)
}

impl CuckooFilter {
    /// All slots, bucket by bucket.
    pub closed spec fn slots(&self) -> Seq<u16> {
        self.slots@
    }

    pub closed spec fn wf(&self) -> bool {
        self.count == items_of(self.slots@, NUM_SLOTS as int).len()
    }
}

impl View for CuckooFilter {
    type V = Multiset<Item>;

    open spec fn view(&self) -> Multiset<Item> {
        items_of(self.slots(), NUM_SLOTS as int)
    }
}

/// A filter has 2048 slots.
pub broadcast proof fn slots_len(f: &CuckooFilter)
    ensures
        #[trigger] f.slots().len() == NUM_SLOTS,
{
}

/// Empty slots hold no item.
pub proof fn empty_slots_hold_nothing(slots: Seq<u16>, x: Item)
    requires
        slots.len() == NUM_SLOTS,
        forall|k: int| 0 <= k < slots.len() ==> slots[k] == 0,
    ensures
        items_of(slots, NUM_SLOTS as int).count(x) == 0,
{
    lemma_items_empty(slots, NUM_SLOTS as int);
}

proof fn lemma_items_empty(slots: Seq<u16>, n: int)
    requires
        0 <= n <= slots.len(),
        forall|k: int| 0 <= k < slots.len() ==> slots[k] == 0,
    ensures
        items_of(slots, n) == Multiset::<Item>::empty(),
    decreases n,
{
    if n > 0 {
        lemma_items_empty(slots, n - 1);
    }
}

/// Find the first slot of bucket `b` that holds `v`.
fn slot_of(slots: &[u16; NUM_SLOTS], b: usize, v: u16) -> (r: Option<usize>)
    requires
        b < NUM_BUCKETS,
    ensures
        match r {
            Some(k) => k == find_slot(slots@, b as int, v) && 4 * b <= k < 4 * b + 4,
            None => find_slot(slots@, b as int, v) == -1,
        },
{
    let base: usize = 4 * b;
    if slots[base] == v {
        Some(base)
    } else if slots[base + 1] == v {
        Some(base + 1)
    } else if slots[base + 2] == v {
        Some(base + 2)
    } else if slots[base + 3] == v {
        Some(base + 3)
    } else {
        None
    }
}

impl CuckooFilter {
    /// An empty filter.
    pub fn new() -> (f: CuckooFilter)
        ensures
            f.wf(),
            f.slots() == Seq::new(NUM_SLOTS as nat, |k: int| 0u16),
            f@ == Multiset::<Item>::empty(),
    {
        let slots: [u16; NUM_SLOTS] = vstd::array::array_fill_for_copy_types::<u16, NUM_SLOTS>(
            0u16,
        );
        proof {
            lemma_items_empty(slots@, NUM_SLOTS as int);
        }
        let f = CuckooFilter { slots, count: 0 };
        assert(f.slots() =~= Seq::new(NUM_SLOTS as nat, |k: int| 0u16));
        f
    }

    /// A filter with the same slots.
    pub fn duplicate(&self) -> (f: CuckooFilter)
        requires
            self.wf(),
        ensures
            f.wf(),
            f.slots() == self.slots(),
    {
        CuckooFilter { slots: self.slots, count: self.count }
    }

    /// The 16-bit fingerprint of `key`. Zero marks an empty slot, so zero
    /// becomes one.
    pub fn fingerprint(key: &[u8]) -> (fp: u16)
        ensures
            fp == key_fingerprint(key@),
            fp != 0,
    {
        let digest: [u8; 8] = digest_8(key);
        let wide: u64 = read_le(&digest.as_slice()[0..2]);
        proof {
            assert(digest@.subrange(0, 2) =~= blake2b_8(key@).take(2));
            crate::bytes::le_bytes_of_le_value(digest@.subrange(0, 2));
            reveal_with_fuel(crate::bytes::pow256, 3);
        }
        let fp: u16 = wide as u16;
        if fp == 0 {
            1
        } else {
            fp
        }
    }

    /// The first bucket of `key`.
    pub fn bucket1(key: &[u8]) -> (b: usize)
        ensures
            b == key_bucket(key@),
            b < NUM_BUCKETS,
    {
        let mut buf: Vec<u8> = Vec::new();
        proof {
            reveal_strlit("b1");
        }
        append_ascii(&mut buf, "b1");
        append(&mut buf, key);
        assert(buf@ =~= ascii("b1"@) + key@);
        let digest: [u8; 8] = digest_8(buf.as_slice());
        let v: u64 = read_le(digest.as_slice());
        (v % 512) as usize
    }

    /// The other bucket of a fingerprint that is in bucket `b1`.
    pub fn bucket2(b1: usize, fp: u16) -> (b: usize)
        ensures
            b == other_bucket(b1 as int, fp),
            b < NUM_BUCKETS,
    {
        let mut buf: Vec<u8> = Vec::new();
        proof {
            reveal_strlit("b2");
        }
        append_ascii(&mut buf, "b2");
        append_le(&mut buf, fp as u64, 2);
        assert(buf@ =~= ascii("b2"@) + le_bytes(fp as nat, 2));
        let digest: [u8; 8] = digest_8(buf.as_slice());
        let v: u64 = read_le(digest.as_slice());
        let offset: u64 = v & 511;
        let x: u64 = b1 as u64;
        assert((x ^ offset) & 511 < 512) by (bit_vector);
        ((x ^ offset) & 511) as usize
    }

    /// Put `fp` in the first free slot of bucket `b`.
    fn insert_slot(&mut self, b: usize, fp: u16) -> (r: bool)
        requires
            old(self).wf(),
            b < NUM_BUCKETS,
            fp != 0,
        ensures
            final(self).wf(),
            r == (find_slot(old(self).slots(), b as int, 0) >= 0),
            r ==> final(self).slots() == old(self).slots().update(
                find_slot(old(self).slots(), b as int, 0),
                fp,
            ) && final(self)@ == old(self)@.insert(item(b as int, fp)),
            !r ==> final(self).slots() == old(self).slots(),
    {
        match slot_of(&self.slots, b, 0) {
            Some(k) => {
                proof {
                    lemma_items_update(self.slots@, NUM_SLOTS as int, k as int, fp);
                    lemma_items_len(self.slots@.update(k as int, fp), NUM_SLOTS as int);
                    assert(k as int / 4 == b);
                }
                self.slots[k] = fp;
                self.count = self.count + 1;
                true
            },
            None => false,
        }
    }

    /// Empty the first slot of bucket `b` that holds `fp`.
    fn remove_slot(&mut self, b: usize, fp: u16) -> (r: bool)
        requires
            old(self).wf(),
            b < NUM_BUCKETS,
            fp != 0,
        ensures
            final(self).wf(),
            r == (find_slot(old(self).slots(), b as int, fp) >= 0),
            r ==> final(self).slots() == old(self).slots().update(
                find_slot(old(self).slots(), b as int, fp),
                0,
            ) && final(self)@ == old(self)@.remove(item(b as int, fp)),
            !r ==> final(self).slots() == old(self).slots(),
    {
        match slot_of(&self.slots, b, fp) {
            Some(k) => {
                proof {
                    lemma_items_update(self.slots@, NUM_SLOTS as int, k as int, 0);
                    assert(k as int / 4 == b);
                }
                self.slots[k] = 0;
                self.count = self.count - 1;
                true
            },
            None => false,
        }
    }

    /// Whether bucket `b` holds `fp`.
    fn contains_slot(&self, b: usize, fp: u16) -> (r: bool)
        requires
            b < NUM_BUCKETS,
        ensures
            r == (find_slot(self.slots(), b as int, fp) >= 0),
    {
        slot_of(&self.slots, b, fp).is_some()
    }

    /// Swap `fp` with the fingerprint in slot `slot` of bucket `b`, then try to
    /// put the fingerprint that had to leave into its other bucket. Where that
    /// is full, the fingerprint comes back with the bucket to kick next.
    pub fn kick(&mut self, b: usize, fp: u16, slot: usize) -> (r: Option<(usize, u16)>)
        requires
            old(self).wf(),
            b < NUM_BUCKETS,
            slot < SLOTS_PER_BUCKET,
            fp != 0,
            old(self).slots()[4 * b + slot] != 0,
        ensures
            final(self).wf(),
            ({
                let k = 4 * b + slot;
                let out = old(self).slots()[k];
                let swapped = old(self).slots().update(k, fp);
                let c = other_bucket(b as int, out);
                let free = find_slot(swapped, c, 0);
                if free >= 0 {
                    r is None && final(self).slots() == swapped.update(free, out) && final(self)@
                        == old(self)@.insert(item(b as int, fp))
                } else {
                    &&& r == Some((c as usize, out))
                    &&& 0 <= c < NUM_BUCKETS
                    &&& out != 0
                    &&& final(self).slots() == swapped
                    &&& forall|s: int| 4 * c <= s < 4 * c + 4 ==> #[trigger] final(self).slots()[s] != 0
                    &&& final(self)@.insert(item(c, out)) == old(self)@.insert(item(b as int, fp))
                }
            }),
    {
        let k: usize = 4 * b + slot;
        let out: u16 = self.slots[k];
        let ghost before = self.slots@;
        proof {
            lemma_items_update(before, NUM_SLOTS as int, k as int, fp);
            assert(k as int / 4 == b);
            lemma_other_bucket(b as int, out);
            lemma_same_item(b as int, other_bucket(b as int, out), out, out);
        }
        self.slots[k] = fp;
        let c: usize = CuckooFilter::bucket2(b, out);
        let done = self.insert_slot(c, out);
        proof {
            let all = items_of(before, NUM_SLOTS as int);
            let y = item(b as int, out);
            assert(all.remove(y).insert(item(b as int, fp)).insert(y) =~= all.insert(
                item(b as int, fp),
            ));
        }
        if done {
            None
        } else {
            Some((c, out))
        }
    }
}

/// Where the fingerprint that leaves a full bucket finds no room, not all in the bucket
/// could have moved.
proof fn lemma_full_stays(slots: Seq<u16>, b: int, slot: int, fp: u16)
    requires
        slots.len() == NUM_SLOTS,
        0 <= b < NUM_BUCKETS,
        0 <= slot < 4,
        fp != 0,
        slots[4 * b + slot] != 0,
        find_slot(
            slots.update(4 * b + slot, fp),
            other_bucket(b, slots[4 * b + slot]),
            0,
        ) < 0,
    ensures
        !all_can_move(slots, b),
{
    let k = 4 * b + slot;
    let out = slots[k];
    let c = other_bucket(b, out);
    lemma_other_bucket(b, out);
    if all_can_move(slots, b) {
        assert(has_free_slot(slots, other_bucket(b, slots[k])));
        let t = slots.update(k, fp);
        assert(t[4 * c] != 0 && t[4 * c + 1] != 0 && t[4 * c + 2] != 0 && t[4 * c + 3] != 0);
        assert(slots[4 * c] != 0 && slots[4 * c + 1] != 0 && slots[4 * c + 2] != 0 && slots[4 * c
            + 3] != 0);
    }
}

impl CuckooFilter {
    /// Make room for `fp` in bucket `b`, which is full, by moving up to `limit`
    /// fingerprints to their other buckets; which ones is left to chance.
    /// Where that does not end with a free slot, one item is dropped.
    fn cascade(&mut self, b: usize, fp: u16, limit: usize) -> (r: bool)
        requires
            old(self).wf(),
            b < NUM_BUCKETS,
            fp != 0,
            find_slot(old(self).slots(), b as int, 0) < 0,
        ensures
            final(self).wf(),
            r ==> final(self)@ == old(self)@.insert(item(b as int, fp)),
            !r ==> added_with_loss(old(self)@, item(b as int, fp), final(self)@),
            limit > 0 && all_can_move(old(self).slots(), b as int) ==> r,
    {
        let mut cur_bucket: usize = b;
        let mut cur_fp: u16 = fp;
        let mut kicks: usize = 0;
        let ghost start = self@.insert(item(b as int, fp));
        while kicks < limit
            invariant
                self.wf(),
                cur_bucket < NUM_BUCKETS,
                cur_fp != 0,
                forall|s: int| 4 * cur_bucket <= s < 4 * cur_bucket + 4 ==> #[trigger] self.slots()[s] != 0,
                self@.insert(item(cur_bucket as int, cur_fp)) == start,
                start == old(self)@.insert(item(b as int, fp)),
                b < NUM_BUCKETS,
                kicks == 0 ==> self.slots() == old(self).slots() && cur_bucket == b && cur_fp == fp,
                kicks > 0 ==> !all_can_move(old(self).slots(), b as int),
            decreases limit - kicks,
        {
            let slot: usize = random_below(SLOTS_PER_BUCKET);
            let ghost before = self.slots();
            match self.kick(cur_bucket, cur_fp, slot) {
                None => {
                    return true;
                },
                Some((next, out)) => {
                    proof {
                        if kicks == 0 {
                            lemma_full_stays(before, b as int, slot as int, fp);
                        }
                    }
                    cur_bucket = next;
                    cur_fp = out;
                },
            }
            kicks = kicks + 1;
        }
        proof {
            let lost = item(cur_bucket as int, cur_fp);
            assert(self@ =~= start.remove(lost));
            assert(start.count(lost) > 0);
        }
        false
    }

    /// Add `key`. Fails only where both buckets of `key` are full and moving
    /// fingerprints found no free slot; one item is then lost.
    pub fn add(&mut self, key: &[u8]) -> (r: bool)
        requires
            old(self).wf(),
        ensures
            final(self).wf(),
            r ==> final(self)@ == old(self)@.insert(key_item(key@)),
            !r ==> added_with_loss(old(self)@, key_item(key@), final(self)@),
            either_holds(old(self).slots(), key_bucket(key@), key_fingerprint(key@), 0) ==> r
                && final(self).slots() == placed(
                old(self).slots(),
                key_bucket(key@),
                key_fingerprint(key@),
            ),
            add_reaches(old(self).slots(), key@, final(self).slots()),
    {
        let fp: u16 = CuckooFilter::fingerprint(key);
        let b1: usize = CuckooFilter::bucket1(key);
        let b2: usize = CuckooFilter::bucket2(b1, fp);
        proof {
            lemma_other_bucket(b1 as int, fp);
            lemma_same_item(b1 as int, b2 as int, fp, fp);
        }
        if self.insert_slot(b1, fp) {
            return true;
        }
        if self.insert_slot(b2, fp) {
            return true;
        }
        let start: usize = if random_coin() {
            b1
        } else {
            b2
        };
        self.cascade(start, fp, MAX_KICKS)
    }

    /// Remove one occurrence of `key`, if the filter holds any.
    pub fn remove(&mut self, key: &[u8]) -> (r: bool)
        requires
            old(self).wf(),
        ensures
            final(self).wf(),
            r == (old(self)@.count(key_item(key@)) > 0),
            r ==> final(self)@ == old(self)@.remove(key_item(key@)),
            !r ==> final(self).slots() == old(self).slots(),
            ({
                let fp = key_fingerprint(key@);
                let k = find_slot(old(self).slots(), key_bucket(key@), fp);
                let l = find_slot(old(self).slots(), other_bucket(key_bucket(key@), fp), fp);
                r ==> final(self).slots() == old(self).slots().update(
                    if k >= 0 {
                        k
                    } else {
                        l
                    },
                    0,
                )
            }),
    {
        let fp: u16 = CuckooFilter::fingerprint(key);
        let b1: usize = CuckooFilter::bucket1(key);
        let b2: usize = CuckooFilter::bucket2(b1, fp);
        proof {
            lemma_other_bucket(b1 as int, fp);
            lemma_same_item(b1 as int, b2 as int, fp, fp);
            lemma_either_holds(self.slots(), b1 as int, fp);
        }
        if self.remove_slot(b1, fp) {
            return true;
        }
        self.remove_slot(b2, fp)
    }

    /// Whether the filter holds an item like that of `key`. It does for every
    /// key that was added and not removed; it may for other keys, with the same
    /// fingerprint and buckets.
    pub fn contains(&self, key: &[u8]) -> (r: bool)
        ensures
            r == (self@.count(key_item(key@)) > 0),
    {
        let fp: u16 = CuckooFilter::fingerprint(key);
        let b1: usize = CuckooFilter::bucket1(key);
        let b2: usize = CuckooFilter::bucket2(b1, fp);
        proof {
            lemma_either_holds(self.slots(), b1 as int, fp);
        }
        self.contains_slot(b1, fp) || self.contains_slot(b2, fp)
    }

    /// The serialized form: two bytes per slot, low byte first.
    pub fn encode(&self) -> (out: [u8; FILTER_BYTES])
        ensures
            out@ == encoded(self.slots()),
    {
        let mut out: [u8; FILTER_BYTES] = vstd::array::array_fill_for_copy_types::<
            u8,
            FILTER_BYTES,
        >(0u8);
        let mut k: usize = 0;
        while k < NUM_SLOTS
            invariant
                k <= NUM_SLOTS,
                forall|i: int| 0 <= i < 2 * k ==> out@[i] == encoded(self.slots())[i],
            decreases NUM_SLOTS - k,
        {
            let v: u16 = self.slots[k];
            out[2 * k] = (v % 256) as u8;
            out[2 * k + 1] = (v / 256) as u8;
            k = k + 1;
        }
        assert(out@ =~= encoded(self.slots()));
        out
    }

    /// The filter with the given serialized form.
    pub fn decode(data: &[u8; FILTER_BYTES]) -> (f: CuckooFilter)
        ensures
            f.wf(),
            f.slots() == decoded(data@),
    {
        let mut slots: [u16; NUM_SLOTS] = vstd::array::array_fill_for_copy_types::<u16, NUM_SLOTS>(
            0u16,
        );
        let mut count: usize = 0;
        let mut k: usize = 0;
        while k < NUM_SLOTS
            invariant
                k <= NUM_SLOTS,
                forall|i: int| 0 <= i < k ==> slots@[i] == decoded(data@)[i],
                count == items_of(slots@, k as int).len(),
                count <= k,
            decreases NUM_SLOTS - k,
        {
            let v: u16 = data[2 * k] as u16 + 256 * (data[2 * k + 1] as u16);
            proof {
                lemma_items_update(slots@, k as int, k as int, v);
            }
            slots[k] = v;
            if v != 0 {
                count = count + 1;
            }
            k = k + 1;
        }
        assert(slots@ =~= decoded(data@));
        CuckooFilter { slots, count }
    }

    /// Merge `other` into this filter, as a union: each item of `other` that is
    /// not here already is put into the first free slot of its two buckets.
    /// Where both are full, fingerprints are moved to make room, and an item
    /// may be lost.
    pub fn merge(&mut self, other: &CuckooFilter)
        requires
            old(self).wf(),
        ensures
            final(self).wf(),
            merge_reaches(
                old(self).slots(),
                other.slots(),
                NUM_SLOTS as int,
                final(self).slots(),
            ),
    {
        let mut k: usize = 0;
        while k < NUM_SLOTS
            invariant
                k <= NUM_SLOTS,
                self.wf(),
                merge_reaches(old(self).slots(), other.slots(), k as int, self.slots()),
            decreases NUM_SLOTS - k,
        {
            let fp: u16 = other.slots[k];
            let ghost before = self.slots();
            if fp != 0 {
                let b: usize = k / SLOTS_PER_BUCKET;
                let alt: usize = CuckooFilter::bucket2(b, fp);
                proof {
                    lemma_other_bucket(b as int, fp);
                    lemma_same_item(b as int, alt as int, fp, fp);
                }
                if !(self.contains_slot(b, fp) || self.contains_slot(alt, fp)) {
                    if !self.insert_slot(b, fp) {
                        if !self.insert_slot(alt, fp) {
                            let kept = self.cascade(b, fp, MERGE_KICKS);
                        }
                    }
                }
            }
            proof {
                let n = k + 1;
                assert(merge_step(before, (n - 1) / 4, other.slots()[n - 1], self.slots()));
                assert(merge_reaches(old(self).slots(), other.slots(), n - 1, before));
                assert(merge_reaches(old(self).slots(), other.slots(), n, self.slots()));
            }
            k = k + 1;
        }
    }

    /// How many items the filter holds.
    pub fn count(&self) -> (n: usize)
        requires
            self.wf(),
        ensures
            n == self@.len(),
    {
        self.count
    }
}

impl Default for CuckooFilter {
    fn default() -> (f: CuckooFilter)
        ensures
            f.wf(),
            f.slots() == Seq::new(NUM_SLOTS as nat, |k: int| 0u16),
            f@ == Multiset::<Item>::empty(),
    {
        CuckooFilter::new()
    }
}

/// Reading a serialized filter gives the slots that were written, and writing
/// a filter that was read gives the bytes it was read from.
pub proof fn filter_round_trip(slots: Seq<u16>, data: Seq<u8>)
    requires
        data.len() % 2 == 0,
    ensures
        decoded(encoded(slots)) == slots,
        encoded(decoded(data)) == data,
{
    assert forall|k: int| 0 <= k < slots.len() implies decoded(encoded(slots))[k] == slots[k] by {
        assert(encoded(slots)[2 * k] == (slots[k] % 256) as u8);
        assert(encoded(slots)[2 * k + 1] == (slots[k] / 256) as u8);
    }
    assert(decoded(encoded(slots)) =~= slots);
    assert forall|i: int| 0 <= i < data.len() implies encoded(decoded(data))[i] == data[i] by {
        let k = i / 2;
        let v = decoded(data)[k];
        assert(v == data[2 * k] + 256 * data[2 * k + 1]);
    }
    assert(encoded(decoded(data)) =~= data);
}

/// Adding a key without loss makes the filter answer yes for that key, and for
/// every key for which it answered yes before.
pub proof fn added_keys_are_contained(before: Multiset<Item>, x: Item, y: Item)
    ensures
        before.insert(x).count(x) > 0,
        before.count(y) > 0 ==> before.insert(x).count(y) > 0,
        before.insert(x).len() == before.len() + 1,
{
}

/// Adding a key and removing it again leaves the contents as they were.
pub proof fn remove_undoes_add(before: Multiset<Item>, x: Item)
    ensures
        before.insert(x).remove(x) == before,
{
    assert(before.insert(x).remove(x) =~= before);
}

/// Adding a key brings in nothing but the key.
pub proof fn add_invents_nothing(before: Seq<u16>, key: Seq<u8>, after: Seq<u16>, x: Item)
    requires
        before.len() == NUM_SLOTS,
        add_reaches(before, key, after),
    ensures
        after.len() == NUM_SLOTS,
        items_of(after, NUM_SLOTS as int).count(x) > 0 ==> x == key_item(key) || items_of(
            before,
            NUM_SLOTS as int,
        ).count(x) > 0,
{
    let b = key_bucket(key);
    let fp = key_fingerprint(key);
    lemma_other_bucket(b, fp);
    lemma_same_item(b, other_bucket(b, fp), fp, fp);
    if either_holds(before, b, fp, 0) {
        let k = if find_slot(before, b, 0) >= 0 {
            find_slot(before, b, 0)
        } else {
            find_slot(before, other_bucket(b, fp), 0)
        };
        lemma_items_update(before, NUM_SLOTS as int, k, fp);
        assert(k / 4 == b || k / 4 == other_bucket(b, fp));
    }
}

/// A merge brings in nothing that neither filter held.
pub proof fn merge_invents_nothing(
    before: Seq<u16>,
    other: Seq<u16>,
    n: int,
    after: Seq<u16>,
    x: Item,
)
    requires
        before.len() == NUM_SLOTS,
        other.len() == NUM_SLOTS,
        0 <= n <= NUM_SLOTS,
        merge_reaches(before, other, n, after),
        items_of(after, NUM_SLOTS as int).count(x) > 0,
    ensures
        after.len() == NUM_SLOTS,
        items_of(before, NUM_SLOTS as int).count(x) > 0 || items_of(other, n).count(x) > 0,
    decreases n,
{
    if n > 0 {
        let b = (n - 1) / 4;
        let fp = other[n - 1];
        let mid = choose|mid: Seq<u16>|
            merge_reaches(before, other, n - 1, mid) && #[trigger] merge_step(mid, b, fp, after);
        merge_keeps_the_size(before, other, n - 1, mid);
        lemma_merge_step(mid, b, fp, after);
        if items_of(mid, NUM_SLOTS as int).count(x) > 0 {
            merge_invents_nothing(before, other, n - 1, mid, x);
        }
    }
}

/// A merge leaves a filter as many slots as it had.
pub proof fn merge_keeps_the_size(before: Seq<u16>, other: Seq<u16>, n: int, after: Seq<u16>)
    requires
        before.len() == NUM_SLOTS,
        n <= NUM_SLOTS,
        merge_reaches(before, other, n, after),
    ensures
        after.len() == NUM_SLOTS,
    decreases n,
{
    if n > 0 {
        let mid = choose|mid: Seq<u16>|
            merge_reaches(before, other, n - 1, mid) && #[trigger] merge_step(
                mid,
                (n - 1) / 4,
                other[n - 1],
                after,
            );
        merge_keeps_the_size(before, other, n - 1, mid);
        lemma_merge_step(mid, (n - 1) / 4, other[n - 1], after);
    }
}

/// What one step of a merge does to the contents.
proof fn lemma_merge_step(before: Seq<u16>, b: int, fp: u16, after: Seq<u16>)
    requires
        before.len() == NUM_SLOTS,
        0 <= b < NUM_BUCKETS,
        merge_step(before, b, fp, after),
    ensures
        after.len() == NUM_SLOTS,
        ({
            let old_items = items_of(before, NUM_SLOTS as int);
            let new_items = items_of(after, NUM_SLOTS as int);
            let x = item(b, fp);
            &&& fp == 0 || old_items.count(x) > 0 ==> new_items == old_items
            &&& fp != 0 && old_items.count(x) == 0 ==> new_items == old_items.insert(x)
                || added_with_loss(old_items, x, new_items)
            &&& fp != 0 && old_items.count(x) == 0 && either_holds(before, b, fp, 0) ==> new_items
                == old_items.insert(x)
        }),
{
    if fp != 0 {
        lemma_either_holds(before, b, fp);
        lemma_other_bucket(b, fp);
        lemma_same_item(b, other_bucket(b, fp), fp, fp);
        if !either_holds(before, b, fp, fp) && either_holds(before, b, fp, 0) {
            let k = if find_slot(before, b, 0) >= 0 {
                find_slot(before, b, 0)
            } else {
                find_slot(before, other_bucket(b, fp), 0)
            };
            lemma_items_update(before, NUM_SLOTS as int, k, fp);
            assert(k / 4 == b || k / 4 == other_bucket(b, fp));
        }
    }
}

/// The items `mine` together with each item in the first `n` slots of `other`
/// that is not among them: the union of two filters.
pub open spec fn union_of(mine: Multiset<Item>, other: Seq<u16>, n: int) -> Multiset<Item>
    decreases n,
{
    if n <= 0 {
        mine
    } else {
        let rest = union_of(mine, other, n - 1);
        let x = item((n - 1) / 4, other[n - 1]);
        if other[n - 1] == 0 || rest.count(x) > 0 {
            rest
        } else {
            rest.insert(x)
        }
    }
}

/// The union holds what the one filter held, as often as it did, and once each
/// item that only the other one holds.
pub proof fn union_counts(mine: Multiset<Item>, other: Seq<u16>, n: int, x: Item)
    ensures
        union_of(mine, other, n).count(x) == if mine.count(x) > 0 {
            mine.count(x)
        } else if items_of(other, n).count(x) > 0 {
            1
        } else {
            0
        },
    decreases n,
{
    if n > 0 {
        union_counts(mine, other, n - 1, x);
        union_counts(mine, other, n - 1, item((n - 1) / 4, other[n - 1]));
    }
}

/// A merge never gives more than the union; and where it holds as many items as
/// the union, because none was lost, it is the union.
pub proof fn merge_is_the_union_unless_items_are_lost(
    before: Seq<u16>,
    other: Seq<u16>,
    n: int,
    after: Seq<u16>,
)
    requires
        before.len() == NUM_SLOTS,
        other.len() == NUM_SLOTS,
        0 <= n <= NUM_SLOTS,
        merge_reaches(before, other, n, after),
    ensures
        ({
            let merged = items_of(after, NUM_SLOTS as int);
            let union = union_of(items_of(before, NUM_SLOTS as int), other, n);
            &&& merged.subset_of(union)
            &&& merged.len() <= union.len()
            &&& merged.len() == union.len() ==> merged == union
        }),
    decreases n,
{
    broadcast use vstd::multiset::group_multiset_axioms;

    let merged = items_of(after, NUM_SLOTS as int);
    let mine = items_of(before, NUM_SLOTS as int);
    let union = union_of(mine, other, n);
    if n > 0 {
        let b = (n - 1) / 4;
        let fp = other[n - 1];
        let mid = choose|mid: Seq<u16>|
            merge_reaches(before, other, n - 1, mid) && #[trigger] merge_step(mid, b, fp, after);
        merge_keeps_the_size(before, other, n - 1, mid);
        lemma_merge_step(mid, b, fp, after);
        merge_is_the_union_unless_items_are_lost(before, other, n - 1, mid);
        let held = items_of(mid, NUM_SLOTS as int);
        let rest = union_of(mine, other, n - 1);
        assert forall|y: Item| #[trigger] merged.count(y) <= union.count(y) by {
            assert(held.count(y) <= rest.count(y));
        }
    }
    assert(merged.subset_of(union));
    assert(union.sub(merged).len() == union.len() - merged.len());
    if merged.len() == union.len() {
        assert(union.sub(merged) =~= Multiset::<Item>::empty());
        assert forall|y: Item| #[trigger] merged.count(y) == union.count(y) by {
            assert(union.sub(merged).count(y) == 0);
        }
        assert(merged =~= union);
    }
}

/// How many of the first `n` slots are in bucket `b` and in use.
pub open spec fn used(slots: Seq<u16>, b: int, n: int) -> int {
    let at = |k: int|
        if k < n && slots[k] != 0 {
            1int
        } else {
            0int
        };
    at(4 * b) + at(4 * b + 1) + at(4 * b + 2) + at(4 * b + 3)
}

/// Where every bucket has room for what the other filter holds in that bucket,
/// a merge loses nothing: it is the union.
pub proof fn merge_is_union_where_there_is_room(
    before: Seq<u16>,
    other: Seq<u16>,
    after: Seq<u16>,
)
    requires
        before.len() == NUM_SLOTS,
        other.len() == NUM_SLOTS,
        forall|b: int|
            0 <= b < NUM_BUCKETS ==> #[trigger] used(before, b, NUM_SLOTS as int) + used(
                other,
                b,
                NUM_SLOTS as int,
            ) <= SLOTS_PER_BUCKET,
        merge_reaches(before, other, NUM_SLOTS as int, after),
    ensures
        items_of(after, NUM_SLOTS as int) == union_of(
            items_of(before, NUM_SLOTS as int),
            other,
            NUM_SLOTS as int,
        ),
{
    lemma_merge_union(before, other, NUM_SLOTS as int, after);
}

/// One more slot is looked at.
proof fn lemma_used_next(slots: Seq<u16>, c: int, n: int)
    requires
        0 < n <= NUM_SLOTS,
    ensures
        used(slots, c, n) == used(slots, c, n - 1) + if c == (n - 1) / 4 && slots[n - 1] != 0 {
            1int
        } else {
            0int
        },
        used(slots, c, n) <= used(slots, c, NUM_SLOTS as int),
{
}

/// Filling a free slot of bucket `b` uses one more of that bucket.
proof fn lemma_used_fill(slots: Seq<u16>, k: int, fp: u16, c: int)
    requires
        0 <= k < slots.len() == NUM_SLOTS,
        slots[k] == 0,
        fp != 0,
        0 <= c < NUM_BUCKETS,
    ensures
        used(slots.update(k, fp), c, NUM_SLOTS as int) == used(slots, c, NUM_SLOTS as int) + if c
            == k / 4 {
            1int
        } else {
            0int
        },
{
}

/// A bucket that is not full has a free slot.
proof fn lemma_room(slots: Seq<u16>, b: int)
    requires
        slots.len() == NUM_SLOTS,
        0 <= b < NUM_BUCKETS,
        used(slots, b, NUM_SLOTS as int) < 4,
    ensures
        ({
            let k = find_slot(slots, b, 0);
            0 <= k < NUM_SLOTS && k / 4 == b && slots[k] == 0
        }),
{
}

/// What one step of a merge does where there is room.
proof fn lemma_merge_step_room(
    before: Seq<u16>,
    other: Seq<u16>,
    n: int,
    mid: Seq<u16>,
    after: Seq<u16>,
)
    requires
        before.len() == NUM_SLOTS,
        mid.len() == NUM_SLOTS,
        0 < n <= NUM_SLOTS,
        forall|b: int|
            0 <= b < NUM_BUCKETS ==> #[trigger] used(before, b, NUM_SLOTS as int) + used(
                other,
                b,
                NUM_SLOTS as int,
            ) <= SLOTS_PER_BUCKET,
        forall|b: int|
            0 <= b < NUM_BUCKETS ==> #[trigger] used(mid, b, NUM_SLOTS as int) <= used(
                before,
                b,
                NUM_SLOTS as int,
            ) + used(other, b, n - 1),
        merge_step(mid, (n - 1) / 4, other[n - 1], after),
    ensures
        after.len() == NUM_SLOTS,
        forall|b: int|
            0 <= b < NUM_BUCKETS ==> #[trigger] used(after, b, NUM_SLOTS as int) <= used(
                before,
                b,
                NUM_SLOTS as int,
            ) + used(other, b, n),
        other[n - 1] != 0 ==> either_holds(mid, (n - 1) / 4, other[n - 1], 0),
{
    let b = (n - 1) / 4;
    let fp = other[n - 1];
    assert forall|c: int| 0 <= c < NUM_BUCKETS implies used(other, c, n - 1) <= used(
        other,
        c,
        n,
    ) by {
        lemma_used_next(other, c, n);
    }
    if fp != 0 {
        lemma_used_next(other, b, n);
        assert(used(mid, b, NUM_SLOTS as int) < 4);
        lemma_room(mid, b);
        let k = find_slot(mid, b, 0);
        if !either_holds(mid, b, fp, fp) {
            assert(after == mid.update(k, fp));
            assert forall|c: int| 0 <= c < NUM_BUCKETS implies #[trigger] used(
                after,
                c,
                NUM_SLOTS as int,
            ) <= used(before, c, NUM_SLOTS as int) + used(other, c, n) by {
                assert(used(mid, c, NUM_SLOTS as int) <= used(before, c, NUM_SLOTS as int) + used(
                    other,
                    c,
                    n - 1,
                ));
                lemma_used_fill(mid, k, fp, c);
                lemma_used_next(other, c, n);
            }
        } else {
            assert(after == mid);
        }
    } else {
        assert(after == mid);
    }
}

#[verifier::spinoff_prover]
proof fn lemma_merge_union(before: Seq<u16>, other: Seq<u16>, n: int, after: Seq<u16>)
    requires
        before.len() == NUM_SLOTS,
        other.len() == NUM_SLOTS,
        0 <= n <= NUM_SLOTS,
        forall|b: int|
            0 <= b < NUM_BUCKETS ==> #[trigger] used(before, b, NUM_SLOTS as int) + used(
                other,
                b,
                NUM_SLOTS as int,
            ) <= SLOTS_PER_BUCKET,
        merge_reaches(before, other, n, after),
    ensures
        after.len() == NUM_SLOTS,
        forall|b: int|
            0 <= b < NUM_BUCKETS ==> #[trigger] used(after, b, NUM_SLOTS as int) <= used(
                before,
                b,
                NUM_SLOTS as int,
            ) + used(other, b, n),
        items_of(after, NUM_SLOTS as int) == union_of(
            items_of(before, NUM_SLOTS as int),
            other,
            n,
        ),
    decreases n,
{
    if n > 0 {
        let b = (n - 1) / 4;
        let fp = other[n - 1];
        let mid = choose|mid: Seq<u16>|
            merge_reaches(before, other, n - 1, mid) && #[trigger] merge_step(mid, b, fp, after);
        lemma_merge_union(before, other, n - 1, mid);
        lemma_merge_step_room(before, other, n, mid, after);
        lemma_merge_step(mid, b, fp, after);
    }
}

/// Where every bucket has room for what the other filter holds in that bucket, a
/// merge holds all that either filter held, and fills no bucket with more than
/// the two had there.
pub proof fn merge_keeps_all_where_there_is_room(
    before: Seq<u16>,
    other: Seq<u16>,
    after: Seq<u16>,
)
    requires
        before.len() == NUM_SLOTS,
        other.len() == NUM_SLOTS,
        forall|b: int|
            0 <= b < NUM_BUCKETS ==> #[trigger] used(before, b, NUM_SLOTS as int) + used(
                other,
                b,
                NUM_SLOTS as int,
            ) <= SLOTS_PER_BUCKET,
        merge_reaches(before, other, NUM_SLOTS as int, after),
    ensures
        after.len() == NUM_SLOTS,
        forall|x: Item|
            items_of(before, NUM_SLOTS as int).count(x) > 0 || items_of(
                other,
                NUM_SLOTS as int,
            ).count(x) > 0 ==> #[trigger] items_of(after, NUM_SLOTS as int).count(x) > 0,
        forall|b: int|
            0 <= b < NUM_BUCKETS ==> #[trigger] used(after, b, NUM_SLOTS as int) <= used(
                before,
                b,
                NUM_SLOTS as int,
            ) + used(other, b, NUM_SLOTS as int),
{
    lemma_merge_union(before, other, NUM_SLOTS as int, after);
    assert forall|x: Item|
        items_of(before, NUM_SLOTS as int).count(x) > 0 || items_of(other, NUM_SLOTS as int).count(
            x,
        ) > 0 implies #[trigger] items_of(after, NUM_SLOTS as int).count(x) > 0 by {
        union_counts(items_of(before, NUM_SLOTS as int), other, NUM_SLOTS as int, x);
    }
}

/// Where the first bucket of a key has room, adding the key brings it in, keeps
/// all that was there, and uses one slot.
pub proof fn add_keeps_all_where_there_is_room(before: Seq<u16>, key: Seq<u8>, after: Seq<u16>)
    requires
        before.len() == NUM_SLOTS,
        used(before, key_bucket(key), NUM_SLOTS as int) < SLOTS_PER_BUCKET,
        add_reaches(before, key, after),
    ensures
        after.len() == NUM_SLOTS,
        items_of(after, NUM_SLOTS as int) == items_of(before, NUM_SLOTS as int).insert(
            key_item(key),
        ),
        forall|b: int|
            0 <= b < NUM_BUCKETS ==> #[trigger] used(after, b, NUM_SLOTS as int) <= used(
                before,
                b,
                NUM_SLOTS as int,
            ) + 1,
{
    let b = key_bucket(key);
    let fp = key_fingerprint(key);
    lemma_room(before, b);
    let k = find_slot(before, b, 0);
    lemma_items_update(before, NUM_SLOTS as int, k, fp);
    assert forall|c: int| 0 <= c < NUM_BUCKETS implies #[trigger] used(after, c, NUM_SLOTS as int)
        <= used(before, c, NUM_SLOTS as int) + 1 by {
        lemma_used_fill(before, k, fp, c);
    }
}

/// Empty slots use no bucket.
pub proof fn empty_slots_use_nothing(slots: Seq<u16>, b: int)
    requires
        slots.len() == NUM_SLOTS,
        0 <= b < NUM_BUCKETS,
        forall|k: int| 0 <= k < slots.len() ==> slots[k] == 0,
    ensures
        used(slots, b, NUM_SLOTS as int) == 0,
{
}

/// Where one of its two buckets has a free slot, adding a key brings in the key,
/// once more than before, and loses nothing.
pub proof fn add_finds_room_in_either_bucket(before: Seq<u16>, key: Seq<u8>, after: Seq<u16>)
    requires
        before.len() == NUM_SLOTS,
        add_reaches(before, key, after),
        has_free_slot(before, key_bucket(key)) || has_free_slot(
            before,
            other_bucket(key_bucket(key), key_fingerprint(key)),
        ),
    ensures
        forall|x: Item| #[trigger]
            items_of(after, NUM_SLOTS as int).count(x) == items_of(before, NUM_SLOTS as int).count(
                x,
            ) + if x == key_item(key) {
                1nat
            } else {
                0nat
            },
{
    let b = key_bucket(key);
    let fp = key_fingerprint(key);
    lemma_other_bucket(b, fp);
    lemma_same_item(b, other_bucket(b, fp), fp, fp);
    let k = if find_slot(before, b, 0) >= 0 {
        find_slot(before, b, 0)
    } else {
        find_slot(before, other_bucket(b, fp), 0)
    };
    lemma_items_update(before, NUM_SLOTS as int, k, fp);
    assert(k / 4 == b || k / 4 == other_bucket(b, fp));
}

/// A filter never gets smaller by adding or merging: where there is no room, one
/// item takes the place of another.
pub proof fn filters_never_shrink(
    before: Seq<u16>,
    key: Seq<u8>,
    added: Seq<u16>,
    other: Seq<u16>,
    n: int,
    merged: Seq<u16>,
)
    requires
        before.len() == NUM_SLOTS,
        add_reaches(before, key, added),
        n <= NUM_SLOTS,
        merge_reaches(before, other, n, merged),
    ensures
        items_of(added, NUM_SLOTS as int).len() >= items_of(before, NUM_SLOTS as int).len(),
        items_of(merged, NUM_SLOTS as int).len() >= items_of(before, NUM_SLOTS as int).len(),
    decreases n,
{
    let b = key_bucket(key);
    let fp = key_fingerprint(key);
    let held = items_of(before, NUM_SLOTS as int);
    if either_holds(before, b, fp, 0) {
        add_finds_room_in_either_bucket(before, key, added);
        assert(items_of(added, NUM_SLOTS as int) =~= held.insert(key_item(key)));
    } else if items_of(added, NUM_SLOTS as int) != held.insert(key_item(key)) {
        let lost = choose|lost: Item| #[trigger]
            held.insert(key_item(key)).count(lost) > 0 && items_of(added, NUM_SLOTS as int)
                == held.insert(key_item(key)).remove(lost);
        assert(held.insert(key_item(key)).remove(lost).len() == held.len());
    }
    if n > 0 {
        let c = (n - 1) / 4;
        let mid = choose|mid: Seq<u16>|
            merge_reaches(before, other, n - 1, mid) && #[trigger] merge_step(
                mid,
                c,
                other[n - 1],
                merged,
            );
        merge_keeps_the_size(before, other, n - 1, mid);
        lemma_merge_step(mid, c, other[n - 1], merged);
        filters_never_shrink(before, key, added, other, n - 1, mid);
        let was = items_of(mid, NUM_SLOTS as int);
        let x = item(c, other[n - 1]);
        if added_with_loss(was, x, items_of(merged, NUM_SLOTS as int)) {
            let lost = choose|lost: Item| #[trigger]
                was.insert(x).count(lost) > 0 && items_of(merged, NUM_SLOTS as int) == was.insert(
                    x,
                ).remove(lost);
            assert(was.insert(x).remove(lost).len() == was.len());
        }
    }
}

/// A merge goes through the slots of the other filter one by one. The item in a
/// slot is left alone where it is there already; where one of its two buckets has
/// a free slot, or where each fingerprint in its bucket has room in its other one, it
/// is brought in, and nothing is lost.
pub proof fn merge_finds_room_in_either_bucket(
    before: Seq<u16>,
    other: Seq<u16>,
    n: int,
    after: Seq<u16>,
) -> (mid: Seq<u16>)
    requires
        before.len() == NUM_SLOTS,
        0 < n <= NUM_SLOTS,
        merge_reaches(before, other, n, after),
    ensures
        merge_reaches(before, other, n - 1, mid),
        ({
            let b = (n - 1) / 4;
            let x = item(b, other[n - 1]);
            let held = items_of(mid, NUM_SLOTS as int);
            let got = items_of(after, NUM_SLOTS as int);
            &&& other[n - 1] == 0 || held.count(x) > 0 ==> got == held
            &&& other[n - 1] != 0 && held.count(x) == 0 && (has_free_slot(mid, b) || has_free_slot(
                mid,
                other_bucket(b, other[n - 1]),
            )) ==> got == held.insert(x)
            &&& other[n - 1] != 0 && held.count(x) == 0 && all_can_move(mid, b) ==> got
                == held.insert(x)
        }),
{
    let b = (n - 1) / 4;
    let mid = choose|mid: Seq<u16>|
        merge_reaches(before, other, n - 1, mid) && #[trigger] merge_step(
            mid,
            b,
            other[n - 1],
            after,
        );
    merge_keeps_the_size(before, other, n - 1, mid);
    lemma_merge_step(mid, b, other[n - 1], after);
    lemma_other_bucket(b, other[n - 1]);
    if other[n - 1] != 0 {
        lemma_either_holds(mid, b, other[n - 1]);
    }
    mid
}

/// Each slot that is in use holds one item, and there are no others.
pub proof fn items_are_those_in_the_slots(slots: Seq<u16>, x: Item)
    requires
        slots.len() == NUM_SLOTS,
    ensures
        items_of(slots, NUM_SLOTS as int).count(x) > 0 <==> exists|k: int|
            0 <= k < NUM_SLOTS && #[trigger] slots[k] != 0 && item(k / 4, slots[k]) == x,
{
    lemma_items_has(slots, NUM_SLOTS as int, x);
}

/// Where both buckets of a key are full, others make room: nothing is lost as long as each
/// fingerprint in the two buckets has room in its other bucket.
pub proof fn others_move_to_make_room(before: Seq<u16>, key: Seq<u8>, after: Seq<u16>)
    requires
        before.len() == NUM_SLOTS,
        add_reaches(before, key, after),
        forall|s: int|
            4 * key_bucket(key) <= s < 4 * key_bucket(key) + 4 ==> has_free_slot(
                before,
                other_bucket(key_bucket(key), #[trigger] before[s]),
            ),
        ({
            let c = other_bucket(key_bucket(key), key_fingerprint(key));
            forall|s: int|
                4 * c <= s < 4 * c + 4 ==> has_free_slot(
                    before,
                    other_bucket(c, #[trigger] before[s]),
                )
        }),
    ensures
        items_of(after, NUM_SLOTS as int) == items_of(before, NUM_SLOTS as int).insert(
            key_item(key),
        ),
{
    let b = key_bucket(key);
    let c = other_bucket(b, key_fingerprint(key));
    if has_free_slot(before, b) || has_free_slot(before, c) {
        add_finds_room_in_either_bucket(before, key, after);
        assert(items_of(after, NUM_SLOTS as int) =~= items_of(before, NUM_SLOTS as int).insert(
            key_item(key),
        ));
    }
}

/// The fingerprint of a key is the first two bytes of its digest, but never zero.
pub proof fn fingerprints_are_the_front_of_the_digest(key: Seq<u8>)
    requires
        blake2b_8(key).len() == 8,
    ensures
        key_fingerprint(key) != 0,
        ({
            let d = blake2b_8(key);
            d[0] != 0 || d[1] != 0 ==> key_fingerprint(key) == d[0] + 256 * d[1]
        }),
        0 <= key_bucket(key) < 512,
{
    let d = blake2b_8(key);
    reveal_with_fuel(le_value, 3);
    assert(d.take(2).skip(1).skip(1) =~= Seq::<u8>::empty());
    assert(le_value(d.take(2)) == d[0] + 256 * d[1]);
}

} // verus!
