use blake2::digest::consts::U8;
use blake2::{Blake2b, Digest};
use norn_rs::cuckoo::{CuckooFilter, NUM_BUCKETS};

#[test]
fn add_remove_contains() {
    let mut cf = CuckooFilter::new();
    assert!(!cf.contains(b"hello"));
    assert!(cf.add(b"hello"));
    assert!(cf.contains(b"hello"));
    assert!(cf.remove(b"hello"));
    assert!(!cf.contains(b"hello"));
}

#[test]
fn multiple_items() {
    let mut cf = CuckooFilter::new();
    let keys: Vec<Vec<u8>> = (0u32..100).map(|i| i.to_le_bytes().to_vec()).collect();
    for k in &keys { assert!(cf.add(k)); }
    for k in &keys { assert!(cf.contains(k), "should contain {:?}", k); }
    for k in &keys[..50] { assert!(cf.remove(k)); }
    for k in &keys[..50] { assert!(!cf.contains(k)); }
    for k in &keys[50..] { assert!(cf.contains(k)); }
}

#[test]
fn cuckoo_encode_decode_roundtrip() {
    let mut cf = CuckooFilter::new();
    for i in 0u32..50 { cf.add(&i.to_le_bytes()); }
    let encoded = cf.encode();
    let decoded = CuckooFilter::decode(&encoded);
    for i in 0u32..50 {
        assert!(decoded.contains(&i.to_le_bytes()), "decoded missing {}", i);
    }
}

#[test]
fn fpr_test() {
    let mut cf = CuckooFilter::new();
    let keys: Vec<Vec<u8>> = (0u32..100)
        .map(|i| format!("key_{}", i).into_bytes())
        .collect();
    for k in &keys { cf.add(k); }
    let mut fp = 0;
    for i in 0u32..10_000 {
        if cf.contains(&format!("query_{}", i).into_bytes()) { fp += 1; }
    }
    let fpr = fp as f64 / 10_000.0;
    assert!(fpr < 0.01, "FPR too high: {:.4}", fpr);
}

#[test]
fn merge_test() {
    let mut cf1 = CuckooFilter::new();
    let mut cf2 = CuckooFilter::new();
    cf1.add(b"key_a");
    cf2.add(b"key_b");
    cf1.merge(&cf2);
    assert!(cf1.contains(b"key_a"));
    assert!(cf1.contains(b"key_b"));
}

#[test]
fn count_tracks_insertions() {
    let mut cf = CuckooFilter::new();
    assert_eq!(cf.count(), 0, "empty filter has count 0");
    cf.add(b"a");
    assert_eq!(cf.count(), 1);
    cf.add(b"b");
    assert_eq!(cf.count(), 2);
}

#[test]
fn count_decreases_on_remove() {
    let mut cf = CuckooFilter::new();
    cf.add(b"x");
    cf.add(b"y");
    assert_eq!(cf.count(), 2);
    cf.remove(b"x");
    assert_eq!(cf.count(), 1, "count must decrease after remove");
    cf.remove(b"y");
    assert_eq!(cf.count(), 0);
}

#[test]
fn merge_increases_count() {
    let mut cf1 = CuckooFilter::new();
    let mut cf2 = CuckooFilter::new();
    cf1.add(b"alpha");
    cf2.add(b"beta");
    cf2.add(b"gamma");
    let before = cf1.count();
    cf1.merge(&cf2);
    assert!(cf1.count() > before, "merge must increase count");
}

#[test]
fn merge_count_is_exact_not_inflated() {
    let mut cf1 = CuckooFilter::new();
    let mut cf2 = CuckooFilter::new();
    cf2.add(b"only_key");
    cf1.merge(&cf2);
    assert_eq!(cf1.count(), 1,
        "merging 1 entry into empty filter must yield count=1, not inflated");
}

#[test]
fn merge_exact_count_two_disjoint_entries() {
    let mut cf1 = CuckooFilter::new();
    let mut cf2 = CuckooFilter::new();
    cf1.add(b"entry_one");
    cf2.add(b"entry_two");
    cf1.merge(&cf2);
    assert_eq!(cf1.count(), 2,
        "after merging 1+1 disjoint entries, count must be exactly 2");
    assert!(cf1.contains(b"entry_one"), "merge must preserve the entry of cf1");
    assert!(cf1.contains(b"entry_two"), "merge must include cf2 entry");
}

#[test]
fn bucket1_result_in_valid_range() {
    for i in 0u32..20 {
        let key = format!("range_test_{i}").into_bytes();
        let b = CuckooFilter::bucket1(&key);
        assert!(b < NUM_BUCKETS,
            "bucket1 must return value in [0, NUM_BUCKETS={NUM_BUCKETS}), got {b}");
    }
}

#[test]
fn bucket2_is_deterministic() {
    let b1 = CuckooFilter::bucket2(42, 0xABCD);
    let b2 = CuckooFilter::bucket2(42, 0xABCD);
    assert_eq!(b1, b2, "bucket2 must be deterministic");
}

#[test]
fn bucket2_varies_with_fingerprint() {
    let results: Vec<usize> = (1u16..20).map(|fp| CuckooFilter::bucket2(0, fp)).collect();
    let unique: std::collections::HashSet<_> = results.iter().collect();
    assert!(unique.len() > 1, "bucket2 must return different values for different fps, not a constant");
}

#[test]
fn bucket2_result_in_valid_range() {
    for b1 in [0usize, 1, 100, 511] {
        for fp in [0x0001u16, 0x1234, 0xABCD, 0xFFFF] {
            let result = CuckooFilter::bucket2(b1, fp);
            assert!(result < 512, "bucket2 must be < NUM_BUCKETS=512, got {}", result);
        }
    }
}

#[test]
fn bucket2_xor_alternative_property() {
    for b1 in [0usize, 1, 50, 100, 255, 511] {
        for fp in [0x0001u16, 0x1234, 0xABCD, 0xFFFF] {
            let b2 = CuckooFilter::bucket2(b1, fp);
            let b1_back = CuckooFilter::bucket2(b2, fp);
            assert_eq!(b1_back, b1,
                "XOR property: bucket2(bucket2({}, {}), {}) = {} ≠ {}", b1, fp, fp, b1_back, b1);
        }
    }
}

#[test]
fn add_count_increases_by_exactly_one() {
    let mut cf = CuckooFilter::new();
    let before = cf.count();
    cf.add(b"unique_key_abc");
    assert_eq!(cf.count(), before + 1,
        "add must increment count by exactly 1, not decrement or multiply");
}

#[test]
fn remove_count_decreases_by_exactly_one() {
    let mut cf = CuckooFilter::new();
    cf.add(b"key_to_remove");
    let before = cf.count();
    cf.remove(b"key_to_remove");
    assert_eq!(cf.count(), before - 1,
        "remove must decrement count by exactly 1, not increment or multiply");
}

#[test]
fn count_after_cuckoo_kick_path() {
    let mut cf = CuckooFilter::new();
    let n = 50u32;
    let mut added = 0usize;
    for i in 0..n {
        if cf.add(&i.to_le_bytes()) {
            added += 1;
        }
    }
    assert_eq!(cf.count(), added, "count must equal number of successful adds");
}

#[test]
fn encode_decode_preserves_count() {
    let mut cf = CuckooFilter::new();
    for i in 0u32..20 { cf.add(&i.to_le_bytes()); }
    let n = cf.count();
    let encoded = cf.encode();
    let decoded = CuckooFilter::decode(&encoded);
    assert_eq!(decoded.count(), n, "decode must restore count");
}

#[test]
fn bucket2_pinned_value_kills_offset_mutations() {
    for (b1, fp) in [(0usize, 0x0001u16), (7, 0x1234), (511, 0xABCD)] {
        let mut h: Blake2b<U8> = Blake2b::new();
        h.update(b"b2");
        h.update(fp.to_le_bytes());
        let result = h.finalize();
        let v = u64::from_le_bytes(result[..8].try_into().unwrap());
        let offset = (v as usize) % NUM_BUCKETS;
        let expected = (b1 ^ offset) % NUM_BUCKETS;
        assert_eq!(
            CuckooFilter::bucket2(b1, fp), expected,
            "bucket2({b1}, {fp:#x}) must be {expected} (offset computed with %)"
        );
    }
}

#[test]
fn add_count_via_b2_path() {
    let target = CuckooFilter::bucket1(b"b2path_seed");
    let mut same_b1: Vec<Vec<u8>> = vec![b"b2path_seed".to_vec()];
    let mut probe = 0u64;
    while same_b1.len() < 5 {
        assert!(probe < 10_000,
            "bucket1 probe loop exceeded 10k iterations — bucket1 may return out-of-range values");
        let k = format!("b2path_probe_{probe}").into_bytes();
        if CuckooFilter::bucket1(&k) == target {
            same_b1.push(k);
        }
        probe += 1;
    }
    let mut cf = CuckooFilter::new();
    for k in &same_b1[..4] {
        assert!(cf.add(k), "first 4 must succeed");
    }
    assert_eq!(cf.count(), 4);
    let ok = cf.add(&same_b1[4]);
    if ok {
        assert_eq!(cf.count(), 5,
            "after 5th add via b2/kick path, count must be 5, not {}", cf.count());
    }
}

#[test]
fn count_correct_under_high_load() {
    let mut cf = CuckooFilter::new();
    let mut added = 0usize;
    for i in 0u32..1500 {
        let key = format!("highload_{i}").into_bytes();
        if cf.add(&key) {
            added += 1;
        }
    }
    assert!(added > 1000, "should add most of 1500 items, got {added}");
    assert_eq!(cf.count(), added,
        "count must match adds under high load");
}

#[test]
fn remove_count_via_b2_path() {
    let target = CuckooFilter::bucket1(b"rm_b2path_seed");
    let mut same_b1: Vec<Vec<u8>> = vec![b"rm_b2path_seed".to_vec()];
    let mut probe = 0u64;
    while same_b1.len() < 5 {
        assert!(probe < 10_000,
            "bucket1 probe loop exceeded 10k iterations — bucket1 may return out-of-range values");
        let k = format!("rm_b2path_probe_{probe}").into_bytes();
        if CuckooFilter::bucket1(&k) == target {
            same_b1.push(k);
        }
        probe += 1;
    }
    let mut cf = CuckooFilter::new();
    for k in &same_b1[..4] { cf.add(k); }
    cf.add(&same_b1[4]);
    let before_remove = cf.count();
    cf.remove(&same_b1[4]);
    assert!(cf.count() < before_remove,
        "remove must decrease count, not increase (second bucket)");
}

#[test]
fn a_merge_that_loses_nothing_is_the_union() {
    let mut a = CuckooFilter::new();
    let mut b = CuckooFilter::new();
    for i in 0u32..60 {
        assert!(a.add(&i.to_le_bytes()));
    }
    for i in 40u32..100 {
        assert!(b.add(&i.to_le_bytes()));
    }
    let (before, other) = (a.count(), b.count());
    a.merge(&b);
    assert!(a.count() <= before + other);
    for i in 0u32..100 {
        assert!(a.contains(&i.to_le_bytes()), "missing {i}");
    }
    let merged = a.encode();
    a.merge(&b);
    assert_eq!(a.encode(), merged, "nothing is left to bring in");
}
