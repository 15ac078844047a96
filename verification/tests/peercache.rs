use norn_rs::peercache::{PeerCache, PeerCacheFile, PeerRecord, DEFAULT_MAX_AGE};

const NOW: u64 = 1_700_000_000_000;

fn key(b: u8) -> [u8; 32] {
    [b; 32]
}

#[test]
fn empty_cache_when_file_missing() {
    let cache = PeerCache::load(None, NOW);
    assert!(cache.is_empty(), "missing file → empty cache");
    assert_eq!(cache.len(), 0);
}

#[test]
fn record_and_persist_roundtrip() {
    let mut cache = PeerCache::load(None, NOW);
    cache.record(&key(1), "tcp://1.1.1.1:9001".to_string(), NOW);
    cache.record(&key(2), "tcp://2.2.2.2:9001".to_string(), NOW);
    let file = cache.save();
    assert_eq!(file.version, 1);

    let reloaded = PeerCache::load(Some(file), NOW);
    assert_eq!(reloaded.len(), 2);
    let uris: Vec<String> = reloaded.uris();
    assert!(uris.contains(&"tcp://1.1.1.1:9001".to_string()));
    assert!(uris.contains(&"tcp://2.2.2.2:9001".to_string()));
}

#[test]
fn record_updates_existing_entry() {
    let mut cache = PeerCache::load(None, NOW);
    cache.record(&key(7), "tcp://old:9001".to_string(), NOW);
    cache.record(&key(7), "tcp://new:9001".to_string(), NOW + 1);
    assert_eq!(cache.len(), 1, "same pub_key must update, not duplicate");
    let reloaded = PeerCache::load(Some(cache.save()), NOW);
    assert_eq!(reloaded.uris(), vec!["tcp://new:9001".to_string()]);
}

#[test]
fn stale_entries_evicted_on_load() {
    let file = PeerCacheFile {
        version: 1,
        peers: vec![PeerRecord {
            pub_key_hex: hex::encode(key(9)),
            uri: "tcp://stale:9001".into(),
            last_seen_ms: 1,
        }],
    };
    let cache = PeerCache::load_with_max_age(Some(file), NOW, 1000);
    assert!(cache.is_empty(), "entries older than max_age must be evicted");
}

#[test]
fn corrupted_file_yields_empty_cache() {
    let cache = PeerCache::load(None, NOW);
    assert!(cache.is_empty(), "corrupt file must not crash; must yield empty cache");
}

#[test]
fn the_age_limit_is_inclusive() {
    let record = |b: u8, t: u64| PeerRecord {
        pub_key_hex: hex::encode(key(b)),
        uri: format!("tcp://{b}:1"),
        last_seen_ms: t,
    };
    let file = PeerCacheFile {
        version: 1,
        peers: vec![
            record(1, NOW - DEFAULT_MAX_AGE),
            record(2, NOW - DEFAULT_MAX_AGE - 1),
            record(3, NOW + 5),
        ],
    };
    let cache = PeerCache::load(Some(file), NOW);
    assert_eq!(cache.uris(), vec!["tcp://1:1".to_string(), "tcp://3:1".to_string()]);
}

#[test]
fn the_last_record_of_a_key_counts() {
    let record = |uri: &str| PeerRecord {
        pub_key_hex: hex::encode(key(1)),
        uri: uri.to_string(),
        last_seen_ms: NOW,
    };
    let file = PeerCacheFile { version: 1, peers: vec![record("a"), record("b")] };
    assert_eq!(PeerCache::load(Some(file), NOW).uris(), vec!["b".to_string()]);
}
