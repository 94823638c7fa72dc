use dqache::cache::{Cache, CacheError, Entry, Evictor, SetOutcome};
use dqache::model::{min_index, LeastFrequentlyUsed, LeastRecentlyUsed, Model};

fn entry(value: &[u8], now: u64) -> Entry {
    Entry::new(value.to_vec(), now)
}

#[test]
fn entry_new_starts_at_one() {
    let e = entry(b"xy", 7);
    assert_eq!(e.value, b"xy".to_vec());
    assert_eq!(e.accessed_at, 7);
    assert_eq!(e.access_count, 1);
}

#[test]
fn set_and_get_round_trip() {
    let mut c = Cache::new(Model::LeastRecentlyUsed, 4);
    assert_eq!(c.set(b"abc", entry(b"xy", 100)), SetOutcome::Stored);
    let got = c.get(b"abc", 101).expect("hit");
    assert_eq!(got.value, b"xy".to_vec());
    assert!(got.access_count >= 1);
}

#[test]
fn get_miss_returns_none() {
    let mut c = Cache::new(Model::LeastRecentlyUsed, 4);
    assert!(c.get(b"nope", 100).is_none());
}

#[test]
fn get_bumps_count_and_timestamp() {
    let mut c = Cache::new(Model::LeastFrequentlyUsed, 4);
    c.set(b"k", entry(b"v", 100));
    let first = c.get(b"k", 105).expect("hit");
    assert_eq!(first.access_count, 2);
    assert_eq!(first.accessed_at, 105);
    let second = c.get(b"k", 106).expect("hit");
    assert_eq!(second.access_count, 3);
    assert_eq!(second.accessed_at, 106);
}

#[test]
fn set_existing_accumulates_count() {
    let mut c = Cache::new(Model::LeastRecentlyUsed, 4);
    c.set(b"k", entry(b"v1", 100));
    c.get(b"k", 101);
    c.set(b"k", entry(b"v2", 102));
    let got = c.get(b"k", 103).expect("hit");
    assert_eq!(got.value, b"v2".to_vec());
    // 1 (insert) + 1 (get) + 1 (overwrite) + 1 (this get)
    assert_eq!(got.access_count, 4);
}

#[test]
fn remove_reports_prior_presence() {
    let mut c = Cache::new(Model::LeastRecentlyUsed, 4);
    c.set(b"k", entry(b"v", 100));
    assert!(c.remove(b"k"));
    assert!(!c.remove(b"k"));
    assert!(c.get(b"k", 101).is_none());
}

#[test]
fn size_never_passes_capacity() {
    let mut c = Cache::new(Model::LeastRecentlyUsed, 2);
    for (i, key) in [b"a", b"b", b"c", b"d", b"e"].iter().enumerate() {
        c.set(&key[..], entry(b"v", 100 + i as u64));
        assert!(c.len() <= c.capacity());
    }
    assert_eq!(c.len(), 2);
}

#[test]
fn lru_eviction_scenario() {
    // capacity 2: a set at 100, b set at 101, a read at 102, c set at 103:
    // b is the stalest and must go; a stays cached.
    let mut c = Cache::new(Model::LeastRecentlyUsed, 2);
    assert_eq!(c.set(b"a", entry(b"1", 100)), SetOutcome::Stored);
    assert_eq!(c.set(b"b", entry(b"2", 101)), SetOutcome::Stored);
    assert!(c.get(b"a", 102).is_some());
    assert_eq!(c.set(b"c", entry(b"3", 103)), SetOutcome::Stored);
    assert!(c.get(b"b", 104).is_none());
    let a = c.get(b"a", 105).expect("a stays cached");
    assert_eq!(a.value, b"1".to_vec());
    assert!(c.get(b"c", 106).is_some());
}

#[test]
fn lfu_eviction_picks_least_counted() {
    let mut c = Cache::new(Model::LeastFrequentlyUsed, 2);
    c.set(b"a", entry(b"1", 100));
    c.set(b"b", entry(b"2", 101));
    c.get(b"a", 102);
    c.get(b"a", 103);
    // a has count 3, b has count 1: b goes.
    c.set(b"c", entry(b"3", 104));
    assert!(c.get(b"b", 105).is_none());
    assert!(c.get(b"a", 106).is_some());
}

#[test]
fn lru_select_victim_unique_minimum() {
    let mut c = Cache::new(Model::LeastRecentlyUsed, 3);
    c.set(b"x", entry(b"1", 300));
    c.set(b"y", entry(b"2", 100));
    c.set(b"z", entry(b"3", 200));
    // force an eviction and check the stalest key went
    c.set(b"w", entry(b"4", 400));
    assert!(c.get(b"y", 401).is_none());
    assert!(c.get(b"x", 402).is_some());
    assert!(c.get(b"z", 403).is_some());
}

#[test]
fn evictor_refuses_empty_table() {
    let mut lru = LeastRecentlyUsed::new();
    let mut lfu = LeastFrequentlyUsed::new();
    let empty: Vec<(Vec<u8>, Entry)> = Vec::new();
    assert_eq!(lru.select_victim(&empty), Err(CacheError::EmptyCache));
    assert_eq!(lfu.select_victim(&empty), Err(CacheError::EmptyCache));
}

#[test]
fn evictor_picks_minimum_key() {
    let mut lru = LeastRecentlyUsed::new();
    let mut lfu = LeastFrequentlyUsed::new();
    let mut table: Vec<(Vec<u8>, Entry)> = Vec::new();
    table.push((b"a".to_vec(), Entry::new(b"1".to_vec(), 50)));
    table.push((b"b".to_vec(), Entry::new(b"2".to_vec(), 10)));
    table.push((b"c".to_vec(), Entry::new(b"3".to_vec(), 30)));
    assert_eq!(lru.select_victim(&table), Ok(b"b".to_vec()));
    table[0].1.access_count = 9;
    table[1].1.access_count = 5;
    table[2].1.access_count = 2;
    assert_eq!(lfu.select_victim(&table), Ok(b"c".to_vec()));
}

#[test]
fn min_index_first_strict_minimum_wins() {
    // score vector [5, 1, 1, 3]: the first index holding the minimum wins.
    let scores: Vec<u64> = vec![5, 1, 1, 3];
    assert_eq!(min_index(&scores), 1);
    let single: Vec<u64> = vec![9];
    assert_eq!(min_index(&single), 0);
    let tail: Vec<u64> = vec![4, 3, 2];
    assert_eq!(min_index(&tail), 2);
}

fn score_key(f: f32) -> u64 {
    // order-preserving map from finite floats to integers
    let b = f.to_bits();
    let k = if b & 0x8000_0000 != 0 { !b } else { b | 0x8000_0000 };
    k as u64
}

#[test]
fn scored_eviction_takes_lowest_score() {
    // scores [0.9, 0.1, 0.5]: the key placed at iteration index 1 goes.
    let mut c = Cache::new(Model::DeepQNetwork, 3);
    c.set(b"a", entry(b"1", 100));
    c.set(b"b", entry(b"2", 101));
    c.set(b"c", entry(b"3", 102));
    assert_eq!(c.set(b"d", entry(b"4", 103)), SetOutcome::NeedsScores);
    let rows = c.snapshot();
    assert_eq!(rows.len(), 3);
    let scores: Vec<u64> = [0.9f32, 0.1, 0.5].iter().map(|f| score_key(*f)).collect();
    let victim = c.set_scored(b"d", entry(b"4", 103), &scores);
    assert_eq!(victim, b"b".to_vec());
    assert!(c.get(b"b", 104).is_none());
    assert!(c.get(b"a", 105).is_some());
    assert!(c.get(b"c", 106).is_some());
    assert!(c.get(b"d", 107).is_some());
}

#[test]
fn snapshot_reports_metadata_in_order() {
    let mut c = Cache::new(Model::DeepQNetwork, 3);
    c.set(b"a", entry(b"1", 100));
    c.set(b"bb", entry(b"22", 101));
    c.get(b"a", 102);
    let rows = c.snapshot();
    assert_eq!(rows, vec![(102, 2, 1), (101, 1, 2)]);
}
