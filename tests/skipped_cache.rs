use dood::{SkippedKey, SkippedKeyCache, MAX_CACHED_KEYS};

fn k(n: u64) -> Vec<u8> {
    vec![n as u8, (n >> 8) as u8]
}

#[test]
fn store_then_take_each_once() {
    let mut c = SkippedKeyCache::new();
    c.store_run(&[1, 1], 4, vec![k(4), k(5), k(6)]);
    assert_eq!(c.len(), 3);
    assert_eq!(c.find(&[1, 1], 5), Some(1));
    assert_eq!(c.find(&[1, 2], 5), None);
    assert_eq!(c.take(&[1, 1], 5), Some(k(5)));
    assert_eq!(c.take(&[1, 1], 5), None);
    assert_eq!(c.len(), 2);
    assert_eq!(c.entry(0).counter, 4);
    assert_eq!(c.entry(1).counter, 6);
}

#[test]
fn storing_again_replaces_entry() {
    let mut c = SkippedKeyCache::new();
    c.store_run(&[1], 0, vec![k(0), k(1)]);
    c.store_run(&[1], 1, vec![vec![9, 9]]);
    assert_eq!(c.len(), 2);
    assert_eq!(c.take(&[1], 1), Some(vec![9, 9]));
}

#[test]
fn oldest_entries_are_evicted_at_the_bound() {
    let mut c = SkippedKeyCache::new();
    let first: Vec<Vec<u8>> = (0..MAX_CACHED_KEYS as u64).map(k).collect();
    c.store_run(&[1], 0, first);
    assert_eq!(c.len(), MAX_CACHED_KEYS);
    c.store_run(&[2], 0, vec![k(0), k(1)]);
    assert_eq!(c.len(), MAX_CACHED_KEYS);
    assert_eq!(c.find(&[1], 0), None);
    assert_eq!(c.find(&[1], 1), None);
    assert!(c.find(&[1], 2).is_some());
    assert_eq!(c.take(&[2], 1), Some(k(1)));
}

#[test]
fn retain_keeps_one_remote() {
    let mut c = SkippedKeyCache::new();
    c.store_run(&[1], 0, vec![k(0)]);
    c.store_run(&[2], 0, vec![k(0), k(1)]);
    c.retain_remote(&[2]);
    assert_eq!(c.len(), 2);
    assert_eq!(c.entry(0).remote, vec![2]);
    assert_eq!(c.entry(1).counter, 1);
}

#[test]
fn from_entries_refuses_duplicates() {
    let e = |r: u8, n: u64| SkippedKey { remote: vec![r], counter: n, message_key: k(n) };
    assert!(SkippedKeyCache::from_entries(vec![e(1, 0), e(1, 1), e(2, 0)]).is_some());
    assert!(SkippedKeyCache::from_entries(vec![e(1, 0), e(2, 0), e(1, 0)]).is_none());
    let c = SkippedKeyCache::from_entries(vec![e(1, 3)]).unwrap();
    let back = c.into_entries();
    assert_eq!(back.len(), 1);
    assert_eq!(back[0].counter, 3);
}
