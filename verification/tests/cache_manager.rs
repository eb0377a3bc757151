use kvstore::cache_manager::{CacheManager, H};
use kvstore::kvmap::CountMap;

fn manager(connected: bool, entries: &[(u64, &str)], counts: &[(&str, u64)], t: u64, limit: usize) -> CacheManager {
    let mut log: Vec<(u64, String)> = Vec::new();
    for (t, k) in entries {
        log.push((*t, k.to_string()));
    }
    let mut counters = CountMap::new();
    for (k, n) in counts {
        counters.insert(k.to_string(), *n);
    }
    CacheManager::restore(connected, log, counters, t, limit).unwrap()
}

// The bookkeeping is trimmed at 6 accesses here.
#[test]
fn test_upd() {
    let mut cache = manager(
        true,
        &[(0, "zxc"), (1, "ahaha"), (2, "666"), (3, "kek"), (4, "lol"), (5, "zxc")],
        &[("zxc", 2), ("ahaha", 1), ("666", 1), ("lol", 1), ("kek", 1)],
        6,
        6,
    );

    let _r = cache.upd_cache();
    assert_eq!(cache.get_count("kek").unwrap(), 1);
    assert_eq!(cache.get_count("ahaha").is_none(), true);
    assert_eq!(cache.get_count("zxc").unwrap(), 1);
}

#[test]
fn upd_drops_the_oldest_half_of_the_log() {
    let mut cache = manager(
        true,
        &[(0, "zxc"), (1, "ahaha"), (2, "666"), (3, "kek"), (4, "lol"), (5, "zxc")],
        &[("zxc", 2), ("ahaha", 1), ("666", 1), ("lol", 1), ("kek", 1)],
        6,
        6,
    );
    let evicted = cache.upd_cache().unwrap();
    assert_eq!(evicted, vec!["ahaha".to_string(), "666".to_string()]);
    let log: Vec<(u64, String)> = cache.last_mod().clone();
    assert_eq!(
        log,
        vec![(3, "kek".to_string()), (4, "lol".to_string()), (5, "zxc".to_string())]
    );
    assert!(cache.get_count("666").is_none());
    assert_eq!(cache.get_count("lol"), Some(1));
    // each deletion sent to memcached moves the clock on
    assert_eq!(cache.clock(), 8);
}

#[test]
fn upd_without_a_client_trims_the_same_way() {
    let mut cache = manager(
        false,
        &[(0, "a"), (1, "b"), (2, "b"), (3, "c")],
        &[("a", 1), ("b", 2), ("c", 1)],
        4,
        4,
    );
    let evicted = cache.upd_cache().unwrap();
    assert_eq!(evicted, vec!["a".to_string()]);
    assert_eq!(cache.clock(), 4);
    assert!(cache.get_count("a").is_none());
    assert_eq!(cache.get_count("b"), Some(1));
    assert_eq!(cache.get_count("c"), Some(1));
    assert_eq!(cache.last_mod().clone(), vec![(2, "b".to_string()), (3, "c".to_string())]);
}

#[test]
fn restore_checks_the_counters() {
    let log = || vec![(0u64, "a".to_string()), (1, "a".to_string())];
    let mut wrong = CountMap::new();
    wrong.insert("a".to_string(), 1);
    assert!(CacheManager::restore(true, log(), wrong, 2, 4).is_none());
    let mut extra = CountMap::new();
    extra.insert("a".to_string(), 2);
    extra.insert("b".to_string(), 1);
    assert!(CacheManager::restore(true, log(), extra, 2, 4).is_none());
    assert!(CacheManager::restore(true, log(), CountMap::new(), 2, 4).is_none());
    let mut right = CountMap::new();
    right.insert("a".to_string(), 2);
    assert!(CacheManager::restore(true, log(), right, 2, 4).is_some());
}

#[test]
fn upd_below_the_limit_changes_nothing() {
    let mut cache = manager(true, &[(0, "a")], &[("a", 1)], 1, 4);
    assert!(cache.upd_cache().unwrap().is_empty());
    assert_eq!(cache.log_len(), 1);
    assert_eq!(cache.get_count("a"), Some(1));
}

#[test]
fn restore_checks_the_log() {
    let mut bad: Vec<(u64, String)> = Vec::new();
    bad.push((2, "a".to_string()));
    bad.push((1, "b".to_string()));
    assert!(CacheManager::restore(false, bad, CountMap::new(), 5, 4).is_none());
    let mut late: Vec<(u64, String)> = Vec::new();
    late.push((5, "a".to_string()));
    assert!(CacheManager::restore(false, late, CountMap::new(), 5, 4).is_none());
    assert!(CacheManager::restore(false, Vec::new(), CountMap::new(), 0, 1).is_none());
}

#[test]
fn process_records_only_with_a_client() {
    let mut on = CacheManager::new(true);
    on.process(Some("k"));
    on.process(Some("j"));
    on.process(None);
    on.process(Some("k"));
    assert_eq!(on.get_count("k"), Some(2));
    assert_eq!(on.get_count("j"), Some(1));
    assert_eq!(on.clock(), 3);
    assert_eq!(on.log_len(), 3);
    let mut off = CacheManager::new(false);
    off.process(Some("k"));
    assert_eq!(off.get_count("k"), None);
    assert_eq!(off.clock(), 0);
    assert!(!off.connected());
}

#[test]
fn flush_clears_counters_and_log() {
    let mut c = CacheManager::new(true);
    c.process(Some("k"));
    assert!(c.flush().is_ok());
    assert_eq!(c.get_count("k"), None);
    assert_eq!(c.log_len(), 0);
    assert_eq!(c.clock(), 1);
    assert_eq!(H, 200);
}

#[test]
fn upd_refuses_to_run_the_clock_past_its_maximum() {
    let mut cache = manager(true, &[(0, "a"), (1, "b")], &[("a", 1), ("b", 1)], u64::MAX, 2);
    assert!(cache.upd_cache().is_none());
    assert_eq!(cache.log_len(), 2);
    assert_eq!(cache.get_count("a"), Some(1));
    assert_eq!(cache.clock(), u64::MAX);
    let mut cache = manager(true, &[(0, "a"), (1, "b")], &[("a", 1), ("b", 1)], u64::MAX - 1, 2);
    assert_eq!(cache.upd_cache(), Some(vec!["a".to_string()]));
    assert_eq!(cache.clock(), u64::MAX);
}
