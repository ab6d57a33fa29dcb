use proxy_cache::store::CacheStore;

#[test]
fn put_then_get_returns_body() {
    let mut s = CacheStore::new();
    s.put("http://example.com/a", "payload".to_string(), 0);
    assert_eq!(s.get("http://example.com/a"), Some("payload".to_string()));
}

#[test]
fn get_absent_returns_none() {
    let s = CacheStore::new();
    assert_eq!(s.get("missing"), None);
}

#[test]
fn put_overwrites_same_key() {
    let mut s = CacheStore::new();
    s.put("k", "b1".to_string(), 0);
    s.put("k", "b2".to_string(), 1);
    assert_eq!(s.get("k"), Some("b2".to_string()));
}

#[test]
fn touch_absent_is_benign_noop() {
    let mut s = CacheStore::new();
    s.put("other", "x".to_string(), 0);
    s.touch("gone", 5);
    assert_eq!(s.get("other"), Some("x".to_string()));
    assert_eq!(s.get("gone"), None);
}

#[test]
fn sweep_removes_stale_keeps_fresh() {
    let mut s = CacheStore::new();
    s.put("old", "a".to_string(), 0);
    s.put("young", "b".to_string(), 3);
    s.sweep(10, 11);
    assert_eq!(s.get("old"), None);
    assert_eq!(s.get("young"), Some("b".to_string()));
}

#[test]
fn sweep_removes_entry_whose_age_equals_lifetime() {
    let mut s = CacheStore::new();
    s.put("k", "x".to_string(), 0);
    s.sweep(10, 10);
    assert_eq!(s.get("k"), None);
}

#[test]
fn sweep_keeps_entry_just_under_lifetime() {
    let mut s = CacheStore::new();
    s.put("k", "x".to_string(), 0);
    s.sweep(10, 9);
    assert_eq!(s.get("k"), Some("x".to_string()));
}

#[test]
fn touch_resets_age_for_later_sweep() {
    let mut s = CacheStore::new();
    s.put("k", "x".to_string(), 0);
    s.touch("k", 5);
    s.sweep(10, 12);
    assert_eq!(s.get("k"), Some("x".to_string()));
    s.sweep(10, 15);
    assert_eq!(s.get("k"), None);
}

#[test]
fn lookup_serves_stale_entry_until_a_sweep_runs() {
    let mut s = CacheStore::new();
    s.put("k", "x".to_string(), 0);
    // Far past the lifetime, but no sweep has run: lookup still serves it.
    assert_eq!(s.get("k"), Some("x".to_string()));
    s.sweep(10, 100);
    assert_eq!(s.get("k"), None);
}

#[test]
fn scenario_touch_at_five_defers_expiry_past_twelve() {
    // lifetime 10, sweep every 1: a body put at t=0 and touched at t=5 is
    // still served at t=12, because the touch reset its clock.
    let mut s = CacheStore::new();
    s.put("a", "x".to_string(), 0);
    for t in 1..=4u64 {
        s.sweep(10, t);
    }
    assert_eq!(s.get("a"), Some("x".to_string()));
    s.touch("a", 5);
    for t in 6..=12u64 {
        s.sweep(10, t);
    }
    assert_eq!(s.get("a"), Some("x".to_string()));
}

#[test]
fn scenario_without_touch_entry_is_gone_by_twelve() {
    let mut s = CacheStore::new();
    s.put("a", "x".to_string(), 0);
    for t in 1..=12u64 {
        s.sweep(10, t);
    }
    assert_eq!(s.get("a"), None);
}

#[test]
fn serialized_puts_leave_exactly_the_last_body() {
    // Two writers racing on one key are serialized by the store's lock;
    // whichever order they land in, one whole body remains.
    let mut s = CacheStore::new();
    s.put("k", "from-first".to_string(), 4);
    s.put("k", "from-second".to_string(), 5);
    assert_eq!(s.get("k"), Some("from-second".to_string()));

    let mut s2 = CacheStore::new();
    s2.put("k", "from-second".to_string(), 4);
    s2.put("k", "from-first".to_string(), 5);
    assert_eq!(s2.get("k"), Some("from-first".to_string()));
}

#[test]
fn clock_tracks_latest_mutation_time() {
    let mut s = CacheStore::new();
    assert_eq!(s.current_clock(), 0);
    s.put("k", "x".to_string(), 7);
    assert_eq!(s.current_clock(), 7);
    s.sweep(10, 9);
    assert_eq!(s.current_clock(), 9);
}
