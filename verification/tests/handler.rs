use proxy_cache::proxy::{apply_fetch_result, derive_key, handle_lookup, FetchError, LookupOutcome, ProxyResponse};
use proxy_cache::store::CacheStore;

#[test]
fn derive_key_strips_leading_slash() {
    assert_eq!(derive_key("/http://example.com/x"), "http://example.com/x");
}

#[test]
fn derive_key_strips_only_one_separator() {
    assert_eq!(derive_key("//host/path"), "/host/path");
}

#[test]
fn derive_key_of_bare_slash_is_empty() {
    assert_eq!(derive_key("/"), "");
}

#[test]
fn derive_key_without_separator_is_unchanged() {
    assert_eq!(derive_key("plain"), "plain");
    assert_eq!(derive_key(""), "");
}

#[test]
fn miss_directs_exactly_one_fetch_for_the_key() {
    let mut s = CacheStore::new();
    let outcome = handle_lookup(&mut s, "/http://upstream/u", 0);
    match outcome {
        LookupOutcome::Fetch(url) => assert_eq!(url, "http://upstream/u"),
        LookupOutcome::Hit(_) => panic!("empty store cannot hit"),
    }
    // The miss itself left the store untouched.
    assert_eq!(s.get("http://upstream/u"), None);
}

#[test]
fn successful_fetch_is_stored_once_and_answered() {
    let mut s = CacheStore::new();
    let outcome = handle_lookup(&mut s, "/http://upstream/u", 0);
    let url = match outcome {
        LookupOutcome::Fetch(url) => url,
        LookupOutcome::Hit(_) => panic!("empty store cannot hit"),
    };
    let resp = apply_fetch_result(&mut s, &url, Ok("fetched".to_string()), 1);
    assert_eq!(resp.status_code(), 200);
    assert_eq!(resp.into_body(), "fetched");
    assert_eq!(s.get("http://upstream/u"), Some("fetched".to_string()));
}

#[test]
fn hit_answers_from_cache_and_touches() {
    let mut s = CacheStore::new();
    s.put("http://upstream/u", "cached".to_string(), 0);
    let outcome = handle_lookup(&mut s, "/http://upstream/u", 5);
    match outcome {
        LookupOutcome::Hit(body) => assert_eq!(body, "cached"),
        LookupOutcome::Fetch(_) => panic!("present key must hit"),
    }
    // The hit touched the entry at t=5, so a sweep at t=12 keeps it...
    s.sweep(10, 12);
    assert_eq!(s.get("http://upstream/u"), Some("cached".to_string()));
    // ...and one at t=15 removes it.
    s.sweep(10, 15);
    assert_eq!(s.get("http://upstream/u"), None);
}

#[test]
fn fetch_failure_leaves_absent_key_absent() {
    let mut s = CacheStore::new();
    let err = FetchError::Transport("connection refused".to_string());
    let resp = apply_fetch_result(&mut s, "http://upstream/u", Err(err), 3);
    assert_eq!(resp.status_code(), 400);
    assert_eq!(resp.into_body(), "connection refused");
    assert_eq!(s.get("http://upstream/u"), None);
}

#[test]
fn fetch_failure_leaves_present_key_unmodified() {
    let mut s = CacheStore::new();
    s.put("k", "kept".to_string(), 0);
    let err = FetchError::BodyRead("invalid body".to_string());
    let resp = apply_fetch_result(&mut s, "k", Err(err), 3);
    assert_eq!(resp.status_code(), 400);
    assert_eq!(resp.into_body(), "invalid body");
    assert_eq!(s.get("k"), Some("kept".to_string()));
    // The failed attempt did not refresh the entry either: it still
    // expires on the clock of its original insertion.
    s.sweep(10, 10);
    assert_eq!(s.get("k"), None);
}

#[test]
fn fetch_error_text_is_preserved() {
    assert_eq!(
        FetchError::Transport("timed out".to_string()).into_text(),
        "timed out"
    );
    assert_eq!(
        FetchError::BodyRead("bad utf-8".to_string()).into_text(),
        "bad utf-8"
    );
}

#[test]
fn response_statuses() {
    assert_eq!(ProxyResponse::Success("b".to_string()).status_code(), 200);
    assert_eq!(ProxyResponse::UpstreamError("e".to_string()).status_code(), 400);
}

#[test]
fn simultaneous_misses_end_with_one_whole_body() {
    // Two handlers miss the same new key at once; both are directed to
    // fetch, and their serialized puts leave one of the two bodies.
    let mut s = CacheStore::new();
    let first = handle_lookup(&mut s, "/k", 0);
    let second = handle_lookup(&mut s, "/k", 0);
    assert!(matches!(first, LookupOutcome::Fetch(_)));
    assert!(matches!(second, LookupOutcome::Fetch(_)));
    let r1 = apply_fetch_result(&mut s, "k", Ok("body-one".to_string()), 1);
    let r2 = apply_fetch_result(&mut s, "k", Ok("body-two".to_string()), 2);
    assert_eq!(r1.into_body(), "body-one");
    assert_eq!(r2.into_body(), "body-two");
    let held = s.get("k").expect("one fetched body must be cached");
    assert!(held == "body-one" || held == "body-two");
    assert_eq!(held, "body-two");
}
