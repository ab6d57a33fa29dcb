//! The per-request decision path of the proxy handler.
//!
//! A request is handled in two verified steps around the one thing the
//! library cannot do itself — the upstream fetch. `handle_lookup` derives
//! the cache key from the request path, consults the store, and either
//! answers from cache (touching the entry to defer its expiry) or directs
//! the caller to perform exactly one upstream fetch for the key-as-URL.
//! `apply_fetch_result` takes whatever that fetch produced: on success it
//! stores the body and answers with it; on any failure — transport error,
//! timeout, unreadable body — it answers with the error and leaves the
//! cache exactly as it was. A failed miss stays a failure: no retry, no
//! fallback to stale data, nothing cached.

use crate::store::{put_post, touch_post, CacheStore, EntryView};
use vstd::prelude::*;

verus! {

/// The cache key derived from a request path: the path minus its leading
/// separator, used verbatim as the upstream URL.
pub open spec fn strip_slash(s: Seq<char>) -> Seq<char> {
    if s.len() > 0 && s[0] == '/' {
        s.subrange(1, s.len() as int)
    } else {
        s
    }
}

/// Derives the cache key (and upstream URL) from an inbound request path by
/// stripping the leading separator, if any.
pub fn derive_key(path: &str) -> (r: String)
    ensures
        r@ == strip_slash(path@),
{
    let n = path.unicode_len();
    if n > 0 && path.get_char(0) == '/' {
        String::from_str(path.substring_char(1, n))
    } else {
        String::from_str(path)
    }
}

/// Why an upstream fetch failed: the transport broke (connection, DNS or
/// timeout — a timeout is treated exactly like a transport failure), or the
/// response arrived but its body could not be read.
pub enum FetchError {
    Transport(String),
    BodyRead(String),
}

impl FetchError {
    /// The error's description, whichever way the fetch failed.
    pub open spec fn text(&self) -> Seq<char> {
        match self {
            FetchError::Transport(m) => m@,
            FetchError::BodyRead(m) => m@,
        }
    }

    /// Hands out the description for the caller's error response.
    pub fn into_text(self) -> (r: String)
        ensures
            r@ == self.text(),
    {
        match self {
            FetchError::Transport(m) => m,
            FetchError::BodyRead(m) => m,
        }
    }
}

/// What the handler answers: a successful response carrying a body, or an
/// upstream failure carrying the error's description. An HTTP binding maps
/// the first to status 200 and the second to a 4xx status.
pub enum ProxyResponse {
    Success(String),
    UpstreamError(String),
}

impl ProxyResponse {
    /// The HTTP status an HTTP binding gives this answer: 200 on success,
    /// 400 on an upstream failure.
    pub fn status_code(&self) -> (c: u16)
        ensures
            self matches ProxyResponse::Success(_) ==> c == 200,
            self matches ProxyResponse::UpstreamError(_) ==> c == 400,
    {
        match self {
            ProxyResponse::Success(_) => 200,
            ProxyResponse::UpstreamError(_) => 400,
        }
    }

    /// Hands out the response body verbatim: the cached or fetched payload
    /// on success, the error's description otherwise.
    pub fn into_body(self) -> (r: String)
        ensures
            self matches ProxyResponse::Success(b) ==> r == b,
            self matches ProxyResponse::UpstreamError(m) ==> r == m,
    {
        match self {
            ProxyResponse::Success(b) => b,
            ProxyResponse::UpstreamError(m) => m,
        }
    }
}

/// The handler's first step ends one of two ways: a hit answers at once
/// from the cache; a miss directs the caller to fetch the key-as-URL
/// upstream — exactly one fetch, for exactly that URL.
pub enum LookupOutcome {
    Hit(String),
    Fetch(String),
}

/// Steps one inbound request up to the point where the upstream would be
/// contacted: derives the key from `path`, and on a hit touches the entry
/// (deferring its expiry) and returns the stored body; on a miss the store
/// is left untouched and the caller is directed to fetch the key-as-URL.
pub fn handle_lookup(store: &mut CacheStore, path: &str, now: u64) -> (r: LookupOutcome)
    requires
        old(store).wf(),
        now >= old(store).clock(),
    ensures
        final(store).wf(),
        ({
            let key = strip_slash(path@);
            if old(store).contents().contains_key(key) {
                &&& r matches LookupOutcome::Hit(b) && b@ == old(store).contents()[key].body
                &&& touch_post(old(store).contents(), final(store).contents(), key, now)
                &&& final(store).clock() == now
            } else {
                &&& r matches LookupOutcome::Fetch(u) && u@ == key
                &&& final(store).contents() == old(store).contents()
                &&& final(store).clock() == old(store).clock()
            }
        }),
{
    let key = derive_key(path);
    match store.get(key.as_str()) {
        Some(body) => {
            store.touch(key.as_str(), now);
            LookupOutcome::Hit(body)
        },
        None => LookupOutcome::Fetch(key),
    }
}

/// Finishes a missed request with whatever the upstream fetch produced: a
/// fetched body is cached under `url` and returned with success; any fetch
/// failure is returned as an error and leaves the cache exactly as it was —
/// absent stays absent, present stays present and unmodified.
pub fn apply_fetch_result(
    store: &mut CacheStore,
    url: &str,
    fetched: Result<String, FetchError>,
    now: u64,
) -> (r: ProxyResponse)
    requires
        old(store).wf(),
        now >= old(store).clock(),
    ensures
        final(store).wf(),
        match fetched {
            Ok(body) => {
                &&& put_post(old(store).contents(), final(store).contents(), url@, body@, now)
                &&& final(store).clock() == now
                &&& r matches ProxyResponse::Success(b) && b@ == body@
            },
            Err(e) => {
                &&& *final(store) == *old(store)
                &&& r matches ProxyResponse::UpstreamError(m) && m@ == e.text()
            },
        },
{
    match fetched {
        Ok(body) => {
            let answer = body.clone();
            store.put(url, body, now);
            ProxyResponse::Success(answer)
        },
        Err(e) => ProxyResponse::UpstreamError(e.into_text()),
    }
}

/// One miss, one put: a key absent at lookup time is filled by exactly the
/// one put that a successful fetch triggers — afterwards the store holds
/// the fetched body under that key, and no other key has changed.
pub proof fn lemma_miss_single_put(
    pre: Map<Seq<char>, EntryView>,
    post: Map<Seq<char>, EntryView>,
    k: Seq<char>,
    body: Seq<char>,
    now: u64,
)
    requires
        !pre.contains_key(k),
        put_post(pre, post, k, body, now),
    ensures
        post.contains_key(k),
        post[k].body == body,
        post.dom() == pre.dom().insert(k),
        forall|q: Seq<char>| #[trigger] pre.contains_key(q) ==> q != k && post[q] == pre[q],
{
    assert(post.dom() =~= pre.dom().insert(k));
}

} // verus!
