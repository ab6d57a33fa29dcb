//! A verified core for a transparent caching forward proxy.
//!
//! The library holds the two pieces of the proxy that carry its logic: a
//! time-bounded cache of fetched response bodies (`store`), and the
//! per-request decision path of the handler (`proxy`). Everything around
//! them — the HTTP listener, the outbound client, the lock that guards the
//! shared store, the clock, and process bootstrap — is plain I/O and lives
//! with the binary, which hands this library plain values: a request path,
//! the outcome of an upstream fetch, and the current time on a monotonic
//! clock.

pub mod proxy;
pub mod store;
