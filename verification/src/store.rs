//! The time-bounded cache at the heart of the proxy.
//!
//! A `CacheStore` maps cache keys (strings, doubling as upstream URLs) to
//! entries, each holding a response body and the time it was last touched.
//! Time is a plain `u64` read from a monotonic clock by the caller and
//! passed in; the store never reads a clock itself. Entries never carry a
//! timestamp from the future: the store records the latest time it has seen
//! (`clock`), every entry's `last_touched` stays at or below it, and every
//! mutating operation requires a `now` at or past it, so timestamps are
//! monotonically non-decreasing across an entry's life.
//!
//! Expiry is purely time-based: an entry is fresh while `now - last_touched`
//! is below the configured lifetime, and `sweep` removes every entry at or
//! past it in one full pass. Lookup ignores freshness on purpose — only the
//! sweep evicts — and `touch` defers expiry by resetting an entry's clock.

use vstd::prelude::*;

verus! {

/// The mathematical model of one cache entry: the stored body and the time
/// it was last inserted or touched.
#[verifier::ext_equal]
pub ghost struct EntryView {
    pub body: Seq<char>,
    pub last_touched: u64,
}

/// An entry is fresh when its age at time `now` is still below `lifetime`.
pub open spec fn entry_is_fresh(e: EntryView, lifetime: u64, now: u64) -> bool {
    now - e.last_touched < lifetime
}

/// How `put(k, body)` at time `now` changes the store's contents: the entry
/// for `k` is inserted or overwritten whole, and no other key changes.
pub open spec fn put_post(
    pre: Map<Seq<char>, EntryView>,
    post: Map<Seq<char>, EntryView>,
    k: Seq<char>,
    body: Seq<char>,
    now: u64,
) -> bool {
    post == pre.insert(k, EntryView { body, last_touched: now })
}

/// How `touch(k)` at time `now` changes the store's contents: a present
/// entry keeps its body and gets its clock reset to `now`; an absent key —
/// a benign race against the sweeper — leaves the store unchanged.
pub open spec fn touch_post(
    pre: Map<Seq<char>, EntryView>,
    post: Map<Seq<char>, EntryView>,
    k: Seq<char>,
    now: u64,
) -> bool {
    if pre.contains_key(k) {
        post == pre.insert(k, EntryView { body: pre[k].body, last_touched: now })
    } else {
        post == pre
    }
}

/// How `sweep(lifetime)` at time `now` changes the store's contents: exactly
/// the fresh entries survive, unchanged; every stale entry is gone. The pass
/// is total — no stale entry escapes it.
pub open spec fn sweep_post(
    pre: Map<Seq<char>, EntryView>,
    post: Map<Seq<char>, EntryView>,
    lifetime: u64,
    now: u64,
) -> bool {
    &&& forall|k: Seq<char>|
        #[trigger] post.contains_key(k) <==> pre.contains_key(k) && entry_is_fresh(
            pre[k],
            lifetime,
            now,
        )
    &&& forall|k: Seq<char>| #[trigger] post.contains_key(k) ==> post[k] == pre[k]
}

/// A slot is fresh when the entry it holds is.
spec fn slot_fresh(t: Slot, lifetime: u64, now: u64) -> bool {
    entry_is_fresh(slot_view(t), lifetime, now)
}

/// One stored entry together with its key.
struct Slot {
    key: String,
    body: String,
    last_touched: u64,
}

spec fn slot_view(t: Slot) -> EntryView {
    EntryView { body: t.body@, last_touched: t.last_touched }
}

spec fn keys_unique(s: Seq<Slot>) -> bool {
    forall|i: int, j: int| 0 <= i < j < s.len() ==> s[i].key@ != s[j].key@
}

spec fn has_key(s: Seq<Slot>, k: Seq<char>) -> bool {
    exists|i: int| 0 <= i < s.len() && s[i].key@ == k
}

spec fn index_of(s: Seq<Slot>, k: Seq<char>) -> int {
    choose|i: int| 0 <= i < s.len() && s[i].key@ == k
}

spec fn map_of(s: Seq<Slot>) -> Map<Seq<char>, EntryView> {
    Map::new(|k: Seq<char>| has_key(s, k), |k: Seq<char>| slot_view(s[index_of(s, k)]))
}

/// With unique keys, the slot at index `i` is exactly what the map holds for
/// its key.
proof fn lemma_index_pins(s: Seq<Slot>, i: int)
    requires
        keys_unique(s),
        0 <= i < s.len(),
    ensures
        has_key(s, s[i].key@),
        index_of(s, s[i].key@) == i,
        map_of(s).contains_key(s[i].key@),
        map_of(s)[s[i].key@] == slot_view(s[i]),
{
    assert(has_key(s, s[i].key@));
    let j = index_of(s, s[i].key@);
    assert(0 <= j < s.len() && s[j].key@ == s[i].key@);
    if i < j {
        assert(s[i].key@ != s[j].key@);
    } else if j < i {
        assert(s[j].key@ != s[i].key@);
    }
}

/// A key at no index is not in the map.
proof fn lemma_absent(s: Seq<Slot>, k: Seq<char>)
    requires
        !has_key(s, k),
    ensures
        !map_of(s).contains_key(k),
{
}

/// Replacing the slot at index `i` with one that keeps its key overwrites
/// exactly that key's entry in the map.
proof fn lemma_update_same_key(s: Seq<Slot>, i: int, t: Slot)
    requires
        keys_unique(s),
        0 <= i < s.len(),
        t.key@ == s[i].key@,
    ensures
        keys_unique(s.update(i, t)),
        map_of(s.update(i, t)) == map_of(s).insert(t.key@, slot_view(t)),
{
    let s2 = s.update(i, t);
    assert forall|a: int, b: int| 0 <= a < b < s2.len() implies s2[a].key@ != s2[b].key@ by {
        assert(s[a].key@ != s[b].key@);
    }
    assert forall|k: Seq<char>| has_key(s2, k) == has_key(s, k) by {
        if has_key(s2, k) {
            let a = choose|a: int| 0 <= a < s2.len() && s2[a].key@ == k;
            assert(s[a].key@ == k);
        }
        if has_key(s, k) {
            let a = choose|a: int| 0 <= a < s.len() && s[a].key@ == k;
            assert(s2[a].key@ == k);
        }
    }
    assert forall|k: Seq<char>| #[trigger] has_key(s2, k) implies map_of(s2)[k] == map_of(s).insert(
        t.key@,
        slot_view(t),
    )[k] by {
        let a = index_of(s2, k);
        assert(0 <= a < s2.len() && s2[a].key@ == k);
        lemma_index_pins(s2, a);
        if k == t.key@ {
            lemma_index_pins(s2, i);
            assert(a == i);
        } else {
            assert(a != i);
            lemma_index_pins(s, a);
        }
    }
    assert(map_of(s2) =~= map_of(s).insert(t.key@, slot_view(t)));
}

/// Appending a slot with a key held by no other slot adds exactly that
/// key's entry to the map.
proof fn lemma_push_new_key(s: Seq<Slot>, t: Slot)
    requires
        keys_unique(s),
        !has_key(s, t.key@),
    ensures
        keys_unique(s.push(t)),
        map_of(s.push(t)) == map_of(s).insert(t.key@, slot_view(t)),
{
    let s2 = s.push(t);
    assert forall|a: int, b: int| 0 <= a < b < s2.len() implies s2[a].key@ != s2[b].key@ by {
        if b < s.len() {
            assert(s[a].key@ != s[b].key@);
        } else {
            assert(s2[b] == t);
            assert(s[a].key@ == s2[a].key@);
        }
    }
    assert forall|k: Seq<char>| #[trigger] has_key(s2, k) == (has_key(s, k) || k == t.key@) by {
        if has_key(s2, k) {
            let a = choose|a: int| 0 <= a < s2.len() && s2[a].key@ == k;
            if a < s.len() {
                assert(s[a].key@ == k);
            }
        }
        if has_key(s, k) {
            let a = choose|a: int| 0 <= a < s.len() && s[a].key@ == k;
            assert(s2[a].key@ == k);
        }
        if k == t.key@ {
            assert(s2[s.len() as int].key@ == k);
        }
    }
    assert forall|k: Seq<char>| #[trigger] has_key(s2, k) implies map_of(s2)[k] == map_of(s).insert(
        t.key@,
        slot_view(t),
    )[k] by {
        let a = index_of(s2, k);
        assert(0 <= a < s2.len() && s2[a].key@ == k);
        lemma_index_pins(s2, a);
        if k == t.key@ {
            lemma_index_pins(s2, s.len() as int);
            assert(a == s.len());
        } else {
            assert(a < s.len());
            lemma_index_pins(s, a);
        }
    }
    assert(map_of(s2) =~= map_of(s).insert(t.key@, slot_view(t)));
}

/// The sweep loop's bookkeeping, witnessed without quantifier witnesses:
/// `idx` maps each kept position to the origin index its slot came from,
/// and `pos` maps each fresh origin index at or past `m` to the kept
/// position holding its slot.
spec fn sweep_inv(
    kept: Seq<Slot>,
    orig: Seq<Slot>,
    idx: Seq<int>,
    pos: Seq<int>,
    m: int,
    lifetime: u64,
    now: u64,
) -> bool {
    &&& idx.len() == kept.len()
    &&& forall|t: int| 0 <= t < idx.len() ==> m <= #[trigger] idx[t] < orig.len()
    &&& forall|t: int| 0 <= t < idx.len() ==> kept[t] == orig[#[trigger] idx[t]]
    &&& forall|t: int|
        0 <= t < idx.len() ==> slot_fresh(orig[#[trigger] idx[t]], lifetime, now)
    &&& forall|t1: int, t2: int|
        0 <= t1 < t2 < idx.len() ==> #[trigger] idx[t1] > #[trigger] idx[t2]
    &&& pos.len() == orig.len()
    &&& forall|j: int|
        m <= j < orig.len() && slot_fresh(#[trigger] orig[j], lifetime, now) ==> 0 <= pos[j]
            < kept.len() && kept[pos[j]] == orig[j]
}

/// One sweep step that keeps the fresh slot `orig[m]` by appending it.
proof fn lemma_keep_step(
    kept: Seq<Slot>,
    orig: Seq<Slot>,
    idx: Seq<int>,
    pos: Seq<int>,
    m: int,
    lifetime: u64,
    now: u64,
)
    requires
        0 <= m < orig.len(),
        slot_fresh(orig[m], lifetime, now),
        sweep_inv(kept, orig, idx, pos, m + 1, lifetime, now),
    ensures
        sweep_inv(
            kept.push(orig[m]),
            orig,
            idx.push(m),
            pos.update(m, kept.len() as int),
            m,
            lifetime,
            now,
        ),
{
    let kept2 = kept.push(orig[m]);
    let idx2 = idx.push(m);
    let pos2 = pos.update(m, kept.len() as int);
    assert forall|j: int|
        m <= j < orig.len() && slot_fresh(#[trigger] orig[j], lifetime, now) implies 0 <= pos2[j]
        < kept2.len() && kept2[pos2[j]] == orig[j] by {
        if j == m {
            assert(pos2[j] == kept.len() as int);
            assert(kept2[kept.len() as int] == orig[m]);
        } else {
            assert(pos2[j] == pos[j]);
            assert(kept2[pos[j]] == kept[pos[j]]);
        }
    }
}

/// One sweep step that drops the stale slot `orig[m]`.
proof fn lemma_drop_step(
    kept: Seq<Slot>,
    orig: Seq<Slot>,
    idx: Seq<int>,
    pos: Seq<int>,
    m: int,
    lifetime: u64,
    now: u64,
)
    requires
        0 <= m < orig.len(),
        !slot_fresh(orig[m], lifetime, now),
        sweep_inv(kept, orig, idx, pos, m + 1, lifetime, now),
    ensures
        sweep_inv(kept, orig, idx, pos, m, lifetime, now),
{
}

/// When the whole of `orig` has been swept into `kept`, `kept` holds
/// exactly the fresh entries of `orig`, unchanged, under timestamps
/// bounded by `c`.
proof fn lemma_sweep_final(
    kept: Seq<Slot>,
    orig: Seq<Slot>,
    idx: Seq<int>,
    pos: Seq<int>,
    c: u64,
    lifetime: u64,
    now: u64,
)
    requires
        keys_unique(orig),
        forall|j: int| 0 <= j < orig.len() ==> #[trigger] orig[j].last_touched <= c,
        sweep_inv(kept, orig, idx, pos, 0, lifetime, now),
    ensures
        keys_unique(kept),
        forall|t: int| 0 <= t < kept.len() ==> #[trigger] kept[t].last_touched <= c,
        sweep_post(map_of(orig), map_of(kept), lifetime, now),
{
    assert forall|t1: int, t2: int|
        0 <= t1 < t2 < kept.len() implies kept[t1].key@ != kept[t2].key@ by {
        if idx[t2] < idx[t1] {
            assert(orig[idx[t2]].key@ != orig[idx[t1]].key@);
        }
    }
    assert forall|t: int| 0 <= t < kept.len() implies #[trigger] kept[t].last_touched <= c by {
        assert(kept[t] == orig[idx[t]]);
    }
    let pre = map_of(orig);
    let post = map_of(kept);
    assert forall|k: Seq<char>| #[trigger] post.contains_key(k) implies pre.contains_key(k)
        && entry_is_fresh(pre[k], lifetime, now) && post[k] == pre[k] by {
        assert(has_key(kept, k));
        let t = choose|t: int| 0 <= t < kept.len() && kept[t].key@ == k;
        lemma_index_pins(kept, t);
        let j = idx[t];
        assert(kept[t] == orig[j]);
        lemma_index_pins(orig, j);
        assert(pre[k] == slot_view(orig[j]));
        assert(post[k] == slot_view(kept[t]));
    }
    assert forall|k: Seq<char>|
        pre.contains_key(k) && entry_is_fresh(pre[k], lifetime, now) implies #[trigger] post
        .contains_key(k) by {
        assert(has_key(orig, k));
        let j = choose|j: int| 0 <= j < orig.len() && orig[j].key@ == k;
        lemma_index_pins(orig, j);
        assert(pre[k] == slot_view(orig[j]));
        assert(slot_fresh(orig[j], lifetime, now));
        let t = pos[j];
        assert(kept[t] == orig[j]);
        assert(kept[t].key@ == k);
        assert(has_key(kept, k));
    }
}

/// The shared cache: a set of key-distinct slots plus the latest time the
/// store has seen. The binary guards a `CacheStore` with a lock so that
/// lookups may share access while `put`, `touch` and `sweep` run exclusively;
/// nothing here depends on that discipline beyond the `now >=
/// self.clock()` requirement, which any monotonic clock satisfies.
pub struct CacheStore {
    slots: Vec<Slot>,
    clk: u64,
}

impl CacheStore {
    /// What the store holds: a map from key to entry.
    pub closed spec fn contents(&self) -> Map<Seq<char>, EntryView> {
        map_of(self.slots@)
    }

    /// The latest time this store has seen; no entry's `last_touched`
    /// exceeds it.
    pub closed spec fn clock(&self) -> u64 {
        self.clk
    }

    /// Well-formedness: no two slots share a key, and no timestamp is in
    /// the store's future.
    pub closed spec fn wf(&self) -> bool {
        &&& keys_unique(self.slots@)
        &&& forall|i: int|
            0 <= i < self.slots@.len() ==> #[trigger] self.slots@[i].last_touched <= self.clk
    }

    /// An empty store at time zero.
    pub fn new() -> (s: CacheStore)
        ensures
            s.wf(),
            s.contents() == Map::<Seq<char>, EntryView>::empty(),
            s.clock() == 0,
    {
        let s = CacheStore { slots: Vec::new(), clk: 0 };
        proof {
            assert(s.contents() =~= Map::<Seq<char>, EntryView>::empty());
        }
        s
    }

    /// The store's idea of "now" so far; a caller clamps its clock reading
    /// to at least this before mutating.
    pub fn current_clock(&self) -> (t: u64)
        ensures
            t == self.clock(),
    {
        self.clk
    }

    /// Returns a copy of the stored body for `key`, present or not —
    /// freshness is the sweeper's business, not lookup's, so an entry is
    /// served right up until a sweep removes it.
    pub fn get(&self, key: &str) -> (r: Option<String>)
        requires
            self.wf(),
        ensures
            match r {
                Some(b) => self.contents().contains_key(key@) && b@ == self.contents()[key@].body,
                None => !self.contents().contains_key(key@),
            },
    {
        let want = String::from_str(key);
        let n = self.slots.len();
        let mut i: usize = 0;
        while i < n
            invariant
                self.wf(),
                n == self.slots@.len(),
                i <= n,
                want@ == key@,
                forall|j: int| 0 <= j < i ==> self.slots@[j].key@ != key@,
            decreases n - i,
        {
            let t = &self.slots[i];
            if t.key == want {
                proof {
                    lemma_index_pins(self.slots@, i as int);
                }
                return Some(t.body.clone());
            }
            i = i + 1;
        }
        proof {
            lemma_absent(self.slots@, key@);
        }
        None
    }

    /// Resets the clock of the entry for `key` to `now`, deferring its
    /// expiry without changing its body. Finding the key gone — a race
    /// against the sweeper, equivalent to a miss a moment later — is a
    /// benign no-op, not an error.
    pub fn touch(&mut self, key: &str, now: u64)
        requires
            old(self).wf(),
            now >= old(self).clock(),
        ensures
            final(self).wf(),
            touch_post(old(self).contents(), final(self).contents(), key@, now),
            old(self).contents().contains_key(key@) ==> final(self).clock() == now,
            !old(self).contents().contains_key(key@) ==> final(self).clock() == old(self).clock(),
    {
        let want = String::from_str(key);
        let n = self.slots.len();
        let mut i: usize = 0;
        while i < n
            invariant
                old(self).wf(),
                now >= old(self).clock(),
                self.slots@ == old(self).slots@,
                self.clk == old(self).clk,
                n == self.slots@.len(),
                i <= n,
                want@ == key@,
                forall|j: int| 0 <= j < i ==> self.slots@[j].key@ != key@,
            decreases n - i,
        {
            let hit = {
                let t = &self.slots[i];
                t.key == want
            };
            if hit {
                proof {
                    lemma_index_pins(self.slots@, i as int);
                }
                let kept_body = {
                    let t = &self.slots[i];
                    t.body.clone()
                };
                self.slots[i] = Slot { key: want, body: kept_body, last_touched: now };
                self.clk = now;
                proof {
                    let s_old = old(self).slots@;
                    let t = self.slots@[i as int];
                    assert(self.slots@ == s_old.update(i as int, t));
                    assert(t.key@ == key@ && t.body@ == s_old[i as int].body@ && t.last_touched
                        == now);
                    lemma_update_same_key(s_old, i as int, t);
                    assert(slot_view(t) == EntryView {
                        body: old(self).contents()[key@].body,
                        last_touched: now,
                    });
                    assert forall|j: int|
                        0 <= j < self.slots@.len() implies #[trigger] self.slots@[j].last_touched
                        <= self.clk by {
                        if j != i {
                            assert(self.slots@[j] == s_old[j]);
                            assert(s_old[j].last_touched <= old(self).clk);
                        }
                    }
                }
                return;
            }
            i = i + 1;
        }
        proof {
            lemma_absent(self.slots@, key@);
        }
    }

    /// Inserts or overwrites the entry for `key` with `body`, stamped with
    /// a fresh `last_touched` of `now`. Overwriting replaces the whole
    /// entry; no trace of the previous body survives.
    pub fn put(&mut self, key: &str, body: String, now: u64)
        requires
            old(self).wf(),
            now >= old(self).clock(),
        ensures
            final(self).wf(),
            final(self).clock() == now,
            put_post(old(self).contents(), final(self).contents(), key@, body@, now),
    {
        let ghost bv = body@;
        let want = String::from_str(key);
        let n = self.slots.len();
        let mut i: usize = 0;
        while i < n
            invariant
                old(self).wf(),
                now >= old(self).clock(),
                self.slots@ == old(self).slots@,
                self.clk == old(self).clk,
                n == self.slots@.len(),
                i <= n,
                want@ == key@,
                bv == body@,
                forall|j: int| 0 <= j < i ==> self.slots@[j].key@ != key@,
            decreases n - i,
        {
            let hit = {
                let t = &self.slots[i];
                t.key == want
            };
            if hit {
                proof {
                    lemma_index_pins(self.slots@, i as int);
                }
                self.slots[i] = Slot { key: want, body, last_touched: now };
                self.clk = now;
                proof {
                    let s_old = old(self).slots@;
                    let t = self.slots@[i as int];
                    assert(self.slots@ == s_old.update(i as int, t));
                    assert(t.key@ == key@ && t.body@ == bv && t.last_touched == now);
                    lemma_update_same_key(s_old, i as int, t);
                    assert(slot_view(t) == EntryView { body: bv, last_touched: now });
                    assert forall|j: int|
                        0 <= j < self.slots@.len() implies #[trigger] self.slots@[j].last_touched
                        <= self.clk by {
                        if j != i {
                            assert(self.slots@[j] == s_old[j]);
                            assert(s_old[j].last_touched <= old(self).clk);
                        }
                    }
                }
                return;
            }
            i = i + 1;
        }
        proof {
            lemma_absent(self.slots@, key@);
        }
        self.slots.push(Slot { key: want, body, last_touched: now });
        self.clk = now;
        proof {
            let s_old = old(self).slots@;
            let t = self.slots@[s_old.len() as int];
            assert(self.slots@ == s_old.push(t));
            assert(t.key@ == key@ && t.body@ == bv && t.last_touched == now);
            lemma_push_new_key(s_old, t);
            assert(slot_view(t) == EntryView { body: bv, last_touched: now });
            assert forall|j: int|
                0 <= j < self.slots@.len() implies #[trigger] self.slots@[j].last_touched
                <= self.clk by {
                if j < s_old.len() {
                    assert(self.slots@[j] == s_old[j]);
                    assert(s_old[j].last_touched <= old(self).clk);
                }
            }
        }
    }

    /// Removes every entry whose age at `now` has reached `lifetime`, in one
    /// full pass over the map: no stale entry survives the sweep, and every
    /// fresh entry comes through unchanged.
    pub fn sweep(&mut self, lifetime: u64, now: u64)
        requires
            old(self).wf(),
            now >= old(self).clock(),
        ensures
            final(self).wf(),
            final(self).clock() == now,
            sweep_post(old(self).contents(), final(self).contents(), lifetime, now),
    {
        let ghost orig = old(self).slots@;
        let mut kept: Vec<Slot> = Vec::new();
        let ghost mut idx: Seq<int> = Seq::empty();
        let ghost mut pos: Seq<int> = Seq::new(orig.len(), |j: int| 0);
        proof {
            assert(sweep_inv(kept@, orig, idx, pos, orig.len() as int, lifetime, now));
        }
        while self.slots.len() > 0
            invariant
                old(self).wf(),
                now >= old(self).clock(),
                orig == old(self).slots@,
                self.clk == old(self).clk,
                self.slots@ == orig.subrange(0, self.slots@.len() as int),
                self.slots@.len() <= orig.len(),
                sweep_inv(kept@, orig, idx, pos, self.slots@.len() as int, lifetime, now),
            decreases self.slots@.len(),
        {
            let ghost m = self.slots@.len() as int - 1;
            let ghost kept_old = kept@;
            let slot = self.slots.pop().unwrap();
            proof {
                assert(slot == orig[m]);
                assert(self.slots@ =~= orig.subrange(0, self.slots@.len() as int));
                assert(orig[m].last_touched <= old(self).clk);
            }
            if now - slot.last_touched < lifetime {
                kept.push(slot);
                proof {
                    lemma_keep_step(kept_old, orig, idx, pos, m, lifetime, now);
                    idx = idx.push(m);
                    pos = pos.update(m, kept_old.len() as int);
                }
            } else {
                proof {
                    assert(!slot_fresh(orig[m], lifetime, now));
                    lemma_drop_step(kept@, orig, idx, pos, m, lifetime, now);
                }
            }
        }
        self.slots = kept;
        self.clk = now;
        proof {
            lemma_sweep_final(self.slots@, orig, idx, pos, old(self).clk, lifetime, now);
        }
    }
}


/// Freshness law: across a sweep at time `now`, an entry present before it
/// survives, unchanged, exactly when it was still fresh — and once its age
/// reached the lifetime, it is gone.
pub proof fn lemma_sweep_freshness(
    pre: Map<Seq<char>, EntryView>,
    post: Map<Seq<char>, EntryView>,
    lifetime: u64,
    now: u64,
    k: Seq<char>,
)
    requires
        pre.contains_key(k),
        sweep_post(pre, post, lifetime, now),
    ensures
        post.contains_key(k) <==> entry_is_fresh(pre[k], lifetime, now),
        post.contains_key(k) ==> post[k] == pre[k],
{
}

/// Touch resets age: an entry touched at `touch_time` survives a later
/// sweep at `sweep_time` exactly when the sweep comes within `lifetime` of
/// the touch — the touch, not the original insertion, decides.
pub proof fn lemma_touch_defers_expiry(
    pre: Map<Seq<char>, EntryView>,
    mid: Map<Seq<char>, EntryView>,
    post: Map<Seq<char>, EntryView>,
    k: Seq<char>,
    touch_time: u64,
    lifetime: u64,
    sweep_time: u64,
)
    requires
        pre.contains_key(k),
        touch_post(pre, mid, k, touch_time),
        sweep_post(mid, post, lifetime, sweep_time),
    ensures
        post.contains_key(k) <==> sweep_time - touch_time < lifetime,
        post.contains_key(k) ==> post[k].body == pre[k].body && post[k].last_touched
            == touch_time,
{
    assert(mid.contains_key(k) && mid[k].last_touched == touch_time && mid[k].body
        == pre[k].body);
}

/// Put overwrites: after `put(k, b1)` and then `put(k, b2)`, a lookup of
/// `k` finds `b2` — and never `b1`, whenever the two differ.
pub proof fn lemma_put_overwrites(
    pre: Map<Seq<char>, EntryView>,
    mid: Map<Seq<char>, EntryView>,
    post: Map<Seq<char>, EntryView>,
    k: Seq<char>,
    b1: Seq<char>,
    t1: u64,
    b2: Seq<char>,
    t2: u64,
)
    requires
        put_post(pre, mid, k, b1, t1),
        put_post(mid, post, k, b2, t2),
    ensures
        post.contains_key(k),
        post[k].body == b2,
        b1 != b2 ==> post[k].body != b1,
{
}

/// Serialized writers: two puts for the same key, in whichever order the
/// store's exclusive-access discipline admitted them, leave it holding one
/// of the two bodies whole — never a mixture.
pub proof fn lemma_serialized_puts(
    pre: Map<Seq<char>, EntryView>,
    mid: Map<Seq<char>, EntryView>,
    post: Map<Seq<char>, EntryView>,
    k: Seq<char>,
    b1: Seq<char>,
    t1: u64,
    b2: Seq<char>,
    t2: u64,
)
    requires
        put_post(pre, mid, k, b1, t1),
        put_post(mid, post, k, b2, t2),
    ensures
        post.contains_key(k),
        post[k].body == b1 || post[k].body == b2,
{
}

} // verus!
