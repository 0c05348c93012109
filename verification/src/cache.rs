//! Deterministic coordinate-cache capacity, freshness, and invalidation.

use vstd::prelude::*;
use crate::bytes::{lex_order, lemma_lex_antisym, lemma_lex_trans, bytes16_order, bytes16_equal};

verus! {

broadcast use vstd::array::group_array_axioms;

/// Stable coordinate cache key.
pub type CacheKey = [u8; 16];

/// One cached coordinate path.
#[derive(Debug, Clone, PartialEq, Eq)]
pub struct CoordinateEntry {
    /// Destination address.
    pub destination: CacheKey,
    /// Root generation under which the path was learned.
    pub root: CacheKey,
    /// Stable node-ID path.
    pub path: Vec<u32>,
    /// Executable-codec coordinate bytes.
    pub coordinate_bytes: u64,
    /// Absolute expiry.
    pub expires_at_ns: u64,
    /// Monotonic deterministic LRU touch.
    pub last_touch: u64,
}

/// Cache counters used by recovery reports.
#[derive(Debug, Clone, Copy, PartialEq, Eq, Structural)]
pub struct CacheCounters {
    /// Successful insert or refresh operations.
    pub insertions: u64,
    /// Successful fresh reads.
    pub hits: u64,
    /// Absent or expired reads.
    pub misses: u64,
    /// Expired entries removed on access/sweep.
    pub expirations: u64,
    /// Capacity evictions.
    pub evictions: u64,
    /// Entries invalidated by topology change.
    pub invalidations: u64,
    /// Coordinate bytes learned during warmup.
    pub warmup_bytes: u64,
    /// Maximum simultaneously active entries.
    pub peak_entries: u64,
    /// Maximum coordinate memory.
    pub peak_bytes: u64,
}

/// All-zero cache counters.
pub open spec fn spec_zero_cache_counters() -> CacheCounters {
    CacheCounters {
        insertions: 0,
        hits: 0,
        misses: 0,
        expirations: 0,
        evictions: 0,
        invalidations: 0,
        warmup_bytes: 0,
        peak_entries: 0,
        peak_bytes: 0,
    }
}

impl Default for CacheCounters {
    fn default() -> (r: Self)
        ensures
            r == spec_zero_cache_counters(),
    {
        CacheCounters {
            insertions: 0,
            hits: 0,
            misses: 0,
            expirations: 0,
            evictions: 0,
            invalidations: 0,
            warmup_bytes: 0,
            peak_entries: 0,
            peak_bytes: 0,
        }
    }
}

/// Why a topology change invalidates cached coordinates.
#[derive(Debug, Clone, Copy, PartialEq, Eq)]
pub enum Invalidation {
    /// One destination disappeared.
    Node(CacheKey),
    /// Global root generation changed.
    Root(CacheKey),
    /// A local ancestor was replaced; invalidate only paths containing it.
    PathNode(u32),
}

/// Whether an invalidation reaches an entry.
pub open spec fn spec_invalidates(cause: Invalidation, e: CoordinateEntry) -> bool {
    match cause {
        Invalidation::Node(d) => e.destination == d,
        Invalidation::Root(r) => e.root == r,
        Invalidation::PathNode(n) => e.path@.contains(n),
    }
}

/// Whether an entry has expired at `now`.
pub open spec fn spec_expired(e: CoordinateEntry, now: u64) -> bool {
    e.expires_at_ns <= now
}

/// Entries still fresh at `now`, in storage order.
pub open spec fn spec_live(s: Seq<CoordinateEntry>, now: u64) -> Seq<CoordinateEntry> {
    s.filter(|e: CoordinateEntry| !spec_expired(e, now))
}

/// Entries an invalidation leaves, in storage order.
pub open spec fn spec_surviving(s: Seq<CoordinateEntry>, cause: Invalidation) -> Seq<CoordinateEntry> {
    s.filter(|e: CoordinateEntry| !spec_invalidates(cause, e))
}

/// Total coordinate bytes of a sequence of entries.
pub open spec fn entries_bytes(s: Seq<CoordinateEntry>) -> int
    decreases s.len(),
{
    if s.len() == 0 {
        0
    } else {
        entries_bytes(s.drop_last()) + s.last().coordinate_bytes
    }
}

/// No destination occurs twice.
pub open spec fn unique_destinations(s: Seq<CoordinateEntry>) -> bool {
    forall|i: int, j: int| 0 <= i < j < s.len() ==> (#[trigger] s[i]).destination != (#[trigger] s[j]).destination
}

/// Position of the entry for a destination, if any.
pub open spec fn position_of(s: Seq<CoordinateEntry>, k: CacheKey) -> Option<int> {
    if exists|i: int| 0 <= i < s.len() && (#[trigger] s[i]).destination == k {
        Some(choose|i: int| 0 <= i < s.len() && (#[trigger] s[i]).destination == k)
    } else {
        None
    }
}

/// Eviction order: least recently touched first, then by destination bytes.
pub open spec fn lru_before(a: CoordinateEntry, b: CoordinateEntry) -> bool {
    a.last_touch < b.last_touch || (a.last_touch == b.last_touch && lex_order(a.destination@, b.destination@) < 0)
}

/// Entry `i` comes first in eviction order.
pub open spec fn is_lru(s: Seq<CoordinateEntry>, i: int) -> bool {
    &&& 0 <= i < s.len()
    &&& forall|j: int| 0 <= j < s.len() && j != i ==> lru_before(s[i], #[trigger] s[j])
}

/// The eviction victim of a non-empty sequence.
pub open spec fn lru_index(s: Seq<CoordinateEntry>) -> int {
    choose|i: int| is_lru(s, i)
}

/// Whether admitting `k` into the entries `s0` must first evict.
pub open spec fn spec_evicts(s0: Seq<CoordinateEntry>, capacity: nat, k: CacheKey) -> bool {
    position_of(s0, k) is None && s0.len() >= capacity && s0.len() > 0
}

/// Entries after admitting `entry` into the fresh entries `s0`: refresh in place,
/// or evict the least recently touched entry when full and append.
pub open spec fn spec_admitted(s0: Seq<CoordinateEntry>, capacity: nat, entry: CoordinateEntry) -> Seq<CoordinateEntry> {
    match position_of(s0, entry.destination) {
        Some(i) => s0.update(i, entry),
        None => {
            let s1 = if spec_evicts(s0, capacity, entry.destination) { s0.remove(lru_index(s0)) } else { s0 };
            if capacity > 0 {
                s1.push(entry)
            } else {
                s1
            }
        },
    }
}

/// The entry admitted for a destination with a touch stamp.
pub open spec fn spec_new_entry(destination: CacheKey, root: CacheKey, path: Vec<u32>, now: u64, ttl: u64, touch: u64) -> CoordinateEntry {
    CoordinateEntry {
        destination,
        root,
        path,
        coordinate_bytes: (2 + 16 * path@.len()) as u64,
        expires_at_ns: sat_add(now, ttl as int),
        last_touch: touch,
    }
}

/// Counters after an insertion that expired `expired` entries, perhaps evicted one
/// and, when `admitted`, added `bytes` coordinate bytes leaving `len` entries of `total` bytes.
pub open spec fn spec_insert_counters(
    c: CacheCounters,
    expired: int,
    evicted: bool,
    admitted: bool,
    bytes: u64,
    len: int,
    total: int,
) -> CacheCounters {
    let c1 = CacheCounters {
        expirations: sat_add(c.expirations, expired),
        evictions: if evicted { (c.evictions + 1) as u64 } else { c.evictions },
        ..c
    };
    if admitted {
        CacheCounters {
            warmup_bytes: sat_add(c1.warmup_bytes, bytes as int),
            insertions: sat_add(c1.insertions, 1),
            peak_entries: if c1.peak_entries > len { c1.peak_entries } else { len as u64 },
            peak_bytes: if c1.peak_bytes > total { c1.peak_bytes } else { total as u64 },
            ..c1
        }
    } else {
        c1
    }
}

/// Whether a read cannot overflow the counters it bumps.
pub open spec fn spec_get_admissible(s: Seq<CoordinateEntry>, c: CacheCounters, k: CacheKey, now: u64) -> bool {
    match position_of(s, k) {
        None => c.misses < u64::MAX,
        Some(i) => if spec_expired(s[i], now) {
            c.expirations < u64::MAX && c.misses < u64::MAX
        } else {
            c.hits < u64::MAX
        },
    }
}

/// Which entries a sweep removes.
enum Sweep {
    Expired(u64),
    Invalidated(Invalidation),
}

spec fn spec_doomed(rule: Sweep, e: CoordinateEntry) -> bool {
    match rule {
        Sweep::Expired(now) => spec_expired(e, now),
        Sweep::Invalidated(cause) => spec_invalidates(cause, e),
    }
}

proof fn lemma_unique_filter(s: Seq<CoordinateEntry>, p: spec_fn(CoordinateEntry) -> bool)
    requires
        unique_destinations(s),
    ensures
        unique_destinations(s.filter(p)),
    decreases s.len(),
{
    reveal(Seq::filter);
    if s.len() > 0 {
        let rest = s.drop_last();
        assert(unique_destinations(rest)) by {
            assert forall|i: int, j: int| 0 <= i < j < rest.len() implies (#[trigger] rest[i]).destination != (#[trigger] rest[j]).destination by {
                assert(rest[i] == s[i] && rest[j] == s[j]);
            }
        }
        lemma_unique_filter(rest, p);
        let f = rest.filter(p);
        if p(s.last()) {
            let out = f.push(s.last());
            assert forall|i: int, j: int| 0 <= i < j < out.len() implies (#[trigger] out[i]).destination != (#[trigger] out[j]).destination by {
                if j < f.len() {
                    assert(out[i] == f[i] && out[j] == f[j]);
                } else {
                    assert(out[i] == f[i]);
                    assert(f.contains(f[i]));
                    rest.lemma_filter_contains_rev(p, f[i]);
                    let k = choose|k: int| 0 <= k < rest.len() && rest[k] == f[i];
                    assert(s[k] == rest[k]);
                    assert(s[k].destination != s[s.len() - 1].destination);
                }
            }
        }
    }
}

proof fn lemma_bytes_filter(s: Seq<CoordinateEntry>, p: spec_fn(CoordinateEntry) -> bool)
    ensures
        0 <= entries_bytes(s.filter(p)) <= entries_bytes(s),
    decreases s.len(),
{
    reveal(Seq::filter);
    if s.len() > 0 {
        lemma_bytes_filter(s.drop_last(), p);
        let f = s.drop_last().filter(p);
        if p(s.last()) {
            assert(f.push(s.last()).drop_last() =~= f);
        }
    }
}

proof fn lemma_bytes_prefix(s: Seq<CoordinateEntry>, k: int)
    requires
        0 <= k <= s.len(),
    ensures
        0 <= entries_bytes(s.take(k)) <= entries_bytes(s),
    decreases s.len(),
{
    if k == s.len() {
        assert(s.take(k) =~= s);
        lemma_bytes_filter(s, |e: CoordinateEntry| true);
    } else {
        lemma_bytes_prefix(s.drop_last(), k);
        assert(s.drop_last().take(k) =~= s.take(k));
    }
}

proof fn lemma_bytes_push(s: Seq<CoordinateEntry>, e: CoordinateEntry)
    ensures
        entries_bytes(s.push(e)) == entries_bytes(s) + e.coordinate_bytes,
{
    assert(s.push(e).drop_last() =~= s);
}

proof fn lemma_position_at(s: Seq<CoordinateEntry>, i: int)
    requires
        unique_destinations(s),
        0 <= i < s.len(),
    ensures
        position_of(s, s[i].destination) == Some(i),
{
    let k = s[i].destination;
    assert(s[i].destination == k);
    let j = choose|j: int| 0 <= j < s.len() && (#[trigger] s[j]).destination == k;
    if j < i {
        assert(s[j].destination != s[i].destination);
    } else if j > i {
        assert(s[i].destination != s[j].destination);
    }
}

proof fn lemma_lru_unique(s: Seq<CoordinateEntry>, v: int)
    requires
        is_lru(s, v),
    ensures
        lru_index(s) == v,
{
    let w = lru_index(s);
    if w != v {
        assert(lru_before(s[w], s[v]));
        assert(lru_before(s[v], s[w]));
        lemma_lex_antisym(s[w].destination@, s[v].destination@);
    }
}

/// Saturating sum of a counter and a non-negative amount.
pub open spec fn sat_add(a: u64, b: int) -> u64 {
    if a + b > u64::MAX {
        u64::MAX
    } else {
        (a + b) as u64
    }
}

/// Whether a path visits a node.
fn path_contains(path: &Vec<u32>, node: u32) -> (r: bool)
    ensures
        r == path@.contains(node),
{
    let mut i: usize = 0;
    while i < path.len()
        invariant
            i <= path@.len(),
            forall|k: int| 0 <= k < i ==> path@[k] != node,
        decreases path@.len() - i,
    {
        if path[i] == node {
            return true;
        }
        i = i + 1;
    }
    false
}

proof fn lemma_bytes_concat(a: Seq<CoordinateEntry>, b: Seq<CoordinateEntry>)
    ensures
        entries_bytes(a + b) == entries_bytes(a) + entries_bytes(b),
    decreases b.len(),
{
    if b.len() > 0 {
        lemma_bytes_concat(a, b.drop_last());
        assert((a + b).drop_last() =~= a + b.drop_last());
    } else {
        assert(a + b =~= a);
    }
}

proof fn lemma_bytes_split(s: Seq<CoordinateEntry>, i: int, e: CoordinateEntry)
    requires
        0 <= i < s.len(),
    ensures
        entries_bytes(s) == entries_bytes(s.take(i)) + s[i].coordinate_bytes + entries_bytes(s.skip(i + 1)),
        entries_bytes(s.remove(i)) == entries_bytes(s) - s[i].coordinate_bytes,
        entries_bytes(s.update(i, e)) == entries_bytes(s) - s[i].coordinate_bytes + e.coordinate_bytes,
{
    let head = s.take(i);
    let tail = s.skip(i + 1);
    assert(s =~= head.push(s[i]) + tail);
    assert(s.remove(i) =~= head + tail);
    assert(s.update(i, e) =~= head.push(e) + tail);
    lemma_bytes_concat(head.push(s[i]), tail);
    lemma_bytes_concat(head, tail);
    lemma_bytes_concat(head.push(e), tail);
    lemma_bytes_push(head, s[i]);
    lemma_bytes_push(head, e);
}

proof fn lemma_unique_remove(s: Seq<CoordinateEntry>, i: int)
    requires
        unique_destinations(s),
        0 <= i < s.len(),
    ensures
        unique_destinations(s.remove(i)),
        forall|j: int| 0 <= j < s.remove(i).len() ==> s.contains(#[trigger] s.remove(i)[j]),
{
    let t = s.remove(i);
    assert forall|a: int, b: int| 0 <= a < b < t.len() implies (#[trigger] t[a]).destination != (#[trigger] t[b]).destination by {
        let a0 = if a < i { a } else { a + 1 };
        let b0 = if b < i { b } else { b + 1 };
        assert(t[a] == s[a0] && t[b] == s[b0]);
    }
    assert forall|j: int| 0 <= j < t.len() implies s.contains(#[trigger] t[j]) by {
        let j0 = if j < i { j } else { j + 1 };
        assert(t[j] == s[j0]);
    }
}

proof fn lemma_lru_total(a: CoordinateEntry, b: CoordinateEntry)
    requires
        a.destination != b.destination,
    ensures
        lru_before(a, b) || lru_before(b, a),
{
    lemma_lex_antisym(a.destination@, b.destination@);
    if lex_order(a.destination@, b.destination@) == 0 {
        assert forall|k: int| 0 <= k < 16 implies a.destination[k] == b.destination[k] by {
            assert(a.destination@[k] == b.destination@[k]);
        }
        assert(a.destination =~= b.destination);
    }
}

proof fn lemma_lru_trans(a: CoordinateEntry, b: CoordinateEntry, c: CoordinateEntry)
    requires
        lru_before(a, b),
        lru_before(b, c),
    ensures
        lru_before(a, c),
{
    if a.last_touch == b.last_touch && b.last_touch == c.last_touch {
        lemma_lex_trans(a.destination@, b.destination@, c.destination@);
    }
}

/// A non-empty sequence with unique destinations has an eviction victim.
proof fn lemma_lru_exists(s: Seq<CoordinateEntry>)
    requires
        unique_destinations(s),
        s.len() > 0,
    ensures
        is_lru(s, lru_index(s)),
    decreases s.len(),
{
    if s.len() == 1 {
        assert(is_lru(s, 0));
    } else {
        let t = s.drop_last();
        assert(unique_destinations(t)) by {
            assert forall|i: int, j: int| 0 <= i < j < t.len() implies (#[trigger] t[i]).destination != (#[trigger] t[j]).destination by {
                assert(t[i] == s[i] && t[j] == s[j]);
            }
        }
        lemma_lru_exists(t);
        let m = lru_index(t);
        let last = s.len() - 1;
        assert(s[m] == t[m]);
        assert(s[m].destination != s[last].destination);
        lemma_lru_total(s[m], s[last]);
        if lru_before(s[m], s[last]) {
            assert forall|j: int| 0 <= j < s.len() && j != m implies lru_before(s[m], #[trigger] s[j]) by {
                if j < last {
                    assert(t[j] == s[j]);
                }
            }
            assert(is_lru(s, m));
        } else {
            assert forall|j: int| 0 <= j < s.len() && j != last implies lru_before(s[last], #[trigger] s[j]) by {
                if j != m {
                    assert(t[j] == s[j]);
                    assert(lru_before(t[m], t[j]));
                    lemma_lru_trans(s[last], s[m], s[j]);
                }
            }
            assert(is_lru(s, last));
        }
    }
}

/// Admitting an entry always leaves its destination holding exactly that entry,
/// whether it refreshed an old one, evicted another or found room.
pub proof fn law_admitted_entry_is_held(s0: Seq<CoordinateEntry>, capacity: nat, e: CoordinateEntry)
    requires
        unique_destinations(s0),
        s0.len() <= capacity,
        capacity > 0,
    ensures
        ({
            let s = spec_admitted(s0, capacity, e);
            exists|i: int| 0 <= i < s.len() && s[i] == e
        }),
        spec_admitted(s0, capacity, e).len() <= capacity,
{
    let s = spec_admitted(s0, capacity, e);
    match position_of(s0, e.destination) {
        Some(i) => {
            let j = choose|j: int| 0 <= j < s0.len() && (#[trigger] s0[j]).destination == e.destination;
            assert(s[i] == e);
        },
        None => {
            if spec_evicts(s0, capacity, e.destination) {
                lemma_lru_exists(s0);
            }
            let s1 = if spec_evicts(s0, capacity, e.destination) { s0.remove(lru_index(s0)) } else { s0 };
            assert(s == s1.push(e));
            assert(s[s1.len() as int] == e);
        },
    }
}

/// An invalidation removes exactly the entries it reaches: nothing it reaches
/// survives, and every entry it does not reach is kept.
pub proof fn law_invalidation_scope(s: Seq<CoordinateEntry>, cause: Invalidation, e: CoordinateEntry)
    ensures
        spec_surviving(s, cause).contains(e) <==> (s.contains(e) && !spec_invalidates(cause, e)),
{
    let p = |x: CoordinateEntry| !spec_invalidates(cause, x);
    if spec_surviving(s, cause).contains(e) {
        s.lemma_filter_contains_rev(p, e);
        let k = choose|k: int| 0 <= k < s.filter(p).len() && s.filter(p)[k] == e;
        s.lemma_filter_pred(p, k);
    }
    if s.contains(e) && !spec_invalidates(cause, e) {
        let k = choose|k: int| 0 <= k < s.len() && s[k] == e;
        s.lemma_filter_contains(p, k);
    }
}

/// Bounded deterministic coordinate cache.
#[derive(Debug, Clone)]
pub struct CoordinateCache {
    capacity: usize,
    ttl_ns: u64,
    touch: u64,
    entries: Vec<CoordinateEntry>,
    /// Reconciled cache metrics.
    pub counters: CacheCounters,
}

impl CoordinateCache {
    /// Active entries in storage order.
    pub closed spec fn spec_entries(&self) -> Seq<CoordinateEntry> {
        self.entries@
    }

    /// Entry capacity.
    pub closed spec fn spec_capacity(&self) -> nat {
        self.capacity as nat
    }

    /// Time to live of every admitted or refreshed entry.
    pub closed spec fn spec_ttl(&self) -> u64 {
        self.ttl_ns
    }

    /// Reconciled cache metrics.
    pub closed spec fn spec_counters(&self) -> CacheCounters {
        self.counters
    }

    /// Last LRU touch handed out.
    pub closed spec fn spec_touch(&self) -> u64 {
        self.touch
    }

    /// At most `capacity` entries, one per destination, whose bytes fit 64 bits.
    pub closed spec fn wf(&self) -> bool {
        &&& self.entries@.len() <= self.capacity
        &&& unique_destinations(self.entries@)
        &&& entries_bytes(self.entries@) <= u64::MAX
    }

    /// Create a cache with explicit entry capacity and TTL.
    pub fn new(capacity: usize, ttl_ns: u64) -> (r: Self)
        ensures
            r.wf(),
            r.spec_entries() == Seq::<CoordinateEntry>::empty(),
            r.spec_capacity() == capacity,
            r.spec_ttl() == ttl_ns,
            r.spec_touch() == 0,
            r.spec_counters() == spec_zero_cache_counters(),
    {
        CoordinateCache { capacity, ttl_ns, touch: 0, entries: Vec::new(), counters: CacheCounters::default() }
    }

    /// Remove every entry a sweep rule dooms, keeping the others in order.
    fn sweep(&mut self, rule: &Sweep) -> (removed: u64)
        requires
            old(self).wf(),
        ensures
            final(self).wf(),
            final(self).entries@ == old(self).entries@.filter(|e: CoordinateEntry| !spec_doomed(*rule, e)),
            removed == old(self).entries@.len() - final(self).entries@.len(),
            final(self).capacity == old(self).capacity,
            final(self).ttl_ns == old(self).ttl_ns,
            final(self).touch == old(self).touch,
            final(self).counters == old(self).counters,
    {
        let ghost orig = self.entries@;
        let ghost keep = |e: CoordinateEntry| !spec_doomed(*rule, e);
        let ghost mut j: int = 0;
        let mut i: usize = 0;
        let mut removed: u64 = 0;
        while i < self.entries.len()
            invariant
                keep == (|e: CoordinateEntry| !spec_doomed(*rule, e)),
                0 <= j <= orig.len(),
                self.entries@ == orig.take(j).filter(keep) + orig.skip(j),
                i == orig.take(j).filter(keep).len(),
                removed == j - i,
                orig.len() <= usize::MAX,
                self.capacity == old(self).capacity,
                self.ttl_ns == old(self).ttl_ns,
                self.touch == old(self).touch,
                self.counters == old(self).counters,
            decreases orig.len() - j,
        {
            let ghost f = orig.take(j).filter(keep);
            proof {
                assert(orig.take(j + 1) =~= orig.take(j).push(orig[j]));
                orig.take(j).lemma_filter_push(orig[j], keep);
                assert(self.entries@[i as int] == orig[j]);
            }
            if self.doomed(rule, &self.entries[i]) {
                self.entries.remove(i);
                removed = removed + 1;
                proof {
                    assert(self.entries@ =~= f + orig.skip(j + 1));
                    j = j + 1;
                }
            } else {
                i = i + 1;
                proof {
                    assert(self.entries@ =~= f.push(orig[j]) + orig.skip(j + 1));
                    j = j + 1;
                }
            }
        }
        proof {
            assert(orig.take(j) =~= orig);
            assert(self.entries@ =~= orig.filter(keep));
            lemma_unique_filter(orig, keep);
            lemma_bytes_filter(orig, keep);
            orig.lemma_filter_len(keep);
        }
        removed
    }

    /// Whether a sweep rule dooms an entry.
    fn doomed(&self, rule: &Sweep, e: &CoordinateEntry) -> (r: bool)
        ensures
            r == spec_doomed(*rule, *e),
    {
        match rule {
            Sweep::Expired(now) => e.expires_at_ns <= *now,
            Sweep::Invalidated(Invalidation::Node(d)) => bytes16_equal(&e.destination, d),
            Sweep::Invalidated(Invalidation::Root(r)) => bytes16_equal(&e.root, r),
            Sweep::Invalidated(Invalidation::PathNode(n)) => path_contains(&e.path, *n),
        }
    }

    /// Apply a precisely scoped invalidation and return removed entries.
    pub fn invalidate(&mut self, cause: &Invalidation) -> (r: u64)
        requires
            old(self).wf(),
        ensures
            final(self).wf(),
            final(self).spec_entries() == spec_surviving(old(self).spec_entries(), *cause),
            r == old(self).spec_entries().len() - final(self).spec_entries().len(),
            final(self).spec_counters() == (CacheCounters {
                invalidations: sat_add(old(self).spec_counters().invalidations, r as int),
                ..old(self).spec_counters()
            }),
            final(self).spec_capacity() == old(self).spec_capacity(),
            final(self).spec_ttl() == old(self).spec_ttl(),
            final(self).spec_touch() == old(self).spec_touch(),
    {
        let rule = Sweep::Invalidated(*cause);
        let removed = self.sweep(&rule);
        proof {
            assert((|e: CoordinateEntry| !spec_doomed(rule, e)) =~= (|e: CoordinateEntry| !spec_invalidates(*cause, e)));
        }
        self.counters.invalidations = self.counters.invalidations.saturating_add(removed);
        removed
    }

    /// Remove all expired entries.
    pub fn expire(&mut self, now_ns: u64) -> (r: u64)
        requires
            old(self).wf(),
        ensures
            final(self).wf(),
            final(self).spec_entries() == spec_live(old(self).spec_entries(), now_ns),
            r == old(self).spec_entries().len() - final(self).spec_entries().len(),
            final(self).spec_counters() == (CacheCounters {
                expirations: sat_add(old(self).spec_counters().expirations, r as int),
                ..old(self).spec_counters()
            }),
            final(self).spec_capacity() == old(self).spec_capacity(),
            final(self).spec_ttl() == old(self).spec_ttl(),
            final(self).spec_touch() == old(self).spec_touch(),
    {
        let rule = Sweep::Expired(now_ns);
        let removed = self.sweep(&rule);
        proof {
            assert((|e: CoordinateEntry| !spec_doomed(rule, e)) =~= (|e: CoordinateEntry| !spec_expired(e, now_ns)));
        }
        self.counters.expirations = self.counters.expirations.saturating_add(removed);
        removed
    }

    /// Position of the entry for a destination.
    fn position(&self, k: &CacheKey) -> (r: Option<usize>)
        requires
            self.wf(),
        ensures
            match r {
                Some(i) => i < self.entries@.len() && position_of(self.entries@, *k) == Some(i as int),
                None => position_of(self.entries@, *k) is None,
            },
    {
        let mut i: usize = 0;
        while i < self.entries.len()
            invariant
                self.wf(),
                i <= self.entries@.len(),
                forall|j: int| 0 <= j < i ==> (#[trigger] self.entries@[j]).destination != *k,
            decreases self.entries@.len() - i,
        {
            if bytes16_equal(&self.entries[i].destination, k) {
                proof {
                    lemma_position_at(self.entries@, i as int);
                }
                return Some(i);
            }
            i = i + 1;
        }
        None
    }

    /// Position of the least recently touched entry.
    fn lru_position(&self) -> (v: usize)
        requires
            self.wf(),
            self.entries@.len() > 0,
        ensures
            v < self.entries@.len(),
            lru_index(self.entries@) == v,
    {
        let ghost s = self.entries@;
        let mut best: usize = 0;
        let mut i: usize = 1;
        while i < self.entries.len()
            invariant
                s == self.entries@,
                unique_destinations(s),
                1 <= i <= s.len(),
                best < i,
                forall|j: int| 0 <= j < i && j != best ==> lru_before(s[best as int], #[trigger] s[j]),
            decreases s.len() - i,
        {
            let c = &self.entries[i];
            let b = &self.entries[best];
            let earlier = c.last_touch < b.last_touch || (c.last_touch == b.last_touch && bytes16_order(&c.destination, &b.destination) < 0);
            if earlier {
                proof {
                    assert(lru_before(s[i as int], s[best as int]));
                    assert forall|j: int| 0 <= j < i + 1 && j != i implies lru_before(s[i as int], #[trigger] s[j]) by {
                        if j != best {
                            lemma_lru_trans(s[i as int], s[best as int], s[j]);
                        }
                    }
                }
                best = i;
            } else {
                proof {
                    assert(s[best as int].destination != s[i as int].destination);
                    lemma_lru_total(s[best as int], s[i as int]);
                }
            }
            i = i + 1;
        }
        proof {
            lemma_lru_unique(s, best as int);
        }
        best
    }

    /// Raise the peak counters to the current entry count and memory.
    fn record_peaks(&mut self)
        requires
            old(self).wf(),
        ensures
            final(self).wf(),
            final(self).entries == old(self).entries,
            final(self).capacity == old(self).capacity,
            final(self).ttl_ns == old(self).ttl_ns,
            final(self).touch == old(self).touch,
            final(self).counters == (CacheCounters {
                peak_entries: if old(self).counters.peak_entries > old(self).entries@.len() {
                    old(self).counters.peak_entries
                } else {
                    old(self).entries@.len() as u64
                },
                peak_bytes: if old(self).counters.peak_bytes > entries_bytes(old(self).entries@) {
                    old(self).counters.peak_bytes
                } else {
                    entries_bytes(old(self).entries@) as u64
                },
                ..old(self).counters
            }),
    {
        let len = self.entries.len() as u64;
        if self.counters.peak_entries <= len {
            self.counters.peak_entries = len;
        }
        let bytes = self.memory_bytes();
        if self.counters.peak_bytes <= bytes {
            self.counters.peak_bytes = bytes;
        }
    }

    /// Get a fresh entry and refresh both LRU position and expiry.
    pub fn get(&mut self, destination: &CacheKey, now_ns: u64) -> (r: Option<&CoordinateEntry>)
        requires
            old(self).wf(),
            spec_get_admissible(old(self).spec_entries(), old(self).spec_counters(), *destination, now_ns),
        ensures
            final(self).wf(),
            final(self).spec_capacity() == old(self).spec_capacity(),
            final(self).spec_ttl() == old(self).spec_ttl(),
            match position_of(old(self).spec_entries(), *destination) {
                None => {
                    &&& r is None
                    &&& final(self).spec_entries() == old(self).spec_entries()
                    &&& final(self).spec_touch() == old(self).spec_touch()
                    &&& final(self).spec_counters() == (CacheCounters {
                        misses: (old(self).spec_counters().misses + 1) as u64,
                        ..old(self).spec_counters()
                    })
                },
                Some(i) => if spec_expired(old(self).spec_entries()[i], now_ns) {
                    &&& r is None
                    &&& final(self).spec_entries() == old(self).spec_entries().remove(i)
                    &&& final(self).spec_touch() == old(self).spec_touch()
                    &&& final(self).spec_counters() == (CacheCounters {
                        expirations: (old(self).spec_counters().expirations + 1) as u64,
                        misses: (old(self).spec_counters().misses + 1) as u64,
                        ..old(self).spec_counters()
                    })
                } else {
                    let t = sat_add(old(self).spec_touch(), 1);
                    let e = CoordinateEntry {
                        last_touch: t,
                        expires_at_ns: sat_add(now_ns, old(self).spec_ttl() as int),
                        ..old(self).spec_entries()[i]
                    };
                    &&& r == Some(&e)
                    &&& final(self).spec_entries() == old(self).spec_entries().update(i, e)
                    &&& final(self).spec_touch() == t
                    &&& final(self).spec_counters() == (CacheCounters {
                        hits: (old(self).spec_counters().hits + 1) as u64,
                        ..old(self).spec_counters()
                    })
                },
            },
    {
        match self.position(destination) {
            None => {
                self.counters.misses = self.counters.misses + 1;
                None
            },
            Some(i) => {
                let ghost s = self.entries@;
                if self.entries[i].expires_at_ns <= now_ns {
                    self.entries.remove(i);
                    proof {
                        lemma_unique_remove(s, i as int);
                        lemma_bytes_split(s, i as int, s[i as int]);
                    }
                    self.counters.expirations = self.counters.expirations + 1;
                    self.counters.misses = self.counters.misses + 1;
                    None
                } else {
                    self.touch = self.touch.saturating_add(1);
                    let mut e = self.entries.remove(i);
                    e.last_touch = self.touch;
                    e.expires_at_ns = now_ns.saturating_add(self.ttl_ns);
                    self.entries.insert(i, e);
                    proof {
                        assert(self.entries@ =~= s.update(i as int, e));
                        lemma_bytes_split(s, i as int, e);
                        assert forall|a: int, b: int| 0 <= a < b < self.entries@.len() implies
                            (#[trigger] self.entries@[a]).destination != (#[trigger] self.entries@[b]).destination by {
                            assert(s[a].destination != s[b].destination);
                        }
                    }
                    self.counters.hits = self.counters.hits + 1;
                    Some(&self.entries[i])
                }
            },
        }
    }

    /// Insert or refresh a path, evicting the least-recently-touched key.
    pub fn insert(&mut self, destination: CacheKey, root: CacheKey, path: Vec<u32>, now_ns: u64)
        requires
            old(self).wf(),
            2 + 16 * path@.len() <= u64::MAX,
            spec_evicts(spec_live(old(self).spec_entries(), now_ns), old(self).spec_capacity(), destination)
                ==> old(self).spec_counters().evictions < u64::MAX,
            old(self).spec_capacity() > 0 ==> entries_bytes(spec_admitted(
                spec_live(old(self).spec_entries(), now_ns),
                old(self).spec_capacity(),
                spec_new_entry(destination, root, path, now_ns, old(self).spec_ttl(), sat_add(old(self).spec_touch(), 1)),
            )) <= u64::MAX,
        ensures
            final(self).wf(),
            final(self).spec_capacity() == old(self).spec_capacity(),
            final(self).spec_ttl() == old(self).spec_ttl(),
            final(self).spec_touch() == sat_add(old(self).spec_touch(), 1),
            final(self).spec_entries().len() <= final(self).spec_capacity(),
            ({
                let s0 = spec_live(old(self).spec_entries(), now_ns);
                let e = spec_new_entry(destination, root, path, now_ns, old(self).spec_ttl(), sat_add(old(self).spec_touch(), 1));
                &&& final(self).spec_entries() == spec_admitted(s0, old(self).spec_capacity(), e)
                &&& final(self).spec_counters() == spec_insert_counters(
                    old(self).spec_counters(),
                    old(self).spec_entries().len() - s0.len(),
                    spec_evicts(s0, old(self).spec_capacity(), destination),
                    old(self).spec_capacity() > 0,
                    e.coordinate_bytes,
                    final(self).spec_entries().len() as int,
                    entries_bytes(final(self).spec_entries()),
                )
            }),
    {
        self.expire(now_ns);
        let ghost s0 = self.entries@;
        let ghost c1 = self.counters;
        self.touch = self.touch.saturating_add(1);
        let coordinate_bytes: u64 = 2 + 16 * (path.len() as u64);
        let position = self.position(&destination);
        let entry = CoordinateEntry {
            destination,
            root,
            path,
            coordinate_bytes,
            expires_at_ns: now_ns.saturating_add(self.ttl_ns),
            last_touch: self.touch,
        };
        let ghost evicted = spec_evicts(s0, self.capacity as nat, destination);
        match position {
            Some(i) => {
                self.entries.set(i, entry);
                proof {
                    assert forall|a: int, b: int| 0 <= a < b < self.entries@.len() implies
                        (#[trigger] self.entries@[a]).destination != (#[trigger] self.entries@[b]).destination by {
                        assert(s0[a].destination != s0[b].destination);
                    }
                }
            },
            None => {
                let ghost s1 = s0;
                if self.entries.len() >= self.capacity && self.entries.len() > 0 {
                    let v = self.lru_position();
                    self.entries.remove(v);
                    proof {
                        lemma_unique_remove(s0, v as int);
                        lemma_bytes_split(s0, v as int, s0[v as int]);
                        s1 = s0.remove(v as int);
                    }
                    self.counters.evictions = self.counters.evictions + 1;
                }
                assert(self.entries@ == s1);
                if self.capacity > 0 {
                    self.entries.push(entry);
                    proof {
                        lemma_bytes_push(s1, entry);
                        assert forall|j: int| 0 <= j < s1.len() implies (#[trigger] s1[j]).destination != destination by {
                            if s1 != s0 {
                                lemma_unique_remove(s0, lru_index(s0));
                                assert(s0.contains(s1[j]));
                            }
                        }
                        assert forall|a: int, b: int| 0 <= a < b < self.entries@.len() implies
                            (#[trigger] self.entries@[a]).destination != (#[trigger] self.entries@[b]).destination by {
                            if b < s1.len() {
                                assert(self.entries@[a] == s1[a] && self.entries@[b] == s1[b]);
                            } else {
                                assert(self.entries@[a] == s1[a]);
                            }
                        }
                    }
                }
            },
        }
        if self.capacity > 0 {
            self.counters.warmup_bytes = self.counters.warmup_bytes.saturating_add(coordinate_bytes);
            self.counters.insertions = self.counters.insertions.saturating_add(1);
            self.record_peaks();
        }
    }

    /// Reconciled cache metrics.
    pub fn counters(&self) -> (r: CacheCounters)
        ensures
            r == self.spec_counters(),
    {
        self.counters
    }

    /// Active entry count.
    pub fn len(&self) -> (r: usize)
        ensures
            r == self.spec_entries().len(),
    {
        self.entries.len()
    }

    /// Whether no entries are active.
    pub fn is_empty(&self) -> (r: bool)
        ensures
            r == (self.spec_entries().len() == 0),
    {
        self.entries.len() == 0
    }

    /// Current coordinate bytes.
    pub fn memory_bytes(&self) -> (r: u64)
        requires
            self.wf(),
        ensures
            r == entries_bytes(self.spec_entries()),
    {
        let ghost s = self.entries@;
        let mut total: u64 = 0;
        let mut i: usize = 0;
        while i < self.entries.len()
            invariant
                s == self.entries@,
                entries_bytes(s) <= u64::MAX,
                i <= s.len(),
                total == entries_bytes(s.take(i as int)),
            decreases s.len() - i,
        {
            proof {
                assert(s.take(i + 1).drop_last() =~= s.take(i as int));
                lemma_bytes_prefix(s, i + 1);
            }
            total = total + self.entries[i].coordinate_bytes;
            i = i + 1;
        }
        proof {
            assert(s.take(i as int) =~= s);
        }
        total
    }

    /// Fresh entry count at a point in virtual time.
    pub fn fresh_entries(&self, now_ns: u64) -> (r: usize)
        ensures
            r == spec_live(self.spec_entries(), now_ns).len(),
    {
        let ghost s = self.entries@;
        let ghost keep = |e: CoordinateEntry| !spec_expired(e, now_ns);
        let mut count: usize = 0;
        let mut i: usize = 0;
        while i < self.entries.len()
            invariant
                s == self.entries@,
                keep == (|e: CoordinateEntry| !spec_expired(e, now_ns)),
                i <= s.len(),
                count == s.take(i as int).filter(keep).len(),
                count <= i,
            decreases s.len() - i,
        {
            proof {
                assert(s.take(i + 1) =~= s.take(i as int).push(s[i as int]));
                s.take(i as int).lemma_filter_push(s[i as int], keep);
            }
            if self.entries[i].expires_at_ns > now_ns {
                count = count + 1;
            }
            i = i + 1;
        }
        proof {
            assert(s.take(i as int) =~= s);
        }
        count
    }
}

} // verus!
