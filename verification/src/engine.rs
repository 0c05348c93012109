//! Recovery accounting, streamed Bloom counters and transport loss arithmetic used
//! by the individual-node engine.

use vstd::prelude::*;
use crate::bloom::{BloomWaveCounters, FILTER_ANNOUNCE_BYTES, FILTER_ANNOUNCE_FMP_BYTES};
use crate::cache::{CacheCounters, CoordinateCache};
use crate::digest::{sha256, sha256_digest, le_bytes, le_word, push_le, digest_word};

verus! {

broadcast use vstd::layout::layout_of_primitives;

/// Parts per million.
pub const PPM: u32 = 1_000_000;

/// Surviving parts per million after one independent loss stage, rounded down.
pub open spec fn survive_stage(acc: int, loss: u32) -> int {
    acc * (if loss >= PPM { 0 } else { PPM - loss }) / (PPM as int)
}

/// Loss of a base link and two endpoint profiles, combined as independent stages.
pub open spec fn spec_combined_loss(base: u32, left: u32, right: u32) -> int {
    PPM - survive_stage(survive_stage(survive_stage(PPM as int, base), left), right)
}

proof fn lemma_stage_bounds(acc: int, loss: u32)
    requires
        0 <= acc <= PPM,
    ensures
        0 <= survive_stage(acc, loss) <= acc,
{
    let f: int = if loss >= PPM { 0 } else { PPM - loss };
    assert(0 <= acc * f <= acc * PPM) by (nonlinear_arith)
        requires
            0 <= acc,
            0 <= f <= PPM,
    ;
    assert(acc * f / (PPM as int) <= acc) by (nonlinear_arith)
        requires
            0 <= acc * f <= acc * PPM,
            0 <= acc,
    ;
    assert(0 <= acc * f / (PPM as int)) by (nonlinear_arith)
        requires
            0 <= acc * f,
    ;
}

fn survive_step(acc: u64, loss: u32) -> (r: u64)
    requires
        acc <= PPM,
    ensures
        r == survive_stage(acc as int, loss),
        r <= acc,
{
    proof {
        lemma_stage_bounds(acc as int, loss);
    }
    let factor: u64 = if loss >= PPM { 0 } else { (PPM - loss) as u64 };
    assert(acc * factor <= 1_000_000_000_000) by (nonlinear_arith)
        requires
            acc <= 1_000_000,
            factor <= 1_000_000,
    ;
    acc * factor / (PPM as u64)
}

/// Effective loss of an edge whose base link and two endpoint transport profiles drop
/// independently, in parts per million; never above one million.
pub fn combined_loss(base: u32, left: u32, right: u32) -> (r: u32)
    ensures
        r == spec_combined_loss(base, left, right),
        r <= PPM,
{
    let a = survive_step(PPM as u64, base);
    let b = survive_step(a, left);
    let c = survive_step(b, right);
    (PPM as u64 - c) as u32
}

/// A single lossy stage passes through unchanged: with lossless endpoints the edge
/// loses exactly what its base link loses.
pub proof fn law_single_stage_loss(base: u32)
    requires
        base <= PPM,
    ensures
        spec_combined_loss(base, 0, 0) == base,
{
    let a: int = PPM - base;
    assert((PPM as int) * a / (PPM as int) == a) by (nonlinear_arith)
        requires
            0 <= a,
    ;
    assert(a * (PPM as int) / (PPM as int) == a) by (nonlinear_arith)
        requires
            0 <= a,
    ;
}

/// Loss of two media zones crossed in turn, in parts per million.
pub open spec fn spec_zone_loss(left: u32, right: u32) -> int {
    PPM - (PPM - left) * (PPM - right) / (PPM as int)
}

/// Effective loss of two independent media-zone losses, in parts per million.
pub fn combine_loss(left: u32, right: u32) -> (r: u32)
    requires
        left <= PPM,
        right <= PPM,
    ensures
        r == spec_zone_loss(left, right),
        r <= PPM,
{
    let l = (PPM - left) as u64;
    let rr = (PPM - right) as u64;
    assert(l * rr <= 1_000_000_000_000) by (nonlinear_arith)
        requires
            l <= 1_000_000,
            rr <= 1_000_000,
    ;
    assert(l * rr / 1_000_000 <= 1_000_000) by (nonlinear_arith)
        requires
            l * rr <= 1_000_000_000_000,
    ;
    let survive = l * rr / (PPM as u64);
    (PPM as u64 - survive) as u32
}

proof fn lemma_stage_lossless(acc: int)
    ensures
        survive_stage(acc, 0) == acc,
{
    assert(acc * (PPM as int) / (PPM as int) == acc) by (nonlinear_arith);
}

proof fn lemma_stage_full(loss: u32)
    requires
        loss <= PPM,
    ensures
        survive_stage(PPM as int, loss) == PPM - loss,
{
    let f: int = PPM - loss;
    assert((PPM as int) * f / (PPM as int) == f) by (nonlinear_arith);
}

/// Without a base loss, the two endpoint transports are two independent lossy stages,
/// exactly as two media zones crossed in turn: `combined_loss(0, l, r)` is the loss
/// `combine_loss(l, r)` gives.
pub proof fn law_endpoint_stages_combine_as_zones(left: u32, right: u32)
    requires
        left <= PPM,
        right <= PPM,
    ensures
        spec_combined_loss(0, left, right) == spec_zone_loss(left, right),
{
    lemma_stage_full(0);
    lemma_stage_full(left);
}

/// Every stage counts, in turn: the loss over base, left and right is the loss over
/// (the loss over base and left) and right. An endpoint stage is never dropped in
/// favour of the other.
pub proof fn law_stages_compose(base: u32, left: u32, right: u32)
    requires
        base <= PPM,
        left <= PPM,
        right <= PPM,
    ensures
        0 <= spec_combined_loss(base, left, 0) <= PPM,
        spec_combined_loss(base, left, right) == spec_combined_loss(spec_combined_loss(base, left, 0) as u32, right, 0),
{
    lemma_stage_full(base);
    let a = survive_stage(PPM as int, base);
    lemma_stage_bounds(a, left);
    let b = survive_stage(a, left);
    lemma_stage_lossless(b);
    let c = PPM - b;
    assert(0 <= c <= PPM);
    lemma_stage_full(c as u32);
    assert(survive_stage(PPM as int, c as u32) == b);
    lemma_stage_lossless(survive_stage(b, right));
}

/// Bytes hashed for a recovery retry jitter: seed, flow index and attempt, little-endian.
pub open spec fn jitter_preimage(seed: u64, index: usize, attempt: u32) -> Seq<u8> {
    le_bytes(seed as nat, 8) + le_bytes(index as nat, vstd::layout::size_of::<usize>()) + le_bytes(attempt as nat, 4)
}

/// Deterministic retry jitter below `maximum`, or zero without a maximum.
pub open spec fn spec_stable_jitter(seed: u64, index: usize, attempt: u32, maximum: u64) -> u64 {
    if maximum == 0 {
        0
    } else {
        (le_word(sha256(jitter_preimage(seed, index, attempt)), 0) % (maximum as int)) as u64
    }
}

/// The first little-endian word of a digest reduced below `maximum`.
pub fn bounded_draw(digest: &[u8; 32], maximum: u64) -> (r: u64)
    requires
        maximum > 0,
    ensures
        r == le_word(digest@, 0) % (maximum as int),
{
    digest_word(digest, 0) % maximum
}

/// Deterministic retry jitter of one recovery flow attempt.
pub fn stable_jitter(seed: u64, index: usize, attempt: u32, maximum: u64) -> (r: u64)
    ensures
        r == spec_stable_jitter(seed, index, attempt, maximum),
{
    if maximum == 0 {
        return 0;
    }
    let mut preimage: Vec<u8> = Vec::new();
    push_le(&mut preimage, seed, 8);
    push_le(&mut preimage, index as u64, core::mem::size_of::<usize>());
    push_le(&mut preimage, attempt as u64, 4);
    assert(preimage@ =~= jitter_preimage(seed, index, attempt));
    let digest = sha256_digest(preimage.as_slice());
    bounded_draw(&digest, maximum)
}

/// Counters of several caches combined: event counts add up, peaks take the maximum.
pub open spec fn spec_cache_total(cs: Seq<CacheCounters>) -> CacheCounters
    decreases cs.len(),
{
    if cs.len() == 0 {
        CacheCounters {
            insertions: 0,
            hits: 0,
            misses: 0,
            expirations: 0,
            evictions: 0,
            invalidations: 0,
            warmup_bytes: 0,
            peak_entries: 0,
            peak_bytes: 0,
        }
    } else {
        let t = spec_cache_total(cs.drop_last());
        let c = cs.last();
        CacheCounters {
            insertions: (t.insertions + c.insertions) as u64,
            hits: (t.hits + c.hits) as u64,
            misses: (t.misses + c.misses) as u64,
            expirations: (t.expirations + c.expirations) as u64,
            evictions: (t.evictions + c.evictions) as u64,
            invalidations: (t.invalidations + c.invalidations) as u64,
            warmup_bytes: (t.warmup_bytes + c.warmup_bytes) as u64,
            peak_entries: if t.peak_entries > c.peak_entries { t.peak_entries } else { c.peak_entries },
            peak_bytes: if t.peak_bytes > c.peak_bytes { t.peak_bytes } else { c.peak_bytes },
        }
    }
}

/// Whether adding up the event counts of caches never overflows.
pub open spec fn spec_cache_total_fits(cs: Seq<CacheCounters>) -> bool
    decreases cs.len(),
{
    if cs.len() == 0 {
        true
    } else {
        let t = spec_cache_total(cs.drop_last());
        let c = cs.last();
        &&& spec_cache_total_fits(cs.drop_last())
        &&& t.insertions + c.insertions <= u64::MAX
        &&& t.hits + c.hits <= u64::MAX
        &&& t.misses + c.misses <= u64::MAX
        &&& t.expirations + c.expirations <= u64::MAX
        &&& t.evictions + c.evictions <= u64::MAX
        &&& t.invalidations + c.invalidations <= u64::MAX
        &&& t.warmup_bytes + c.warmup_bytes <= u64::MAX
    }
}

/// The counters of every cache of a slice, in order.
pub open spec fn cache_counters_of(caches: Seq<CoordinateCache>) -> Seq<CacheCounters> {
    caches.map_values(|c: CoordinateCache| c.spec_counters())
}

proof fn lemma_fits_prefix(cs: Seq<CacheCounters>, k: int)
    requires
        0 <= k <= cs.len(),
        spec_cache_total_fits(cs),
    ensures
        spec_cache_total_fits(cs.take(k)),
    decreases cs.len(),
{
    if k < cs.len() {
        assert(cs.drop_last().take(k) =~= cs.take(k));
        lemma_fits_prefix(cs.drop_last(), k);
    } else {
        assert(cs.take(k) =~= cs);
    }
}

/// Node-wide coordinate-cache counters.
pub fn aggregate_cache(caches: &[CoordinateCache]) -> (r: CacheCounters)
    requires
        spec_cache_total_fits(cache_counters_of(caches@)),
    ensures
        r == spec_cache_total(cache_counters_of(caches@)),
{
    let ghost cs = cache_counters_of(caches@);
    let mut total = CacheCounters::default();
    let mut i: usize = 0;
    proof {
        assert(cs.take(0) =~= Seq::<CacheCounters>::empty());
    }
    while i < caches.len()
        invariant
            cs == cache_counters_of(caches@),
            spec_cache_total_fits(cs),
            i <= caches@.len(),
            total == spec_cache_total(cs.take(i as int)),
        decreases caches@.len() - i,
    {
        let c = caches[i].counters();
        proof {
            assert(cs.take(i + 1).drop_last() =~= cs.take(i as int));
            assert(cs.take(i + 1).last() == c);
            lemma_fits_prefix(cs, i + 1);
        }
        total.insertions = total.insertions + c.insertions;
        total.hits = total.hits + c.hits;
        total.misses = total.misses + c.misses;
        total.expirations = total.expirations + c.expirations;
        total.evictions = total.evictions + c.evictions;
        total.invalidations = total.invalidations + c.invalidations;
        total.warmup_bytes = total.warmup_bytes + c.warmup_bytes;
        if total.peak_entries < c.peak_entries {
            total.peak_entries = c.peak_entries;
        }
        if total.peak_bytes < c.peak_bytes {
            total.peak_bytes = c.peak_bytes;
        }
        i = i + 1;
    }
    proof {
        assert(cs.take(i as int) =~= cs);
    }
    total
}

/// Streamed Bloom replacement accounting of a run.
#[derive(Debug, Clone, Copy, PartialEq, Eq, Structural)]
pub struct StreamedBloomCounters {
    /// Replacement lifecycle.
    pub wave: BloomWaveCounters,
    /// Replacement frames delivered.
    pub delivered_frames: u64,
    /// Wire bytes transmitted.
    pub transmitted_wire_bytes: u64,
    /// Wire bytes delivered.
    pub delivered_wire_bytes: u64,
    /// Wire bytes lost.
    pub lost_wire_bytes: u64,
    /// Time at which replacements went quiet.
    pub quiescence_ns: u64,
}

/// Streamed replacements balance at quiescence: no request is left pending, every
/// construction is sent or rejected, bytes follow sends and wire bytes are delivered or lost.
pub open spec fn spec_streamed_balanced(c: StreamedBloomCounters) -> bool {
    &&& c.wave.requested == c.wave.coalesced + c.wave.constructed
    &&& c.wave.constructed == c.wave.sent + c.wave.rejected
    &&& c.wave.message_bytes == c.wave.sent * FILTER_ANNOUNCE_BYTES
    &&& c.wave.fmp_bytes == c.wave.sent * FILTER_ANNOUNCE_FMP_BYTES
    &&& c.transmitted_wire_bytes == c.delivered_wire_bytes + c.lost_wire_bytes
}

impl StreamedBloomCounters {
    /// Whether the streamed replacement counters reconcile exactly.
    pub fn reconciles(&self) -> (r: bool)
        requires
            self.wave.coalesced + self.wave.constructed <= u64::MAX,
            self.wave.sent + self.wave.rejected <= u64::MAX,
            self.wave.sent * FILTER_ANNOUNCE_FMP_BYTES <= u64::MAX,
            self.delivered_wire_bytes + self.lost_wire_bytes <= u64::MAX,
        ensures
            r == spec_streamed_balanced(*self),
    {
        self.wave.requested == self.wave.coalesced + self.wave.constructed
            && self.wave.constructed == self.wave.sent + self.wave.rejected
            && self.wave.message_bytes == self.wave.sent * FILTER_ANNOUNCE_BYTES
            && self.wave.fmp_bytes == self.wave.sent * FILTER_ANNOUNCE_FMP_BYTES
            && self.transmitted_wire_bytes == self.delivered_wire_bytes + self.lost_wire_bytes
    }
}

/// Graph-recovery accounting of a run.
#[derive(Debug, Clone, Copy, PartialEq, Eq, Structural)]
pub struct GraphRecoveryCounters {
    /// Coordinate caches, aggregated over nodes.
    pub cache: CacheCounters,
    /// Logical lookups.
    pub lookups: u64,
    /// Lookup attempts including retries.
    pub attempts: u64,
    /// Retries after the first attempt.
    pub retries: u64,
    /// Successful lookups.
    pub successes: u64,
    /// Failed lookups.
    pub failures: u64,
    /// Session setups sent.
    pub session_setups: u64,
    /// Session acknowledgements sent.
    pub session_acks: u64,
    /// Session rekeys.
    pub rekeys: u64,
    /// Session teardowns.
    pub teardowns: u64,
    /// Sessions disrupted by topology change.
    pub session_disruptions: u64,
    /// Wire bytes transmitted.
    pub transmitted_wire_bytes: u64,
    /// Wire bytes delivered.
    pub delivered_wire_bytes: u64,
    /// Wire bytes lost.
    pub lost_wire_bytes: u64,
    /// Time at which recovery went quiet.
    pub quiescence_ns: u64,
}

/// Lookups end in success or failure, attempts are lookups plus retries and wire
/// bytes are delivered or lost.
pub open spec fn spec_recovery_balanced(c: GraphRecoveryCounters) -> bool {
    &&& c.lookups == c.successes + c.failures
    &&& c.attempts == c.lookups + c.retries
    &&& c.transmitted_wire_bytes == c.delivered_wire_bytes + c.lost_wire_bytes
}

impl GraphRecoveryCounters {
    /// Whether the recovery counters reconcile exactly.
    pub fn reconciles(&self) -> (r: bool)
        requires
            self.successes + self.failures <= u64::MAX,
            self.lookups + self.retries <= u64::MAX,
            self.delivered_wire_bytes + self.lost_wire_bytes <= u64::MAX,
        ensures
            r == spec_recovery_balanced(*self),
    {
        self.lookups == self.successes + self.failures
            && self.attempts == self.lookups + self.retries
            && self.transmitted_wire_bytes == self.delivered_wire_bytes + self.lost_wire_bytes
    }
}

/// Message phase of a recovery frame.
#[derive(Debug, Clone, Copy, PartialEq, Eq, Structural)]
pub enum RecoveryPhase {
    /// Lookup request toward the destination.
    LookupRequest,
    /// Lookup response back to the origin.
    LookupResponse,
    /// Session setup.
    SessionSetup,
    /// Session acknowledgement.
    SessionAck,
}

impl RecoveryPhase {
    /// Ledger message name.
    pub fn message(self) -> (r: &'static str)
        ensures
            r@ == match self {
                RecoveryPhase::LookupRequest => "lookup-request"@,
                RecoveryPhase::LookupResponse => "lookup-response"@,
                RecoveryPhase::SessionSetup => "session-setup"@,
                RecoveryPhase::SessionAck => "session-ack"@,
            },
    {
        match self {
            RecoveryPhase::LookupRequest => "lookup-request",
            RecoveryPhase::LookupResponse => "lookup-response",
            RecoveryPhase::SessionSetup => "session-setup",
            RecoveryPhase::SessionAck => "session-ack",
        }
    }

    /// Ledger plane: lookup or session.
    pub fn plane(self) -> (r: &'static str)
        ensures
            r@ == match self {
                RecoveryPhase::LookupRequest | RecoveryPhase::LookupResponse => "lookup"@,
                RecoveryPhase::SessionSetup | RecoveryPhase::SessionAck => "session"@,
            },
    {
        match self {
            RecoveryPhase::LookupRequest | RecoveryPhase::LookupResponse => "lookup",
            RecoveryPhase::SessionSetup | RecoveryPhase::SessionAck => "session",
        }
    }
}

} // verus!
