//! Deterministic lookup, retry, dedup, TTL, MTU, and routing-signal model.

use vstd::prelude::*;
use vstd::string::StringExecFns;
use crate::labels::{push_decimal, push_fixed_hex};
use vstd::arithmetic::power2::pow2;
use crate::digest::{sha256, sha256_digest, le_bytes, le_word, push_le, digest_word};
use crate::graph::hex_digit;
use crate::network::decimal;

verus! {

/// Production LookupRequest bytes at coordinate depth zero.
pub const LOOKUP_REQUEST_DEPTH_0_BYTES: u64 = 62;
/// Production LookupResponse bytes at coordinate depth zero.
pub const LOOKUP_RESPONSE_DEPTH_0_BYTES: u64 = 109;
/// Established FMP overhead from the pinned executable codec.
pub const ESTABLISHED_FMP_OVERHEAD_BYTES: u64 = 36;
/// Production CoordsRequired FSP-framed bytes.
pub const COORDS_REQUIRED_BYTES: u64 = 38;
/// Production MtuExceeded FSP-framed bytes.
pub const MTU_EXCEEDED_BYTES: u64 = 40;

/// Routing signal generated while useful traffic recovers.
#[derive(Debug, Clone, Copy, PartialEq, Eq, PartialOrd, Ord, Structural)]
pub enum RoutingSignal {
    /// Coordinate cache miss.
    CoordsRequired,
    /// Stale or broken reverse/forward path.
    PathBroken,
    /// Encoded frame cannot traverse the bottleneck MTU.
    MtuExceeded,
}

/// Final lookup outcome.
#[derive(Debug, Clone, Copy, PartialEq, Eq, Structural)]
pub enum LookupOutcome {
    /// Target response reached the origin.
    Success,
    /// Hop budget ended first.
    TtlExpired,
    /// Encoded request or response exceeded MTU.
    MtuExceeded,
    /// Reverse path became invalid.
    ReversePathBroken,
    /// No candidate produced a response.
    Negative,
}

/// One retry attempt with stable lineage.
#[derive(Debug, Clone, PartialEq, Eq)]
pub struct LookupAttempt {
    /// Stable request identifier.
    pub request_id: u64,
    /// Stable causal identifier.
    pub causal_id: String,
    /// Prior attempt causal ID.
    pub parent_causal_id: Option<String>,
    /// Attempt ordinal.
    pub attempt: u32,
    /// Start time after backoff/jitter.
    pub started_at_ns: u64,
    /// Hop budget.
    pub ttl: u8,
    /// Required path hops.
    pub required_hops: u32,
    /// Exact encoded request bytes.
    pub request_message_bytes: u64,
    /// Exact encoded response bytes when constructed.
    pub response_message_bytes: u64,
    /// Bloom false-positive candidates explored.
    pub false_positive_candidates: u32,
    /// Duplicate forward copies suppressed.
    pub deduplicated: u32,
    /// Attempt outcome.
    pub outcome: LookupOutcome,
    /// Signal generated, if any.
    pub signal: Option<RoutingSignal>,
}

/// Signal counts by kind; a kind never counted stands at zero.
#[derive(Debug, Clone, Copy, PartialEq, Eq, Structural)]
pub struct SignalCounts {
    /// CoordsRequired signals sent.
    pub coords_required: u64,
    /// PathBroken signals sent.
    pub path_broken: u64,
    /// MtuExceeded signals sent.
    pub mtu_exceeded: u64,
}

/// No signal counted.
pub open spec fn spec_no_signals() -> SignalCounts {
    SignalCounts { coords_required: 0, path_broken: 0, mtu_exceeded: 0 }
}

/// The count of one kind.
pub open spec fn spec_signal_count(s: SignalCounts, kind: RoutingSignal) -> u64 {
    match kind {
        RoutingSignal::CoordsRequired => s.coords_required,
        RoutingSignal::PathBroken => s.path_broken,
        RoutingSignal::MtuExceeded => s.mtu_exceeded,
    }
}

/// Counts with one kind replaced.
pub open spec fn spec_with_signal_count(s: SignalCounts, kind: RoutingSignal, v: u64) -> SignalCounts {
    match kind {
        RoutingSignal::CoordsRequired => SignalCounts { coords_required: v, ..s },
        RoutingSignal::PathBroken => SignalCounts { path_broken: v, ..s },
        RoutingSignal::MtuExceeded => SignalCounts { mtu_exceeded: v, ..s },
    }
}

impl SignalCounts {
    /// The count of one kind.
    pub fn count(&self, kind: RoutingSignal) -> (r: u64)
        ensures
            r == spec_signal_count(*self, kind),
    {
        match kind {
            RoutingSignal::CoordsRequired => self.coords_required,
            RoutingSignal::PathBroken => self.path_broken,
            RoutingSignal::MtuExceeded => self.mtu_exceeded,
        }
    }
}

/// Aggregate lookup accounting.
#[derive(Debug, Clone, Copy, PartialEq, Eq, Structural)]
pub struct LookupCounters {
    /// Logical lookups.
    pub lookups: u64,
    /// Request attempts including retries.
    pub attempts: u64,
    /// Successful lookups.
    pub successes: u64,
    /// Failed logical lookups.
    pub failures: u64,
    /// Retry attempts after the first.
    pub retries: u64,
    /// Recent-request duplicate copies suppressed.
    pub deduplicated: u64,
    /// Bloom false-positive candidate forwards.
    pub false_positive_candidates: u64,
    /// Request message bytes.
    pub request_message_bytes: u64,
    /// Response message bytes.
    pub response_message_bytes: u64,
    /// Signal counts by kind.
    pub signals: SignalCounts,
    /// Signals suppressed by rate limiting.
    pub signals_rate_limited: u64,
    /// Time from first attempt to final success/failure.
    pub recovery_time_ns: u64,
}

/// All-zero lookup counters.
pub open spec fn spec_zero_lookup_counters() -> LookupCounters {
    LookupCounters {
        lookups: 0,
        attempts: 0,
        successes: 0,
        failures: 0,
        retries: 0,
        deduplicated: 0,
        false_positive_candidates: 0,
        request_message_bytes: 0,
        response_message_bytes: 0,
        signals: spec_no_signals(),
        signals_rate_limited: 0,
        recovery_time_ns: 0,
    }
}

impl Default for LookupCounters {
    fn default() -> (r: Self)
        ensures
            r == spec_zero_lookup_counters(),
    {
        LookupCounters {
            lookups: 0,
            attempts: 0,
            successes: 0,
            failures: 0,
            retries: 0,
            deduplicated: 0,
            false_positive_candidates: 0,
            request_message_bytes: 0,
            response_message_bytes: 0,
            signals: SignalCounts { coords_required: 0, path_broken: 0, mtu_exceeded: 0 },
            signals_rate_limited: 0,
            recovery_time_ns: 0,
        }
    }
}

/// One deterministic lookup result.
#[derive(Debug, Clone, PartialEq, Eq)]
pub struct LookupRun {
    /// Attempt lineage.
    pub attempts: Vec<LookupAttempt>,
    /// Final outcome.
    pub outcome: LookupOutcome,
    /// Reconciled counters.
    pub counters: LookupCounters,
}

/// Lookup/backoff policy.
#[derive(Debug, Clone, Copy, PartialEq, Eq, Structural)]
pub struct LookupConfig {
    /// Initial TTL.
    pub ttl: u8,
    /// Total attempts.
    pub maximum_attempts: u32,
    /// Exponential backoff base.
    pub backoff_base_ns: u64,
    /// Maximum deterministic jitter.
    pub jitter_ns: u64,
    /// Recent request IDs retained.
    pub recent_capacity: usize,
    /// Minimum interval per signal kind.
    pub signal_interval_ns: u64,
    /// Bottleneck link MTU.
    pub mtu_bytes: u64,
}

/// The default policy: TTL 64, three attempts, 100 ms backoff base, 10 ms jitter,
/// 1024 recent IDs, 100 ms signal interval and a 9000-byte MTU.
pub open spec fn spec_default_lookup_config() -> LookupConfig {
    LookupConfig {
        ttl: 64,
        maximum_attempts: 3,
        backoff_base_ns: 100_000_000,
        jitter_ns: 10_000_000,
        recent_capacity: 1_024,
        signal_interval_ns: 100_000_000,
        mtu_bytes: 9_000,
    }
}

impl Default for LookupConfig {
    fn default() -> (r: Self)
        ensures
            r == spec_default_lookup_config(),
    {
        LookupConfig {
            ttl: 64,
            maximum_attempts: 3,
            backoff_base_ns: 100_000_000,
            jitter_ns: 10_000_000,
            recent_capacity: 1_024,
            signal_interval_ns: 100_000_000,
            mtu_bytes: 9_000,
        }
    }
}

/// Inputs that vary per lookup.
#[derive(Debug, Clone, Copy, PartialEq, Eq, Structural)]
pub struct LookupCase {
    /// Seed.
    pub seed: u64,
    /// Logical lookup ordinal.
    pub ordinal: u64,
    /// Source node.
    pub source: u32,
    /// Destination node.
    pub destination: u32,
    /// Required forwarding hops.
    pub required_hops: u32,
    /// Source coordinate depth.
    pub origin_depth: u32,
    /// Target coordinate depth.
    pub target_depth: u32,
    /// Extra candidates selected by Bloom false positives.
    pub false_positive_candidates: u32,
    /// Force every otherwise successful response onto a broken reverse path.
    pub reverse_path_broken: bool,
    /// Return a negative outcome even when TTL/MTU allow forwarding.
    pub target_absent: bool,
}

/// Lookup configuration error.
#[derive(Debug, Clone, Copy, PartialEq, Eq, Structural)]
pub enum LookupError {
    /// Depth makes the codec length overflow.
    DepthOverflow(u32),
}

/// Exact production-encoder LookupRequest bytes at a depth.
pub fn lookup_request_bytes(depth: u32) -> (r: u64)
    ensures
        r == LOOKUP_REQUEST_DEPTH_0_BYTES + 16 * depth,
{
    LOOKUP_REQUEST_DEPTH_0_BYTES + 16 * (depth as u64)
}

/// Exact production-encoder LookupResponse bytes at a depth.
pub fn lookup_response_bytes(depth: u32) -> (r: u64)
    ensures
        r == LOOKUP_RESPONSE_DEPTH_0_BYTES + 16 * depth,
{
    LOOKUP_RESPONSE_DEPTH_0_BYTES + 16 * (depth as u64)
}

/// Exact PathBroken FSP-framed bytes with optional last-known depth.
pub fn path_broken_bytes(depth: Option<u32>) -> (r: u64)
    ensures
        r == 40 + match depth {
            None => 0,
            Some(v) => 16 * (v + 1),
        },
{
    match depth {
        None => 40,
        Some(v) => 40 + 16 * ((v as u64) + 1),
    }
}

/// Bytes hashed for a stable identifier: seed, ordinal, attempt and lane, little-endian.
pub open spec fn stable_preimage(seed: u64, ordinal: u64, attempt: u32, lane: u64) -> Seq<u8> {
    le_bytes(seed as nat, 8) + le_bytes(ordinal as nat, 8) + le_bytes(attempt as nat, 4) + le_bytes(lane as nat, 8)
}

/// Stable identifier: the first little-endian word of the preimage's SHA-256 digest.
pub open spec fn spec_stable_id(seed: u64, ordinal: u64, attempt: u32, lane: u64) -> u64 {
    le_word(sha256(stable_preimage(seed, ordinal, attempt, lane)), 0) as u64
}

fn stable_id(seed: u64, ordinal: u64, attempt: u32, lane: u64) -> (r: u64)
    ensures
        r == spec_stable_id(seed, ordinal, attempt, lane),
{
    let mut preimage: Vec<u8> = Vec::new();
    push_le(&mut preimage, seed, 8);
    push_le(&mut preimage, ordinal, 8);
    push_le(&mut preimage, attempt as u64, 4);
    push_le(&mut preimage, lane, 8);
    assert(preimage@ =~= stable_preimage(seed, ordinal, attempt, lane));
    let digest = sha256_digest(preimage.as_slice());
    digest_word(&digest, 0)
}

/// `n` lower-case hexadecimal digits of `v`, most significant first.
pub open spec fn fixed_hex(v: nat, n: nat) -> Seq<char>
    decreases n,
{
    if n == 0 {
        Seq::empty()
    } else {
        fixed_hex(v / 16, (n - 1) as nat).push(hex_digit((v % 16) as int))
    }
}

/// Causal identifier of one attempt: `lookup-{ordinal as 16 hex digits}-attempt-{attempt}`.
pub open spec fn spec_causal_label(ordinal: u64, attempt: u32) -> Seq<char> {
    "lookup-"@ + fixed_hex(ordinal as nat, 16) + "-attempt-"@ + decimal(attempt as nat)
}

/// The causal identifier of an attempt, written digit by digit.
fn causal_label(ordinal: u64, attempt: u32) -> (r: String)
    ensures
        r@ == spec_causal_label(ordinal, attempt),
{
    let mut s = String::from_str("lookup-");
    push_fixed_hex(&mut s, ordinal, 16);
    s.append("-attempt-");
    push_decimal(&mut s, attempt as u64);
    s
}

/// Saturating sum.
pub open spec fn sat_sum(a: int, b: int) -> u64 {
    if a + b > u64::MAX {
        u64::MAX
    } else {
        (a + b) as u64
    }
}

/// Saturating product.
pub open spec fn sat_product(a: int, b: int) -> u64 {
    if a * b > u64::MAX {
        u64::MAX
    } else {
        (a * b) as u64
    }
}

/// Whether an attempt outcome carries a constructed response.
pub open spec fn answered(outcome: LookupOutcome) -> bool {
    !(outcome == LookupOutcome::TtlExpired || outcome == LookupOutcome::MtuExceeded)
}

/// The outcome and signal of every attempt of a lookup: the TTL check first, then the
/// MTU check on request and response, then an absent target, then a broken reverse path.
pub open spec fn spec_attempt_verdict(config: LookupConfig, case: LookupCase) -> (LookupOutcome, Option<RoutingSignal>) {
    let request = LOOKUP_REQUEST_DEPTH_0_BYTES + 16 * case.origin_depth;
    let response = LOOKUP_RESPONSE_DEPTH_0_BYTES + 16 * case.target_depth;
    if case.required_hops > config.ttl {
        (LookupOutcome::TtlExpired, None)
    } else if request + ESTABLISHED_FMP_OVERHEAD_BYTES > config.mtu_bytes || response + ESTABLISHED_FMP_OVERHEAD_BYTES > config.mtu_bytes {
        (LookupOutcome::MtuExceeded, Some(RoutingSignal::MtuExceeded))
    } else if case.target_absent {
        (LookupOutcome::Negative, None)
    } else if case.reverse_path_broken {
        (LookupOutcome::ReversePathBroken, Some(RoutingSignal::PathBroken))
    } else {
        (LookupOutcome::Success, None)
    }
}

/// Attempts made: one when the first succeeds, else the whole budget.
pub open spec fn spec_attempt_count(config: LookupConfig, case: LookupCase) -> nat {
    if spec_attempt_verdict(config, case).0 == LookupOutcome::Success && config.maximum_attempts > 0 {
        1
    } else {
        config.maximum_attempts as nat
    }
}

/// Jitter before retry `k`.
pub open spec fn spec_retry_jitter(config: LookupConfig, case: LookupCase, k: nat) -> u64 {
    if config.jitter_ns == 0 {
        0
    } else {
        (spec_stable_id(case.seed, case.ordinal, k as u32, 99) % config.jitter_ns) as u64
    }
}

/// Start time of attempt `k`: each retry waits `base * 2^min(k, 31)` plus its jitter, saturating.
pub open spec fn spec_start_time(config: LookupConfig, case: LookupCase, start: u64, k: nat) -> u64
    decreases k,
{
    if k == 0 {
        start
    } else {
        let e: nat = if k < 31 { k } else { 31 };
        let backoff = sat_product(config.backoff_base_ns as int, pow2(e) as int);
        sat_sum(sat_sum(spec_start_time(config, case, start, (k - 1) as nat) as int, backoff as int) as int,
            spec_retry_jitter(config, case, k) as int)
    }
}

/// Whether a signal last sent at `last` may be sent again at `at`.
pub open spec fn spec_signal_allowed(last: Option<u64>, at: u64, interval: u64) -> bool {
    match last {
        None => true,
        Some(l) => (if at >= l { at - l } else { 0 }) >= interval,
    }
}

/// Signals let through, and the last send time, after the first `k` attempts of a
/// lookup signal a kind last sent at `last`.
pub open spec fn spec_signal_fold(config: LookupConfig, case: LookupCase, start: u64, last: Option<u64>, k: nat) -> (nat, Option<u64>)
    decreases k,
{
    if k == 0 {
        (0, last)
    } else {
        let prev = spec_signal_fold(config, case, start, last, (k - 1) as nat);
        let t = spec_start_time(config, case, start, (k - 1) as nat);
        if spec_signal_allowed(prev.1, t, config.signal_interval_ns) {
            (prev.0 + 1, Some(t))
        } else {
            prev
        }
    }
}

/// Recent request IDs after remembering one: a new ID is appended and the oldest
/// dropped beyond `capacity`.
pub open spec fn spec_remember(recent: Seq<u64>, capacity: nat, id: u64) -> Seq<u64> {
    if recent.contains(id) {
        recent
    } else {
        let r = recent.push(id);
        if r.len() > capacity {
            r.skip(r.len() - capacity)
        } else {
            r
        }
    }
}

/// Recent request IDs after the first `k` attempts of a lookup.
pub open spec fn spec_recent_after(config: LookupConfig, case: LookupCase, recent: Seq<u64>, k: nat) -> Seq<u64>
    decreases k,
{
    if k == 0 {
        recent
    } else {
        spec_remember(spec_recent_after(config, case, recent, (k - 1) as nat), config.recent_capacity as nat,
            spec_stable_id(case.seed, case.ordinal, (k - 1) as u32, 0))
    }
}

/// The record of attempt `k`.
pub open spec fn spec_attempt_record(config: LookupConfig, case: LookupCase, start: u64, k: nat, a: LookupAttempt) -> bool {
    let verdict = spec_attempt_verdict(config, case);
    let response = LOOKUP_RESPONSE_DEPTH_0_BYTES + 16 * case.target_depth;
    &&& a.request_id == spec_stable_id(case.seed, case.ordinal, k as u32, 0)
    &&& a.causal_id@ == spec_causal_label(case.ordinal, k as u32)
    &&& if k == 0 {
        a.parent_causal_id is None
    } else {
        a.parent_causal_id matches Some(p) && p@ == spec_causal_label(case.ordinal, (k - 1) as u32)
    }
    &&& a.attempt == k
    &&& a.started_at_ns == spec_start_time(config, case, start, k)
    &&& a.ttl == config.ttl
    &&& a.required_hops == case.required_hops
    &&& a.request_message_bytes == LOOKUP_REQUEST_DEPTH_0_BYTES + 16 * case.origin_depth
    &&& a.response_message_bytes == if answered(verdict.0) { response } else { 0 }
    &&& a.false_positive_candidates == case.false_positive_candidates
    &&& a.deduplicated == case.false_positive_candidates / 2
    &&& a.outcome == verdict.0
    &&& a.signal == verdict.1
}

/// The attempts and outcome of a lookup run with `config` on `case` from `start`.
pub open spec fn spec_lookup_run(config: LookupConfig, case: LookupCase, start: u64, run: LookupRun) -> bool {
    let n = spec_attempt_count(config, case);
    &&& run.attempts@.len() == n
    &&& forall|k: int| 0 <= k < n ==> spec_attempt_record(config, case, start, k as nat, #[trigger] run.attempts@[k])
    &&& run.outcome == if n > 0 { spec_attempt_verdict(config, case).0 } else { LookupOutcome::Negative }
}

/// A lookup whose request does not fit the path MTU never succeeds: when the hop budget
/// suffices but the encoded request (62 bytes plus 16 per coordinate of the origin)
/// plus the established-session overhead exceeds the MTU, every attempt of the whole
/// budget fails with an MTU signal, whatever the response size is.
pub proof fn law_oversized_request_never_succeeds(config: LookupConfig, case: LookupCase, start: u64, run: LookupRun)
    requires
        spec_lookup_run(config, case, start, run),
        case.required_hops <= config.ttl,
        LOOKUP_REQUEST_DEPTH_0_BYTES + 16 * case.origin_depth + ESTABLISHED_FMP_OVERHEAD_BYTES > config.mtu_bytes,
    ensures
        run.attempts@.len() == config.maximum_attempts,
        forall|k: int| 0 <= k < run.attempts@.len() ==> (#[trigger] run.attempts@[k]).outcome == LookupOutcome::MtuExceeded
            && run.attempts@[k].signal == Some(RoutingSignal::MtuExceeded)
            && run.attempts@[k].response_message_bytes == 0,
        run.outcome != LookupOutcome::Success,
        config.maximum_attempts > 0 ==> run.outcome == LookupOutcome::MtuExceeded,
{
    assert forall|k: int| 0 <= k < run.attempts@.len() implies (#[trigger] run.attempts@[k]).outcome == LookupOutcome::MtuExceeded
        && run.attempts@[k].signal == Some(RoutingSignal::MtuExceeded)
        && run.attempts@[k].response_message_bytes == 0 by {
        assert(spec_attempt_record(config, case, start, k as nat, run.attempts@[k]));
    }
}

/// The other verdicts of a lookup, in terms of the case: a hop count beyond the TTL
/// expires every attempt without a signal; an oversized response (the codec's
/// `LOOKUP_RESPONSE_DEPTH_0_BYTES` plus 16 per target coordinate, plus the session
/// overhead) fails every attempt with an MTU signal; and a lookup that fits,
/// reaches a present target and has a working reverse path succeeds at its first
/// attempt.
pub proof fn law_lookup_verdicts(config: LookupConfig, case: LookupCase, start: u64, run: LookupRun)
    requires
        spec_lookup_run(config, case, start, run),
    ensures
        case.required_hops > config.ttl ==> forall|k: int| 0 <= k < run.attempts@.len()
            ==> (#[trigger] run.attempts@[k]).outcome == LookupOutcome::TtlExpired && run.attempts@[k].signal is None,
        case.required_hops <= config.ttl
            && LOOKUP_RESPONSE_DEPTH_0_BYTES + 16 * case.target_depth + ESTABLISHED_FMP_OVERHEAD_BYTES > config.mtu_bytes
            ==> run.outcome != LookupOutcome::Success && forall|k: int| 0 <= k < run.attempts@.len()
                ==> (#[trigger] run.attempts@[k]).outcome == LookupOutcome::MtuExceeded,
        case.required_hops <= config.ttl
            && LOOKUP_REQUEST_DEPTH_0_BYTES + 16 * case.origin_depth + ESTABLISHED_FMP_OVERHEAD_BYTES <= config.mtu_bytes
            && LOOKUP_RESPONSE_DEPTH_0_BYTES + 16 * case.target_depth + ESTABLISHED_FMP_OVERHEAD_BYTES <= config.mtu_bytes
            && !case.target_absent && !case.reverse_path_broken && config.maximum_attempts > 0
            ==> run.outcome == LookupOutcome::Success && run.attempts@.len() == 1,
{
    assert forall|k: int| 0 <= k < run.attempts@.len() implies #[trigger] spec_attempt_record(config, case, start, k as nat, run.attempts@[k]) by {
    }
}

/// Counters after `n` attempts, the signal kind having been last sent at `last`.
pub open spec fn spec_run_counters(config: LookupConfig, case: LookupCase, start: u64, last: Option<u64>, n: nat) -> LookupCounters {
    let verdict = spec_attempt_verdict(config, case);
    let request = LOOKUP_REQUEST_DEPTH_0_BYTES + 16 * case.origin_depth;
    let response = LOOKUP_RESPONSE_DEPTH_0_BYTES + 16 * case.target_depth;
    let allowed = spec_signal_fold(config, case, start, last, n).0;
    let succeeded = n > 0 && verdict.0 == LookupOutcome::Success;
    LookupCounters {
        lookups: 1,
        attempts: n as u64,
        successes: if succeeded { 1 } else { 0 },
        failures: if succeeded { 0 } else { 1 },
        retries: if n > 0 { (n - 1) as u64 } else { 0 },
        deduplicated: (n * (case.false_positive_candidates / 2)) as u64,
        false_positive_candidates: (n * case.false_positive_candidates) as u64,
        request_message_bytes: sat_product(n as int, request),
        response_message_bytes: if answered(verdict.0) { sat_product(n as int, response) } else { 0 },
        signals: match verdict.1 {
            None => spec_no_signals(),
            Some(kind) => spec_with_signal_count(spec_no_signals(), kind, allowed as u64),
        },
        signals_rate_limited: match verdict.1 {
            None => 0,
            Some(_) => (n - allowed) as u64,
        },
        recovery_time_ns: if n > 0 {
            let t = spec_start_time(config, case, start, (n - 1) as nat);
            if t >= start { (t - start) as u64 } else { 0 }
        } else {
            0
        },
    }
}

proof fn lemma_fold_bound(config: LookupConfig, case: LookupCase, start: u64, last: Option<u64>, k: nat)
    ensures
        spec_signal_fold(config, case, start, last, k).0 <= k,
    decreases k,
{
    if k > 0 {
        lemma_fold_bound(config, case, start, last, (k - 1) as nat);
    }
}

proof fn lemma_count_step(k: int, d: int)
    by (nonlinear_arith)
    requires
        0 <= k < 0x1_0000_0000,
        0 <= d < 0x1_0000_0000,
    ensures
        (k + 1) * d == k * d + d,
        0 <= k * d,
        (k + 1) * d <= 0xFFFF_FFFF_0000_0000,
{
}

proof fn lemma_sat_product_step(k: int, x: int)
    requires
        0 <= k,
        0 <= x,
    ensures
        sat_product(k + 1, x) == sat_sum(sat_product(k, x) as int, x),
{
    assert((k + 1) * x == k * x + x) by (nonlinear_arith);
    assert(0 <= k * x) by (nonlinear_arith)
        requires
            0 <= k,
            0 <= x,
    ;
}

/// Every lookup ends as exactly one success or one failure; every attempt after the
/// first is a retry; and every signalled attempt is either let through or rate-limited.
pub proof fn law_lookup_counters_balance(config: LookupConfig, case: LookupCase, start: u64, last: Option<u64>)
    ensures
        ({
            let n = spec_attempt_count(config, case);
            let c = spec_run_counters(config, case, start, last, n);
            &&& c.lookups == c.successes + c.failures
            &&& n > 0 ==> c.attempts == c.retries + 1
            &&& spec_attempt_verdict(config, case).1 matches Some(kind)
                ==> spec_signal_count(c.signals, kind) + c.signals_rate_limited == c.attempts
            &&& c.successes == 1 ==> c.attempts == 1
        }),
{
    let n = spec_attempt_count(config, case);
    lemma_fold_bound(config, case, start, last, n);
}

/// Last send time of each signal kind.
#[derive(Debug, Clone, Copy)]
struct SignalClock {
    coords_required: Option<u64>,
    path_broken: Option<u64>,
    mtu_exceeded: Option<u64>,
}

spec fn clock_get(c: SignalClock, kind: RoutingSignal) -> Option<u64> {
    match kind {
        RoutingSignal::CoordsRequired => c.coords_required,
        RoutingSignal::PathBroken => c.path_broken,
        RoutingSignal::MtuExceeded => c.mtu_exceeded,
    }
}

/// Stateful recent-request and signal-rate-limit model.
#[derive(Debug, Clone)]
pub struct LookupService {
    config: LookupConfig,
    recent: Vec<u64>,
    signal_last_sent: SignalClock,
}

impl LookupService {
    /// Policy.
    pub closed spec fn spec_config(&self) -> LookupConfig {
        self.config
    }

    /// Recently seen request IDs, oldest first.
    pub closed spec fn spec_recent(&self) -> Seq<u64> {
        self.recent@
    }

    /// When a signal kind was last let through.
    pub closed spec fn spec_last_sent(&self, kind: RoutingSignal) -> Option<u64> {
        clock_get(self.signal_last_sent, kind)
    }

    /// Create a lookup service.
    pub fn new(config: LookupConfig) -> (r: Self)
        ensures
            r.spec_config() == config,
            r.spec_recent() == Seq::<u64>::empty(),
            forall|kind: RoutingSignal| #[trigger] r.spec_last_sent(kind) is None,
    {
        LookupService {
            config,
            recent: Vec::new(),
            signal_last_sent: SignalClock { coords_required: None, path_broken: None, mtu_exceeded: None },
        }
    }

    /// Generate a CoordsRequired signal for a cache miss subject to the same limiter.
    pub fn coords_required(&mut self, at_ns: u64) -> (r: bool)
        ensures
            r == spec_signal_allowed(old(self).spec_last_sent(RoutingSignal::CoordsRequired), at_ns, old(self).spec_config().signal_interval_ns),
            final(self).spec_last_sent(RoutingSignal::CoordsRequired) == if r {
                Some(at_ns)
            } else {
                old(self).spec_last_sent(RoutingSignal::CoordsRequired)
            },
            forall|kind: RoutingSignal| kind != RoutingSignal::CoordsRequired
                ==> #[trigger] final(self).spec_last_sent(kind) == old(self).spec_last_sent(kind),
            final(self).spec_config() == old(self).spec_config(),
            final(self).spec_recent() == old(self).spec_recent(),
    {
        self.signal_allowed(RoutingSignal::CoordsRequired, at_ns)
    }

    /// Execute a lookup including deterministic retries.
    pub fn execute(&mut self, case: &LookupCase, start_ns: u64) -> (run: LookupRun)
        ensures
            ({
                let config = old(self).spec_config();
                let verdict = spec_attempt_verdict(config, *case);
                let n = spec_attempt_count(config, *case);
                let last0 = match verdict.1 {
                    Some(kind) => old(self).spec_last_sent(kind),
                    None => None,
                };
                &&& run.attempts@.len() == n
                &&& forall|k: int| 0 <= k < n ==> spec_attempt_record(config, *case, start_ns, k as nat, #[trigger] run.attempts@[k])
                &&& run.outcome == if n > 0 { verdict.0 } else { LookupOutcome::Negative }
                &&& run.counters == spec_run_counters(config, *case, start_ns, last0, n)
                &&& final(self).spec_config() == config
                &&& final(self).spec_recent() == spec_recent_after(config, *case, old(self).spec_recent(), n)
                &&& forall|kind: RoutingSignal| #[trigger] final(self).spec_last_sent(kind) == if verdict.1 == Some(kind) {
                    spec_signal_fold(config, *case, start_ns, old(self).spec_last_sent(kind), n).1
                } else {
                    old(self).spec_last_sent(kind)
                }
            }),
            spec_lookup_run(old(self).spec_config(), *case, start_ns, run),
    {
        let config = self.config;
        let ghost verdict = spec_attempt_verdict(config, *case);
        let request_bytes = lookup_request_bytes(case.origin_depth);
        let response_bytes = lookup_response_bytes(case.target_depth);
        let deduplicated = case.false_positive_candidates / 2;
        let (outcome, signal) = if case.required_hops > config.ttl as u32 {
            (LookupOutcome::TtlExpired, None)
        } else if request_bytes + ESTABLISHED_FMP_OVERHEAD_BYTES > config.mtu_bytes
            || response_bytes + ESTABLISHED_FMP_OVERHEAD_BYTES > config.mtu_bytes {
            (LookupOutcome::MtuExceeded, Some(RoutingSignal::MtuExceeded))
        } else if case.target_absent {
            (LookupOutcome::Negative, None)
        } else if case.reverse_path_broken {
            (LookupOutcome::ReversePathBroken, Some(RoutingSignal::PathBroken))
        } else {
            (LookupOutcome::Success, None)
        };
        let succeeded = match outcome {
            LookupOutcome::Success => true,
            _ => false,
        };
        let responded = match outcome {
            LookupOutcome::TtlExpired | LookupOutcome::MtuExceeded => false,
            _ => true,
        };
        let n: u32 = if succeeded && config.maximum_attempts > 0 { 1 } else { config.maximum_attempts };
        let ghost last0 = match verdict.1 {
            Some(kind) => clock_get(self.signal_last_sent, kind),
            None => None,
        };
        let ghost clock0 = self.signal_last_sent;
        let ghost recent0 = self.recent@;
        let mut counters = LookupCounters::default();
        counters.lookups = 1;
        let mut attempts: Vec<LookupAttempt> = Vec::new();
        let mut at = start_ns;
        let mut parent: Option<String> = None;
        let mut attempt: u32 = 0;
        while attempt < n
            invariant
                self.config == config,
                config == old(self).config,
                verdict == spec_attempt_verdict(config, *case),
                verdict == (outcome, signal),
                succeeded == (outcome == LookupOutcome::Success),
                responded == answered(outcome),
                n == spec_attempt_count(config, *case),
                request_bytes == LOOKUP_REQUEST_DEPTH_0_BYTES + 16 * case.origin_depth,
                response_bytes == LOOKUP_RESPONSE_DEPTH_0_BYTES + 16 * case.target_depth,
                deduplicated == case.false_positive_candidates / 2,
                last0 == match verdict.1 {
                    Some(kind) => clock_get(clock0, kind),
                    None => None,
                },
                attempt <= n,
                attempts@.len() == attempt,
                forall|k: int| 0 <= k < attempt ==> spec_attempt_record(config, *case, start_ns, k as nat, #[trigger] attempts@[k]),
                attempt == 0 ==> at == start_ns,
                attempt > 0 ==> at == spec_start_time(config, *case, start_ns, (attempt - 1) as nat),
                attempt == 0 ==> parent is None,
                attempt > 0 ==> (parent matches Some(p) && p@ == spec_causal_label(case.ordinal, (attempt - 1) as u32)),
                counters == (LookupCounters {
                    failures: 0,
                    recovery_time_ns: 0,
                    ..spec_run_counters(config, *case, start_ns, last0, attempt as nat)
                }),
                self.recent@ == spec_recent_after(config, *case, recent0, attempt as nat),
                forall|kind: RoutingSignal| #[trigger] clock_get(self.signal_last_sent, kind) == if verdict.1 == Some(kind) {
                    spec_signal_fold(config, *case, start_ns, clock_get(clock0, kind), attempt as nat).1
                } else {
                    clock_get(clock0, kind)
                },
            decreases n - attempt,
        {
            let ghost k = attempt as nat;
            if attempt > 0 {
                counters.retries = counters.retries + 1;
                let e: u64 = if attempt < 31 { attempt as u64 } else { 31 };
                proof {
                    vstd::bits::lemma_u64_pow2_no_overflow(e as nat);
                    vstd::bits::lemma_u64_shl_is_mul(1, e);
                }
                let exponent: u64 = 1u64 << e;
                let jitter = if config.jitter_ns == 0 {
                    0
                } else {
                    stable_id(case.seed, case.ordinal, attempt, 99) % config.jitter_ns
                };
                let backoff = match config.backoff_base_ns.checked_mul(exponent) {
                    Some(v) => v,
                    None => u64::MAX,
                };
                at = at.saturating_add(backoff).saturating_add(jitter);
            }
            assert(at == spec_start_time(config, *case, start_ns, k));
            let request_id = stable_id(case.seed, case.ordinal, attempt, 0);
            let causal_id = causal_label(case.ordinal, attempt);
            self.remember(request_id);
            proof {
                lemma_count_step(k as int, deduplicated as int);
                lemma_count_step(k as int, case.false_positive_candidates as int);
                lemma_sat_product_step(k as int, request_bytes as int);
                lemma_sat_product_step(k as int, response_bytes as int);
                lemma_fold_bound(config, *case, start_ns, last0, k);
            }
            counters.attempts = counters.attempts + 1;
            counters.deduplicated = counters.deduplicated + deduplicated as u64;
            counters.false_positive_candidates = counters.false_positive_candidates + case.false_positive_candidates as u64;
            counters.request_message_bytes = counters.request_message_bytes.saturating_add(request_bytes);
            if responded {
                counters.response_message_bytes = counters.response_message_bytes.saturating_add(response_bytes);
            }
            match signal {
                Some(kind) => {
                    if self.signal_allowed(kind, at) {
                        let v = counters.signals.count(kind) + 1;
                        counters.signals = match kind {
                            RoutingSignal::CoordsRequired => SignalCounts { coords_required: v, ..counters.signals },
                            RoutingSignal::PathBroken => SignalCounts { path_broken: v, ..counters.signals },
                            RoutingSignal::MtuExceeded => SignalCounts { mtu_exceeded: v, ..counters.signals },
                        };
                    } else {
                        counters.signals_rate_limited = counters.signals_rate_limited + 1;
                    }
                },
                None => {},
            }
            let parent_copy = match &parent {
                Some(p) => Some(p.clone()),
                None => None,
            };
            attempts.push(LookupAttempt {
                request_id,
                causal_id: causal_id.clone(),
                parent_causal_id: parent_copy,
                attempt,
                started_at_ns: at,
                ttl: config.ttl,
                required_hops: case.required_hops,
                request_message_bytes: request_bytes,
                response_message_bytes: if responded { response_bytes } else { 0 },
                false_positive_candidates: case.false_positive_candidates,
                deduplicated,
                outcome,
                signal,
            });
            parent = Some(causal_id);
            if succeeded {
                counters.successes = 1;
            }
            attempt = attempt + 1;
        }
        if counters.successes == 0 {
            counters.failures = 1;
        }
        if n > 0 {
            counters.recovery_time_ns = at.saturating_sub(start_ns);
        }
        let final_outcome = if n > 0 { outcome } else { LookupOutcome::Negative };
        LookupRun { attempts, outcome: final_outcome, counters }
    }

    fn remember(&mut self, request_id: u64)
        ensures
            final(self).recent@ == spec_remember(old(self).recent@, old(self).config.recent_capacity as nat, request_id),
            final(self).config == old(self).config,
            final(self).signal_last_sent == old(self).signal_last_sent,
    {
        let mut i: usize = 0;
        while i < self.recent.len()
            invariant
                i <= self.recent@.len(),
                forall|k: int| 0 <= k < i ==> self.recent@[k] != request_id,
            decreases self.recent@.len() - i,
        {
            if self.recent[i] == request_id {
                assert(self.recent@.contains(request_id)) by {
                    assert(self.recent@[i as int] == request_id);
                }
                return;
            }
            i = i + 1;
        }
        let ghost r = self.recent@.push(request_id);
        self.recent.push(request_id);
        let ghost mut dropped: int = 0;
        while self.recent.len() > self.config.recent_capacity
            invariant
                0 <= dropped <= r.len(),
                self.recent@ == r.skip(dropped),
                dropped > 0 ==> r.len() - dropped >= self.config.recent_capacity,
                self.config == old(self).config,
                self.signal_last_sent == old(self).signal_last_sent,
            decreases self.recent@.len(),
        {
            self.recent.remove(0);
            proof {
                assert(self.recent@ =~= r.skip(dropped + 1));
                dropped = dropped + 1;
            }
        }
        proof {
            if r.len() > self.config.recent_capacity {
                assert(dropped == r.len() - self.config.recent_capacity);
            } else {
                assert(dropped == 0);
                assert(r.skip(0) =~= r);
            }
        }
    }

    fn signal_allowed(&mut self, signal: RoutingSignal, at_ns: u64) -> (r: bool)
        ensures
            r == spec_signal_allowed(clock_get(old(self).signal_last_sent, signal), at_ns, old(self).config.signal_interval_ns),
            clock_get(final(self).signal_last_sent, signal) == if r {
                Some(at_ns)
            } else {
                clock_get(old(self).signal_last_sent, signal)
            },
            forall|kind: RoutingSignal| kind != signal
                ==> #[trigger] clock_get(final(self).signal_last_sent, kind) == clock_get(old(self).signal_last_sent, kind),
            final(self).config == old(self).config,
            final(self).recent == old(self).recent,
    {
        let last = match signal {
            RoutingSignal::CoordsRequired => self.signal_last_sent.coords_required,
            RoutingSignal::PathBroken => self.signal_last_sent.path_broken,
            RoutingSignal::MtuExceeded => self.signal_last_sent.mtu_exceeded,
        };
        let allowed = match last {
            None => true,
            Some(l) => at_ns.saturating_sub(l) >= self.config.signal_interval_ns,
        };
        if allowed {
            match signal {
                RoutingSignal::CoordsRequired => {
                    self.signal_last_sent.coords_required = Some(at_ns);
                },
                RoutingSignal::PathBroken => {
                    self.signal_last_sent.path_broken = Some(at_ns);
                },
                RoutingSignal::MtuExceeded => {
                    self.signal_last_sent.mtu_exceeded = Some(at_ns);
                },
            }
        }
        allowed
    }
}

} // verus!
