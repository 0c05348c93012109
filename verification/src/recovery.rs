//! Validation of the plain settings of a coupled recovery run: Bloom fidelity, the
//! recovery link, lookup and cache parameters, traffic pacing and the arrival
//! schedule that the tree recovery time is measured from.

use vstd::prelude::*;
use crate::bloom::BloomMode;
use crate::network::{LinkConfig, LinkOrdering};
use crate::lookup::{LookupConfig, spec_default_lookup_config};
use crate::text::str_equals;

verus! {

/// The recovery settings of a campaign, each `None` where the campaign does not give
/// it (or gives it with another type).
#[derive(Debug, Clone)]
pub struct RecoveryFields {
    /// `/fidelity/bloom`.
    pub bloom: Option<String>,
    /// `/links/ordering`.
    pub ordering: Option<String>,
    /// `/links/latency` in nanoseconds.
    pub latency_ns: Option<u64>,
    /// `/links/jitter` in nanoseconds.
    pub jitter_ns: Option<u64>,
    /// `/links/bandwidth_bps`.
    pub bandwidth_bps: Option<u64>,
    /// `/links/loss_ppm`.
    pub loss_ppm: Option<u64>,
    /// `/links/duplication_ppm`.
    pub duplication_ppm: Option<u64>,
    /// `/links/mtu_bytes`.
    pub mtu_bytes: Option<u64>,
    /// `/links/queue_bytes`.
    pub queue_bytes: Option<u64>,
    /// `/identities/arrivals/schedule/start` in nanoseconds.
    pub arrival_start_ns: Option<u64>,
    /// `/identities/arrivals/schedule/interval` in nanoseconds.
    pub arrival_interval_ns: Option<u64>,
    /// `/protocol/parameters/bloom_update_debounce` in nanoseconds.
    pub bloom_debounce_ns: Option<u64>,
    /// `/protocol/parameters/coord_cache_entries`.
    pub cache_entries: Option<u64>,
    /// `/protocol/parameters/coord_cache_ttl` in nanoseconds.
    pub cache_ttl_ns: Option<u64>,
    /// `/protocol/parameters/lookup_ttl`.
    pub lookup_ttl: Option<u64>,
    /// `/protocol/parameters/lookup_attempts`.
    pub lookup_attempts: Option<u64>,
    /// `/traffic/payload_bytes`.
    pub payload_bytes: Option<u64>,
    /// `/traffic/rate_bps`.
    pub rate_bps: Option<u64>,
    /// `/traffic/parameters/flow_count`.
    pub flow_count: Option<u64>,
    /// `/traffic/parameters/segments_per_stream`.
    pub segments_per_stream: Option<u64>,
    /// `/traffic/parameters/burst_size`.
    pub burst_size: Option<u64>,
    /// `/traffic/parameters/burst_interval_ns`.
    pub burst_interval_ns: Option<u64>,
    /// `/resources/assignment`.
    pub resource_assignment: Option<String>,
}

/// The setting a recovery run cannot use.
#[derive(Debug, Clone, Copy, PartialEq, Eq, Structural)]
pub enum UnsupportedSetting {
    /// The node count does not fit 32-bit node ids.
    NodeIds,
    /// The Bloom fidelity is not a known mode.
    BloomMode,
    /// The link ordering is neither datagram nor stream.
    LinkOrdering,
    /// The loss rate does not fit 32 bits.
    LossPpm,
    /// The duplication rate does not fit 32 bits.
    DuplicationPpm,
    /// The arrival count does not fit 32 bits.
    ArrivalCount,
    /// The cache capacity does not fit `usize`.
    CacheCapacity,
    /// The lookup TTL does not fit 8 bits.
    LookupTtl,
    /// The lookup attempts do not fit 32 bits.
    LookupAttempts,
    /// The segments per stream do not fit 32 bits.
    SegmentsPerStream,
    /// The burst size does not fit 32 bits.
    BurstSize,
}

/// Why a recovery run cannot be configured.
#[derive(Debug, Clone, Copy, PartialEq, Eq, Structural)]
pub enum RecoveryError {
    /// A resolved setting is outside what the recovery model supports.
    Unsupported(UnsupportedSetting),
}

/// The validated plain settings of a recovery run.
#[derive(Debug, Clone, Copy, PartialEq, Eq, Structural)]
pub struct RecoverySettings {
    pub nodes: u32,
    pub arrivals: u32,
    pub arrival_start_ns: u64,
    pub arrival_interval_ns: u64,
    /// Time from the last arrival to tree quiescence (zero if quiescence came first).
    pub tree_recovery_ns: u64,
    pub bloom_mode: BloomMode,
    pub bloom_debounce_ns: u64,
    pub cache_entries: usize,
    pub cache_ttl_ns: u64,
    pub lookup: LookupConfig,
    pub link: LinkConfig,
    pub flow_count: u64,
    pub payload_bytes: u64,
    pub rate_bps: u64,
    /// Time between payloads at the traffic rate, at least one nanosecond.
    pub interval_ns: u64,
    pub segments_per_stream: u32,
    pub burst_size: u32,
    pub burst_interval_ns: u64,
    pub heterogeneous: bool,
}

/// An optional integer or a default.
pub open spec fn value_or(o: Option<u64>, d: u64) -> u64 {
    match o {
        Some(v) => v,
        None => d,
    }
}

/// A string setting or a default.
pub open spec fn setting_or(o: Option<String>, d: Seq<char>) -> Seq<char> {
    match o {
        Some(s) => s@,
        None => d,
    }
}

/// `a * b`, or `u64::MAX` where it overflows.
pub open spec fn saturated_product(a: int, b: int) -> int {
    if a * b > u64::MAX { u64::MAX as int } else { a * b }
}

/// `a - b`, or zero where `b` is larger.
pub open spec fn saturated_difference(a: int, b: int) -> int {
    if a >= b { a - b } else { 0 }
}

/// The Bloom fidelity named by a setting.
pub open spec fn bloom_mode_named(s: Seq<char>) -> Option<BloomMode> {
    if s == "exact-bits"@ {
        Some(BloomMode::ExactBits)
    } else if s == "sparse-bits"@ {
        Some(BloomMode::SparseBits)
    } else if s == "occupancy"@ {
        Some(BloomMode::Occupancy)
    } else {
        None
    }
}

/// The time between payloads: `payload * 8 * 10^9 / rate` (saturating, rate at
/// least one), at least one nanosecond.
pub open spec fn pacing_interval(payload: u64, rate: u64) -> u64 {
    let bits = saturated_product(saturated_product(payload as int, 8), 1_000_000_000);
    let per = bits / (if rate == 0 { 1 } else { rate as int });
    if per < 1 { 1 } else { per as u64 }
}

/// When the last arrival is scheduled: `start + (arrivals - 1) * interval`, with the
/// count taken as at most `u32::MAX` and every step saturating.
pub open spec fn last_arrival_at(start: u64, interval: u64, arrivals: u64) -> int {
    let count = if arrivals > u32::MAX { u32::MAX as int } else { arrivals as int };
    let offset = saturated_product(saturated_difference(count, 1), interval as int);
    if start + offset > u64::MAX { u64::MAX as int } else { start + offset }
}

/// The recovery link: the campaign's link settings over the recovery defaults, with
/// UDP overhead.
pub open spec fn spec_recovery_link(c: RecoveryFields, ordering: LinkOrdering) -> Result<LinkConfig, RecoveryError> {
    let latency = value_or(c.latency_ns, 1_000_000);
    let loss = value_or(c.loss_ppm, 0);
    let duplication = value_or(c.duplication_ppm, 0);
    if loss > u32::MAX {
        Err(RecoveryError::Unsupported(UnsupportedSetting::LossPpm))
    } else if duplication > u32::MAX {
        Err(RecoveryError::Unsupported(UnsupportedSetting::DuplicationPpm))
    } else {
        Ok(LinkConfig {
            latency_ns: latency,
            jitter_ns: value_or(c.jitter_ns, latency / 2),
            bandwidth_bps: value_or(c.bandwidth_bps, 10_000_000),
            loss_ppm: loss as u32,
            duplication_ppm: duplication as u32,
            ordering,
            mtu_bytes: value_or(c.mtu_bytes, 1_500),
            queue_bytes: value_or(c.queue_bytes, 1_048_576),
            transport_overhead_bytes: 28,
        })
    }
}

/// The settings of a recovery run over a finished run of `node_count` nodes with
/// `arrivals` arrivals whose tree went quiet at `quiescence_ns`, or the first setting
/// that cannot be used, checked in this order: node ids, Bloom mode, link ordering,
/// loss, duplication, arrival count, cache capacity, lookup TTL, lookup attempts,
/// segments per stream, burst size.
pub open spec fn spec_recovery_settings(c: RecoveryFields, node_count: u64, arrivals: u64, quiescence_ns: u64) -> Result<RecoverySettings, RecoveryError> {
    if node_count > u32::MAX {
        Err(RecoveryError::Unsupported(UnsupportedSetting::NodeIds))
    } else {
        match bloom_mode_named(setting_or(c.bloom, "exact-bits"@)) {
            None => Err(RecoveryError::Unsupported(UnsupportedSetting::BloomMode)),
            Some(bloom_mode) => {
                let ordering_text = setting_or(c.ordering, "stream"@);
                if ordering_text != "datagram"@ && ordering_text != "stream"@ {
                    Err(RecoveryError::Unsupported(UnsupportedSetting::LinkOrdering))
                } else {
                    let ordering = if ordering_text == "datagram"@ { LinkOrdering::Datagram } else { LinkOrdering::Stream };
                    match spec_recovery_link(c, ordering) {
                        Err(e) => Err(e),
                        Ok(link) => {
                            let cache_entries = value_or(c.cache_entries, 64);
                            let ttl = value_or(c.lookup_ttl, 64);
                            let attempts = value_or(c.lookup_attempts, 3);
                            let segments = value_or(c.segments_per_stream, 32);
                            let burst = value_or(c.burst_size, 16);
                            if arrivals > u32::MAX {
                                Err(RecoveryError::Unsupported(UnsupportedSetting::ArrivalCount))
                            } else if cache_entries > usize::MAX {
                                Err(RecoveryError::Unsupported(UnsupportedSetting::CacheCapacity))
                            } else if ttl > u8::MAX {
                                Err(RecoveryError::Unsupported(UnsupportedSetting::LookupTtl))
                            } else if attempts > u32::MAX {
                                Err(RecoveryError::Unsupported(UnsupportedSetting::LookupAttempts))
                            } else if segments > u32::MAX {
                                Err(RecoveryError::Unsupported(UnsupportedSetting::SegmentsPerStream))
                            } else if burst > u32::MAX {
                                Err(RecoveryError::Unsupported(UnsupportedSetting::BurstSize))
                            } else {
                                let start = value_or(c.arrival_start_ns, 2_000_000_000);
                                let interval = value_or(c.arrival_interval_ns, 499_000_000);
                                let payload = value_or(c.payload_bytes, 512);
                                let rate = value_or(c.rate_bps, 4_096_000);
                                Ok(RecoverySettings {
                                    nodes: node_count as u32,
                                    arrivals: arrivals as u32,
                                    arrival_start_ns: start,
                                    arrival_interval_ns: interval,
                                    tree_recovery_ns: saturated_difference(quiescence_ns as int, last_arrival_at(start, interval, arrivals)) as u64,
                                    bloom_mode,
                                    bloom_debounce_ns: value_or(c.bloom_debounce_ns, 500_000_000),
                                    cache_entries: cache_entries as usize,
                                    cache_ttl_ns: value_or(c.cache_ttl_ns, 5_000_000_000),
                                    lookup: LookupConfig {
                                        ttl: ttl as u8,
                                        maximum_attempts: attempts as u32,
                                        mtu_bytes: saturated_difference(link.mtu_bytes as int, link.transport_overhead_bytes as int) as u64,
                                        ..spec_default_lookup_config()
                                    },
                                    link,
                                    flow_count: value_or(c.flow_count, 128),
                                    payload_bytes: payload,
                                    rate_bps: rate,
                                    interval_ns: pacing_interval(payload, rate),
                                    segments_per_stream: segments as u32,
                                    burst_size: burst as u32,
                                    burst_interval_ns: value_or(c.burst_interval_ns, 250_000_000),
                                    heterogeneous: c.resource_assignment matches Some(s) && s@ == "heterogeneous"@,
                                })
                            }
                        },
                    }
                }
            },
        }
    }
}

fn or_value(o: Option<u64>, d: u64) -> (r: u64)
    ensures
        r == value_or(o, d),
{
    match o {
        Some(v) => v,
        None => d,
    }
}

fn times_saturating(a: u64, b: u64) -> (r: u64)
    ensures
        r == saturated_product(a as int, b as int),
{
    match a.checked_mul(b) {
        Some(v) => v,
        None => u64::MAX,
    }
}

/// Validate the plain settings of a recovery run. The traffic model itself is read
/// by the traffic module, and the Bloom false-positive cap is a float; neither is
/// part of these settings.
pub fn recovery_settings_from_fields(c: &RecoveryFields, node_count: u64, arrivals: u64, quiescence_ns: u64) -> (r: Result<RecoverySettings, RecoveryError>)
    ensures
        r == spec_recovery_settings(*c, node_count, arrivals, quiescence_ns),
{
    if node_count > 4_294_967_295 {
        return Err(RecoveryError::Unsupported(UnsupportedSetting::NodeIds));
    }
    let bloom_text: &str = match &c.bloom {
        Some(s) => s.as_str(),
        None => "exact-bits",
    };
    let bloom_mode = if str_equals(bloom_text, "exact-bits") {
        BloomMode::ExactBits
    } else if str_equals(bloom_text, "sparse-bits") {
        BloomMode::SparseBits
    } else if str_equals(bloom_text, "occupancy") {
        BloomMode::Occupancy
    } else {
        return Err(RecoveryError::Unsupported(UnsupportedSetting::BloomMode));
    };
    let ordering_text: &str = match &c.ordering {
        Some(s) => s.as_str(),
        None => "stream",
    };
    let ordering = if str_equals(ordering_text, "datagram") {
        LinkOrdering::Datagram
    } else if str_equals(ordering_text, "stream") {
        LinkOrdering::Stream
    } else {
        return Err(RecoveryError::Unsupported(UnsupportedSetting::LinkOrdering));
    };
    let latency = or_value(c.latency_ns, 1_000_000);
    let loss = or_value(c.loss_ppm, 0);
    let duplication = or_value(c.duplication_ppm, 0);
    if loss > 4_294_967_295 {
        return Err(RecoveryError::Unsupported(UnsupportedSetting::LossPpm));
    }
    if duplication > 4_294_967_295 {
        return Err(RecoveryError::Unsupported(UnsupportedSetting::DuplicationPpm));
    }
    let link = LinkConfig {
        latency_ns: latency,
        jitter_ns: or_value(c.jitter_ns, latency / 2),
        bandwidth_bps: or_value(c.bandwidth_bps, 10_000_000),
        loss_ppm: loss as u32,
        duplication_ppm: duplication as u32,
        ordering,
        mtu_bytes: or_value(c.mtu_bytes, 1_500),
        queue_bytes: or_value(c.queue_bytes, 1_048_576),
        transport_overhead_bytes: 28,
    };
    let cache_entries = or_value(c.cache_entries, 64);
    let ttl = or_value(c.lookup_ttl, 64);
    let attempts = or_value(c.lookup_attempts, 3);
    let segments = or_value(c.segments_per_stream, 32);
    let burst = or_value(c.burst_size, 16);
    if arrivals > 4_294_967_295 {
        return Err(RecoveryError::Unsupported(UnsupportedSetting::ArrivalCount));
    }
    if cache_entries as u128 > usize::MAX as u128 {
        return Err(RecoveryError::Unsupported(UnsupportedSetting::CacheCapacity));
    }
    if ttl > 255 {
        return Err(RecoveryError::Unsupported(UnsupportedSetting::LookupTtl));
    }
    if attempts > 4_294_967_295 {
        return Err(RecoveryError::Unsupported(UnsupportedSetting::LookupAttempts));
    }
    if segments > 4_294_967_295 {
        return Err(RecoveryError::Unsupported(UnsupportedSetting::SegmentsPerStream));
    }
    if burst > 4_294_967_295 {
        return Err(RecoveryError::Unsupported(UnsupportedSetting::BurstSize));
    }
    let start = or_value(c.arrival_start_ns, 2_000_000_000);
    let interval = or_value(c.arrival_interval_ns, 499_000_000);
    let payload = or_value(c.payload_bytes, 512);
    let rate = or_value(c.rate_bps, 4_096_000);
    let count: u64 = if arrivals > 4_294_967_295 { 4_294_967_295 } else { arrivals };
    let before_last: u64 = if count >= 1 { count - 1 } else { 0 };
    let last_arrival = start.saturating_add(times_saturating(before_last, interval));
    let tree_recovery_ns = quiescence_ns.saturating_sub(last_arrival);
    let bits = times_saturating(times_saturating(payload, 8), 1_000_000_000);
    let per = bits / (if rate == 0 { 1 } else { rate });
    let interval_ns: u64 = if per < 1 { 1 } else { per };
    let lookup = LookupConfig {
        ttl: ttl as u8,
        maximum_attempts: attempts as u32,
        mtu_bytes: link.mtu_bytes.saturating_sub(link.transport_overhead_bytes),
        ..LookupConfig::default()
    };
    let heterogeneous = match &c.resource_assignment {
        Some(s) => str_equals(s.as_str(), "heterogeneous"),
        None => false,
    };
    Ok(RecoverySettings {
        nodes: node_count as u32,
        arrivals: arrivals as u32,
        arrival_start_ns: start,
        arrival_interval_ns: interval,
        tree_recovery_ns,
        bloom_mode,
        bloom_debounce_ns: or_value(c.bloom_debounce_ns, 500_000_000),
        cache_entries: cache_entries as usize,
        cache_ttl_ns: or_value(c.cache_ttl_ns, 5_000_000_000),
        lookup,
        link,
        flow_count: or_value(c.flow_count, 128),
        payload_bytes: payload,
        rate_bps: rate,
        interval_ns,
        segments_per_stream: segments as u32,
        burst_size: burst as u32,
        burst_interval_ns: or_value(c.burst_interval_ns, 250_000_000),
        heterogeneous,
    })
}

} // verus!
