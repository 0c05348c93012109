//! Deterministic link serialization, loss, ordering, MTU, and queue service.

use vstd::prelude::*;
use vstd::string::StringExecFns;
use crate::labels::push_decimal;
use crate::graph::{EdgeId, NodeId};
use crate::mixing::{deterministic_u64, spec_deterministic_u64};

pub mod stream;
pub mod ledger;
pub use stream::{StreamEnqueueRequest, StreamEnqueueResult};

verus! {

/// Nanoseconds per second.
pub const NANOS_PER_SECOND: u64 = 1_000_000_000;

/// Stream or datagram delivery semantics.
#[derive(Debug, Clone, Copy, PartialEq, Eq, Structural)]
pub enum LinkOrdering {
    /// Preserve send order at delivery.
    Stream,
    /// Permit deterministic latency jitter to reorder datagrams.
    Datagram,
}

/// Shared capacity class.
#[derive(Debug, Clone, Copy, PartialEq, Eq, Structural)]
pub enum LinkClass {
    /// Protocol control traffic.
    Control,
    /// Useful application payload.
    UsefulPayload,
}

/// Per-edge link configuration.
#[derive(Debug, Clone, Copy, PartialEq, Eq, Structural)]
pub struct LinkConfig {
    /// One-way propagation latency.
    pub latency_ns: u64,
    /// Maximum deterministic datagram jitter, exclusive.
    pub jitter_ns: u64,
    /// Shared serialization bandwidth.
    pub bandwidth_bps: u64,
    /// Independent deterministic loss probability in parts per million.
    pub loss_ppm: u32,
    /// Deterministic duplicate probability in parts per million.
    pub duplication_ppm: u32,
    /// Ordering contract.
    pub ordering: LinkOrdering,
    /// Effective link MTU including modeled transport/network overhead.
    pub mtu_bytes: u64,
    /// Maximum queued wire bytes per direction.
    pub queue_bytes: u64,
    /// Bytes added below the FMP frame by the selected transport profile.
    pub transport_overhead_bytes: u64,
}

/// The default link: 1 ms latency, 0.5 ms jitter, 1 Gbit/s, lossless datagrams,
/// 9000-byte MTU, 1 MiB queue and 28 bytes of transport overhead.
pub open spec fn spec_default_link() -> LinkConfig {
    LinkConfig {
        latency_ns: 1_000_000,
        jitter_ns: 500_000,
        bandwidth_bps: 1_000_000_000,
        loss_ppm: 0,
        duplication_ppm: 0,
        ordering: LinkOrdering::Datagram,
        mtu_bytes: 9_000,
        queue_bytes: 1_048_576,
        transport_overhead_bytes: 28,
    }
}

impl Default for LinkConfig {
    fn default() -> (r: Self)
        ensures
            r == spec_default_link(),
    {
        LinkConfig {
            latency_ns: 1_000_000,
            jitter_ns: 500_000,
            bandwidth_bps: 1_000_000_000,
            loss_ppm: 0,
            duplication_ppm: 0,
            ordering: LinkOrdering::Datagram,
            mtu_bytes: 9_000,
            queue_bytes: 1_048_576,
            transport_overhead_bytes: 28,
        }
    }
}

/// One scheduled link delivery.
#[derive(Debug, Clone, Copy, PartialEq, Eq, Structural)]
pub struct Delivery {
    /// Stable edge.
    pub edge_id: EdgeId,
    /// Sender.
    pub from: NodeId,
    /// Receiver.
    pub to: NodeId,
    /// Shared capacity class.
    pub class: LinkClass,
    /// Logical FMP frame bytes, excluding modeled lower-layer overhead.
    pub frame_bytes: u64,
    /// Total bytes placed on the configured transport.
    pub wire_bytes: u64,
    /// Delivery virtual time.
    pub deliver_at_ns: u64,
    /// Zero for the first copy, positive for deterministic duplicate copies.
    pub copy_ordinal: u8,
}

/// One logical frame offered to a directed link.
#[derive(Debug, Clone, Copy, PartialEq, Eq, Structural)]
pub struct EnqueueRequest {
    /// Stable edge.
    pub edge_id: EdgeId,
    /// Sender.
    pub from: NodeId,
    /// Receiver.
    pub to: NodeId,
    /// Shared capacity class.
    pub class: LinkClass,
    /// FMP frame bytes before lower-layer overhead.
    pub frame_bytes: u64,
    /// Useful payload contained in the frame, if any.
    pub useful_payload_bytes: u64,
    /// Injected enqueue time.
    pub now_ns: u64,
}

/// Result of one logical enqueue.
#[derive(Debug, Clone, PartialEq, Eq)]
pub struct EnqueueResult {
    /// Non-lost copies to schedule for delivery.
    pub deliveries: Vec<Delivery>,
    /// Total wire bytes serialized, including lost duplicates.
    pub transmitted_bytes: u64,
    /// Total bytes deterministically lost after transmission.
    pub lost_bytes: u64,
    /// Queue occupancy immediately after enqueue.
    pub queue_occupancy_bytes: u64,
}

/// Reconciled per-edge-direction counters.
#[derive(Debug, Clone, Copy, PartialEq, Eq, Structural)]
pub struct LinkCounters {
    /// Logical frames accepted into the bounded queue.
    pub accepted_frames: u64,
    /// Logical frames rejected before serialization.
    pub rejected_frames: u64,
    /// Bytes serialized onto the link, including duplicates and lost copies.
    pub transmitted_bytes: u64,
    /// Serialized bytes lost before delivery.
    pub lost_bytes: u64,
    /// Bytes delivered to the receiver.
    pub delivered_bytes: u64,
    /// Bytes rejected by MTU or queue policy.
    pub rejected_bytes: u64,
    /// Useful payload bytes delivered, excluding all framing.
    pub useful_payload_bytes: u64,
    /// Peak queued transport bytes.
    pub peak_queue_bytes: u64,
}

/// All-zero counters.
pub open spec fn spec_zero_counters() -> LinkCounters {
    LinkCounters {
        accepted_frames: 0,
        rejected_frames: 0,
        transmitted_bytes: 0,
        lost_bytes: 0,
        delivered_bytes: 0,
        rejected_bytes: 0,
        useful_payload_bytes: 0,
        peak_queue_bytes: 0,
    }
}

impl Default for LinkCounters {
    fn default() -> (r: Self)
        ensures
            r == spec_zero_counters(),
    {
        LinkCounters {
            accepted_frames: 0,
            rejected_frames: 0,
            transmitted_bytes: 0,
            lost_bytes: 0,
            delivered_bytes: 0,
            rejected_bytes: 0,
            useful_payload_bytes: 0,
            peak_queue_bytes: 0,
        }
    }
}

/// Typed link outcome.
#[derive(Debug, Clone, PartialEq, Eq, Structural)]
pub enum LinkError {
    /// Edge has no configuration.
    UnknownEdge(EdgeId),
    /// Configured bandwidth cannot serve frames.
    ZeroBandwidth(EdgeId),
    /// Effective frame exceeds the configured MTU.
    MtuExceeded {
        /// Edge ID.
        edge: EdgeId,
        /// Frame plus lower-layer overhead.
        frame_bytes: u64,
        /// Effective MTU.
        mtu_bytes: u64,
    },
    /// Tail-drop queue overflow.
    QueueFull {
        /// Edge ID.
        edge: EdgeId,
        /// Existing occupancy.
        queued_bytes: u64,
        /// New frame bytes.
        frame_bytes: u64,
        /// Queue capacity.
        limit_bytes: u64,
    },
    /// Delivery attempted without matching enqueue state.
    MissingDirection(EdgeId),
    /// Integer time/byte arithmetic overflow.
    Arithmetic,
    /// Quiescent counters failed exact reconciliation.
    Reconciliation {
        /// Edge ID.
        edge: EdgeId,
        /// Sender.
        from: NodeId,
        /// Receiver.
        to: NodeId,
        /// Serialized bytes.
        transmitted: u64,
        /// Delivered bytes.
        delivered: u64,
        /// Lost bytes.
        lost: u64,
    },
}

/// Per-direction runtime state.
#[derive(Debug, Clone, Copy, PartialEq, Eq, Structural)]
pub struct DirectionState {
    /// Latest delivery time handed out on a stream link.
    pub last_stream_delivery_ns: u64,
    /// Logical frames offered so far, used as the draw ordinal.
    pub frame_sequence: u64,
    /// Reconciled counters.
    pub counters: LinkCounters,
}

/// A fresh direction.
pub open spec fn spec_fresh_direction() -> DirectionState {
    DirectionState { last_stream_delivery_ns: 0, frame_sequence: 0, counters: spec_zero_counters() }
}

/// Serialization capacity shared by one direction or one shared medium.
#[derive(Debug, Clone, PartialEq, Eq)]
pub struct CapacityState {
    /// Time at which the transmitter becomes free.
    pub next_serialization_ns: u64,
    /// Queued transmissions as `(completion time, bytes)`, oldest first.
    pub queued: Vec<(u64, u64)>,
}

/// Total bytes in a queue.
pub open spec fn queue_sum(q: Seq<(u64, u64)>) -> int
    decreases q.len(),
{
    if q.len() == 0 {
        0
    } else {
        queue_sum(q.drop_last()) + q.last().1
    }
}

/// Queue left after removing leading entries completed by `now`.
pub open spec fn queue_drained(q: Seq<(u64, u64)>, now: u64) -> Seq<(u64, u64)>
    decreases q.len(),
{
    if q.len() > 0 && q[0].0 <= now {
        queue_drained(q.drop_first(), now)
    } else {
        q
    }
}

/// Key of a direction: `(edge, from, to)`.
pub type DirectionKey = (EdgeId, NodeId, NodeId);

/// Key of a capacity domain: a shared group tagged with the top bit, or one direction.
pub type CapacityKey = (u64, NodeId, NodeId);

/// Strict lexicographic order on direction keys.
pub open spec fn key_lt(a: DirectionKey, b: DirectionKey) -> bool {
    a.0 < b.0 || (a.0 == b.0 && (a.1 < b.1 || (a.1 == b.1 && a.2 < b.2)))
}

fn key_less(a: DirectionKey, b: DirectionKey) -> (r: bool)
    ensures
        r == key_lt(a, b),
{
    a.0 < b.0 || (a.0 == b.0 && (a.1 < b.1 || (a.1 == b.1 && a.2 < b.2)))
}

fn key_same(a: DirectionKey, b: DirectionKey) -> (r: bool)
    ensures
        r == (a == b),
{
    a.0 == b.0 && a.1 == b.1 && a.2 == b.2
}

fn capacity_key_same(a: CapacityKey, b: CapacityKey) -> (r: bool)
    ensures
        r == (a == b),
{
    a.0 == b.0 && a.1 == b.1 && a.2 == b.2
}

/// Stable link service for every directed edge.
#[derive(Debug, Clone)]
pub struct LinkService {
    seed: u64,
    configs: Vec<LinkConfig>,
    shared_groups: Vec<Option<u32>>,
    directions: Vec<(DirectionKey, DirectionState)>,
    capacities: Vec<(CapacityKey, CapacityState)>,
}

/// Seeded parts-per-million draw for one frame copy of a direction.
pub open spec fn spec_draw_ppm(seed: u64, edge: EdgeId, from: NodeId, to: NodeId, sequence: u64, salt: u8) -> u32 {
    let mixed = seed ^ ((edge as u64) << 40u64) ^ ((from as u64) << 24u64) ^ ((to as u64) << 8u64) ^ (salt as u64);
    (spec_deterministic_u64(mixed, sequence) % 1_000_000) as u32
}

fn draw_ppm(seed: u64, edge: EdgeId, from: NodeId, to: NodeId, sequence: u64, salt: u8) -> (r: u32)
    ensures
        r == spec_draw_ppm(seed, edge, from, to, sequence, salt),
        r < 1_000_000,
{
    let mixed = seed ^ ((edge as u64) << 40u64) ^ ((from as u64) << 24u64) ^ ((to as u64) << 8u64) ^ (salt as u64);
    (deterministic_u64(mixed, sequence) % 1_000_000) as u32
}

/// Ceiling division.
pub open spec fn ceil_div(x: int, d: int) -> int {
    if x % d == 0 {
        x / d
    } else {
        x / d + 1
    }
}

/// Nanoseconds to serialize `bytes` at `bandwidth_bps`, rounded up, if the bit-time fits 64 bits.
pub open spec fn spec_serialization_delay(bytes: u64, bandwidth_bps: u64) -> Option<u64> {
    if bytes * 8 * NANOS_PER_SECOND > u64::MAX {
        None
    } else {
        Some(ceil_div(bytes * 8 * NANOS_PER_SECOND, bandwidth_bps as int) as u64)
    }
}

fn serialization_delay_ns(bytes: u64, bandwidth_bps: u64) -> (r: Result<u64, LinkError>)
    requires
        bandwidth_bps > 0,
    ensures
        match spec_serialization_delay(bytes, bandwidth_bps) {
            Some(v) => r == Ok::<u64, LinkError>(v),
            None => r == Err::<u64, LinkError>(LinkError::Arithmetic),
        },
{
    let bits = match bytes.checked_mul(8) {
        Some(v) => v,
        None => {
            return Err(LinkError::Arithmetic);
        },
    };
    let bit_nanos = match bits.checked_mul(NANOS_PER_SECOND) {
        Some(v) => v,
        None => {
            return Err(LinkError::Arithmetic);
        },
    };
    let q = bit_nanos / bandwidth_bps;
    if bit_nanos % bandwidth_bps == 0 {
        Ok(q)
    } else {
        Ok(q + 1)
    }
}


/// Value for a key in an association list with unique keys.
pub open spec fn lookup<K, V>(entries: Seq<(K, V)>, k: K) -> Option<V> {
    if exists|i: int| 0 <= i < entries.len() && (#[trigger] entries[i]).0 == k {
        let i = choose|i: int| 0 <= i < entries.len() && (#[trigger] entries[i]).0 == k;
        Some(entries[i].1)
    } else {
        None
    }
}

/// Keys occur at most once.
pub open spec fn unique_keys<K, V>(entries: Seq<(K, V)>) -> bool {
    forall|i: int, j: int|
        0 <= i < entries.len() && 0 <= j < entries.len() && i != j ==> (#[trigger] entries[i]).0 != (#[trigger] entries[j]).0
}

pub proof fn lemma_lookup_at<K, V>(entries: Seq<(K, V)>, i: int)
    requires
        unique_keys(entries),
        0 <= i < entries.len(),
    ensures
        lookup(entries, entries[i].0) == Some(entries[i].1),
{
    let k = entries[i].0;
    assert(entries[i].0 == k);
    let j = choose|j: int| 0 <= j < entries.len() && (#[trigger] entries[j]).0 == k;
    assert(entries[j].0 == k);
}

/// Working state of the per-copy serialization loop.
pub struct CopyState {
    pub next_serialization_ns: u64,
    pub queue: Seq<(u64, u64)>,
    pub transmitted: u64,
    pub lost: u64,
    pub last_stream_delivery_ns: u64,
    pub deliveries: Seq<Delivery>,
}

/// Serialize one copy: queue it behind the transmitter, draw its loss and, if it
/// survives, schedule its delivery. On time or byte arithmetic overflow the copy fails
/// with the state reached so far: untouched if the serialization end overflows, and
/// with the transmission already queued if a later sum overflows.
pub open spec fn spec_copy(seed: u64, config: LinkConfig, request: EnqueueRequest, wire: u64, sequence: u64, copy: u64, st: CopyState) -> Result<CopyState, CopyState> {
    match spec_serialization_delay(wire, config.bandwidth_bps) {
        None => Err(st),
        Some(ser) => {
            let start = if st.next_serialization_ns > request.now_ns { st.next_serialization_ns } else { request.now_ns };
            if start + ser > u64::MAX {
                Err(st)
            } else {
                let complete = (start + ser) as u64;
                let queued = CopyState { next_serialization_ns: complete, queue: st.queue.push((complete, wire)), ..st };
                if st.transmitted + wire > u64::MAX {
                    Err(queued)
                } else {
                    let transmitted = (st.transmitted + wire) as u64;
                    let lost = spec_draw_ppm(seed, request.edge_id, request.from, request.to, sequence, (0x10 + copy) as u8) < config.loss_ppm;
                    if lost {
                        if st.lost + wire > u64::MAX {
                            Err(queued)
                        } else {
                            Ok(CopyState { transmitted, lost: (st.lost + wire) as u64, ..queued })
                        }
                    } else {
                        let jitter = if config.ordering == LinkOrdering::Datagram && config.jitter_ns > 0 {
                            spec_deterministic_u64(seed ^ (request.edge_id as u64), sequence ^ (copy << 32u64)) % config.jitter_ns
                        } else {
                            0
                        };
                        if complete + config.latency_ns + jitter > u64::MAX {
                            Err(queued)
                        } else {
                            let raw = (complete + config.latency_ns + jitter) as u64;
                            let deliver = if config.ordering == LinkOrdering::Stream && st.last_stream_delivery_ns > raw { st.last_stream_delivery_ns } else { raw };
                            let last = if config.ordering == LinkOrdering::Stream { deliver } else { st.last_stream_delivery_ns };
                            let d = Delivery {
                                edge_id: request.edge_id,
                                from: request.from,
                                to: request.to,
                                class: request.class,
                                frame_bytes: request.frame_bytes,
                                wire_bytes: wire,
                                deliver_at_ns: deliver,
                                copy_ordinal: copy as u8,
                            };
                            Ok(CopyState { transmitted, last_stream_delivery_ns: last, deliveries: st.deliveries.push(d), ..queued })
                        }
                    }
                }
            }
        },
    }
}

/// Run `copies` serializations in order.
pub open spec fn spec_copies(seed: u64, config: LinkConfig, request: EnqueueRequest, wire: u64, sequence: u64, copies: u64, st: CopyState) -> Result<CopyState, CopyState> {
    match spec_copy(seed, config, request, wire, sequence, 0, st) {
        Err(partial) => Err(partial),
        Ok(first) => if copies == 2 {
            spec_copy(seed, config, request, wire, sequence, 1, first)
        } else {
            Ok(first)
        },
    }
}

/// Saturating sum of two counters.
pub open spec fn sat(a: u64, b: int) -> u64 {
    if a + b > u64::MAX {
        u64::MAX
    } else {
        (a + b) as u64
    }
}

/// Capacity domain used by an edge direction.
pub open spec fn spec_capacity_key(group: Option<u32>, edge: EdgeId, from: NodeId, to: NodeId) -> CapacityKey {
    match group {
        Some(g) => (((g as u64) | (1u64 << 63u64)) as u64, u32::MAX, u32::MAX),
        None => (edge as u64, from, to),
    }
}


pub proof fn lemma_lookup_update<K, V>(entries: Seq<(K, V)>, i: int, v: V, k: K)
    requires
        unique_keys(entries),
        0 <= i < entries.len(),
    ensures
        unique_keys(entries.update(i, (entries[i].0, v))),
        lookup(entries.update(i, (entries[i].0, v)), k) == if k == entries[i].0 { Some(v) } else { lookup(entries, k) },
{
    let u = entries.update(i, (entries[i].0, v));
    assert forall|a: int, b: int| 0 <= a < u.len() && 0 <= b < u.len() && a != b implies (#[trigger] u[a]).0 != (#[trigger] u[b]).0 by {
        assert(entries[a].0 != entries[b].0);
    }
    if k == entries[i].0 {
        lemma_lookup_at(u, i);
    } else if exists|j: int| 0 <= j < entries.len() && (#[trigger] entries[j]).0 == k {
        let j = choose|j: int| 0 <= j < entries.len() && (#[trigger] entries[j]).0 == k;
        lemma_lookup_at(entries, j);
        assert(u[j] == entries[j]);
        lemma_lookup_at(u, j);
    } else {
        assert(!exists|j: int| 0 <= j < u.len() && (#[trigger] u[j]).0 == k) by {
            if exists|j: int| 0 <= j < u.len() && (#[trigger] u[j]).0 == k {
                let j = choose|j: int| 0 <= j < u.len() && (#[trigger] u[j]).0 == k;
                assert(entries[j].0 == k);
            }
        }
    }
}

/// Appending an entry with a fresh key keeps keys unique and adds that key.
pub proof fn lemma_lookup_push<K, V>(entries: Seq<(K, V)>, e: (K, V), k: K)
    requires
        unique_keys(entries),
        forall|i: int| 0 <= i < entries.len() ==> (#[trigger] entries[i]).0 != e.0,
    ensures
        unique_keys(entries.push(e)),
        lookup(entries.push(e), k) == if k == e.0 { Some(e.1) } else { lookup(entries, k) },
{
    let u = entries.push(e);
    assert forall|a: int, b: int| 0 <= a < u.len() && 0 <= b < u.len() && a != b implies (#[trigger] u[a]).0 != (#[trigger] u[b]).0 by {
        if a < entries.len() && b < entries.len() {
            assert(entries[a].0 != entries[b].0);
        } else if a < entries.len() {
            assert(entries[a].0 != e.0);
        } else {
            assert(entries[b].0 != e.0);
        }
    }
    if k == e.0 {
        lemma_lookup_at(u, entries.len() as int);
    } else if exists|j: int| 0 <= j < entries.len() && (#[trigger] entries[j]).0 == k {
        let j = choose|j: int| 0 <= j < entries.len() && (#[trigger] entries[j]).0 == k;
        lemma_lookup_at(entries, j);
        assert(u[j] == entries[j]);
        lemma_lookup_at(u, j);
    } else {
        assert(!exists|j: int| 0 <= j < u.len() && (#[trigger] u[j]).0 == k) by {
            if exists|j: int| 0 <= j < u.len() && (#[trigger] u[j]).0 == k {
                let j = choose|j: int| 0 <= j < u.len() && (#[trigger] u[j]).0 == k;
                if j < entries.len() {
                    assert(entries[j].0 == k);
                }
            }
        }
    }
}

proof fn lemma_queue_sum_take(q: Seq<(u64, u64)>, i: int)
    requires
        0 <= i <= q.len(),
    ensures
        queue_sum(q.take(i)) <= queue_sum(q),
        queue_sum(q.take(i)) >= 0,
    decreases q.len() - i,
{
    if i < q.len() {
        lemma_queue_sum_take(q, i + 1);
        assert(q.take(i + 1).drop_last() =~= q.take(i));
    } else {
        assert(q.take(i) =~= q);
    }
    lemma_queue_sum_nonneg(q.take(i));
}

proof fn lemma_queue_sum_nonneg(q: Seq<(u64, u64)>)
    ensures
        queue_sum(q) >= 0,
    decreases q.len(),
{
    if q.len() > 0 {
        lemma_queue_sum_nonneg(q.drop_last());
    }
}

proof fn lemma_queue_sum_first(q: Seq<(u64, u64)>)
    requires
        q.len() > 0,
    ensures
        queue_sum(q) == q[0].1 + queue_sum(q.drop_first()),
    decreases q.len(),
{
    if q.len() > 1 {
        lemma_queue_sum_first(q.drop_last());
        assert(q.drop_last().drop_first() =~= q.drop_first().drop_last());
        assert(queue_sum(q.drop_first()) == queue_sum(q.drop_first().drop_last()) + q.drop_first().last().1);
        assert(q.drop_first().last() == q.last());
        assert(q.drop_last()[0] == q[0]);
    } else {
        assert(q.drop_first() =~= Seq::<(u64, u64)>::empty());
        assert(q.drop_last() =~= Seq::<(u64, u64)>::empty());
        assert(q.last() == q[0]);
    }
}

proof fn lemma_queue_drained_sum(q: Seq<(u64, u64)>, now: u64)
    ensures
        queue_sum(queue_drained(q, now)) <= queue_sum(q),
    decreases q.len(),
{
    if q.len() > 0 && q[0].0 <= now {
        lemma_queue_drained_sum(q.drop_first(), now);
        lemma_queue_sum_first(q);
    }
}

proof fn lemma_queue_sum_push(q: Seq<(u64, u64)>, e: (u64, u64))
    ensures
        queue_sum(q.push(e)) == queue_sum(q) + e.1,
{
    assert(q.push(e).drop_last() =~= q);
}

/// Working state of the copy loop as plain values.
pub type CopyTuple = (u64, Vec<(u64, u64)>, u64, u64, u64, Vec<Delivery>);

/// The abstract state described by a copy tuple.
pub open spec fn copy_view(t: CopyTuple) -> CopyState {
    CopyState {
        next_serialization_ns: t.0,
        queue: t.1@,
        transmitted: t.2,
        lost: t.3,
        last_stream_delivery_ns: t.4,
        deliveries: t.5@,
    }
}

/// Serialize one copy of an accepted frame; a failed copy hands back the state it reached.
fn one_copy(seed: u64, config: LinkConfig, request: EnqueueRequest, wire: u64, sequence: u64, copy: u64, st: CopyTuple) -> (r: Result<CopyTuple, CopyTuple>)
    requires
        config.bandwidth_bps > 0,
        copy < 2,
    ensures
        match spec_copy(seed, config, request, wire, sequence, copy, copy_view(st)) {
            Err(partial) => r matches Err(t) && copy_view(t) == partial,
            Ok(next) => r matches Ok(t) && copy_view(t) == next,
        },
{
    let (next, mut queue, transmitted, lost_bytes, last, mut deliveries) = st;
    let serialization_ns = match serialization_delay_ns(wire, config.bandwidth_bps) {
        Ok(v) => v,
        Err(_) => {
            return Err((next, queue, transmitted, lost_bytes, last, deliveries));
        },
    };
    let start_ns = if next > request.now_ns { next } else { request.now_ns };
    let complete_ns = match start_ns.checked_add(serialization_ns) {
        Some(v) => v,
        None => {
            return Err((next, queue, transmitted, lost_bytes, last, deliveries));
        },
    };
    queue.push((complete_ns, wire));
    let sent = match transmitted.checked_add(wire) {
        Some(v) => v,
        None => {
            return Err((complete_ns, queue, transmitted, lost_bytes, last, deliveries));
        },
    };
    let lost = draw_ppm(seed, request.edge_id, request.from, request.to, sequence, (0x10 + copy) as u8) < config.loss_ppm;
    if lost {
        let dropped = match lost_bytes.checked_add(wire) {
            Some(v) => v,
            None => {
                return Err((complete_ns, queue, transmitted, lost_bytes, last, deliveries));
            },
        };
        Ok((complete_ns, queue, sent, dropped, last, deliveries))
    } else {
        let jitter_ns = if config.ordering == LinkOrdering::Datagram && config.jitter_ns > 0 {
            deterministic_u64(seed ^ (request.edge_id as u64), sequence ^ (copy << 32u64)) % config.jitter_ns
        } else {
            0
        };
        let arrival = match complete_ns.checked_add(config.latency_ns) {
            Some(t) => t.checked_add(jitter_ns),
            None => None,
        };
        let mut deliver_at_ns = match arrival {
            Some(v) => v,
            None => {
                return Err((complete_ns, queue, transmitted, lost_bytes, last, deliveries));
            },
        };
        let mut last = last;
        if config.ordering == LinkOrdering::Stream {
            if last > deliver_at_ns {
                deliver_at_ns = last;
            }
            last = deliver_at_ns;
        }
        deliveries.push(Delivery {
            edge_id: request.edge_id,
            from: request.from,
            to: request.to,
            class: request.class,
            frame_bytes: request.frame_bytes,
            wire_bytes: wire,
            deliver_at_ns,
            copy_ordinal: copy as u8,
        });
        Ok((complete_ns, queue, sent, lost_bytes, last, deliveries))
    }
}

/// Serialize each copy of one accepted frame; a failed copy hands back the state it reached.
fn run_copies(seed: u64, config: LinkConfig, request: EnqueueRequest, wire: u64, sequence: u64, copies: u64, st: CopyTuple) -> (r: Result<CopyTuple, CopyTuple>)
    requires
        config.bandwidth_bps > 0,
        copies == 1 || copies == 2,
    ensures
        match spec_copies(seed, config, request, wire, sequence, copies, copy_view(st)) {
            Err(partial) => r matches Err(t) && copy_view(t) == partial,
            Ok(next) => r matches Ok(t) && copy_view(t) == next,
        },
{
    let first = one_copy(seed, config, request, wire, sequence, 0, st);
    match first {
        Err(t) => Err(t),
        Ok(t) => if copies == 2 {
            one_copy(seed, config, request, wire, sequence, 1, t)
        } else {
            Ok(t)
        },
    }
}

/// The state a copy run reached, whether or not it completed.
pub open spec fn reached(r: Result<CopyState, CopyState>) -> CopyState {
    match r {
        Ok(st) => st,
        Err(st) => st,
    }
}

proof fn lemma_copy_queue(seed: u64, config: LinkConfig, request: EnqueueRequest, wire: u64, sequence: u64, copy: u64, st: CopyState)
    ensures
        queue_sum(reached(spec_copy(seed, config, request, wire, sequence, copy, st)).queue) <= queue_sum(st.queue) + wire,
{
    if let Some(ser) = spec_serialization_delay(wire, config.bandwidth_bps) {
        let start = if st.next_serialization_ns > request.now_ns { st.next_serialization_ns } else { request.now_ns };
        if start + ser <= u64::MAX {
            lemma_queue_sum_push(st.queue, (((start + ser) as u64), wire));
        }
    }
}

proof fn lemma_copies_queue(seed: u64, config: LinkConfig, request: EnqueueRequest, wire: u64, sequence: u64, copies: u64, st: CopyState)
    ensures
        queue_sum(reached(spec_copies(seed, config, request, wire, sequence, copies, st)).queue) <= queue_sum(st.queue) + wire * if copies == 2 { 2int } else { 1int },
{
    lemma_copy_queue(seed, config, request, wire, sequence, 0, st);
    if let Ok(first) = spec_copy(seed, config, request, wire, sequence, 0, st) {
        lemma_copy_queue(seed, config, request, wire, sequence, 1, first);
    }
}


/// Decimal digits of a number, most significant first.
pub open spec fn decimal(n: nat) -> Seq<char>
    decreases n,
{
    if n < 10 {
        seq![(48 + n) as char]
    } else {
        decimal(n / 10).push((48 + n % 10) as char)
    }
}

/// Stable label of a direction: `edge-{edge}:{from}->{to}` in decimal.
pub open spec fn spec_direction_label(edge: EdgeId, from: NodeId, to: NodeId) -> Seq<char> {
    "edge-"@ + decimal(edge as nat) + ":"@ + decimal(from as nat) + "->"@ + decimal(to as nat)
}

/// The stable label of a direction, written digit by digit.
fn direction_label(edge: EdgeId, from: NodeId, to: NodeId) -> (r: String)
    ensures
        r@ == spec_direction_label(edge, from, to),
{
    let mut s = String::from_str("edge-");
    push_decimal(&mut s, edge as u64);
    s.append(":");
    push_decimal(&mut s, from as u64);
    s.append("->");
    push_decimal(&mut s, to as u64);
    s
}

/// Whether counters satisfy transmitted = delivered + lost.
pub open spec fn spec_counters_reconcile(c: LinkCounters) -> bool {
    c.transmitted_bytes == c.delivered_bytes + c.lost_bytes
}

/// Strictly ascending direction keys.
pub open spec fn keys_sorted(entries: Seq<(DirectionKey, DirectionState)>) -> bool {
    forall|i: int, j: int| 0 <= i < j < entries.len() ==> key_lt((#[trigger] entries[i]).0, (#[trigger] entries[j]).0)
}

proof fn lemma_sorted_unique(entries: Seq<(DirectionKey, DirectionState)>)
    requires
        keys_sorted(entries),
    ensures
        unique_keys(entries),
{
    assert forall|i: int, j: int| 0 <= i < entries.len() && 0 <= j < entries.len() && i != j implies (#[trigger] entries[i]).0 != (#[trigger] entries[j]).0 by {
        if i < j {
            assert(key_lt(entries[i].0, entries[j].0));
        } else {
            assert(key_lt(entries[j].0, entries[i].0));
        }
    }
}

/// The abstract value of one capacity domain: transmitter free time and queue.
pub open spec fn capacity_view(c: Option<CapacityState>) -> Option<(u64, Seq<(u64, u64)>)> {
    match c {
        Some(st) => Some((st.next_serialization_ns, st.queued@)),
        None => None,
    }
}

/// Counters after a rejection of `bytes`.
pub open spec fn rejected(c: LinkCounters, bytes: u64) -> LinkCounters {
    LinkCounters { rejected_frames: sat(c.rejected_frames, 1), rejected_bytes: sat(c.rejected_bytes, bytes as int), ..c }
}

/// What an accepted-for-checking frame does to its direction and capacity domain,
/// given the drained queue `qd` behind a transmitter free at `next0` and the
/// direction state `d0` it starts from.
pub open spec fn spec_settle_outcome(
    seed: u64,
    config: LinkConfig,
    request: EnqueueRequest,
    wire: u64,
    next0: u64,
    qd: Seq<(u64, u64)>,
    d0: DirectionState,
    dir_after: Option<DirectionState>,
    cap_after: Option<(u64, Seq<(u64, u64)>)>,
    r: Result<EnqueueResult, LinkError>,
) -> bool {
    let e = request.edge_id;
    let queued = queue_sum(qd);
    let seq = d0.frame_sequence;
    let copies: u64 = if spec_draw_ppm(seed, e, request.from, request.to, seq, 0xD0) < config.duplication_ppm { 2 } else { 1 };
    if wire > config.mtu_bytes {
        &&& r == Err::<EnqueueResult, LinkError>(LinkError::MtuExceeded { edge: e, frame_bytes: wire, mtu_bytes: config.mtu_bytes })
        &&& dir_after == Some(DirectionState { counters: rejected(d0.counters, wire), ..d0 })
        &&& cap_after == Some((next0, qd))
    } else if wire * copies > u64::MAX {
        &&& r == Err::<EnqueueResult, LinkError>(LinkError::Arithmetic)
        &&& dir_after == Some(d0)
        &&& cap_after == Some((next0, qd))
    } else if queued + wire * copies > config.queue_bytes {
        &&& r == Err::<EnqueueResult, LinkError>(LinkError::QueueFull {
            edge: e,
            queued_bytes: queued as u64,
            frame_bytes: (wire * copies) as u64,
            limit_bytes: config.queue_bytes,
        })
        &&& dir_after == Some(DirectionState { counters: rejected(d0.counters, (wire * copies) as u64), ..d0 })
        &&& cap_after == Some((next0, qd))
    } else {
        let start = CopyState {
            next_serialization_ns: next0,
            queue: qd,
            transmitted: 0,
            lost: 0,
            last_stream_delivery_ns: d0.last_stream_delivery_ns,
            deliveries: Seq::empty(),
        };
        match spec_copies(seed, config, request, wire, seq, copies, start) {
            Err(partial) => {
                &&& r == Err::<EnqueueResult, LinkError>(LinkError::Arithmetic)
                &&& cap_after == Some((partial.next_serialization_ns, partial.queue))
                &&& dir_after == Some(DirectionState {
                    last_stream_delivery_ns: partial.last_stream_delivery_ns,
                    counters: LinkCounters { accepted_frames: sat(d0.counters.accepted_frames, 1), ..d0.counters },
                    ..d0
                })
            },
            Ok(st) => {
                let occupancy = queued + wire * copies;
                &&& r matches Ok(res) && res.deliveries@ == st.deliveries && res.transmitted_bytes == st.transmitted
                    && res.lost_bytes == st.lost && res.queue_occupancy_bytes == occupancy
                &&& cap_after == Some((st.next_serialization_ns, st.queue))
                &&& dir_after == Some(DirectionState {
                    last_stream_delivery_ns: st.last_stream_delivery_ns,
                    frame_sequence: sat(seq, 1),
                    counters: LinkCounters {
                        accepted_frames: sat(d0.counters.accepted_frames, 1),
                        transmitted_bytes: sat(d0.counters.transmitted_bytes, st.transmitted as int),
                        lost_bytes: sat(d0.counters.lost_bytes, st.lost as int),
                        peak_queue_bytes: if d0.counters.peak_queue_bytes > occupancy { d0.counters.peak_queue_bytes } else { occupancy as u64 },
                        ..d0.counters
                    },
                })
            },
        }
    }
}

/// Everything `enqueue` promises, relating the service before and after the call.
pub open spec fn spec_enqueue_outcome(old: LinkService, new: LinkService, request: EnqueueRequest, r: Result<EnqueueResult, LinkError>) -> bool {
    let e = request.edge_id;
    let key = (e, request.from, request.to);
    if e >= old.spec_configs().len() {
        r == Err::<EnqueueResult, LinkError>(LinkError::UnknownEdge(e)) && new == old
    } else {
        let config = old.spec_configs()[e as int];
        if config.bandwidth_bps == 0 {
            r == Err::<EnqueueResult, LinkError>(LinkError::ZeroBandwidth(e)) && new == old
        } else if request.frame_bytes + config.transport_overhead_bytes > u64::MAX {
            r == Err::<EnqueueResult, LinkError>(LinkError::Arithmetic) && new == old
        } else {
            let wire = (request.frame_bytes + config.transport_overhead_bytes) as u64;
            let ck = spec_capacity_key(old.spec_groups()[e as int], e, request.from, request.to);
            &&& new.spec_seed() == old.spec_seed()
            &&& new.spec_configs() == old.spec_configs()
            &&& new.spec_groups() == old.spec_groups()
            &&& forall|k: DirectionKey| k != key ==> #[trigger] new.spec_direction(k) == old.spec_direction(k)
            &&& forall|k: CapacityKey| k != ck ==> #[trigger] new.spec_capacity(k) == old.spec_capacity(k)
            &&& spec_settle_outcome(
                old.spec_seed(),
                config,
                request,
                wire,
                old.spec_capacity_or_idle(ck).0,
                queue_drained(old.spec_capacity_or_idle(ck).1, request.now_ns),
                old.spec_direction_or_fresh(key),
                new.spec_direction(key),
                new.spec_capacity(ck),
                r,
            )
        }
    }
}

/// What crediting one delivery does: its direction gains the delivered wire bytes and,
/// for useful payload, the useful bytes; nothing else changes.
pub open spec fn spec_record_outcome(old: LinkService, new: LinkService, delivery: Delivery, useful_payload_bytes: u64, r: Result<(), LinkError>) -> bool {
    let key = (delivery.edge_id, delivery.from, delivery.to);
    match old.spec_direction(key) {
        None => r == Err::<(), LinkError>(LinkError::MissingDirection(delivery.edge_id)) && new == old,
        Some(d) => {
            &&& r is Ok
            &&& new.spec_direction(key) == Some(DirectionState {
                counters: LinkCounters {
                    delivered_bytes: sat(d.counters.delivered_bytes, delivery.wire_bytes as int),
                    useful_payload_bytes: if delivery.class == LinkClass::UsefulPayload {
                        sat(d.counters.useful_payload_bytes, useful_payload_bytes as int)
                    } else {
                        d.counters.useful_payload_bytes
                    },
                    ..d.counters
                },
                ..d
            })
            &&& forall|k: DirectionKey| k != key ==> #[trigger] new.spec_direction(k) == old.spec_direction(k)
            &&& new.spec_direction_keys() == old.spec_direction_keys()
            &&& forall|k: CapacityKey| #[trigger] new.spec_capacity(k) == old.spec_capacity(k)
            &&& new.spec_configs() == old.spec_configs()
            &&& new.spec_groups() == old.spec_groups()
            &&& new.spec_seed() == old.spec_seed()
        },
    }
}

/// Wire bytes of a sequence of deliveries.
pub open spec fn deliveries_wire(ds: Seq<Delivery>) -> int
    decreases ds.len(),
{
    if ds.len() == 0 {
        0
    } else {
        deliveries_wire(ds.drop_last()) + ds.last().wire_bytes
    }
}

proof fn lemma_copy_accounts(seed: u64, config: LinkConfig, request: EnqueueRequest, wire: u64, sequence: u64, copy: u64, st: CopyState)
    requires
        st.transmitted == st.lost + deliveries_wire(st.deliveries),
    ensures
        spec_copy(seed, config, request, wire, sequence, copy, st) matches Ok(next)
            ==> next.transmitted == next.lost + deliveries_wire(next.deliveries),
{
    if let Ok(next) = spec_copy(seed, config, request, wire, sequence, copy, st) {
        if next.deliveries.len() > st.deliveries.len() {
            assert(next.deliveries.drop_last() =~= st.deliveries);
        }
    }
}

/// Every byte an accepted frame puts on the wire is accounted for: the serialized bytes
/// equal the lost bytes plus the wire bytes of the scheduled deliveries.
pub proof fn law_enqueue_accounts(old: LinkService, new: LinkService, request: EnqueueRequest, result: EnqueueResult)
    requires
        spec_enqueue_outcome(old, new, request, Ok(result)),
    ensures
        result.transmitted_bytes == result.lost_bytes + deliveries_wire(result.deliveries@),
{
    let e = request.edge_id;
    let config = old.spec_configs()[e as int];
    let wire = (request.frame_bytes + config.transport_overhead_bytes) as u64;
    let key = (e, request.from, request.to);
    let ck = spec_capacity_key(old.spec_groups()[e as int], e, request.from, request.to);
    let next0 = old.spec_capacity_or_idle(ck).0;
    let qd = queue_drained(old.spec_capacity_or_idle(ck).1, request.now_ns);
    let d0 = old.spec_direction_or_fresh(key);
    let seq = d0.frame_sequence;
    let start = CopyState {
        next_serialization_ns: next0,
        queue: qd,
        transmitted: 0,
        lost: 0,
        last_stream_delivery_ns: d0.last_stream_delivery_ns,
        deliveries: Seq::empty(),
    };
    lemma_copy_accounts(old.spec_seed(), config, request, wire, seq, 0, start);
    if let Ok(first) = spec_copy(old.spec_seed(), config, request, wire, seq, 0, start) {
        lemma_copy_accounts(old.spec_seed(), config, request, wire, seq, 1, first);
    }
}

/// A delivery of a copy of `request`: the request's direction, class and frame, the
/// frame's wire size, and no earlier than the request time plus the link latency and
/// the frame's serialization time.
pub open spec fn delivery_of(d: Delivery, request: EnqueueRequest, config: LinkConfig, wire: u64) -> bool {
    &&& d.edge_id == request.edge_id
    &&& d.from == request.from
    &&& d.to == request.to
    &&& d.class == request.class
    &&& d.frame_bytes == request.frame_bytes
    &&& d.wire_bytes == wire
    &&& d.deliver_at_ns >= request.now_ns + config.latency_ns + ceil_div(wire * 8 * NANOS_PER_SECOND, config.bandwidth_bps as int)
}

proof fn lemma_copy_bounds(seed: u64, config: LinkConfig, request: EnqueueRequest, wire: u64, sequence: u64, copy: u64, st: CopyState)
    requires
        config.bandwidth_bps > 0,
    ensures
        spec_copy(seed, config, request, wire, sequence, copy, st) matches Ok(next) ==> {
            &&& next.transmitted == st.transmitted + wire
            &&& next.deliveries.len() <= st.deliveries.len() + 1
            &&& forall|i: int| 0 <= i < st.deliveries.len() ==> next.deliveries[i] == st.deliveries[i]
            &&& forall|i: int| st.deliveries.len() <= i < next.deliveries.len() ==> delivery_of(#[trigger] next.deliveries[i], request, config, wire)
            &&& config.loss_ppm == 0 ==> next.deliveries.len() == st.deliveries.len() + 1
                && next.deliveries[st.deliveries.len() as int].copy_ordinal == copy as u8
                && next.lost == st.lost
            &&& config.loss_ppm >= 1_000_000 ==> next.deliveries == st.deliveries && next.lost == st.lost + wire
        },
{
    assert(spec_draw_ppm(seed, request.edge_id, request.from, request.to, sequence, (0x10 + copy) as u8) < 1_000_000);
    if let Ok(next) = spec_copy(seed, config, request, wire, sequence, copy, st) {
        if next.deliveries.len() > st.deliveries.len() {
            let n = st.deliveries.len() as int;
            assert(next.deliveries == st.deliveries.push(next.deliveries[n]));
        }
    }
}

/// What an accepted frame gives: one or two copies of its wire size are transmitted,
/// each delivered copy carries the request's direction, class and frame and arrives no
/// earlier than the request time plus latency and serialization, and the queue stays
/// within its limit.
pub proof fn law_enqueue_bounds(old: LinkService, new: LinkService, request: EnqueueRequest, result: EnqueueResult)
    requires
        spec_enqueue_outcome(old, new, request, Ok(result)),
    ensures
        request.edge_id < old.spec_configs().len(),
        old.spec_configs()[request.edge_id as int].bandwidth_bps > 0,
        ({
            let config = old.spec_configs()[request.edge_id as int];
            let wire = (request.frame_bytes + config.transport_overhead_bytes) as u64;
            &&& request.frame_bytes + config.transport_overhead_bytes <= u64::MAX
            &&& result.deliveries@.len() <= 2
            &&& result.transmitted_bytes == wire || result.transmitted_bytes == 2 * wire
            &&& result.queue_occupancy_bytes <= config.queue_bytes
            &&& forall|i: int| 0 <= i < result.deliveries@.len() ==> delivery_of(#[trigger] result.deliveries@[i], request, config, wire)
        }),
{
    let e = request.edge_id;
    let config = old.spec_configs()[e as int];
    let wire = (request.frame_bytes + config.transport_overhead_bytes) as u64;
    let key = (e, request.from, request.to);
    let ck = spec_capacity_key(old.spec_groups()[e as int], e, request.from, request.to);
    let next0 = old.spec_capacity_or_idle(ck).0;
    let qd = queue_drained(old.spec_capacity_or_idle(ck).1, request.now_ns);
    let d0 = old.spec_direction_or_fresh(key);
    let seq = d0.frame_sequence;
    let start = CopyState {
        next_serialization_ns: next0,
        queue: qd,
        transmitted: 0,
        lost: 0,
        last_stream_delivery_ns: d0.last_stream_delivery_ns,
        deliveries: Seq::empty(),
    };
    lemma_copy_bounds(old.spec_seed(), config, request, wire, seq, 0, start);
    if let Ok(first) = spec_copy(old.spec_seed(), config, request, wire, seq, 0, start) {
        lemma_copy_bounds(old.spec_seed(), config, request, wire, seq, 1, first);
    }
}

/// The duplication setting alone decides how many copies of an accepted frame go on
/// the wire: at 1000000 ppm or more every frame is sent twice, at zero once, whatever
/// the loss setting is; on a lossless link every copy is delivered, in copy order, and
/// on a link that loses everything every transmitted byte is lost.
pub proof fn law_duplication_decides_copies(old: LinkService, new: LinkService, request: EnqueueRequest, result: EnqueueResult)
    requires
        spec_enqueue_outcome(old, new, request, Ok(result)),
    ensures
        ({
            let config = old.spec_configs()[request.edge_id as int];
            let wire = request.frame_bytes + config.transport_overhead_bytes;
            &&& config.duplication_ppm >= 1_000_000 ==> result.transmitted_bytes == 2 * wire
            &&& config.duplication_ppm == 0 ==> result.transmitted_bytes == wire
            &&& config.duplication_ppm >= 1_000_000 && config.loss_ppm == 0 ==> result.deliveries@.len() == 2
                && result.deliveries@[0].copy_ordinal == 0 && result.deliveries@[1].copy_ordinal == 1
            &&& config.duplication_ppm == 0 && config.loss_ppm == 0 ==> result.deliveries@.len() == 1
                && result.deliveries@[0].copy_ordinal == 0
            &&& config.loss_ppm == 0 ==> result.lost_bytes == 0
            &&& config.loss_ppm >= 1_000_000 ==> result.deliveries@.len() == 0 && result.lost_bytes == result.transmitted_bytes
        }),
{
    let e = request.edge_id;
    let config = old.spec_configs()[e as int];
    let wire = (request.frame_bytes + config.transport_overhead_bytes) as u64;
    let key = (e, request.from, request.to);
    let ck = spec_capacity_key(old.spec_groups()[e as int], e, request.from, request.to);
    let next0 = old.spec_capacity_or_idle(ck).0;
    let qd = queue_drained(old.spec_capacity_or_idle(ck).1, request.now_ns);
    let d0 = old.spec_direction_or_fresh(key);
    let seq = d0.frame_sequence;
    let start = CopyState {
        next_serialization_ns: next0,
        queue: qd,
        transmitted: 0,
        lost: 0,
        last_stream_delivery_ns: d0.last_stream_delivery_ns,
        deliveries: Seq::empty(),
    };
    assert(spec_draw_ppm(old.spec_seed(), e, request.from, request.to, seq, 0xD0) < 1_000_000);
    lemma_copy_bounds(old.spec_seed(), config, request, wire, seq, 0, start);
    if let Ok(first) = spec_copy(old.spec_seed(), config, request, wire, seq, 0, start) {
        lemma_copy_bounds(old.spec_seed(), config, request, wire, seq, 1, first);
    }
}

/// Deliveries at or after `lo`, at or before `hi`, in non-decreasing time order.
pub open spec fn stream_ordered(lo: u64, ds: Seq<Delivery>, hi: u64) -> bool {
    &&& forall|i: int| 0 <= i < ds.len() ==> lo <= (#[trigger] ds[i]).deliver_at_ns <= hi
    &&& forall|i: int, j: int| 0 <= i < j < ds.len() ==> (#[trigger] ds[i]).deliver_at_ns <= (#[trigger] ds[j]).deliver_at_ns
}

proof fn lemma_copy_stream_order(seed: u64, config: LinkConfig, request: EnqueueRequest, wire: u64, sequence: u64, copy: u64, st: CopyState, lo: u64)
    requires
        config.ordering == LinkOrdering::Stream,
        lo <= st.last_stream_delivery_ns,
        stream_ordered(lo, st.deliveries, st.last_stream_delivery_ns),
    ensures
        spec_copy(seed, config, request, wire, sequence, copy, st) matches Ok(next)
            ==> lo <= next.last_stream_delivery_ns && stream_ordered(lo, next.deliveries, next.last_stream_delivery_ns),
{
    if let Ok(next) = spec_copy(seed, config, request, wire, sequence, copy, st) {
        if next.deliveries.len() > st.deliveries.len() {
            assert(next.deliveries == st.deliveries.push(next.deliveries.last()));
        } else {
            assert(next.deliveries == st.deliveries);
        }
    }
}

/// Stream links preserve send order: the deliveries an accepted frame schedules on a
/// stream link come in time order, none before the latest delivery the direction had
/// scheduled, and the direction then remembers the latest of them.
pub proof fn law_stream_order(old: LinkService, new: LinkService, request: EnqueueRequest, result: EnqueueResult)
    requires
        spec_enqueue_outcome(old, new, request, Ok(result)),
        request.edge_id < old.spec_configs().len(),
        old.spec_configs()[request.edge_id as int].ordering == LinkOrdering::Stream,
    ensures
        new.spec_direction((request.edge_id, request.from, request.to)) matches Some(d) && stream_ordered(
            old.spec_direction_or_fresh((request.edge_id, request.from, request.to)).last_stream_delivery_ns,
            result.deliveries@,
            d.last_stream_delivery_ns,
        ),
{
    let e = request.edge_id;
    let config = old.spec_configs()[e as int];
    let wire = (request.frame_bytes + config.transport_overhead_bytes) as u64;
    let key = (e, request.from, request.to);
    let ck = spec_capacity_key(old.spec_groups()[e as int], e, request.from, request.to);
    let d0 = old.spec_direction_or_fresh(key);
    let lo = d0.last_stream_delivery_ns;
    let seq = d0.frame_sequence;
    let start = CopyState {
        next_serialization_ns: old.spec_capacity_or_idle(ck).0,
        queue: queue_drained(old.spec_capacity_or_idle(ck).1, request.now_ns),
        transmitted: 0,
        lost: 0,
        last_stream_delivery_ns: lo,
        deliveries: Seq::empty(),
    };
    lemma_copy_stream_order(old.spec_seed(), config, request, wire, seq, 0, start, lo);
    if let Ok(first) = spec_copy(old.spec_seed(), config, request, wire, seq, 0, start) {
        lemma_copy_stream_order(old.spec_seed(), config, request, wire, seq, 1, first, lo);
    }
}

/// Two services that answer every request alike: the same seed, configurations,
/// shared-medium groups, direction states and capacity domains.
pub open spec fn same_link_state(a: LinkService, b: LinkService) -> bool {
    &&& a.spec_seed() == b.spec_seed()
    &&& a.spec_configs() == b.spec_configs()
    &&& a.spec_groups() == b.spec_groups()
    &&& forall|k: DirectionKey| #[trigger] a.spec_direction(k) == b.spec_direction(k)
    &&& forall|k: CapacityKey| #[trigger] a.spec_capacity(k) == b.spec_capacity(k)
}

/// Seeded loss and duplication replay: the same request offered to services in the
/// same state gets the same answer (the same error, or the same deliveries, byte
/// totals and occupancy) and leaves them in the same state again.
pub proof fn law_enqueue_replayable(
    a: LinkService,
    a_next: LinkService,
    b: LinkService,
    b_next: LinkService,
    request: EnqueueRequest,
    ra: Result<EnqueueResult, LinkError>,
    rb: Result<EnqueueResult, LinkError>,
)
    requires
        same_link_state(a, b),
        spec_enqueue_outcome(a, a_next, request, ra),
        spec_enqueue_outcome(b, b_next, request, rb),
    ensures
        same_link_state(a_next, b_next),
        ra is Err ==> ra == rb,
        ra matches Ok(x) ==> rb matches Ok(y) && x.deliveries@ == y.deliveries@ && x.transmitted_bytes == y.transmitted_bytes
            && x.lost_bytes == y.lost_bytes && x.queue_occupancy_bytes == y.queue_occupancy_bytes,
{
    let e = request.edge_id;
    let key = (e, request.from, request.to);
    if e < a.spec_configs().len() {
        let ck = spec_capacity_key(a.spec_groups()[e as int], e, request.from, request.to);
        assert(a.spec_capacity(ck) == b.spec_capacity(ck));
        assert(a.spec_direction(key) == b.spec_direction(key));
        assert(a.spec_capacity_or_idle(ck) == b.spec_capacity_or_idle(ck));
        assert(a.spec_direction_or_fresh(key) == b.spec_direction_or_fresh(key));
    }
    assert forall|k: DirectionKey| #[trigger] a_next.spec_direction(k) == b_next.spec_direction(k) by {
        assert(a.spec_direction(k) == b.spec_direction(k));
    }
    assert forall|k: CapacityKey| #[trigger] a_next.spec_capacity(k) == b_next.spec_capacity(k) by {
        assert(a.spec_capacity(k) == b.spec_capacity(k));
    }
}

/// A service as `uniform` makes it: every edge configured alike, no shared groups,
/// and nothing sent yet.
pub open spec fn fresh_service(s: LinkService, seed: u64, edge_count: nat, config: LinkConfig) -> bool {
    &&& s.spec_seed() == seed
    &&& s.spec_configs() == Seq::new(edge_count, |i: int| config)
    &&& s.spec_groups() == Seq::new(edge_count, |i: int| None::<u32>)
    &&& forall|k: DirectionKey| #[trigger] s.spec_direction(k) == None::<DirectionState>
    &&& forall|k: CapacityKey| #[trigger] s.spec_capacity(k) == None::<(u64, Seq<(u64, u64)>)>
}

/// A history of enqueue calls: `states[i]` answered `requests[i]` with `results[i]`
/// and became `states[i + 1]`.
pub open spec fn enqueue_history(
    states: Seq<LinkService>,
    requests: Seq<EnqueueRequest>,
    results: Seq<Result<EnqueueResult, LinkError>>,
) -> bool {
    &&& states.len() == requests.len() + 1
    &&& results.len() == requests.len()
    &&& forall|i: int| 0 <= i < requests.len() ==> spec_enqueue_outcome(#[trigger] states[i], states[i + 1], requests[i], results[i])
}

/// Two results of the same request that agree in everything a replay can observe.
pub open spec fn same_answer(x: Result<EnqueueResult, LinkError>, y: Result<EnqueueResult, LinkError>) -> bool {
    &&& x is Err ==> x == y
    &&& x matches Ok(a) ==> y matches Ok(b) && a.deliveries@ == b.deliveries@ && a.transmitted_bytes == b.transmitted_bytes
        && a.lost_bytes == b.lost_bytes && a.queue_occupancy_bytes == b.queue_occupancy_bytes
}

/// Two services made by `uniform` with the same seed, edge count and configuration
/// are in the same state.
pub proof fn law_fresh_services_agree(a: LinkService, b: LinkService, seed: u64, edge_count: nat, config: LinkConfig)
    requires
        fresh_service(a, seed, edge_count, config),
        fresh_service(b, seed, edge_count, config),
    ensures
        same_link_state(a, b),
{
    assert forall|k: DirectionKey| #[trigger] a.spec_direction(k) == b.spec_direction(k) by {
        assert(a.spec_direction(k) == None::<DirectionState>);
        assert(b.spec_direction(k) == None::<DirectionState>);
    }
    assert forall|k: CapacityKey| #[trigger] a.spec_capacity(k) == b.spec_capacity(k) by {
        assert(a.spec_capacity(k) == None::<(u64, Seq<(u64, u64)>)>);
        assert(b.spec_capacity(k) == None::<(u64, Seq<(u64, u64)>)>);
    }
}

/// Seeded loss, duplication and jitter depend only on the seed, the configuration and
/// the history of calls: two services in the same state that receive the same
/// requests give the same answers to every one of them.
pub proof fn law_enqueue_history_replayable(
    a: Seq<LinkService>,
    ra: Seq<Result<EnqueueResult, LinkError>>,
    b: Seq<LinkService>,
    rb: Seq<Result<EnqueueResult, LinkError>>,
    requests: Seq<EnqueueRequest>,
)
    requires
        same_link_state(a[0], b[0]),
        enqueue_history(a, requests, ra),
        enqueue_history(b, requests, rb),
    ensures
        forall|i: int| 0 <= i < requests.len() ==> same_answer(#[trigger] ra[i], rb[i]),
        same_link_state(a.last(), b.last()),
    decreases requests.len(),
{
    if requests.len() > 0 {
        let n = requests.len() - 1;
        let a1 = a.drop_last();
        let b1 = b.drop_last();
        let q1 = requests.drop_last();
        assert(enqueue_history(a1, q1, ra.drop_last())) by {
            assert forall|i: int| 0 <= i < q1.len() implies spec_enqueue_outcome(#[trigger] a1[i], a1[i + 1], q1[i], ra.drop_last()[i]) by {
                assert(spec_enqueue_outcome(a[i], a[i + 1], requests[i], ra[i]));
            }
        }
        assert(enqueue_history(b1, q1, rb.drop_last())) by {
            assert forall|i: int| 0 <= i < q1.len() implies spec_enqueue_outcome(#[trigger] b1[i], b1[i + 1], q1[i], rb.drop_last()[i]) by {
                assert(spec_enqueue_outcome(b[i], b[i + 1], requests[i], rb[i]));
            }
        }
        law_enqueue_history_replayable(a1, ra.drop_last(), b1, rb.drop_last(), q1);
        assert(spec_enqueue_outcome(a[n], a[n + 1], requests[n], ra[n]));
        assert(spec_enqueue_outcome(b[n], b[n + 1], requests[n], rb[n]));
        law_enqueue_replayable(a[n], a[n + 1], b[n], b[n + 1], requests[n], ra[n], rb[n]);
        assert forall|i: int| 0 <= i < requests.len() implies same_answer(#[trigger] ra[i], rb[i]) by {
            if i < n {
                assert(ra.drop_last()[i] == ra[i] && rb.drop_last()[i] == rb[i]);
            }
        }
    }
}

proof fn lemma_drained_subrange(q: Seq<(u64, u64)>, now: u64, start: int)
    requires
        0 <= start <= q.len(),
        forall|k: int| 0 <= k < start ==> (#[trigger] q[k]).0 <= now,
        start == q.len() || q[start].0 > now,
    ensures
        queue_drained(q, now) == q.subrange(start, q.len() as int),
    decreases start,
{
    if start == 0 {
        assert(q.subrange(0, q.len() as int) =~= q);
    } else {
        let t = q.drop_first();
        assert forall|k: int| 0 <= k < start - 1 implies (#[trigger] t[k]).0 <= now by {
            assert(t[k] == q[k + 1]);
        }
        lemma_drained_subrange(t, now, start - 1);
        assert(t.subrange(start - 1, t.len() as int) =~= q.subrange(start, q.len() as int));
    }
}

proof fn lemma_queue_sum_bound_take(q: Seq<(u64, u64)>, i: int)
    requires
        0 <= i < q.len(),
    ensures
        queue_sum(q.take(i + 1)) == queue_sum(q.take(i)) + q[i].1,
{
    assert(q.take(i + 1).drop_last() =~= q.take(i));
}

impl LinkService {
    /// Draw seed.
    pub closed spec fn spec_seed(&self) -> u64 {
        self.seed
    }

    /// Per-edge configurations.
    pub closed spec fn spec_configs(&self) -> Seq<LinkConfig> {
        self.configs@
    }

    /// Per-edge shared-medium groups.
    pub closed spec fn spec_groups(&self) -> Seq<Option<u32>> {
        self.shared_groups@
    }

    /// State of a direction, if it has been used.
    pub closed spec fn spec_direction(&self, k: DirectionKey) -> Option<DirectionState> {
        lookup(self.directions@, k)
    }

    /// Used directions in ascending key order.
    pub closed spec fn spec_direction_keys(&self) -> Seq<DirectionKey> {
        self.directions@.map_values(|e: (DirectionKey, DirectionState)| e.0)
    }

    /// Used directions with their states, in ascending key order.
    pub closed spec fn spec_direction_entries(&self) -> Seq<(DirectionKey, DirectionState)> {
        self.directions@
    }

    /// Transmitter free time and queue of a capacity domain, if it has been used.
    pub closed spec fn spec_capacity(&self, k: CapacityKey) -> Option<(u64, Seq<(u64, u64)>)> {
        capacity_view(lookup(self.capacities@, k))
    }

    /// Direction state or a fresh one.
    pub open spec fn spec_direction_or_fresh(&self, k: DirectionKey) -> DirectionState {
        match self.spec_direction(k) {
            Some(d) => d,
            None => spec_fresh_direction(),
        }
    }

    /// Capacity state or an idle one.
    pub open spec fn spec_capacity_or_idle(&self, k: CapacityKey) -> (u64, Seq<(u64, u64)>) {
        match self.spec_capacity(k) {
            Some(c) => c,
            None => (0, Seq::empty()),
        }
    }

    /// Columns agree, direction keys ascend, capacity keys are unique and
    /// every queue's byte total fits in 64 bits.
    pub closed spec fn wf(&self) -> bool {
        &&& self.configs@.len() == self.shared_groups@.len()
        &&& keys_sorted(self.directions@)
        &&& unique_keys(self.capacities@)
        &&& forall|i: int| 0 <= i < self.capacities@.len() ==> queue_sum((#[trigger] self.capacities@[i]).1.queued@) <= u64::MAX
    }

    /// How the used-direction list relates to the state of each direction: keys
    /// strictly ascend, each entry holds the state of its key, every used key has an
    /// entry, and the configuration and shared-group columns are equally long.
    pub proof fn lemma_direction_entries(&self)
        requires
            self.wf(),
        ensures
            self.spec_groups().len() == self.spec_configs().len(),
            self.spec_direction_keys().len() == self.spec_direction_entries().len(),
            forall|i: int| 0 <= i < self.spec_direction_entries().len()
                ==> #[trigger] self.spec_direction_keys()[i] == self.spec_direction_entries()[i].0,
            forall|i: int, j: int| 0 <= i < j < self.spec_direction_entries().len()
                ==> key_lt((#[trigger] self.spec_direction_entries()[i]).0, (#[trigger] self.spec_direction_entries()[j]).0),
            forall|i: int| 0 <= i < self.spec_direction_entries().len()
                ==> self.spec_direction((#[trigger] self.spec_direction_entries()[i]).0) == Some(self.spec_direction_entries()[i].1),
            forall|k: DirectionKey| #[trigger] self.spec_direction(k) is Some
                ==> exists|i: int| 0 <= i < self.spec_direction_entries().len() && self.spec_direction_entries()[i].0 == k,
    {
        lemma_sorted_unique(self.directions@);
        assert forall|i: int| 0 <= i < self.spec_direction_entries().len()
            implies self.spec_direction((#[trigger] self.spec_direction_entries()[i]).0) == Some(self.spec_direction_entries()[i].1) by {
            lemma_lookup_at(self.directions@, i);
        }
    }

    /// Create one identical configuration per undirected edge.
    pub fn uniform(seed: u64, edge_count: usize, config: LinkConfig) -> (r: Self)
        ensures
            r.wf(),
            r.spec_seed() == seed,
            r.spec_configs() == Seq::new(edge_count as nat, |i: int| config),
            r.spec_groups() == Seq::new(edge_count as nat, |i: int| None::<u32>),
            forall|k: DirectionKey| #[trigger] r.spec_direction(k) == None::<DirectionState>,
            forall|k: CapacityKey| #[trigger] r.spec_capacity(k) == None::<(u64, Seq<(u64, u64)>)>,
            r.spec_direction_keys().len() == 0,
            r.spec_direction_entries().len() == 0,
            fresh_service(r, seed, edge_count as nat, config),
    {
        let mut configs: Vec<LinkConfig> = Vec::new();
        let mut shared_groups: Vec<Option<u32>> = Vec::new();
        let mut i: usize = 0;
        while i < edge_count
            invariant
                i <= edge_count,
                configs@ == Seq::new(i as nat, |k: int| config),
                shared_groups@ == Seq::new(i as nat, |k: int| None::<u32>),
            decreases edge_count - i,
        {
            configs.push(config);
            shared_groups.push(None);
            i = i + 1;
            assert(configs@ =~= Seq::new(i as nat, |k: int| config));
            assert(shared_groups@ =~= Seq::new(i as nat, |k: int| None::<u32>));
        }
        let r = Self { seed, configs, shared_groups, directions: Vec::new(), capacities: Vec::new() };
        assert(r.spec_direction_keys() =~= Seq::<DirectionKey>::empty());
        r
    }

    /// Replace a particular edge's configuration, or append the next one.
    pub fn set_config(&mut self, edge: EdgeId, config: LinkConfig) -> (r: Result<(), LinkError>)
        requires
            old(self).wf(),
        ensures
            final(self).wf(),
            edge == old(self).spec_configs().len() ==> r is Ok && final(self).spec_configs() == old(self).spec_configs().push(config)
                && final(self).spec_groups() == old(self).spec_groups().push(None),
            edge < old(self).spec_configs().len() ==> r is Ok && final(self).spec_configs() == old(self).spec_configs().update(edge as int, config)
                && final(self).spec_groups() == old(self).spec_groups(),
            edge > old(self).spec_configs().len() ==> r == Err::<(), LinkError>(LinkError::UnknownEdge(edge)) && *final(self) == *old(self),
            final(self).spec_seed() == old(self).spec_seed(),
            forall|k: DirectionKey| #[trigger] final(self).spec_direction(k) == old(self).spec_direction(k),
            forall|k: CapacityKey| #[trigger] final(self).spec_capacity(k) == old(self).spec_capacity(k),
            final(self).spec_direction_keys() == old(self).spec_direction_keys(),
    {
        let index = edge as usize;
        if index == self.configs.len() {
            self.configs.push(config);
            self.shared_groups.push(None);
            return Ok(());
        }
        if index < self.configs.len() {
            self.configs.set(index, config);
            Ok(())
        } else {
            Err(LinkError::UnknownEdge(edge))
        }
    }

    /// Put an edge on one half-duplex shared serialization and queue domain.
    pub fn set_shared_group(&mut self, edge: EdgeId, group: u32) -> (r: Result<(), LinkError>)
        requires
            old(self).wf(),
        ensures
            final(self).wf(),
            edge < old(self).spec_groups().len() ==> r is Ok && final(self).spec_groups() == old(self).spec_groups().update(edge as int, Some(group)),
            edge >= old(self).spec_groups().len() ==> r == Err::<(), LinkError>(LinkError::UnknownEdge(edge)) && *final(self) == *old(self),
            final(self).spec_seed() == old(self).spec_seed(),
            final(self).spec_configs() == old(self).spec_configs(),
            forall|k: DirectionKey| #[trigger] final(self).spec_direction(k) == old(self).spec_direction(k),
            forall|k: CapacityKey| #[trigger] final(self).spec_capacity(k) == old(self).spec_capacity(k),
            final(self).spec_direction_keys() == old(self).spec_direction_keys(),
    {
        if (edge as usize) < self.shared_groups.len() {
            self.shared_groups.set(edge as usize, Some(group));
            Ok(())
        } else {
            Err(LinkError::UnknownEdge(edge))
        }
    }

    /// Read a particular edge's configuration.
    pub fn config(&self, edge: EdgeId) -> (r: Result<&LinkConfig, LinkError>)
        requires
            self.wf(),
        ensures
            edge < self.spec_configs().len() ==> (r matches Ok(c) && *c == self.spec_configs()[edge as int]),
            edge >= self.spec_configs().len() ==> (r matches Err(e) && e == LinkError::UnknownEdge(edge)),
    {
        if (edge as usize) < self.configs.len() {
            Ok(&self.configs[edge as usize])
        } else {
            Err(LinkError::UnknownEdge(edge))
        }
    }

    /// Shared-medium group for an edge, if its two endpoints occupy one zone.
    pub fn shared_group(&self, edge: EdgeId) -> (r: Option<u32>)
        requires
            self.wf(),
        ensures
            r == if edge < self.spec_groups().len() { self.spec_groups()[edge as int] } else { None },
    {
        if (edge as usize) < self.shared_groups.len() {
            self.shared_groups[edge as usize]
        } else {
            None
        }
    }

    /// Index of a direction, inserting a fresh state at its sorted position when absent.
    fn direction_index(&mut self, key: DirectionKey) -> (i: usize)
        requires
            old(self).wf(),
        ensures
            final(self).wf(),
            i < final(self).directions@.len(),
            final(self).directions@[i as int].0 == key,
            final(self).spec_direction(key) == Some(old(self).spec_direction_or_fresh(key)),
            forall|k: DirectionKey| k != key ==> #[trigger] final(self).spec_direction(k) == old(self).spec_direction(k),
            final(self).spec_seed() == old(self).spec_seed(),
            final(self).configs == old(self).configs,
            final(self).shared_groups == old(self).shared_groups,
            final(self).capacities == old(self).capacities,
            forall|k: CapacityKey| #[trigger] final(self).spec_capacity(k) == old(self).spec_capacity(k),
            final(self).spec_configs() == old(self).spec_configs(),
            final(self).spec_groups() == old(self).spec_groups(),
    {
        proof { lemma_sorted_unique(self.directions@); }
        let len = self.directions.len();
        let mut p: usize = 0;
        while p < len && key_less(self.directions[p].0, key)
            invariant
                len == self.directions@.len(),
                p <= len,
                forall|k: int| 0 <= k < p ==> key_lt((#[trigger] self.directions@[k]).0, key),
            decreases len - p,
        {
            p = p + 1;
        }
        if p < len && key_same(self.directions[p].0, key) {
            proof { lemma_lookup_at(self.directions@, p as int); }
            return p;
        }
        let ghost before = self.directions@;
        proof {
            assert(!exists|j: int| 0 <= j < before.len() && (#[trigger] before[j]).0 == key) by {
                if exists|j: int| 0 <= j < before.len() && (#[trigger] before[j]).0 == key {
                    let j = choose|j: int| 0 <= j < before.len() && (#[trigger] before[j]).0 == key;
                    if j < p {
                        assert(key_lt(before[j].0, key));
                    } else if j > p {
                        assert(key_lt(before[p as int].0, before[j].0));
                        assert(!key_lt(before[p as int].0, key));
                    }
                }
            }
        }
        let fresh = DirectionState { last_stream_delivery_ns: 0, frame_sequence: 0, counters: LinkCounters::default() };
        self.directions.insert(p, (key, fresh));
        proof {
            let after = self.directions@;
            assert forall|i: int, j: int| 0 <= i < j < after.len() implies key_lt((#[trigger] after[i]).0, (#[trigger] after[j]).0) by {
                if p < before.len() {
                    assert(!key_lt(before[p as int].0, key));
                    assert(before[p as int].0 != key);
                }
                if j < p {
                    assert(key_lt(before[i].0, before[j].0));
                } else if j == p {
                    assert(key_lt(before[i].0, key));
                } else if i == p {
                    assert(after[j] == before[j - 1]);
                    if j - 1 > p {
                        assert(key_lt(before[p as int].0, before[j - 1].0));
                    }
                } else if i < p {
                    assert(key_lt(before[i].0, before[j - 1].0));
                } else {
                    assert(key_lt(before[i - 1].0, before[j - 1].0));
                }
            }
            lemma_sorted_unique(after);
            lemma_lookup_at(after, p as int);
            assert forall|k: DirectionKey| k != key implies #[trigger] lookup(after, k) == lookup(before, k) by {
                if exists|j: int| 0 <= j < before.len() && (#[trigger] before[j]).0 == k {
                    let j = choose|j: int| 0 <= j < before.len() && (#[trigger] before[j]).0 == k;
                    lemma_lookup_at(before, j);
                    if j < p {
                        assert(after[j] == before[j]);
                        lemma_lookup_at(after, j);
                    } else {
                        assert(after[j + 1] == before[j]);
                        lemma_lookup_at(after, j + 1);
                    }
                } else {
                    if exists|j: int| 0 <= j < after.len() && (#[trigger] after[j]).0 == k {
                        let j = choose|j: int| 0 <= j < after.len() && (#[trigger] after[j]).0 == k;
                        if j < p {
                            assert(before[j].0 == k);
                        } else if j > p {
                            assert(before[j - 1].0 == k);
                        }
                    }
                }
            }
        }
        p
    }

    /// Index of a capacity domain, appending an idle state when absent.
    fn capacity_index(&mut self, key: CapacityKey) -> (i: usize)
        requires
            old(self).wf(),
        ensures
            final(self).wf(),
            i < final(self).capacities@.len(),
            final(self).capacities@[i as int].0 == key,
            final(self).spec_capacity(key) == Some(old(self).spec_capacity_or_idle(key)),
            forall|k: CapacityKey| k != key ==> #[trigger] final(self).spec_capacity(k) == old(self).spec_capacity(k),
            final(self).spec_seed() == old(self).spec_seed(),
            final(self).configs == old(self).configs,
            final(self).shared_groups == old(self).shared_groups,
            final(self).directions == old(self).directions,
            forall|k: DirectionKey| #[trigger] final(self).spec_direction(k) == old(self).spec_direction(k),
            final(self).spec_configs() == old(self).spec_configs(),
            final(self).spec_groups() == old(self).spec_groups(),
    {
        let len = self.capacities.len();
        let mut p: usize = 0;
        while p < len
            invariant
                self.wf(),
                *self == *old(self),
                len == self.capacities@.len(),
                p <= len,
                forall|k: int| 0 <= k < p ==> (#[trigger] self.capacities@[k]).0 != key,
            decreases len - p,
        {
            if capacity_key_same(self.capacities[p].0, key) {
                proof { lemma_lookup_at(self.capacities@, p as int); }
                return p;
            }
            p = p + 1;
        }
        let ghost before = self.capacities@;
        self.capacities.push((key, CapacityState { next_serialization_ns: 0, queued: Vec::new() }));
        proof {
            let after = self.capacities@;
            assert forall|i: int, j: int| 0 <= i < after.len() && 0 <= j < after.len() && i != j implies (#[trigger] after[i]).0 != (#[trigger] after[j]).0 by {
                if i < len && j < len {
                    assert(before[i].0 != before[j].0);
                }
            }
            lemma_lookup_at(after, len as int);
            assert(after[len as int].1.queued@ =~= Seq::<(u64, u64)>::empty());
            assert(queue_sum(after[len as int].1.queued@) == 0);
            assert forall|k: CapacityKey| k != key implies #[trigger] lookup(after, k) == lookup(before, k) by {
                if exists|j: int| 0 <= j < before.len() && (#[trigger] before[j]).0 == k {
                    let j = choose|j: int| 0 <= j < before.len() && (#[trigger] before[j]).0 == k;
                    lemma_lookup_at(before, j);
                    assert(after[j] == before[j]);
                    lemma_lookup_at(after, j);
                } else {
                    if exists|j: int| 0 <= j < after.len() && (#[trigger] after[j]).0 == k {
                        let j = choose|j: int| 0 <= j < after.len() && (#[trigger] after[j]).0 == k;
                        assert(before[j].0 == k);
                    }
                }
            }
        }
        len
    }

    /// Replace the state of the direction at index `i`.
    fn set_direction(&mut self, i: usize, state: DirectionState)
        requires
            old(self).wf(),
            i < old(self).directions@.len(),
        ensures
            final(self).wf(),
            final(self).spec_direction(old(self).directions@[i as int].0) == Some(state),
            forall|k: DirectionKey| k != old(self).directions@[i as int].0 ==> #[trigger] final(self).spec_direction(k) == old(self).spec_direction(k),
            final(self).spec_direction_keys() == old(self).spec_direction_keys(),
            final(self).seed == old(self).seed,
            final(self).configs == old(self).configs,
            final(self).shared_groups == old(self).shared_groups,
            final(self).capacities == old(self).capacities,
            forall|k: CapacityKey| #[trigger] final(self).spec_capacity(k) == old(self).spec_capacity(k),
            final(self).spec_configs() == old(self).spec_configs(),
            final(self).spec_groups() == old(self).spec_groups(),
            final(self).spec_seed() == old(self).spec_seed(),
    {
        let key = self.directions[i].0;
        let ghost before = self.directions@;
        self.directions.set(i, (key, state));
        proof {
            lemma_sorted_unique(before);
            assert(self.directions@ == before.update(i as int, (before[i as int].0, state)));
            assert forall|k: DirectionKey| #[trigger] lookup(self.directions@, k) == if k == key { Some(state) } else { lookup(before, k) } by {
                lemma_lookup_update(before, i as int, state, k);
            }
            assert forall|a: int, b: int| 0 <= a < b < self.directions@.len() implies key_lt((#[trigger] self.directions@[a]).0, (#[trigger] self.directions@[b]).0) by {
                assert(key_lt(before[a].0, before[b].0));
            }
            assert(self.spec_direction_keys() =~= old(self).spec_direction_keys());
        }
    }

    /// Replace the state of the capacity domain at index `i`.
    fn set_capacity(&mut self, i: usize, next: u64, queued: Vec<(u64, u64)>)
        requires
            old(self).wf(),
            i < old(self).capacities@.len(),
            queue_sum(queued@) <= u64::MAX,
        ensures
            final(self).wf(),
            final(self).spec_capacity(old(self).capacities@[i as int].0) == Some((next, queued@)),
            forall|k: CapacityKey| k != old(self).capacities@[i as int].0 ==> #[trigger] final(self).spec_capacity(k) == old(self).spec_capacity(k),
            final(self).seed == old(self).seed,
            final(self).configs == old(self).configs,
            final(self).shared_groups == old(self).shared_groups,
            final(self).directions == old(self).directions,
            forall|k: DirectionKey| #[trigger] final(self).spec_direction(k) == old(self).spec_direction(k),
            final(self).spec_configs() == old(self).spec_configs(),
            final(self).spec_groups() == old(self).spec_groups(),
            final(self).spec_seed() == old(self).spec_seed(),
    {
        let key = self.capacities[i].0;
        let ghost before = self.capacities@;
        let ghost q = queued@;
        let state = CapacityState { next_serialization_ns: next, queued };
        self.capacities.set(i, (key, state));
        proof {
            assert(self.capacities@ == before.update(i as int, (before[i as int].0, state)));
            assert forall|k: CapacityKey| #[trigger] lookup(self.capacities@, k) == if k == key { Some(state) } else { lookup(before, k) } by {
                lemma_lookup_update(before, i as int, state, k);
            }
        }
    }

    /// The queue of capacity domain `i` without transmissions completed by `now`, and its byte total.
    fn drained_queue(&self, ci: usize, now_ns: u64) -> (r: (Vec<(u64, u64)>, u64))
        requires
            self.wf(),
            ci < self.capacities@.len(),
        ensures
            r.0@ == queue_drained(self.capacities@[ci as int].1.queued@, now_ns),
            r.1 == queue_sum(r.0@),
    {
        let ghost q0 = self.capacities@[ci as int].1.queued@;
        let qlen = self.capacities[ci].1.queued.len();
        let mut start: usize = 0;
        while start < qlen && self.capacities[ci].1.queued[start].0 <= now_ns
            invariant
                ci < self.capacities@.len(),
                q0 == self.capacities@[ci as int].1.queued@,
                qlen == q0.len(),
                start <= qlen,
                forall|k: int| 0 <= k < start ==> (#[trigger] q0[k]).0 <= now_ns,
            decreases qlen - start,
        {
            start = start + 1;
        }
        let mut drained: Vec<(u64, u64)> = Vec::new();
        let mut queued_bytes: u64 = 0;
        let mut k: usize = start;
        proof {
            lemma_drained_subrange(q0, now_ns, start as int);
            lemma_queue_drained_sum(q0, now_ns);
            assert(queue_sum(q0) <= u64::MAX);
            assert(q0.subrange(start as int, start as int) =~= Seq::<(u64, u64)>::empty());
        }
        while k < qlen
            invariant
                self.wf(),
                ci < self.capacities@.len(),
                q0 == self.capacities@[ci as int].1.queued@,
                qlen == q0.len(),
                start <= k <= qlen,
                queue_sum(q0.subrange(start as int, qlen as int)) <= u64::MAX,
                drained@ == q0.subrange(start as int, k as int),
                queued_bytes == queue_sum(drained@),
            decreases qlen - k,
        {
            let entry = self.capacities[ci].1.queued[k];
            proof {
                let whole = q0.subrange(start as int, qlen as int);
                assert(whole.take(k - start + 1) =~= q0.subrange(start as int, k + 1));
                assert(whole.take(k - start) =~= q0.subrange(start as int, k as int));
                lemma_queue_sum_bound_take(whole, k - start);
                lemma_queue_sum_take(whole, k - start + 1);
            }
            drained.push(entry);
            queued_bytes = queued_bytes + entry.1;
            proof {
                assert(drained@ =~= q0.subrange(start as int, k + 1));
            }
            k = k + 1;
        }
        (drained, queued_bytes)
    }

    /// Decide the fate of a frame once its capacity domain (index `ci`, drained to
    /// `drained`, transmitter free at `next0`) and direction (index `di`, state `d0`) are known.
    fn decide(
        &mut self,
        request: EnqueueRequest,
        config: LinkConfig,
        wire_bytes: u64,
        ci: usize,
        di: usize,
        next0: u64,
        drained: Vec<(u64, u64)>,
        queued_bytes: u64,
        d0: DirectionState,
    ) -> (r: Result<EnqueueResult, LinkError>)
        requires
            old(self).wf(),
            ci < old(self).capacities@.len(),
            di < old(self).directions@.len(),
            config.bandwidth_bps > 0,
            queued_bytes == queue_sum(drained@),
            old(self).directions@[di as int].0 == (request.edge_id, request.from, request.to),
        ensures
            final(self).wf(),
            spec_settle_outcome(old(self).spec_seed(), config, request, wire_bytes, next0, drained@, d0,
                final(self).spec_direction(old(self).directions@[di as int].0),
                final(self).spec_capacity(old(self).capacities@[ci as int].0), r),
            forall|k: DirectionKey| k != old(self).directions@[di as int].0 ==> #[trigger] final(self).spec_direction(k) == old(self).spec_direction(k),
            forall|k: CapacityKey| k != old(self).capacities@[ci as int].0 ==> #[trigger] final(self).spec_capacity(k) == old(self).spec_capacity(k),
            final(self).spec_seed() == old(self).spec_seed(),
            final(self).spec_configs() == old(self).spec_configs(),
            final(self).spec_groups() == old(self).spec_groups(),
    {
        let edge_id = request.edge_id;
        let from = request.from;
        let to = request.to;
        if wire_bytes > config.mtu_bytes {
            let counters = LinkCounters {
                rejected_frames: d0.counters.rejected_frames.saturating_add(1),
                rejected_bytes: d0.counters.rejected_bytes.saturating_add(wire_bytes),
                ..d0.counters
            };
            self.set_direction(di, DirectionState { counters, ..d0 });
            self.set_capacity(ci, next0, drained);
            return Err(LinkError::MtuExceeded { edge: edge_id, frame_bytes: wire_bytes, mtu_bytes: config.mtu_bytes });
        }
        let duplicate = draw_ppm(self.seed, edge_id, from, to, d0.frame_sequence, 0xD0) < config.duplication_ppm;
        let copies: u64 = if duplicate { 2 } else { 1 };
        let accepted_bytes = match wire_bytes.checked_mul(copies) {
            Some(v) => v,
            None => {
                self.set_direction(di, d0);
                self.set_capacity(ci, next0, drained);
                return Err(LinkError::Arithmetic);
            },
        };
        let over_limit = match queued_bytes.checked_add(accepted_bytes) {
            Some(total) => total > config.queue_bytes,
            None => true,
        };
        if over_limit {
            let counters = LinkCounters {
                rejected_frames: d0.counters.rejected_frames.saturating_add(1),
                rejected_bytes: d0.counters.rejected_bytes.saturating_add(accepted_bytes),
                ..d0.counters
            };
            self.set_direction(di, DirectionState { counters, ..d0 });
            self.set_capacity(ci, next0, drained);
            return Err(LinkError::QueueFull {
                edge: edge_id,
                queued_bytes,
                frame_bytes: accepted_bytes,
                limit_bytes: config.queue_bytes,
            });
        }
        let ghost dq = drained@;
        let ghost start = CopyState {
            next_serialization_ns: next0,
            queue: dq,
            transmitted: 0,
            lost: 0,
            last_stream_delivery_ns: d0.last_stream_delivery_ns,
            deliveries: Seq::empty(),
        };
        let copied = run_copies(
            self.seed,
            config,
            request,
            wire_bytes,
            d0.frame_sequence,
            copies,
            (next0, drained, 0, 0, d0.last_stream_delivery_ns, Vec::new()),
        );
        let (next, queue, transmitted_bytes, lost_bytes, last, deliveries) = match copied {
            Ok(t) => t,
            Err((partial_next, partial_queue, _, _, partial_last, _)) => {
                proof {
                    lemma_copies_queue(self.seed, config, request, wire_bytes, d0.frame_sequence, copies, start);
                }
                let counters = LinkCounters { accepted_frames: d0.counters.accepted_frames.saturating_add(1), ..d0.counters };
                self.set_direction(di, DirectionState { last_stream_delivery_ns: partial_last, counters, ..d0 });
                self.set_capacity(ci, partial_next, partial_queue);
                return Err(LinkError::Arithmetic);
            },
        };
        let occupancy = queued_bytes + accepted_bytes;
        proof {
            assert(queue@.len() >= 1);
            if copies == 2 {
                assert(queue@ =~= dq.push(queue@[dq.len() as int]).push(queue@[dq.len() as int + 1]));
                lemma_queue_sum_push(dq, queue@[dq.len() as int]);
                lemma_queue_sum_push(dq.push(queue@[dq.len() as int]), queue@[dq.len() as int + 1]);
            } else {
                assert(queue@ =~= dq.push(queue@[dq.len() as int]));
                lemma_queue_sum_push(dq, queue@[dq.len() as int]);
            }
        }
        let counters = LinkCounters {
            accepted_frames: d0.counters.accepted_frames.saturating_add(1),
            transmitted_bytes: d0.counters.transmitted_bytes.saturating_add(transmitted_bytes),
            lost_bytes: d0.counters.lost_bytes.saturating_add(lost_bytes),
            peak_queue_bytes: if d0.counters.peak_queue_bytes > occupancy { d0.counters.peak_queue_bytes } else { occupancy },
            ..d0.counters
        };
        self.set_direction(di, DirectionState {
            last_stream_delivery_ns: last,
            frame_sequence: d0.frame_sequence.saturating_add(1),
            counters,
        });
        self.set_capacity(ci, next, queue);
        Ok(EnqueueResult { deliveries, transmitted_bytes, lost_bytes, queue_occupancy_bytes: occupancy })
    }

    /// Create or find the capacity domain and direction of a frame, drain the
    /// queue and decide the frame's fate.
    fn settle(&mut self, request: EnqueueRequest, config: LinkConfig, wire_bytes: u64, capacity_key: CapacityKey) -> (r: Result<EnqueueResult, LinkError>)
        requires
            old(self).wf(),
            config.bandwidth_bps > 0,
        ensures
            final(self).wf(),
            spec_settle_outcome(old(self).spec_seed(), config, request, wire_bytes,
                old(self).spec_capacity_or_idle(capacity_key).0,
                queue_drained(old(self).spec_capacity_or_idle(capacity_key).1, request.now_ns),
                old(self).spec_direction_or_fresh((request.edge_id, request.from, request.to)),
                final(self).spec_direction((request.edge_id, request.from, request.to)),
                final(self).spec_capacity(capacity_key), r),
            forall|k: DirectionKey| k != (request.edge_id, request.from, request.to) ==> #[trigger] final(self).spec_direction(k) == old(self).spec_direction(k),
            forall|k: CapacityKey| k != capacity_key ==> #[trigger] final(self).spec_capacity(k) == old(self).spec_capacity(k),
            final(self).spec_seed() == old(self).spec_seed(),
            final(self).spec_configs() == old(self).spec_configs(),
            final(self).spec_groups() == old(self).spec_groups(),
    {
        let ci = self.capacity_index(capacity_key);
        let next0 = self.capacities[ci].1.next_serialization_ns;
        proof {
            lemma_lookup_at(self.capacities@, ci as int);
        }
        let (drained, queued_bytes) = self.drained_queue(ci, request.now_ns);
        let key: DirectionKey = (request.edge_id, request.from, request.to);
        let di = self.direction_index(key);
        let d0 = self.directions[di].1;
        proof {
            lemma_sorted_unique(self.directions@);
            lemma_lookup_at(self.directions@, di as int);
        }
        self.decide(request, config, wire_bytes, ci, di, next0, drained, queued_bytes, d0)
    }

    /// Enqueue one logical frame and deterministically decide copies and loss.
    pub fn enqueue(&mut self, request: EnqueueRequest) -> (r: Result<EnqueueResult, LinkError>)
        requires
            old(self).wf(),
        ensures
            final(self).wf(),
            spec_enqueue_outcome(*old(self), *final(self), request, r),
    {
        let edge_id = request.edge_id;
        if edge_id as usize >= self.configs.len() {
            return Err(LinkError::UnknownEdge(edge_id));
        }
        let config = self.configs[edge_id as usize];
        if config.bandwidth_bps == 0 {
            return Err(LinkError::ZeroBandwidth(edge_id));
        }
        let wire_bytes = match request.frame_bytes.checked_add(config.transport_overhead_bytes) {
            Some(v) => v,
            None => {
                return Err(LinkError::Arithmetic);
            },
        };
        let capacity_key: CapacityKey = match self.shared_groups[edge_id as usize] {
            Some(group) => ((group as u64) | (1u64 << 63u64), u32::MAX, u32::MAX),
            None => (edge_id as u64, request.from, request.to),
        };
        self.settle(request, config, wire_bytes, capacity_key)
    }

    /// Credit one scheduled delivery when its event executes.
    pub fn record_delivery(&mut self, delivery: &Delivery, useful_payload_bytes: u64) -> (r: Result<(), LinkError>)
        requires
            old(self).wf(),
        ensures
            final(self).wf(),
            spec_record_outcome(*old(self), *final(self), *delivery, useful_payload_bytes, r),
    {
        let key: DirectionKey = (delivery.edge_id, delivery.from, delivery.to);
        let found = self.find_direction(key);
        match found {
            None => Err(LinkError::MissingDirection(delivery.edge_id)),
            Some(i) => {
                let d = self.directions[i].1;
                let useful = if delivery.class == LinkClass::UsefulPayload {
                    d.counters.useful_payload_bytes.saturating_add(useful_payload_bytes)
                } else {
                    d.counters.useful_payload_bytes
                };
                let counters = LinkCounters {
                    delivered_bytes: d.counters.delivered_bytes.saturating_add(delivery.wire_bytes),
                    useful_payload_bytes: useful,
                    ..d.counters
                };
                self.set_direction(i, DirectionState { counters, ..d });
                Ok(())
            },
        }
    }

    /// Position of a direction, if it has been used.
    fn find_direction(&self, key: DirectionKey) -> (r: Option<usize>)
        requires
            self.wf(),
        ensures
            r is None ==> self.spec_direction(key) is None,
            r matches Some(i) ==> i < self.directions@.len() && self.directions@[i as int].0 == key
                && self.spec_direction(key) == Some(self.directions@[i as int].1),
    {
        let len = self.directions.len();
        let mut i: usize = 0;
        while i < len
            invariant
                self.wf(),
                len == self.directions@.len(),
                i <= len,
                forall|k: int| 0 <= k < i ==> (#[trigger] self.directions@[k]).0 != key,
            decreases len - i,
        {
            if key_same(self.directions[i].0, key) {
                proof {
                    lemma_sorted_unique(self.directions@);
                    lemma_lookup_at(self.directions@, i as int);
                }
                return Some(i);
            }
            i = i + 1;
        }
        None
    }

    /// Counters for a directed edge, or zeros if unused.
    pub fn counters(&self, edge: EdgeId, from: NodeId, to: NodeId) -> (r: LinkCounters)
        requires
            self.wf(),
        ensures
            r == self.spec_direction_or_fresh((edge, from, to)).counters,
    {
        match self.find_direction((edge, from, to)) {
            Some(i) => self.directions[i].1.counters,
            None => LinkCounters::default(),
        }
    }

    /// Stable labelled projection of every used directed edge, in key order.
    pub fn all_counters(&self) -> (r: Vec<(String, LinkCounters)>)
        requires
            self.wf(),
        ensures
            r@.len() == self.spec_direction_entries().len(),
            forall|i: int| 0 <= i < r@.len() ==> {
                let (k, d) = #[trigger] self.spec_direction_entries()[i];
                r@[i].0@ == spec_direction_label(k.0, k.1, k.2) && r@[i].1 == d.counters
            },
    {
        let mut out: Vec<(String, LinkCounters)> = Vec::new();
        let len = self.directions.len();
        let mut i: usize = 0;
        while i < len
            invariant
                len == self.directions@.len(),
                i <= len,
                out@.len() == i,
                forall|j: int| 0 <= j < i ==> {
                    let (k, d) = #[trigger] self.directions@[j];
                    out@[j].0@ == spec_direction_label(k.0, k.1, k.2) && out@[j].1 == d.counters
                },
            decreases len - i,
        {
            let (k, d) = self.directions[i];
            out.push((direction_label(k.0, k.1, k.2), d.counters));
            i = i + 1;
        }
        out
    }

    /// At quiescence, transmitted bytes must equal delivered plus lost bytes.
    pub fn reconcile(&self) -> (r: Result<(), LinkError>)
        requires
            self.wf(),
        ensures
            r is Ok <==> forall|i: int| 0 <= i < self.spec_direction_entries().len()
                ==> spec_counters_reconcile((#[trigger] self.spec_direction_entries()[i]).1.counters),
            r matches Err(e) ==> exists|i: int| 0 <= i < self.spec_direction_entries().len() && {
                let (k, d) = #[trigger] self.spec_direction_entries()[i];
                &&& !spec_counters_reconcile(d.counters)
                &&& forall|j: int| 0 <= j < i ==> spec_counters_reconcile(self.spec_direction_entries()[j].1.counters)
                &&& e == LinkError::Reconciliation {
                    edge: k.0,
                    from: k.1,
                    to: k.2,
                    transmitted: d.counters.transmitted_bytes,
                    delivered: d.counters.delivered_bytes,
                    lost: d.counters.lost_bytes,
                }
            },
    {
        let len = self.directions.len();
        let mut i: usize = 0;
        while i < len
            invariant
                len == self.directions@.len(),
                i <= len,
                forall|j: int| 0 <= j < i ==> spec_counters_reconcile((#[trigger] self.directions@[j]).1.counters),
            decreases len - i,
        {
            let (k, d) = self.directions[i];
            let c = d.counters;
            let balanced = match c.delivered_bytes.checked_add(c.lost_bytes) {
                Some(total) => total == c.transmitted_bytes,
                None => false,
            };
            if !balanced {
                let e = LinkError::Reconciliation {
                    edge: k.0,
                    from: k.1,
                    to: k.2,
                    transmitted: c.transmitted_bytes,
                    delivered: c.delivered_bytes,
                    lost: c.lost_bytes,
                };
                assert(self.directions@[i as int] == (k, d));
                assert(self.spec_direction_entries()[i as int] == (k, d));
                assert(!spec_counters_reconcile(self.spec_direction_entries()[i as int].1.counters));
                assert(forall|j: int| 0 <= j < i ==> spec_counters_reconcile(self.spec_direction_entries()[j].1.counters));
                return Err(e);
            }
            i = i + 1;
        }
        Ok(())
    }
}

} // verus!
