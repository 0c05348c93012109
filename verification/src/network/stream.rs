//! Packetized reliable streams: one visible chunk becomes many modeled packets,
//! serialized as a single aggregate transmission.

use vstd::prelude::*;
use crate::graph::{EdgeId, NodeId};
use crate::mixing::{deterministic_u64, spec_deterministic_u64};
use super::{
    LinkService, LinkError, LinkConfig, LinkClass, LinkCounters, Delivery, DirectionKey, CapacityKey,
    DirectionState, NANOS_PER_SECOND, ceil_div, sat, queue_sum, queue_drained, spec_capacity_key,
    spec_record_outcome, spec_counters_reconcile,
    lemma_lookup_at, lemma_queue_sum_push, lemma_sorted_unique,
};

verus! {

/// One visible application byte range offered to a reliable modeled stream.
#[derive(Debug, Clone, Copy, PartialEq, Eq, Structural)]
pub struct StreamEnqueueRequest {
    /// Stable edge.
    pub edge_id: EdgeId,
    /// Sender.
    pub from: NodeId,
    /// Receiver.
    pub to: NodeId,
    /// Application bytes carried by the chunk.
    pub useful_payload_bytes: u64,
    /// Protocol framing added to every packet above the transport.
    pub protocol_overhead_bytes: u64,
    /// Virtual time of the offer.
    pub now_ns: u64,
}

/// Aggregated packetization result for one visible stream chunk.
#[derive(Debug, Clone, Copy, PartialEq, Eq, Structural)]
pub struct StreamEnqueueResult {
    /// The single delivery standing for every packet of the chunk.
    pub delivery: Delivery,
    /// Wire bytes serialized, retransmissions included.
    pub transmitted_bytes: u64,
    /// Wire bytes of the projected lost packets.
    pub lost_bytes: u64,
    /// Packets needed to carry the chunk.
    pub packet_count: u64,
    /// Projected retransmitted packets.
    pub retransmitted_packets: u64,
    /// Queue occupancy right after the chunk was accepted.
    pub queue_occupancy_bytes: u64,
}

/// Packet arithmetic of one stream chunk on one link configuration.
#[derive(Debug, Clone, Copy, PartialEq, Eq, Structural)]
pub struct StreamPlan {
    /// Protocol plus transport bytes of every packet.
    pub per_packet_overhead: u64,
    /// Packets needed to carry the payload.
    pub packet_count: u64,
    /// Payload plus per-packet overhead of every delivered packet.
    pub delivered_wire_bytes: u64,
    /// Projected retransmissions.
    pub retransmitted_packets: u64,
    /// Wire bytes of the retransmitted packets.
    pub lost_bytes: u64,
    /// Delivered plus lost wire bytes.
    pub transmitted_bytes: u64,
}

/// Expected retransmissions of `packet_count` packets at `loss_ppm`, rounded up:
/// `packets * p / (1 - p)`; none for a lossless link, undefined for total loss.
pub open spec fn spec_retransmissions(packet_count: u64, loss_ppm: u32) -> Option<u64> {
    if loss_ppm == 0 {
        Some(0)
    } else if loss_ppm >= 1_000_000 {
        None
    } else {
        let n = ceil_div(packet_count * loss_ppm, 1_000_000 - loss_ppm);
        if n > u64::MAX {
            None
        } else {
            Some(n as u64)
        }
    }
}

/// Serialization time of a whole chunk: the bit-time rounded up, at least one nanosecond.
pub open spec fn spec_stream_serialization(bytes: u64, bandwidth_bps: u64) -> Option<u64> {
    let n = ceil_div(bytes * 8 * NANOS_PER_SECOND, bandwidth_bps as int);
    let m = if n < 1 { 1 } else { n };
    if m > u64::MAX {
        None
    } else {
        Some(m as u64)
    }
}

/// Deterministic jitter of a stream chunk, below `maximum`.
pub open spec fn spec_stream_jitter(seed: u64, edge: EdgeId, sequence: u64, maximum: u64) -> u64 {
    if maximum == 0 {
        0
    } else {
        (spec_deterministic_u64(seed ^ ((edge as u64) << 32u64) ^ 0xA7u64, sequence) % maximum) as u64
    }
}

/// Packetization of a chunk, or the error that refuses it before any state changes.
pub open spec fn spec_stream_plan(config: LinkConfig, request: StreamEnqueueRequest) -> Result<StreamPlan, LinkError> {
    let e = request.edge_id;
    let ppo = request.protocol_overhead_bytes + config.transport_overhead_bytes;
    if ppo > u64::MAX {
        Err(LinkError::Arithmetic)
    } else if ppo > config.mtu_bytes {
        Err(LinkError::MtuExceeded { edge: e, frame_bytes: ppo as u64, mtu_bytes: config.mtu_bytes })
    } else if ppo == config.mtu_bytes {
        Err(LinkError::MtuExceeded { edge: e, frame_bytes: sat(ppo as u64, 1), mtu_bytes: config.mtu_bytes })
    } else {
        let pc = ceil_div(request.useful_payload_bytes as int, config.mtu_bytes - ppo);
        let delivered = request.useful_payload_bytes + pc * ppo;
        if pc * ppo > u64::MAX || delivered > u64::MAX {
            Err(LinkError::Arithmetic)
        } else {
            match spec_retransmissions(pc as u64, config.loss_ppm) {
                None => Err(LinkError::Arithmetic),
                Some(rt) => {
                    let avg = ceil_div(delivered, if pc > 0 { pc } else { 1 });
                    if rt * avg > u64::MAX || delivered + rt * avg > u64::MAX {
                        Err(LinkError::Arithmetic)
                    } else {
                        Ok(StreamPlan {
                            per_packet_overhead: ppo as u64,
                            packet_count: pc as u64,
                            delivered_wire_bytes: delivered as u64,
                            retransmitted_packets: rt,
                            lost_bytes: (rt * avg) as u64,
                            transmitted_bytes: (delivered + rt * avg) as u64,
                        })
                    }
                },
            }
        }
    }
}

/// What a planned chunk does to its capacity domain (transmitter free at `next0`,
/// drained queue `qd`) and to its direction (state `d0`, entry `dir_before`).
pub open spec fn spec_stream_settle(
    seed: u64,
    config: LinkConfig,
    request: StreamEnqueueRequest,
    plan: StreamPlan,
    next0: u64,
    qd: Seq<(u64, u64)>,
    d0: DirectionState,
    dir_before: Option<DirectionState>,
    dir_after: Option<DirectionState>,
    cap_after: Option<(u64, Seq<(u64, u64)>)>,
    r: Result<StreamEnqueueResult, LinkError>,
) -> bool {
    let queued = queue_sum(qd);
    let offered = queued + plan.transmitted_bytes;
    let occupancy = if offered < config.queue_bytes { offered } else { config.queue_bytes as int };
    let delta = if occupancy > queued { occupancy - queued } else { 0 };
    let start = if next0 > request.now_ns { next0 } else { request.now_ns };
    let ser = spec_stream_serialization(plan.transmitted_bytes, config.bandwidth_bps);
    if ser is None || start + ser->0 > u64::MAX {
        &&& r == Err::<StreamEnqueueResult, LinkError>(LinkError::Arithmetic)
        &&& cap_after == Some((next0, qd))
        &&& dir_after == dir_before
    } else {
        let end = (start + ser->0) as u64;
        let seq = d0.frame_sequence;
        let arrive = sat(sat(end, config.latency_ns as int), spec_stream_jitter(seed, request.edge_id, seq, config.jitter_ns) as int);
        let deliver = if arrive > d0.last_stream_delivery_ns { arrive } else { d0.last_stream_delivery_ns };
        &&& cap_after == Some((end, qd.push((end, delta as u64))))
        &&& dir_after == Some(DirectionState {
            last_stream_delivery_ns: deliver,
            frame_sequence: sat(sat(seq, plan.packet_count as int), plan.retransmitted_packets as int),
            counters: LinkCounters {
                accepted_frames: sat(d0.counters.accepted_frames, plan.packet_count as int),
                transmitted_bytes: sat(d0.counters.transmitted_bytes, plan.transmitted_bytes as int),
                lost_bytes: sat(d0.counters.lost_bytes, plan.lost_bytes as int),
                peak_queue_bytes: if d0.counters.peak_queue_bytes > occupancy {
                    d0.counters.peak_queue_bytes
                } else {
                    occupancy as u64
                },
                ..d0.counters
            },
        })
        &&& r == Ok::<StreamEnqueueResult, LinkError>(StreamEnqueueResult {
            delivery: Delivery {
                edge_id: request.edge_id,
                from: request.from,
                to: request.to,
                class: LinkClass::UsefulPayload,
                frame_bytes: (request.useful_payload_bytes + plan.packet_count * request.protocol_overhead_bytes) as u64,
                wire_bytes: plan.delivered_wire_bytes,
                deliver_at_ns: deliver,
                copy_ordinal: 0,
            },
            transmitted_bytes: plan.transmitted_bytes,
            lost_bytes: plan.lost_bytes,
            packet_count: plan.packet_count,
            retransmitted_packets: plan.retransmitted_packets,
            queue_occupancy_bytes: occupancy as u64,
        })
    }
}

/// Everything `enqueue_stream` promises, relating the service before and after the call.
pub open spec fn spec_stream_outcome(
    old: LinkService,
    new: LinkService,
    request: StreamEnqueueRequest,
    r: Result<StreamEnqueueResult, LinkError>,
) -> bool {
    let e = request.edge_id;
    let key = (e, request.from, request.to);
    if e >= old.spec_configs().len() {
        r == Err::<StreamEnqueueResult, LinkError>(LinkError::UnknownEdge(e)) && new == old
    } else {
        let config = old.spec_configs()[e as int];
        if config.bandwidth_bps == 0 {
            r == Err::<StreamEnqueueResult, LinkError>(LinkError::ZeroBandwidth(e)) && new == old
        } else {
            match spec_stream_plan(config, request) {
                Err(err) => r == Err::<StreamEnqueueResult, LinkError>(err) && new == old,
                Ok(plan) => {
                    let ck = spec_capacity_key(old.spec_groups()[e as int], e, request.from, request.to);
                    &&& new.spec_seed() == old.spec_seed()
                    &&& new.spec_configs() == old.spec_configs()
                    &&& new.spec_groups() == old.spec_groups()
                    &&& forall|k: DirectionKey| k != key ==> #[trigger] new.spec_direction(k) == old.spec_direction(k)
                    &&& forall|k: CapacityKey| k != ck ==> #[trigger] new.spec_capacity(k) == old.spec_capacity(k)
                    &&& spec_stream_settle(
                        old.spec_seed(),
                        config,
                        request,
                        plan,
                        old.spec_capacity_or_idle(ck).0,
                        queue_drained(old.spec_capacity_or_idle(ck).1, request.now_ns),
                        old.spec_direction_or_fresh(key),
                        old.spec_direction(key),
                        new.spec_direction(key),
                        new.spec_capacity(ck),
                        r,
                    )
                },
            }
        }
    }
}

/// The cost of an accepted chunk: packets, wire bytes, retransmissions, byte balance,
/// occupancy bound, class and direction of its delivery.
pub open spec fn spec_chunk_cost(config: LinkConfig, request: StreamEnqueueRequest, res: StreamEnqueueResult) -> bool {
    let o = request.protocol_overhead_bytes + config.transport_overhead_bytes;
    &&& o < config.mtu_bytes
    &&& res.packet_count == ceil_div(request.useful_payload_bytes as int, config.mtu_bytes - o)
    &&& res.delivery.wire_bytes == request.useful_payload_bytes + res.packet_count * o
    &&& spec_retransmissions(res.packet_count, config.loss_ppm) == Some(res.retransmitted_packets)
    &&& res.transmitted_bytes == res.delivery.wire_bytes + res.lost_bytes
    &&& res.queue_occupancy_bytes <= config.queue_bytes
    &&& res.delivery.class == LinkClass::UsefulPayload
    &&& (res.delivery.edge_id, res.delivery.from, res.delivery.to) == (request.edge_id, request.from, request.to)
}

/// What a stream chunk costs: with per-packet overhead `o` (protocol plus transport)
/// below the MTU, the payload `P` travels in `ceil(P / (mtu - o))` packets whose wire
/// bytes are `P` plus `o` per packet; the projected retransmissions are
/// `ceil(packets * loss / (1000000 - loss))`; everything transmitted is delivered or
/// lost; the reported occupancy never exceeds the queue limit; and the single delivery
/// carries useful payload on the request's direction. An overhead at or above the MTU
/// is refused as an MTU failure.
pub proof fn law_stream_plan(old: LinkService, new: LinkService, request: StreamEnqueueRequest, r: Result<StreamEnqueueResult, LinkError>)
    requires
        spec_stream_outcome(old, new, request, r),
        request.edge_id < old.spec_configs().len(),
        old.spec_configs()[request.edge_id as int].bandwidth_bps > 0,
    ensures
        request.protocol_overhead_bytes + old.spec_configs()[request.edge_id as int].transport_overhead_bytes <= u64::MAX
            && request.protocol_overhead_bytes + old.spec_configs()[request.edge_id as int].transport_overhead_bytes
                >= old.spec_configs()[request.edge_id as int].mtu_bytes
            ==> (r matches Err(LinkError::MtuExceeded { .. })),
        r matches Ok(res) ==> spec_chunk_cost(old.spec_configs()[request.edge_id as int], request, res),
{
    let config = old.spec_configs()[request.edge_id as int];
    let ppo = request.protocol_overhead_bytes + config.transport_overhead_bytes;
    if ppo < config.mtu_bytes {
        let x = request.useful_payload_bytes as int;
        let d = config.mtu_bytes - ppo;
        vstd::arithmetic::div_mod::lemma_fundamental_div_mod(x, d);
        vstd::arithmetic::div_mod::lemma_mod_pos_bound(x, d);
        assert(x / d <= x) by (nonlinear_arith)
            requires x >= 0, d >= 1, x == d * (x / d) + x % d, x % d >= 0;
        assert(x / d >= 0) by (nonlinear_arith)
            requires x >= 0, d >= 1;
        assert(x % d != 0 ==> x / d + 1 <= x) by (nonlinear_arith)
            requires x == d * (x / d) + x % d, 0 <= x % d, d >= 1, x / d >= 0;
        assert(ceil_div(x, d) <= x);
    }
    if let Ok(res) = r {
        assert(ppo < config.mtu_bytes);
        assert(res.packet_count == ceil_div(request.useful_payload_bytes as int, config.mtu_bytes - ppo));
        assert(res.delivery.wire_bytes == request.useful_payload_bytes + res.packet_count * ppo);
        assert(spec_retransmissions(res.packet_count, config.loss_ppm) == Some(res.retransmitted_packets));
        assert(res.transmitted_bytes == res.delivery.wire_bytes + res.lost_bytes);
        let plan = spec_stream_plan(config, request)->Ok_0;
        let ck = spec_capacity_key(old.spec_groups()[request.edge_id as int], request.edge_id, request.from, request.to);
        let qd = queue_drained(old.spec_capacity_or_idle(ck).1, request.now_ns);
        super::lemma_queue_sum_nonneg(qd);
        assert(res.queue_occupancy_bytes <= config.queue_bytes);
    }
}

/// A stream chunk travels the whole link: its delivery comes no earlier than the
/// moment the transmitter is free for it (the later of the request time and the end of
/// earlier serializations) plus the time to serialize every transmitted byte at the
/// link's bandwidth plus the link's propagation latency (capped at the clock's end);
/// it keeps the direction's stream order, and unless held back by an earlier delivery
/// it comes no later than that plus the link's jitter bound.
pub proof fn law_stream_delivery_after_latency(old: LinkService, new: LinkService, request: StreamEnqueueRequest, res: StreamEnqueueResult)
    requires
        spec_stream_outcome(old, new, request, Ok(res)),
    ensures
        request.edge_id < old.spec_configs().len(),
        ({
            let config = old.spec_configs()[request.edge_id as int];
            let ck = spec_capacity_key(old.spec_groups()[request.edge_id as int], request.edge_id, request.from, request.to);
            let free = old.spec_capacity_or_idle(ck).0;
            let start = if free > request.now_ns { free as int } else { request.now_ns as int };
            let earliest = start + ceil_div(res.transmitted_bytes * 8 * NANOS_PER_SECOND, config.bandwidth_bps as int) + config.latency_ns;
            let prev = old.spec_direction_or_fresh((request.edge_id, request.from, request.to)).last_stream_delivery_ns;
            let ser = ceil_div(res.transmitted_bytes * 8 * NANOS_PER_SECOND, config.bandwidth_bps as int);
            let latest = start + (if ser < 1 { 1 } else { ser }) + config.latency_ns + config.jitter_ns;
            &&& res.delivery.deliver_at_ns >= (if earliest > u64::MAX { u64::MAX as int } else { earliest })
            &&& res.delivery.deliver_at_ns >= prev
            &&& res.delivery.deliver_at_ns <= prev || res.delivery.deliver_at_ns <= latest
        }),
{
    let config = old.spec_configs()[request.edge_id as int];
    let key = (request.edge_id, request.from, request.to);
    let seq = old.spec_direction_or_fresh(key).frame_sequence;
    let j = spec_stream_jitter(old.spec_seed(), request.edge_id, seq, config.jitter_ns);
    assert(config.jitter_ns > 0 ==> j < config.jitter_ns);
    assert(j <= config.jitter_ns);
}

/// A packetized chunk reconciles once delivered: when a direction's counters balance
/// before the chunk (transmitted = delivered + lost), they balance again after the chunk
/// is enqueued and its single delivery is credited, provided no counter saturates.
pub proof fn law_stream_delivery_reconciles(
    before: LinkService,
    queued: LinkService,
    after: LinkService,
    request: StreamEnqueueRequest,
    result: StreamEnqueueResult,
    useful_payload_bytes: u64,
    credited: Result<(), LinkError>,
)
    requires
        spec_stream_outcome(before, queued, request, Ok(result)),
        spec_record_outcome(queued, after, result.delivery, useful_payload_bytes, credited),
        spec_counters_reconcile(before.spec_direction_or_fresh((request.edge_id, request.from, request.to)).counters),
        ({
            let c = before.spec_direction_or_fresh((request.edge_id, request.from, request.to)).counters;
            &&& c.transmitted_bytes + result.transmitted_bytes <= u64::MAX
            &&& c.lost_bytes + result.lost_bytes <= u64::MAX
            &&& c.delivered_bytes + result.delivery.wire_bytes <= u64::MAX
        }),
    ensures
        credited is Ok,
        after.spec_direction((request.edge_id, request.from, request.to)) matches Some(d)
            && spec_counters_reconcile(d.counters),
{
}

/// `x / d` rounded up.
fn div_round_up(x: u64, d: u64) -> (r: u64)
    requires
        d > 0,
    ensures
        r == ceil_div(x as int, d as int),
        r <= x,
{
    let q = x / d;
    if x % d == 0 {
        q
    } else {
        assert(q < x) by (nonlinear_arith)
            requires
                q == x / d,
                x % d != 0,
                d > 0,
        {
            assert(x == d * q + x % d) by {
                vstd::arithmetic::div_mod::lemma_fundamental_div_mod(x as int, d as int);
            }
        }
        q + 1
    }
}

fn projected_retransmissions(packet_count: u64, loss_ppm: u32) -> (r: Result<u64, LinkError>)
    ensures
        match spec_retransmissions(packet_count, loss_ppm) {
            Some(v) => r == Ok::<u64, LinkError>(v),
            None => r == Err::<u64, LinkError>(LinkError::Arithmetic),
        },
{
    if loss_ppm == 0 {
        return Ok(0);
    }
    if loss_ppm >= 1_000_000 {
        return Err(LinkError::Arithmetic);
    }
    let pc = packet_count as u128;
    let lp = loss_ppm as u128;
    assert(pc * lp <= 0xffff_ffff_ffff_ffffu128 * 1_000_000u128) by (nonlinear_arith)
        requires
            pc <= 0xffff_ffff_ffff_ffffu128,
            lp < 1_000_000,
    ;
    let numerator: u128 = pc * lp;
    let denominator: u128 = (1_000_000 - loss_ppm) as u128;
    let q = numerator / denominator;
    assert(q <= numerator) by (nonlinear_arith)
        requires
            q == numerator / denominator,
            denominator >= 1,
    ;
    let n = if numerator % denominator == 0 { q } else { q + 1 };
    if n > 0xffff_ffff_ffff_ffffu128 {
        Err(LinkError::Arithmetic)
    } else {
        Ok(n as u64)
    }
}

fn serialization_time(bytes: u64, bandwidth_bps: u64) -> (r: Result<u64, LinkError>)
    requires
        bandwidth_bps > 0,
    ensures
        match spec_stream_serialization(bytes, bandwidth_bps) {
            Some(v) => r == Ok::<u64, LinkError>(v),
            None => r == Err::<u64, LinkError>(LinkError::Arithmetic),
        },
{
    let bits: u128 = (bytes as u128) * 8;
    let total: u128 = bits * 1_000_000_000u128;
    let d = bandwidth_bps as u128;
    let q = total / d;
    assert(q <= total) by (nonlinear_arith)
        requires
            q == total / d,
            d >= 1,
    ;
    let n = if total % d == 0 { q } else { q + 1 };
    let m = if n < 1 { 1 } else { n };
    if m > 0xffff_ffff_ffff_ffffu128 {
        Err(LinkError::Arithmetic)
    } else {
        Ok(m as u64)
    }
}

fn stream_jitter(seed: u64, edge: EdgeId, sequence: u64, maximum: u64) -> (r: u64)
    ensures
        r == spec_stream_jitter(seed, edge, sequence, maximum),
{
    if maximum == 0 {
        0
    } else {
        deterministic_u64(seed ^ ((edge as u64) << 32u64) ^ 0xA7u64, sequence) % maximum
    }
}

/// Packetize one chunk on a link configuration.
fn stream_plan(config: LinkConfig, request: StreamEnqueueRequest) -> (r: Result<StreamPlan, LinkError>)
    ensures
        r == spec_stream_plan(config, request),
        r matches Ok(p) ==> p.per_packet_overhead >= request.protocol_overhead_bytes
            && p.packet_count * p.per_packet_overhead + request.useful_payload_bytes <= u64::MAX,
{
    let e = request.edge_id;
    let ppo = match request.protocol_overhead_bytes.checked_add(config.transport_overhead_bytes) {
        Some(v) => v,
        None => {
            return Err(LinkError::Arithmetic);
        },
    };
    if ppo > config.mtu_bytes {
        return Err(LinkError::MtuExceeded { edge: e, frame_bytes: ppo, mtu_bytes: config.mtu_bytes });
    }
    let payload_per_packet = config.mtu_bytes - ppo;
    if payload_per_packet == 0 {
        return Err(LinkError::MtuExceeded { edge: e, frame_bytes: ppo.saturating_add(1), mtu_bytes: config.mtu_bytes });
    }
    let packet_count = div_round_up(request.useful_payload_bytes, payload_per_packet);
    let base_overhead = match packet_count.checked_mul(ppo) {
        Some(v) => v,
        None => {
            return Err(LinkError::Arithmetic);
        },
    };
    let delivered = match request.useful_payload_bytes.checked_add(base_overhead) {
        Some(v) => v,
        None => {
            return Err(LinkError::Arithmetic);
        },
    };
    let retransmitted = match projected_retransmissions(packet_count, config.loss_ppm) {
        Ok(v) => v,
        Err(err) => {
            return Err(err);
        },
    };
    let average = div_round_up(delivered, if packet_count > 0 { packet_count } else { 1 });
    let lost = match retransmitted.checked_mul(average) {
        Some(v) => v,
        None => {
            return Err(LinkError::Arithmetic);
        },
    };
    let transmitted = match delivered.checked_add(lost) {
        Some(v) => v,
        None => {
            return Err(LinkError::Arithmetic);
        },
    };
    Ok(StreamPlan {
        per_packet_overhead: ppo,
        packet_count,
        delivered_wire_bytes: delivered,
        retransmitted_packets: retransmitted,
        lost_bytes: lost,
        transmitted_bytes: transmitted,
    })
}

impl LinkService {
    /// Queue a planned chunk behind its capacity domain and advance its direction.
    fn settle_stream(&mut self, request: StreamEnqueueRequest, config: LinkConfig, plan: StreamPlan, capacity_key: CapacityKey) -> (r: Result<StreamEnqueueResult, LinkError>)
        requires
            old(self).wf(),
            config.bandwidth_bps > 0,
            plan.per_packet_overhead >= request.protocol_overhead_bytes,
            plan.packet_count * plan.per_packet_overhead + request.useful_payload_bytes <= u64::MAX,
        ensures
            final(self).wf(),
            spec_stream_settle(old(self).spec_seed(), config, request, plan,
                old(self).spec_capacity_or_idle(capacity_key).0,
                queue_drained(old(self).spec_capacity_or_idle(capacity_key).1, request.now_ns),
                old(self).spec_direction_or_fresh((request.edge_id, request.from, request.to)),
                old(self).spec_direction((request.edge_id, request.from, request.to)),
                final(self).spec_direction((request.edge_id, request.from, request.to)),
                final(self).spec_capacity(capacity_key), r),
            forall|k: DirectionKey| k != (request.edge_id, request.from, request.to) ==> #[trigger] final(self).spec_direction(k) == old(self).spec_direction(k),
            forall|k: CapacityKey| k != capacity_key ==> #[trigger] final(self).spec_capacity(k) == old(self).spec_capacity(k),
            final(self).spec_seed() == old(self).spec_seed(),
            final(self).spec_configs() == old(self).spec_configs(),
            final(self).spec_groups() == old(self).spec_groups(),
    {
        let ci = self.capacity_index(capacity_key);
        let next0 = self.capacities[ci].1.next_serialization_ns;
        proof {
            lemma_lookup_at(self.capacities@, ci as int);
        }
        let (drained, queued_bytes) = self.drained_queue(ci, request.now_ns);
        let offered = queued_bytes.saturating_add(plan.transmitted_bytes);
        let occupancy = if offered < config.queue_bytes { offered } else { config.queue_bytes };
        let delta = if occupancy > queued_bytes { occupancy - queued_bytes } else { 0 };
        let start = if next0 > request.now_ns { next0 } else { request.now_ns };
        let ser = match serialization_time(plan.transmitted_bytes, config.bandwidth_bps) {
            Ok(v) => v,
            Err(err) => {
                self.set_capacity(ci, next0, drained);
                return Err(err);
            },
        };
        let end = match start.checked_add(ser) {
            Some(v) => v,
            None => {
                self.set_capacity(ci, next0, drained);
                return Err(LinkError::Arithmetic);
            },
        };
        let ghost dq = drained@;
        let mut queue = drained;
        queue.push((end, delta));
        proof {
            lemma_queue_sum_push(dq, (end, delta));
        }
        self.set_capacity(ci, end, queue);
        let key: DirectionKey = (request.edge_id, request.from, request.to);
        let di = self.direction_index(key);
        let d0 = self.directions[di].1;
        proof {
            lemma_sorted_unique(self.directions@);
            lemma_lookup_at(self.directions@, di as int);
        }
        let sequence = d0.frame_sequence;
        let counters = LinkCounters {
            accepted_frames: d0.counters.accepted_frames.saturating_add(plan.packet_count),
            transmitted_bytes: d0.counters.transmitted_bytes.saturating_add(plan.transmitted_bytes),
            lost_bytes: d0.counters.lost_bytes.saturating_add(plan.lost_bytes),
            peak_queue_bytes: if d0.counters.peak_queue_bytes > occupancy { d0.counters.peak_queue_bytes } else { occupancy },
            ..d0.counters
        };
        let jitter = stream_jitter(self.seed, request.edge_id, sequence, config.jitter_ns);
        let arrive = end.saturating_add(config.latency_ns).saturating_add(jitter);
        let deliver_at_ns = if arrive > d0.last_stream_delivery_ns { arrive } else { d0.last_stream_delivery_ns };
        self.set_direction(di, DirectionState {
            last_stream_delivery_ns: deliver_at_ns,
            frame_sequence: sequence.saturating_add(plan.packet_count).saturating_add(plan.retransmitted_packets),
            counters,
        });
        assert(plan.packet_count * request.protocol_overhead_bytes <= plan.packet_count * plan.per_packet_overhead) by (nonlinear_arith)
            requires
                plan.per_packet_overhead >= request.protocol_overhead_bytes,
        ;
        let frame_bytes = request.useful_payload_bytes + plan.packet_count * request.protocol_overhead_bytes;
        Ok(StreamEnqueueResult {
            delivery: Delivery {
                edge_id: request.edge_id,
                from: request.from,
                to: request.to,
                class: LinkClass::UsefulPayload,
                frame_bytes,
                wire_bytes: plan.delivered_wire_bytes,
                deliver_at_ns,
                copy_ordinal: 0,
            },
            transmitted_bytes: plan.transmitted_bytes,
            lost_bytes: plan.lost_bytes,
            packet_count: plan.packet_count,
            retransmitted_packets: plan.retransmitted_packets,
            queue_occupancy_bytes: occupancy,
        })
    }

    /// Packetize and serialize a reliable application chunk without emitting one event per packet.
    pub fn enqueue_stream(&mut self, request: StreamEnqueueRequest) -> (r: Result<StreamEnqueueResult, LinkError>)
        requires
            old(self).wf(),
        ensures
            final(self).wf(),
            spec_stream_outcome(*old(self), *final(self), request, r),
    {
        let edge_id = request.edge_id;
        if edge_id as usize >= self.configs.len() {
            return Err(LinkError::UnknownEdge(edge_id));
        }
        let config = self.configs[edge_id as usize];
        if config.bandwidth_bps == 0 {
            return Err(LinkError::ZeroBandwidth(edge_id));
        }
        let plan = match stream_plan(config, request) {
            Ok(p) => p,
            Err(err) => {
                return Err(err);
            },
        };
        let capacity_key: CapacityKey = match self.shared_groups[edge_id as usize] {
            Some(group) => ((group as u64) | (1u64 << 63u64), u32::MAX, u32::MAX),
            None => (edge_id as u64, request.from, request.to),
        };
        self.settle_stream(request, config, plan, capacity_key)
    }
}

} // verus!
