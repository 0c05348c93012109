//! Delivery ledger of the link service: scheduled deliveries that have not been
//! credited yet account for exactly the bytes that counters have not yet reconciled.

use vstd::prelude::*;
use super::{
    LinkService, LinkError, Delivery, DirectionKey, EnqueueRequest, EnqueueResult, CopyState,
    spec_copy, spec_enqueue_outcome, spec_capacity_key, queue_drained, deliveries_wire,
    lemma_copy_accounts, spec_record_outcome, spec_counters_reconcile,
};
use super::stream::{StreamEnqueueRequest, StreamEnqueueResult, spec_stream_outcome, spec_stream_plan};

verus! {

/// The direction a delivery travels.
pub open spec fn delivery_key(d: Delivery) -> DirectionKey {
    (d.edge_id, d.from, d.to)
}

/// Wire bytes of the deliveries in `ds` that travel direction `k`.
pub open spec fn outstanding_wire(ds: Seq<Delivery>, k: DirectionKey) -> int
    decreases ds.len(),
{
    if ds.len() == 0 {
        0
    } else {
        outstanding_wire(ds.drop_last(), k) + if delivery_key(ds.last()) == k { ds.last().wire_bytes as int } else { 0 }
    }
}

/// Direction `k`, if used, has transmitted exactly what it delivered, lost, and still
/// has outstanding in `outstanding`.
pub open spec fn direction_accounts(svc: LinkService, outstanding: Seq<Delivery>, k: DirectionKey) -> bool {
    match svc.spec_direction(k) {
        Some(d) => d.counters.transmitted_bytes == d.counters.delivered_bytes + d.counters.lost_bytes + outstanding_wire(outstanding, k),
        None => true,
    }
}

/// The deliveries `outstanding` (scheduled, not yet credited) balance the service:
/// every used direction accounts for them, and each travels a used direction.
pub open spec fn spec_ledger_balanced(svc: LinkService, outstanding: Seq<Delivery>) -> bool {
    &&& forall|k: DirectionKey| #[trigger] direction_accounts(svc, outstanding, k)
    &&& forall|i: int| 0 <= i < outstanding.len() ==> svc.spec_direction(delivery_key(#[trigger] outstanding[i])) is Some
}

proof fn lemma_outstanding_concat(a: Seq<Delivery>, b: Seq<Delivery>, k: DirectionKey)
    ensures
        outstanding_wire(a + b, k) == outstanding_wire(a, k) + outstanding_wire(b, k),
    decreases b.len(),
{
    if b.len() == 0 {
        assert(a + b =~= a);
    } else {
        lemma_outstanding_concat(a, b.drop_last(), k);
        assert((a + b).drop_last() =~= a + b.drop_last());
        assert((a + b).last() == b.last());
    }
}

proof fn lemma_outstanding_single(x: Delivery, k: DirectionKey)
    ensures
        outstanding_wire(seq![x], k) == if delivery_key(x) == k { x.wire_bytes as int } else { 0 },
{
    let one = seq![x];
    assert(one.drop_last() =~= Seq::<Delivery>::empty());
    assert(one.last() == x);
    assert(outstanding_wire(one.drop_last(), k) == 0);
}

proof fn lemma_outstanding_absent(a: Seq<Delivery>, k: DirectionKey)
    requires
        forall|i: int| 0 <= i < a.len() ==> delivery_key(#[trigger] a[i]) != k,
    ensures
        outstanding_wire(a, k) == 0,
    decreases a.len(),
{
    if a.len() > 0 {
        let t = a.drop_last();
        assert forall|i: int| 0 <= i < t.len() implies delivery_key(#[trigger] t[i]) != k by {
            assert(t[i] == a[i]);
        }
        lemma_outstanding_absent(t, k);
        assert(delivery_key(a[a.len() - 1]) != k);
    }
}

proof fn lemma_outstanding_all(a: Seq<Delivery>, k: DirectionKey)
    requires
        forall|i: int| 0 <= i < a.len() ==> delivery_key(#[trigger] a[i]) == k,
    ensures
        outstanding_wire(a, k) == deliveries_wire(a),
    decreases a.len(),
{
    if a.len() > 0 {
        let t = a.drop_last();
        assert forall|i: int| 0 <= i < t.len() implies delivery_key(#[trigger] t[i]) == k by {
            assert(t[i] == a[i]);
        }
        lemma_outstanding_all(t, k);
        assert(delivery_key(a[a.len() - 1]) == k);
    }
}

proof fn lemma_copy_keys(seed: u64, config: super::LinkConfig, request: EnqueueRequest, wire: u64, sequence: u64, copy: u64, st: CopyState)
    requires
        forall|i: int| 0 <= i < st.deliveries.len()
            ==> delivery_key(#[trigger] st.deliveries[i]) == (request.edge_id, request.from, request.to),
    ensures
        spec_copy(seed, config, request, wire, sequence, copy, st) matches Ok(next)
            ==> forall|i: int| 0 <= i < next.deliveries.len()
                ==> delivery_key(#[trigger] next.deliveries[i]) == (request.edge_id, request.from, request.to),
{
    if let Ok(next) = spec_copy(seed, config, request, wire, sequence, copy, st) {
        assert forall|i: int| 0 <= i < next.deliveries.len()
            implies delivery_key(#[trigger] next.deliveries[i]) == (request.edge_id, request.from, request.to) by {
            if i < st.deliveries.len() {
                assert(next.deliveries[i] == st.deliveries[i]);
            }
        }
    }
}

/// A service without used directions is balanced with nothing outstanding.
pub proof fn law_fresh_ledger(svc: LinkService)
    requires
        forall|k: DirectionKey| #[trigger] svc.spec_direction(k) is None,
    ensures
        spec_ledger_balanced(svc, Seq::empty()),
{
    assert forall|k: DirectionKey| #[trigger] direction_accounts(svc, Seq::empty(), k) by {
        assert(svc.spec_direction(k) is None);
    }
}

/// Where the direction of a request stood before it: its counters account for the
/// outstanding deliveries, a fresh direction having none.
proof fn lemma_start_accounts(old: LinkService, outstanding: Seq<Delivery>, key: DirectionKey)
    requires
        spec_ledger_balanced(old, outstanding),
    ensures
        old.spec_direction_or_fresh(key).counters.transmitted_bytes == old.spec_direction_or_fresh(key).counters.delivered_bytes
            + old.spec_direction_or_fresh(key).counters.lost_bytes + outstanding_wire(outstanding, key),
{
    assert(direction_accounts(old, outstanding, key));
    if old.spec_direction(key) is None {
        assert forall|i: int| 0 <= i < outstanding.len() implies delivery_key(#[trigger] outstanding[i]) != key by {
            assert(old.spec_direction(delivery_key(outstanding[i])) is Some);
        }
        lemma_outstanding_absent(outstanding, key);
    }
}

/// Enqueueing keeps the ledger: the deliveries an accepted frame schedules join the
/// outstanding ones, and a refused frame moves no byte counter. It holds while the
/// direction's transmitted and lost counters do not saturate.
pub proof fn law_enqueue_keeps_ledger(
    old: LinkService,
    new: LinkService,
    request: EnqueueRequest,
    r: Result<EnqueueResult, LinkError>,
    outstanding: Seq<Delivery>,
)
    requires
        spec_ledger_balanced(old, outstanding),
        spec_enqueue_outcome(old, new, request, r),
        r matches Ok(res) ==> old.spec_direction_or_fresh((request.edge_id, request.from, request.to)).counters.transmitted_bytes
            + res.transmitted_bytes <= u64::MAX,
        r matches Ok(res) ==> old.spec_direction_or_fresh((request.edge_id, request.from, request.to)).counters.lost_bytes
            + res.lost_bytes <= u64::MAX,
    ensures
        spec_ledger_balanced(new, match r {
            Ok(res) => outstanding + res.deliveries@,
            Err(_) => outstanding,
        }),
{
    let e = request.edge_id;
    let key = (e, request.from, request.to);
    let after = match r {
        Ok(res) => outstanding + res.deliveries@,
        Err(_) => outstanding,
    };
    if e >= old.spec_configs().len() {
        return;
    }
    let config = old.spec_configs()[e as int];
    if config.bandwidth_bps == 0 || request.frame_bytes + config.transport_overhead_bytes > u64::MAX {
        return;
    }
    let wire = (request.frame_bytes + config.transport_overhead_bytes) as u64;
    let ck = spec_capacity_key(old.spec_groups()[e as int], e, request.from, request.to);
    let d0 = old.spec_direction_or_fresh(key);
    let seq = d0.frame_sequence;
    let start = CopyState {
        next_serialization_ns: old.spec_capacity_or_idle(ck).0,
        queue: queue_drained(old.spec_capacity_or_idle(ck).1, request.now_ns),
        transmitted: 0,
        lost: 0,
        last_stream_delivery_ns: d0.last_stream_delivery_ns,
        deliveries: Seq::empty(),
    };
    lemma_start_accounts(old, outstanding, key);
    lemma_copy_accounts(old.spec_seed(), config, request, wire, seq, 0, start);
    lemma_copy_keys(old.spec_seed(), config, request, wire, seq, 0, start);
    if let Ok(first) = spec_copy(old.spec_seed(), config, request, wire, seq, 0, start) {
        lemma_copy_accounts(old.spec_seed(), config, request, wire, seq, 1, first);
        lemma_copy_keys(old.spec_seed(), config, request, wire, seq, 1, first);
    }
    assert(new.spec_direction(key) is Some);
    let ds = match r {
        Ok(res) => res.deliveries@,
        Err(_) => Seq::<Delivery>::empty(),
    };
    assert(after =~= outstanding + ds);
    assert forall|i: int| 0 <= i < ds.len() implies delivery_key(#[trigger] ds[i]) == key by {}
    lemma_outstanding_all(ds, key);
    lemma_outstanding_concat(outstanding, ds, key);
    assert(direction_accounts(new, after, key));
    assert forall|k: DirectionKey| #[trigger] direction_accounts(new, after, k) by {
        if k != key {
            assert(new.spec_direction(k) == old.spec_direction(k));
            assert(direction_accounts(old, outstanding, k));
            assert forall|i: int| 0 <= i < ds.len() implies delivery_key(#[trigger] ds[i]) != k by {}
            lemma_outstanding_absent(ds, k);
            lemma_outstanding_concat(outstanding, ds, k);
        }
    }
    assert forall|i: int| 0 <= i < after.len() implies new.spec_direction(delivery_key(#[trigger] after[i])) is Some by {
        if i < outstanding.len() {
            assert(after[i] == outstanding[i]);
            assert(old.spec_direction(delivery_key(outstanding[i])) is Some);
        } else {
            assert(after[i] == ds[i - outstanding.len()]);
        }
    }
}

/// What an admitted stream request does to its direction's byte counters.
proof fn lemma_stream_facts(old: LinkService, new: LinkService, request: StreamEnqueueRequest, r: Result<StreamEnqueueResult, LinkError>)
    requires
        spec_stream_outcome(old, new, request, r),
        request.edge_id < old.spec_configs().len(),
        old.spec_configs()[request.edge_id as int].bandwidth_bps != 0,
        spec_stream_plan(old.spec_configs()[request.edge_id as int], request) is Ok,
    ensures
        forall|k: DirectionKey| k != (request.edge_id, request.from, request.to)
            ==> #[trigger] new.spec_direction(k) == old.spec_direction(k),
        r is Err ==> new.spec_direction((request.edge_id, request.from, request.to))
            == old.spec_direction((request.edge_id, request.from, request.to)),
        r matches Ok(res) ==> {
            let d0 = old.spec_direction_or_fresh((request.edge_id, request.from, request.to)).counters;
            &&& delivery_key(res.delivery) == (request.edge_id, request.from, request.to)
            &&& res.transmitted_bytes == res.delivery.wire_bytes + res.lost_bytes
            &&& new.spec_direction((request.edge_id, request.from, request.to)) matches Some(nd)
                && nd.counters.delivered_bytes == d0.delivered_bytes
                && nd.counters.transmitted_bytes == super::sat(d0.transmitted_bytes, res.transmitted_bytes as int)
                && nd.counters.lost_bytes == super::sat(d0.lost_bytes, res.lost_bytes as int)
        },
{
}

/// Enqueueing a stream chunk keeps the ledger: its single delivery joins the
/// outstanding ones, and a refused chunk moves no byte counter. It holds while the
/// direction's transmitted and lost counters do not saturate.
pub proof fn law_stream_keeps_ledger(
    old: LinkService,
    new: LinkService,
    request: StreamEnqueueRequest,
    r: Result<StreamEnqueueResult, LinkError>,
    outstanding: Seq<Delivery>,
)
    requires
        spec_ledger_balanced(old, outstanding),
        spec_stream_outcome(old, new, request, r),
        r matches Ok(res) ==> old.spec_direction_or_fresh((request.edge_id, request.from, request.to)).counters.transmitted_bytes
            + res.transmitted_bytes <= u64::MAX,
        r matches Ok(res) ==> old.spec_direction_or_fresh((request.edge_id, request.from, request.to)).counters.lost_bytes
            + res.lost_bytes <= u64::MAX,
    ensures
        spec_ledger_balanced(new, match r {
            Ok(res) => outstanding.push(res.delivery),
            Err(_) => outstanding,
        }),
{
    let e = request.edge_id;
    let key = (e, request.from, request.to);
    if e >= old.spec_configs().len() {
        return;
    }
    let config = old.spec_configs()[e as int];
    if config.bandwidth_bps == 0 || spec_stream_plan(config, request) is Err {
        return;
    }
    lemma_start_accounts(old, outstanding, key);
    lemma_stream_facts(old, new, request, r);
    match r {
        Err(_) => {
            assert(new.spec_direction(key) == old.spec_direction(key));
            assert forall|k: DirectionKey| #[trigger] direction_accounts(new, outstanding, k) by {
                assert(new.spec_direction(k) == old.spec_direction(k));
                assert(direction_accounts(old, outstanding, k));
            }
            assert forall|i: int| 0 <= i < outstanding.len() implies new.spec_direction(delivery_key(#[trigger] outstanding[i])) is Some by {
                assert(old.spec_direction(delivery_key(outstanding[i])) is Some);
                assert(new.spec_direction(delivery_key(outstanding[i])) == old.spec_direction(delivery_key(outstanding[i])));
            }
        },
        Ok(res) => {
            let after = outstanding.push(res.delivery);
            let one = seq![res.delivery];
            assert(after =~= outstanding + one);
            assert(one.drop_last() =~= Seq::<Delivery>::empty());
            lemma_outstanding_single(res.delivery, key);
            lemma_outstanding_concat(outstanding, one, key);
            assert(new.spec_direction(key) is Some);
            assert(direction_accounts(new, after, key));
            assert forall|k: DirectionKey| #[trigger] direction_accounts(new, after, k) by {
                if k != key {
                    assert(new.spec_direction(k) == old.spec_direction(k));
                    assert(direction_accounts(old, outstanding, k));
                    lemma_outstanding_single(res.delivery, k);
                    lemma_outstanding_concat(outstanding, one, k);
                }
            }
            assert forall|i: int| 0 <= i < after.len() implies new.spec_direction(delivery_key(#[trigger] after[i])) is Some by {
                if i < outstanding.len() {
                    assert(after[i] == outstanding[i]);
                    assert(old.spec_direction(delivery_key(outstanding[i])) is Some);
                }
            }
        },
    }
}

/// Crediting an outstanding delivery keeps the ledger with that delivery settled,
/// and always succeeds. It holds while the delivered counter does not saturate.
pub proof fn law_credit_keeps_ledger(
    old: LinkService,
    new: LinkService,
    outstanding: Seq<Delivery>,
    i: int,
    useful_payload_bytes: u64,
    r: Result<(), LinkError>,
)
    requires
        spec_ledger_balanced(old, outstanding),
        0 <= i < outstanding.len(),
        spec_record_outcome(old, new, outstanding[i], useful_payload_bytes, r),
        old.spec_direction_or_fresh(delivery_key(outstanding[i])).counters.delivered_bytes + outstanding[i].wire_bytes <= u64::MAX,
    ensures
        r is Ok,
        spec_ledger_balanced(new, outstanding.remove(i)),
{
    let x = outstanding[i];
    let key = delivery_key(x);
    assert(old.spec_direction(key) is Some);
    let before = outstanding.subrange(0, i);
    let rest = outstanding.subrange(i + 1, outstanding.len() as int);
    let one = seq![x];
    let after = outstanding.remove(i);
    assert(after =~= before + rest);
    assert(outstanding =~= before + one + rest);
    assert(one.drop_last() =~= Seq::<Delivery>::empty());
    assert(one.last() == x);
    assert forall|k: DirectionKey| #[trigger] direction_accounts(new, after, k) by {
        lemma_outstanding_single(x, k);
        lemma_outstanding_concat(before, one, k);
        lemma_outstanding_concat(before + one, rest, k);
        lemma_outstanding_concat(before, rest, k);
        assert(direction_accounts(old, outstanding, k));
        if k != key {
            assert(new.spec_direction(k) == old.spec_direction(k));
        }
    }
    assert forall|j: int| 0 <= j < after.len() implies new.spec_direction(delivery_key(#[trigger] after[j])) is Some by {
        let src = if j < i { j } else { j + 1 };
        assert(after[j] == outstanding[src]);
        assert(old.spec_direction(delivery_key(outstanding[src])) is Some);
        if delivery_key(after[j]) != key {
            assert(new.spec_direction(delivery_key(after[j])) == old.spec_direction(delivery_key(after[j])));
        }
    }
}

/// Counters reconcile at quiescence: once nothing is outstanding, every used
/// direction has transmitted exactly what it delivered plus what it lost, so
/// `reconcile` answers `Ok`.
pub proof fn law_reconcile_once_credited(svc: LinkService)
    requires
        svc.wf(),
        spec_ledger_balanced(svc, Seq::empty()),
    ensures
        forall|i: int| 0 <= i < svc.spec_direction_entries().len()
            ==> spec_counters_reconcile((#[trigger] svc.spec_direction_entries()[i]).1.counters),
{
    svc.lemma_direction_entries();
    assert forall|i: int| 0 <= i < svc.spec_direction_entries().len()
        implies spec_counters_reconcile((#[trigger] svc.spec_direction_entries()[i]).1.counters) by {
        let k = svc.spec_direction_entries()[i].0;
        assert(svc.spec_direction(k) == Some(svc.spec_direction_entries()[i].1));
        assert(direction_accounts(svc, Seq::empty(), k));
    }
}

} // verus!
