//! Properties of every plan that the intervention events give.

use vstd::prelude::*;
use crate::graph::NodeId;
use super::{
    ArrivalView, PlanView, InterventionEvent, AdversaryFields, InterventionError,
    ascending, sorted_members, first_at_least, as_node_ids, insert_by_time, sort_by_time,
    spec_interventions, spec_plan_prefix, spec_step, spec_arrival, spec_cut, spec_group,
    supported_action, text_or, lemma_sorted_members, lemma_prefix_error,
};

verus! {

/// Arrivals none of which is later than one after it.
pub open spec fn time_sorted(s: Seq<ArrivalView>) -> bool {
    forall|i: int, j: int| 0 <= i < j < s.len() ==> (#[trigger] s[i]).at_ns <= (#[trigger] s[j]).at_ns
}

/// Node ids strictly ascending and all below the scale.
pub open spec fn valid_nodes(q: Seq<NodeId>, nodes: u64) -> bool {
    &&& forall|i: int, j: int| 0 <= i < j < q.len() ==> #[trigger] q[i] < #[trigger] q[j]
    &&& forall|i: int| 0 <= i < q.len() ==> #[trigger] q[i] < nodes
}

/// A cut's group: valid nodes, at least one, fewer than the scale.
pub open spec fn valid_group(q: Seq<NodeId>, nodes: u64) -> bool {
    valid_nodes(q, nodes) && 0 < q.len() < nodes
}

proof fn lemma_insert_by_time(q: Seq<ArrivalView>, x: ArrivalView)
    requires
        time_sorted(q),
    ensures
        time_sorted(insert_by_time(q, x)),
        insert_by_time(q, x).len() == q.len() + 1,
        insert_by_time(q, x).last().at_ns == (if q.len() == 0 || q.last().at_ns <= x.at_ns { x.at_ns } else { q.last().at_ns }),
        forall|k: int| 0 <= k < q.len() + 1 ==> #[trigger] insert_by_time(q, x)[k] == x || q.contains(insert_by_time(q, x)[k]),
    decreases q.len(),
{
    let r = insert_by_time(q, x);
    if q.len() == 0 {
    } else if q.last().at_ns <= x.at_ns {
        assert forall|k: int| 0 <= k < r.len() implies r[k] == x || q.contains(r[k]) by {
            if k < q.len() {
                assert(q[k] == r[k]);
            }
        }
    } else {
        let d = q.drop_last();
        assert(time_sorted(d)) by {
            assert forall|i: int, j: int| 0 <= i < j < d.len() implies (#[trigger] d[i]).at_ns <= (#[trigger] d[j]).at_ns by {
                assert(q[i] == d[i] && q[j] == d[j]);
            }
        }
        lemma_insert_by_time(d, x);
        let m = insert_by_time(d, x);
        if d.len() > 0 {
            assert(q[d.len() - 1] == d.last());
        }
        assert forall|i: int, j: int| 0 <= i < j < r.len() implies (#[trigger] r[i]).at_ns <= (#[trigger] r[j]).at_ns by {
            if j == r.len() - 1 {
                assert(m[i].at_ns <= m.last().at_ns);
            } else {
                assert(r[i] == m[i] && r[j] == m[j]);
            }
        }
        assert forall|k: int| 0 <= k < r.len() implies r[k] == x || q.contains(r[k]) by {
            if k < m.len() {
                assert(r[k] == m[k]);
                if m[k] != x {
                    let j = choose|j: int| 0 <= j < d.len() && d[j] == m[k];
                    assert(q[j] == m[k]);
                }
            } else {
                assert(r[k] == q[q.len() - 1]);
            }
        }
    }
}

proof fn lemma_sort_by_time(s: Seq<ArrivalView>)
    ensures
        time_sorted(sort_by_time(s)),
        sort_by_time(s).len() == s.len(),
        forall|k: int| 0 <= k < s.len() ==> s.contains(#[trigger] sort_by_time(s)[k]),
    decreases s.len(),
{
    if s.len() > 0 {
        let d = s.drop_last();
        lemma_sort_by_time(d);
        lemma_insert_by_time(sort_by_time(d), s.last());
        let r = sort_by_time(s);
        assert forall|k: int| 0 <= k < s.len() implies s.contains(#[trigger] r[k]) by {
            if r[k] == s.last() {
                assert(s[s.len() - 1] == r[k]);
            } else {
                let j = choose|j: int| 0 <= j < sort_by_time(d).len() && sort_by_time(d)[j] == r[k];
                assert(d.contains(sort_by_time(d)[j]));
                let i = choose|i: int| 0 <= i < d.len() && d[i] == r[k];
                assert(s[i] == r[k]);
            }
        }
    }
}

/// The plan's arrivals come out in time order.
pub proof fn law_arrivals_in_time_order(events: Option<Vec<InterventionEvent>>, adv: AdversaryFields, nodes: u64)
    requires
        spec_interventions(events, adv, nodes) is Ok,
    ensures
        time_sorted(spec_interventions(events, adv, nodes)->Ok_0.manual_arrivals),
{
    match events {
        None => {},
        Some(v) => {
            let p = spec_plan_prefix(v@, adv, nodes)->Ok_0;
            lemma_sort_by_time(p.manual_arrivals);
        },
    }
}

/// An event whose action is not supported, after events that were all valid,
/// makes the whole plan fail at that event's index.
pub proof fn law_unsupported_action_rejected_at_index(events: Vec<InterventionEvent>, i: int, adv: AdversaryFields, nodes: u64)
    requires
        0 <= i < events@.len(),
        spec_plan_prefix(events@.take(i), adv, nodes) is Ok,
        !supported_action(text_or(events@[i].action, ""@)),
    ensures
        spec_interventions(Some(events), adv, nodes) == Err::<PlanView, InterventionError>(InterventionError::UnsupportedAction { index: i as usize }),
{
    let t1 = events@.take(i + 1);
    assert(t1.drop_last() =~= events@.take(i));
    assert(t1.last() == events@[i]);
    assert(spec_plan_prefix(t1, adv, nodes) == Err::<PlanView, InterventionError>(InterventionError::UnsupportedAction { index: i as usize }));
    lemma_prefix_error(events@, i + 1, adv, nodes);
}

/// `x` placed into an ascending sequence, unless it is already there.
spec fn sorted_insert(q: Seq<u64>, x: u64) -> Seq<u64>
    decreases q.len(),
{
    if q.len() == 0 {
        seq![x]
    } else if q[0] == x {
        q
    } else if x < q[0] {
        seq![x] + q
    } else {
        seq![q[0]] + sorted_insert(q.drop_first(), x)
    }
}

proof fn lemma_sorted_insert(q: Seq<u64>, x: u64)
    requires
        ascending(q),
    ensures
        ascending(sorted_insert(q, x)),
        forall|y: u64| #[trigger] sorted_insert(q, x).contains(y) <==> (q.contains(y) || y == x),
    decreases q.len(),
{
    let r = sorted_insert(q, x);
    if q.len() == 0 {
        assert(r[0] == x);
    } else if q[0] == x {
    } else if x < q[0] {
        assert forall|i: int, j: int| 0 <= i < j < r.len() implies #[trigger] r[i] < #[trigger] r[j] by {
            if i > 0 {
                assert(r[i] == q[i - 1] && r[j] == q[j - 1]);
            } else {
                assert(r[j] == q[j - 1]);
                assert(q[0] <= q[j - 1]);
            }
        }
        assert forall|y: u64| #[trigger] r.contains(y) <==> (q.contains(y) || y == x) by {
            if r.contains(y) {
                let k = choose|k: int| 0 <= k < r.len() && r[k] == y;
                if k > 0 {
                    assert(q[k - 1] == y);
                }
            }
            if q.contains(y) {
                let k = choose|k: int| 0 <= k < q.len() && q[k] == y;
                assert(r[k + 1] == y);
            }
            if y == x {
                assert(r[0] == y);
            }
        }
    } else {
        let t = q.drop_first();
        assert(ascending(t)) by {
            assert forall|i: int, j: int| 0 <= i < j < t.len() implies #[trigger] t[i] < #[trigger] t[j] by {
                assert(q[i + 1] < q[j + 1]);
            }
        }
        lemma_sorted_insert(t, x);
        let m = sorted_insert(t, x);
        assert(r == seq![q[0]] + m);
        assert forall|y: u64| #[trigger] r.contains(y) <==> (q.contains(y) || y == x) by {
            if r.contains(y) {
                let k = choose|k: int| 0 <= k < r.len() && r[k] == y;
                if k > 0 {
                    assert(m[k - 1] == y);
                    assert(m.contains(y));
                    if t.contains(y) {
                        let l = choose|l: int| 0 <= l < t.len() && t[l] == y;
                        assert(q[l + 1] == y);
                    }
                } else {
                    assert(q[0] == y);
                }
            }
            if q.contains(y) {
                let k = choose|k: int| 0 <= k < q.len() && q[k] == y;
                if k > 0 {
                    assert(t[k - 1] == y);
                    assert(m.contains(y));
                    let l = choose|l: int| 0 <= l < m.len() && m[l] == y;
                    assert(r[l + 1] == y);
                } else {
                    assert(r[0] == y);
                }
            }
            if y == x {
                assert(m.contains(x));
                let l = choose|l: int| 0 <= l < m.len() && m[l] == x;
                assert(r[l + 1] == x);
            }
        }
        assert forall|i: int, j: int| 0 <= i < j < r.len() implies #[trigger] r[i] < #[trigger] r[j] by {
            if i > 0 {
                assert(r[i] == m[i - 1] && r[j] == m[j - 1]);
            } else {
                assert(r[j] == m[j - 1]);
                assert(m.contains(m[j - 1]));
                if t.contains(m[j - 1]) {
                    let l = choose|l: int| 0 <= l < t.len() && t[l] == m[j - 1];
                    assert(q[0] < q[l + 1]);
                }
            }
        }
    }
}

/// The ascending, duplicate-free sequence of a sequence's members exists.
proof fn lemma_sorted_members_ascending(s: Seq<u64>)
    ensures
        ascending(sorted_members(s)),
        forall|x: u64| #[trigger] sorted_members(s).contains(x) <==> s.contains(x),
{
    let q = sorted_from(s);
    lemma_sorted_from(s);
    lemma_sorted_members(q, s);
}

/// The members of `s`, inserted one by one.
spec fn sorted_from(s: Seq<u64>) -> Seq<u64>
    decreases s.len(),
{
    if s.len() == 0 {
        Seq::empty()
    } else {
        sorted_insert(sorted_from(s.drop_last()), s.last())
    }
}

proof fn lemma_sorted_from(s: Seq<u64>)
    ensures
        ascending(sorted_from(s)),
        forall|x: u64| #[trigger] sorted_from(s).contains(x) <==> s.contains(x),
    decreases s.len(),
{
    if s.len() > 0 {
        let d = s.drop_last();
        lemma_sorted_from(d);
        lemma_sorted_insert(sorted_from(d), s.last());
        assert forall|x: u64| #[trigger] sorted_from(s).contains(x) <==> s.contains(x) by {
            if d.contains(x) {
                let k = choose|k: int| 0 <= k < d.len() && d[k] == x;
                assert(s[k] == x);
            }
            if s.contains(x) {
                let k = choose|k: int| 0 <= k < s.len() && s[k] == x;
                if k < d.len() {
                    assert(d[k] == x);
                }
            }
            if x == s.last() {
                assert(s[s.len() - 1] == x);
            }
        }
    }
}

proof fn lemma_first_at_least_none(q: Seq<u64>, bound: u64)
    requires
        first_at_least(q, bound) is None,
    ensures
        forall|i: int| 0 <= i < q.len() ==> #[trigger] q[i] < bound,
    decreases q.len(),
{
    if q.len() > 0 {
        lemma_first_at_least_none(q.drop_first(), bound);
        assert forall|i: int| 0 <= i < q.len() implies #[trigger] q[i] < bound by {
            if i > 0 {
                assert(q.drop_first()[i - 1] == q[i]);
            }
        }
    }
}

proof fn lemma_node_ids_valid(q: Seq<u64>, nodes: u64)
    requires
        ascending(q),
        first_at_least(q, nodes) is None,
        nodes <= 4_294_967_296,
    ensures
        valid_nodes(as_node_ids(q), nodes),
{
    lemma_first_at_least_none(q, nodes);
    let r = as_node_ids(q);
    assert forall|i: int| 0 <= i < r.len() implies #[trigger] r[i] < nodes && r[i] == q[i] by {
        assert(q[i] < nodes);
    }
    assert forall|i: int, j: int| 0 <= i < j < r.len() implies #[trigger] r[i] < #[trigger] r[j] by {
        assert(q[i] < q[j]);
        assert(r[i] == q[i] && r[j] == q[j]);
    }
}

/// What every plan prefix keeps: arrivals and cuts name valid nodes.
spec fn prefix_valid(p: PlanView, nodes: u64) -> bool {
    &&& forall|i: int| 0 <= i < p.manual_arrivals.len() ==> valid_nodes((#[trigger] p.manual_arrivals[i]).targets, nodes)
    &&& forall|i: int| 0 <= i < p.cuts.len() ==> valid_group((#[trigger] p.cuts[i]).nodes, nodes)
}

proof fn lemma_step_valid(p: PlanView, ev: InterventionEvent, index: usize, adv: AdversaryFields, nodes: u64)
    requires
        prefix_valid(p, nodes),
        spec_step(p, ev, index, adv, nodes) is Ok,
        nodes <= 4_294_967_296,
    ensures
        prefix_valid(spec_step(p, ev, index, adv, nodes)->Ok_0, nodes),
{
    let a = text_or(ev.action, ""@);
    let r = spec_step(p, ev, index, adv, nodes)->Ok_0;
    if a == "introduce-lower-root-node"@ || a == "introduce-node"@ {
        let values = super::spec_attachments(ev)->Some_0;
        let all = match ev.target {
            Some(t) => values.push(t),
            None => values,
        };
        let q = sorted_members(all);
        lemma_sorted_members_ascending(all);
        lemma_node_ids_valid(q, nodes);
        let x = spec_arrival(ev, index, a, nodes)->Ok_0;
        assert(r.manual_arrivals == p.manual_arrivals.push(x));
        assert forall|i: int| 0 <= i < r.manual_arrivals.len() implies valid_nodes((#[trigger] r.manual_arrivals[i]).targets, nodes) by {
            if i < p.manual_arrivals.len() {
                assert(r.manual_arrivals[i] == p.manual_arrivals[i]);
            }
        }
    } else if a == "partition-network"@ || a == "merge-network"@ {
        let q = spec_group(ev, nodes)->Some_0;
        let listed = match ev.group {
            Some(v) => v@,
            None => Seq::empty(),
        };
        let all = match ev.target {
            Some(t) => listed.push(t),
            None => match ev.node {
                Some(t) => listed.push(t),
                None => listed,
            },
        };
        lemma_sorted_members_ascending(all);
        lemma_node_ids_valid(q, nodes);
        let x = spec_cut(ev, index, a, nodes)->Ok_0;
        assert(r.cuts == p.cuts.push(x));
        assert forall|i: int| 0 <= i < r.cuts.len() implies valid_group((#[trigger] r.cuts[i]).nodes, nodes) by {
            if i < p.cuts.len() {
                assert(r.cuts[i] == p.cuts[i]);
            }
        }
    }
}

proof fn lemma_prefix_valid(evs: Seq<InterventionEvent>, adv: AdversaryFields, nodes: u64)
    requires
        spec_plan_prefix(evs, adv, nodes) is Ok,
        nodes <= 4_294_967_296,
    ensures
        prefix_valid(spec_plan_prefix(evs, adv, nodes)->Ok_0, nodes),
    decreases evs.len(),
{
    if evs.len() > 0 {
        let d = evs.drop_last();
        lemma_prefix_valid(d, adv, nodes);
        lemma_step_valid(spec_plan_prefix(d, adv, nodes)->Ok_0, evs.last(), (evs.len() - 1) as usize, adv, nodes);
    }
}

/// Every scheduled arrival attaches to strictly ascending nodes of the scale, and every
/// partition or merge names a non-empty group of strictly ascending nodes of the scale,
/// smaller than it. (Node ids are 32-bit: beyond that scale an id would be truncated.)
pub proof fn law_scheduled_nodes_are_valid(events: Option<Vec<InterventionEvent>>, adv: AdversaryFields, nodes: u64)
    requires
        spec_interventions(events, adv, nodes) is Ok,
        nodes <= 4_294_967_296,
    ensures
        forall|i: int| 0 <= i < spec_interventions(events, adv, nodes)->Ok_0.manual_arrivals.len()
            ==> valid_nodes((#[trigger] spec_interventions(events, adv, nodes)->Ok_0.manual_arrivals[i]).targets, nodes),
        forall|i: int| 0 <= i < spec_interventions(events, adv, nodes)->Ok_0.cuts.len()
            ==> valid_group((#[trigger] spec_interventions(events, adv, nodes)->Ok_0.cuts[i]).nodes, nodes),
{
    match events {
        None => {},
        Some(v) => {
            lemma_prefix_valid(v@, adv, nodes);
            let p = spec_plan_prefix(v@, adv, nodes)->Ok_0;
            let out = spec_interventions(events, adv, nodes)->Ok_0;
            lemma_sort_by_time(p.manual_arrivals);
            assert forall|i: int| 0 <= i < out.manual_arrivals.len() implies valid_nodes((#[trigger] out.manual_arrivals[i]).targets, nodes) by {
                assert(p.manual_arrivals.contains(out.manual_arrivals[i]));
                let j = choose|j: int| 0 <= j < p.manual_arrivals.len() && p.manual_arrivals[j] == out.manual_arrivals[i];
                assert(valid_nodes(p.manual_arrivals[j].targets, nodes));
            }
        },
    }
}

} // verus!
