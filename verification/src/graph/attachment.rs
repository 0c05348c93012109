//! Exact model of the seeded preferential-attachment topology.

use vstd::prelude::*;
use crate::graph::{NodeId, GraphModel, strictly_sorted};
use crate::mixing::spec_deterministic_u64;

verus! {

/// Attachment weight of a candidate: its degree plus one.
pub open spec fn attach_weight(m: GraphModel, c: NodeId) -> int {
    (m.spec_active_degree(c) + 1) as int
}

/// Saturating total weight of the candidates below `k`.
pub open spec fn attach_total(m: GraphModel, k: nat) -> u64
    decreases k,
{
    if k == 0 {
        0
    } else {
        let t = attach_total(m, (k - 1) as nat);
        let w = attach_weight(m, (k - 1) as NodeId);
        if t + w > u64::MAX {
            u64::MAX
        } else {
            (t + w) as u64
        }
    }
}

/// The candidate below `node`, from `c` on, that a draw lands on when the draw
/// walks the cumulative weights; `None` when it runs past the last candidate.
pub open spec fn attach_pick(m: GraphModel, node: nat, draw: int, c: nat) -> Option<NodeId>
    decreases node - c,
{
    if c >= node {
        None
    } else if draw < attach_weight(m, c as NodeId) {
        Some(c as NodeId)
    } else {
        attach_pick(m, node, draw - attach_weight(m, c as NodeId), c + 1)
    }
}

/// Number of distinct targets a node links to: `links`, at least one, at most the
/// number of earlier nodes.
pub open spec fn attach_target_count(links: u32, node: nat) -> nat {
    if links < node {
        if links == 0 {
            1
        } else {
            links as nat
        }
    } else {
        node
    }
}

/// Targets of `node` after the draws from `ordinal` on, given the `count` targets
/// `chosen` so far: drawing stops once `target` distinct targets are chosen or
/// the draw ordinals run out.
pub open spec fn attach_draws(
    m: GraphModel,
    node: nat,
    target: nat,
    seed: u64,
    total: u64,
    ordinal: nat,
    chosen: Set<NodeId>,
    count: nat,
) -> Set<NodeId>
    decreases u64::MAX - ordinal,
{
    if count >= target || ordinal >= u64::MAX {
        chosen
    } else {
        let draw = spec_deterministic_u64(seed ^ (node as u64), ordinal as u64) % total;
        match attach_pick(m, node, draw as int, 0) {
            Some(c) => if chosen.contains(c) {
                attach_draws(m, node, target, seed, total, ordinal + 1, chosen, count)
            } else {
                attach_draws(m, node, target, seed, total, ordinal + 1, chosen.insert(c), count + 1)
            },
            None => attach_draws(m, node, target, seed, total, ordinal + 1, chosen, count),
        }
    }
}

/// The ascending sequence of the members of a set of node ids.
pub open spec fn ascending_elems(s: Set<NodeId>) -> Seq<NodeId> {
    choose|q: Seq<NodeId>| strictly_sorted(q) && forall|x: NodeId| #[trigger] q.contains(x) <==> s.contains(x)
}

/// Two strictly ascending sequences with the same members are equal.
proof fn lemma_sorted_same_members(a: Seq<NodeId>, b: Seq<NodeId>)
    requires
        strictly_sorted(a),
        strictly_sorted(b),
        forall|x: NodeId| #[trigger] a.contains(x) <==> b.contains(x),
    ensures
        a == b,
    decreases a.len(),
{
    if a.len() == 0 {
        if b.len() > 0 {
            assert(b.contains(b[0]));
            assert(a.contains(b[0]));
        }
        assert(a =~= b);
    } else {
        assert(a.contains(a[0]));
        assert(b.len() > 0);
        assert(b.contains(b[0]));
        assert(b.contains(a[0]));
        assert(a.contains(b[0]));
        let i = choose|i: int| 0 <= i < b.len() && b[i] == a[0];
        let j = choose|j: int| 0 <= j < a.len() && a[j] == b[0];
        if i > 0 {
            assert(b[0] < b[i]);
        }
        if j > 0 {
            assert(a[0] < a[j]);
        }
        assert(a[0] == b[0]);
        let ta = a.drop_first();
        let tb = b.drop_first();
        assert forall|p: int, q: int| 0 <= p < q < ta.len() implies #[trigger] ta[p] < #[trigger] ta[q] by {
            assert(a[p + 1] < a[q + 1]);
        }
        assert forall|p: int, q: int| 0 <= p < q < tb.len() implies #[trigger] tb[p] < #[trigger] tb[q] by {
            assert(b[p + 1] < b[q + 1]);
        }
        assert forall|x: NodeId| #[trigger] ta.contains(x) <==> tb.contains(x) by {
            if ta.contains(x) {
                let k = choose|k: int| 0 <= k < ta.len() && ta[k] == x;
                assert(a[k + 1] == x && a[0] < a[k + 1]);
                assert(a.contains(x));
                let l = choose|l: int| 0 <= l < b.len() && b[l] == x;
                assert(l != 0);
                assert(tb[l - 1] == x);
            }
            if tb.contains(x) {
                let k = choose|k: int| 0 <= k < tb.len() && tb[k] == x;
                assert(b[k + 1] == x && b[0] < b[k + 1]);
                assert(b.contains(x));
                assert(a.contains(x));
                let l = choose|l: int| 0 <= l < a.len() && a[l] == x;
                assert(l != 0);
                assert(ta[l - 1] == x);
            }
        }
        lemma_sorted_same_members(ta, tb);
        assert(a =~= seq![a[0]] + ta);
        assert(b =~= seq![b[0]] + tb);
    }
}

/// A strictly ascending sequence with the members of `s` is the ascending sequence of `s`.
pub proof fn lemma_ascending_elems(q: Seq<NodeId>, s: Set<NodeId>)
    requires
        strictly_sorted(q),
        forall|x: NodeId| #[trigger] q.contains(x) <==> s.contains(x),
    ensures
        ascending_elems(s) == q,
{
    let r = ascending_elems(s);
    assert(strictly_sorted(r) && forall|x: NodeId| #[trigger] r.contains(x) <==> s.contains(x));
    lemma_sorted_same_members(r, q);
}

/// Edges once every node below `node` has attached, for `node >= 2`: `0 - 1`, then
/// each later node's links to its chosen targets in ascending order.
pub open spec fn attach_prefix(n: nat, links: u32, seed: u64, node: nat) -> Seq<(NodeId, NodeId)>
    decreases node,
{
    if node <= 2 {
        seq![(0u32, 1u32)]
    } else {
        let prev = attach_prefix(n, links, seed, (node - 1) as nat);
        let v = (node - 1) as nat;
        let m = GraphModel { n, active: Seq::new(n, |i: int| true), edges: prev };
        let targets = ascending_elems(
            attach_draws(m, v, attach_target_count(links, v), seed, attach_total(m, v), 0, Set::empty(), 0),
        );
        prev + Seq::new(targets.len(), |i: int| (targets[i], v as NodeId))
    }
}

/// Edges of the seeded preferential-attachment topology on `n` nodes, each later
/// node linking to `links` earlier ones drawn with probability growing with degree.
pub open spec fn spec_scale_free_edges(n: nat, links: u32, seed: u64) -> Seq<(NodeId, NodeId)> {
    if n < 2 {
        Seq::empty()
    } else {
        attach_prefix(n, links, seed, n)
    }
}

} // verus!
