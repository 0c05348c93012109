//! Walk algebra of the abstract graph: reversal, joining, and where a walk meets a node.

use vstd::prelude::*;
use crate::graph::{NodeId, GraphModel};

verus! {

/// A walk read backwards is a walk between the same two nodes in the other direction.
pub proof fn lemma_walk_reverse(m: GraphModel, p: Seq<NodeId>, excluded: Option<NodeId>)
    requires
        m.spec_is_walk(p, excluded),
    ensures
        m.spec_is_walk(Seq::new(p.len(), |i: int| p[p.len() - 1 - i]), excluded),
        Seq::new(p.len(), |i: int| p[p.len() - 1 - i])[0] == p.last(),
        Seq::new(p.len(), |i: int| p[p.len() - 1 - i]).last() == p[0],
{
    let q = Seq::new(p.len(), |i: int| p[p.len() - 1 - i]);
    assert forall|i: int| 0 <= i < q.len() implies m.spec_allowed(#[trigger] q[i], excluded) by {
        assert(m.spec_allowed(p[p.len() - 1 - i], excluded));
    }
    assert forall|i: int| 0 <= i < q.len() - 1 implies m.spec_adjacent(#[trigger] q[i], q[i + 1]) by {
        let k = p.len() - 2 - i;
        assert(m.spec_adjacent(p[k], p[k + 1]));
        assert(q[i] == p[k + 1] && q[i + 1] == p[k]);
    }
}

/// Reachability avoiding a node is symmetric.
pub proof fn lemma_reach_symmetric(m: GraphModel, a: NodeId, b: NodeId, excluded: Option<NodeId>)
    requires
        m.spec_reachable(a, b, excluded),
    ensures
        m.spec_reachable(b, a, excluded),
{
    let p = choose|p: Seq<NodeId>| #[trigger] m.spec_is_walk(p, excluded) && p[0] == a && p.last() == b;
    lemma_walk_reverse(m, p, excluded);
    let q = Seq::new(p.len(), |i: int| p[p.len() - 1 - i]);
    assert(m.spec_is_walk(q, excluded) && q[0] == b && q.last() == a);
}

/// Reachability avoiding a node is transitive.
pub proof fn lemma_reach_transitive(m: GraphModel, a: NodeId, b: NodeId, d: NodeId, excluded: Option<NodeId>)
    requires
        m.spec_reachable(a, b, excluded),
        m.spec_reachable(b, d, excluded),
    ensures
        m.spec_reachable(a, d, excluded),
{
    let p = choose|p: Seq<NodeId>| #[trigger] m.spec_is_walk(p, excluded) && p[0] == a && p.last() == b;
    let q = choose|q: Seq<NodeId>| #[trigger] m.spec_is_walk(q, excluded) && q[0] == b && q.last() == d;
    let w = p + q.drop_first();
    assert forall|i: int| 0 <= i < w.len() implies m.spec_allowed(#[trigger] w[i], excluded) by {
        if i < p.len() {
            assert(w[i] == p[i]);
        } else {
            assert(w[i] == q[i - p.len() + 1]);
        }
    }
    assert forall|i: int| 0 <= i < w.len() - 1 implies m.spec_adjacent(#[trigger] w[i], w[i + 1]) by {
        if i < p.len() - 1 {
            assert(w[i] == p[i] && w[i + 1] == p[i + 1]);
        } else if i == p.len() - 1 {
            assert(w[i] == q[0] && w[i + 1] == q[1]);
        } else {
            let k = i - p.len() + 1;
            assert(w[i] == q[k] && w[i + 1] == q[k + 1]);
        }
    }
    if q.len() == 1 {
        assert(w.last() == p.last());
    } else {
        assert(w.last() == q.last());
    }
    assert(m.spec_is_walk(w, excluded) && w[0] == a && w.last() == d);
}

/// A walk that passes through `c` from a start other than `c` first reaches, without
/// touching `c`, a node adjacent to `c`.
pub proof fn lemma_walk_meets(m: GraphModel, p: Seq<NodeId>, c: NodeId) -> (u: NodeId)
    requires
        m.spec_is_walk(p, None),
        p[0] != c,
        p.contains(c),
    ensures
        m.spec_adjacent(u, c),
        m.spec_allowed(u, Some(c)),
        m.spec_reachable(p[0], u, Some(c)),
    decreases p.len(),
{
    let k = choose|k: int| 0 <= k < p.len() && p[k] == c;
    assert(k > 0);
    assert(m.spec_allowed(p[0], None));
    let single = seq![p[0]];
    assert(m.spec_is_walk(single, Some(c)) && single[0] == p[0] && single.last() == p[0]);
    if p[1] == c {
        assert(m.spec_adjacent(p[0], p[1]));
        p[0]
    } else {
        let t = p.drop_first();
        assert forall|i: int| 0 <= i < t.len() implies m.spec_allowed(#[trigger] t[i], None) by {
            assert(m.spec_allowed(p[i + 1], None));
        }
        assert forall|i: int| 0 <= i < t.len() - 1 implies m.spec_adjacent(#[trigger] t[i], t[i + 1]) by {
            assert(m.spec_adjacent(p[i + 1], p[i + 2]));
        }
        assert(t[k - 1] == c);
        let u = lemma_walk_meets(m, t, c);
        assert(m.spec_adjacent(p[0], p[1]));
        assert(m.spec_allowed(p[1], None));
        let pair = seq![p[0], p[1]];
        assert(m.spec_is_walk(pair, Some(c)) && pair[0] == p[0] && pair.last() == p[1]);
        lemma_reach_transitive(m, p[0], p[1], u, Some(c));
        u
    }
}

/// Whether removing active node `c` separates two other active nodes that were joined.
pub open spec fn splits_at(m: GraphModel, c: NodeId) -> bool {
    exists|a: NodeId, b: NodeId|
        m.spec_allowed(a, Some(c)) && m.spec_allowed(b, Some(c)) && #[trigger] m.spec_reachable(a, b, None)
            && !#[trigger] m.spec_reachable(a, b, Some(c))
}

/// If every active neighbor of `c` can reach `x0` without `c` (or `c` has no active
/// neighbor), removing `c` separates nothing.
pub proof fn lemma_no_split(m: GraphModel, c: NodeId, x0: NodeId)
    requires
        !m.spec_adjacent(c, c),
        forall|u: NodeId| #[trigger] m.spec_adjacent(c, u) && m.spec_allowed(u, Some(c)) ==> m.spec_reachable(x0, u, Some(c)),
    ensures
        !splits_at(m, c),
{
    if splits_at(m, c) {
        let (a, b) = choose|a: NodeId, b: NodeId|
            m.spec_allowed(a, Some(c)) && m.spec_allowed(b, Some(c)) && #[trigger] m.spec_reachable(a, b, None)
                && !#[trigger] m.spec_reachable(a, b, Some(c));
        let p = choose|p: Seq<NodeId>| #[trigger] m.spec_is_walk(p, None) && p[0] == a && p.last() == b;
        if p.contains(c) {
            let u = lemma_walk_meets(m, p, c);
            lemma_walk_reverse(m, p, None);
            let q = Seq::new(p.len(), |i: int| p[p.len() - 1 - i]);
            assert(q.contains(c)) by {
                let k = choose|k: int| 0 <= k < p.len() && p[k] == c;
                assert(q[p.len() - 1 - k] == c);
            }
            let w = lemma_walk_meets(m, q, c);
            assert(m.spec_adjacent(c, u));
            assert(m.spec_adjacent(c, w));
            assert(m.spec_reachable(x0, u, Some(c)));
            assert(m.spec_reachable(x0, w, Some(c)));
            lemma_reach_symmetric(m, x0, u, Some(c));
            lemma_reach_transitive(m, a, u, x0, Some(c));
            lemma_reach_transitive(m, a, x0, w, Some(c));
            lemma_reach_symmetric(m, b, w, Some(c));
            lemma_reach_transitive(m, a, w, b, Some(c));
        } else {
            assert forall|i: int| 0 <= i < p.len() implies m.spec_allowed(#[trigger] p[i], Some(c)) by {
                assert(m.spec_allowed(p[i], None));
                assert(p[i] != c);
            }
            assert(m.spec_is_walk(p, Some(c)));
        }
    }
}

/// Two active neighbors of active `c` that cannot reach each other without `c` are
/// separated by removing it.
pub proof fn lemma_split(m: GraphModel, c: NodeId, x: NodeId, y: NodeId)
    requires
        m.spec_allowed(c, None),
        m.spec_adjacent(c, x),
        m.spec_adjacent(c, y),
        m.spec_allowed(x, Some(c)),
        m.spec_allowed(y, Some(c)),
        !m.spec_reachable(x, y, Some(c)),
    ensures
        splits_at(m, c),
{
    let p = seq![x, c, y];
    assert(m.spec_adjacent(x, c));
    assert(m.spec_is_walk(p, None) && p[0] == x && p.last() == y);
    assert(m.spec_reachable(x, y, None));
}

} // verus!
