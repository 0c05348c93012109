//! Degree and edge-count facts of the seed-permuted circulant regular topology.

use vstd::prelude::*;
use crate::graph::{
    NodeId, ordered_pair, spec_add_all, spec_add_missing, spec_shuffle, spec_labels,
    spec_circulant_pairs, spec_diameter_pairs, spec_regular_edges, GraphModel,
    lemma_odd_factor_parity,
};
use vstd::set_lib::{set_int_range, lemma_int_range, lemma_set_disjoint_lens, lemma_map_size};

verus! {

/// Whether node `v` occurs among the first `n` labels.
pub open spec fn labelled(labels: Seq<NodeId>, n: nat, v: NodeId) -> bool {
    exists|i: int| 0 <= i < n && #[trigger] labels[i] == v
}

/// `labels` lists every node below `n` exactly once.
pub open spec fn is_permutation(labels: Seq<NodeId>, n: nat) -> bool {
    &&& labels.len() == n
    &&& forall|i: int| 0 <= i < n ==> (#[trigger] labels[i]) < n
    &&& forall|i: int, j: int| 0 <= i < n && 0 <= j < n && #[trigger] labels[i] == #[trigger] labels[j] ==> i == j
    &&& forall|v: NodeId| v < n ==> #[trigger] labelled(labels, n, v)
}

/// Every prefix of the shuffle is a permutation of the node ids.
proof fn lemma_shuffle_permutation(n: nat, seed: u64, m: nat)
    requires
        m < n,
        n <= u32::MAX,
    ensures
        is_permutation(spec_shuffle(n, seed, m), n),
    decreases m,
{
    if m == 0 {
        let s = Seq::new(n, |i: int| i as NodeId);
        assert forall|v: NodeId| v < n implies #[trigger] labelled(s, n, v) by {
            assert(s[v as int] == v);
        }
    } else {
        lemma_shuffle_permutation(n, seed, (m - 1) as nat);
        let prev = spec_shuffle(n, seed, (m - 1) as nat);
        let index = n - m;
        let swap = (crate::mixing::spec_deterministic_u64(seed, index as u64) as usize) as int % (index + 1);
        assert(0 <= swap <= index);
        let next = spec_shuffle(n, seed, m);
        assert(next == prev.update(index, prev[swap]).update(swap, prev[index]));
        assert forall|k: int| 0 <= k < n implies #[trigger] next[k] == if k == swap {
            prev[index]
        } else if k == index {
            prev[swap]
        } else {
            prev[k]
        } by {}
        assert forall|i: int, j: int| 0 <= i < n && 0 <= j < n && #[trigger] next[i] == #[trigger] next[j] implies i == j by {
            let pi = if i == swap { index } else if i == index { swap } else { i };
            let pj = if j == swap { index } else if j == index { swap } else { j };
            assert(next[i] == prev[pi]);
            assert(next[j] == prev[pj]);
        }
        assert forall|v: NodeId| v < n implies #[trigger] labelled(next, n, v) by {
            assert(labelled(prev, n, v));
            let i = choose|i: int| 0 <= i < n && #[trigger] prev[i] == v;
            let w = if i == index { swap } else if i == swap { index } else { i };
            assert(next[w] == v);
        }
    }
}

/// The final labels of a regular graph are a permutation of the node ids.
proof fn lemma_labels_permutation(n: nat, seed: u64)
    requires
        1 <= n <= u32::MAX,
    ensures
        is_permutation(spec_labels(n, seed), n),
{
    lemma_shuffle_permutation(n, seed, (n - 1) as nat);
}

/// Pairs normalized to edge keys, smaller endpoint first.
pub open spec fn normalized(pairs: Seq<(NodeId, NodeId)>) -> Seq<(NodeId, NodeId)> {
    Seq::new(pairs.len(), |i: int| ordered_pair(pairs[i].0, pairs[i].1))
}

/// Pairs that join distinct nodes below `n`, never repeat an undirected edge and
/// are not already in `edges`.
pub open spec fn fresh_simple_pairs(edges: Seq<(NodeId, NodeId)>, n: nat, pairs: Seq<(NodeId, NodeId)>) -> bool {
    &&& forall|i: int| 0 <= i < pairs.len() ==> (#[trigger] pairs[i]).0 < n && pairs[i].1 < n && pairs[i].0 != pairs[i].1
    &&& normalized(pairs).no_duplicates()
    &&& forall|i: int| 0 <= i < pairs.len() ==> !edges.contains(#[trigger] normalized(pairs)[i])
}

/// Adding fresh simple pairs never fails and appends their edge keys in order.
proof fn lemma_add_fresh(edges: Seq<(NodeId, NodeId)>, n: nat, pairs: Seq<(NodeId, NodeId)>)
    requires
        fresh_simple_pairs(edges, n, pairs),
    ensures
        spec_add_all(edges, n, pairs) == Ok::<Seq<(NodeId, NodeId)>, crate::graph::GraphError>(edges + normalized(pairs)),
        spec_add_missing(edges, n, pairs) == Ok::<Seq<(NodeId, NodeId)>, crate::graph::GraphError>(edges + normalized(pairs)),
    decreases pairs.len(),
{
    if pairs.len() == 0 {
        assert(edges + normalized(pairs) =~= edges);
    } else {
        let init = pairs.drop_last();
        let np = normalized(pairs);
        let ni = normalized(init);
        assert forall|i: int| 0 <= i < init.len() implies #[trigger] ni[i] == np[i] by {}
        assert forall|i: int| 0 <= i < init.len() implies !edges.contains(#[trigger] ni[i]) by {
            assert(ni[i] == np[i]);
        }
        assert forall|i: int, j: int| 0 <= i < ni.len() && 0 <= j < ni.len() && i != j implies ni[i] != ni[j] by {
            assert(ni[i] == np[i] && ni[j] == np[j]);
        }
        assert forall|i: int| 0 <= i < init.len() implies (#[trigger] init[i]).0 < n && init[i].1 < n && init[i].0 != init[i].1 by {
            assert(init[i] == pairs[i]);
        }
        lemma_add_fresh(edges, n, init);
        let es = edges + ni;
        let last = pairs.last();
        let key = ordered_pair(last.0, last.1);
        assert(key == np[pairs.len() - 1]);
        assert(!es.contains(key)) by {
            if es.contains(key) {
                let k = choose|k: int| 0 <= k < es.len() && es[k] == key;
                if k < edges.len() {
                    assert(edges[k] == key);
                    assert(!edges.contains(np[pairs.len() - 1]));
                } else {
                    assert(ni[k - edges.len()] == np[k - edges.len()]);
                }
            }
        }
        assert(pairs[pairs.len() - 1] == last);
        assert(es.push(key) =~= edges + np);
    }
}

/// Position `x` of a ring of `n` slots, for `0 <= x < 2 * n`.
pub open spec fn wrap(x: int, n: int) -> int {
    if x < n {
        x
    } else {
        x - n
    }
}

proof fn lemma_wrap_mod(x: int, n: int)
    requires
        0 < n,
        0 <= x < 2 * n,
    ensures
        x % n == wrap(x, n),
{
    if x < n {
        vstd::arithmetic::div_mod::lemma_fundamental_div_mod_converse(x, n, 0, x);
    } else {
        vstd::arithmetic::div_mod::lemma_fundamental_div_mod_converse(x, n, 1, x - n);
    }
}

/// Entry `k` of the circulant pairs joins position `k / h` to the position `k % h + 1` further round the ring.
proof fn lemma_circulant_entry(labels: Seq<NodeId>, n: nat, h: nat, k: int)
    requires
        labels.len() == n,
        0 < h,
        2 * h < n,
        0 <= k < n * h,
    ensures
        0 <= k / (h as int) < n,
        0 <= k % (h as int) < h,
        k == (k / (h as int)) * h + k % (h as int),
        spec_circulant_pairs(labels, n, h).len() == n * h,
        spec_circulant_pairs(labels, n, h)[k] == (labels[k / (h as int)], labels[wrap(k / (h as int) + k % (h as int) + 1, n as int)]),
{
    let hi = h as int;
    vstd::arithmetic::div_mod::lemma_fundamental_div_mod(k, hi);
    vstd::arithmetic::div_mod::lemma_mod_pos_bound(k, hi);
    vstd::arithmetic::div_mod::lemma_div_pos_is_pos(k, hi);
    let p = k / hi;
    let r = k % hi;
    assert(p * hi == hi * p) by (nonlinear_arith);
    assert(p < n) by (nonlinear_arith)
        requires
            k == hi * p + r,
            0 <= r,
            k < n * hi,
            hi > 0,
    ;
    lemma_wrap_mod(p + r + 1, n as int);
}

/// Two ring chords `p -> p + o` and `q -> q + w` with offsets at most `h`, where `2 * h < n`,
/// join the same two positions only if they are the same chord.
proof fn lemma_chords_distinct(n: int, h: int, p: int, o: int, q: int, w: int)
    requires
        2 * h < n,
        0 <= p < n,
        0 <= q < n,
        1 <= o <= h,
        1 <= w <= h,
        (p == q && wrap(p + o, n) == wrap(q + w, n)) || (p == wrap(q + w, n) && wrap(p + o, n) == q),
    ensures
        p == q && o == w,
{
}

/// The circulant chords are simple and pairwise distinct.
proof fn lemma_circulant_fresh(labels: Seq<NodeId>, n: nat, h: nat)
    requires
        is_permutation(labels, n),
        2 * h < n,
    ensures
        fresh_simple_pairs(Seq::empty(), n, spec_circulant_pairs(labels, n, h)),
{
    let cp = spec_circulant_pairs(labels, n, h);
    let np = normalized(cp);
    if h == 0 {
        assert(cp.len() == 0) by (nonlinear_arith)
            requires cp.len() == n * h, h == 0;
    } else {
        let hi = h as int;
        assert forall|i: int| 0 <= i < cp.len() implies (#[trigger] cp[i]).0 < n && cp[i].1 < n && cp[i].0 != cp[i].1 by {
            lemma_circulant_entry(labels, n, h, i);
            let p = i / hi;
            let b = wrap(p + i % hi + 1, n as int);
            assert(labels[p] < n && labels[b] < n);
            if labels[p] == labels[b] {
                assert(p == b);
            }
        }
        assert forall|i: int, j: int| 0 <= i < np.len() && 0 <= j < np.len() && i != j implies np[i] != np[j] by {
            lemma_circulant_entry(labels, n, h, i);
            lemma_circulant_entry(labels, n, h, j);
            let p = i / hi;
            let o = i % hi + 1;
            let q = j / hi;
            let w = j % hi + 1;
            let bp = wrap(p + o, n as int);
            let bq = wrap(q + w, n as int);
            if np[i] == np[j] {
                assert(labels[p] != labels[bp]) by {
                    if labels[p] == labels[bp] { assert(p == bp); }
                }
                assert(np[i] == ordered_pair(labels[p], labels[bp]));
                assert(np[j] == ordered_pair(labels[q], labels[bq]));
                if labels[p] == labels[q] {
                    assert(p == q);
                    assert(bp == bq);
                } else {
                    assert(labels[p] == labels[bq] && labels[bp] == labels[q]);
                    assert(p == bq);
                    assert(bp == q);
                }
                lemma_chords_distinct(n as int, hi, p, o, q, w);
                assert(i == j);
            }
        }
    }
}

/// Diametric pairs are simple, pairwise distinct and disjoint from circulant chords
/// of offsets below half the ring.
proof fn lemma_diameter_fresh(labels: Seq<NodeId>, n: nat, h: nat)
    requires
        is_permutation(labels, n),
        n % 2 == 0,
        2 * h + 1 < n,
    ensures
        fresh_simple_pairs(normalized(spec_circulant_pairs(labels, n, h)), n, spec_diameter_pairs(labels, n)),
{
    let cp = spec_circulant_pairs(labels, n, h);
    let base = normalized(cp);
    let dp = spec_diameter_pairs(labels, n);
    let nd = normalized(dp);
    let half = n as int / 2;
    assert(half + half == n);
    assert forall|i: int| 0 <= i < dp.len() implies (#[trigger] dp[i]).0 < n && dp[i].1 < n && dp[i].0 != dp[i].1 by {
        if labels[i] == labels[i + half] {
            assert(i == i + half);
        }
    }
    assert forall|i: int, j: int| 0 <= i < nd.len() && 0 <= j < nd.len() && i != j implies nd[i] != nd[j] by {
        if nd[i] == nd[j] {
            assert(labels[i] != labels[i + half]) by {
                if labels[i] == labels[i + half] { assert(i == i + half); }
            }
            if labels[i] == labels[j] {
                assert(i == j);
            } else {
                assert(labels[i] == labels[j + half]);
                assert(i == j + half);
                assert(labels[i + half] == labels[j]);
                assert(i + half == j);
            }
        }
    }
    assert forall|i: int| 0 <= i < dp.len() implies !base.contains(#[trigger] nd[i]) by {
        if base.contains(nd[i]) {
            let k = choose|k: int| 0 <= k < base.len() && base[k] == nd[i];
            let hi = h as int;
            assert(h > 0) by {
                if h == 0 {
                    assert(cp.len() == 0) by (nonlinear_arith)
                        requires cp.len() == n * h, h == 0;
                }
            }
            lemma_circulant_entry(labels, n, h, k);
            let q = k / hi;
            let w = k % hi + 1;
            let bq = wrap(q + w, n as int);
            assert(labels[i] != labels[i + half]) by {
                if labels[i] == labels[i + half] { assert(i == i + half); }
            }
            assert(base[k] == ordered_pair(labels[q], labels[bq]));
            if labels[i] == labels[q] {
                assert(i == q);
                assert(i + half == bq);
            } else {
                assert(i == bq);
                assert(i + half == q);
            }
        }
    }
}

/// The graph on `n` nodes, all active, with the given edges.
pub open spec fn full_model(n: nat, edges: Seq<(NodeId, NodeId)>) -> GraphModel {
    GraphModel { n, active: Seq::new(n, |i: int| true), edges }
}

/// Ring offsets at which a node of a regular graph finds its neighbors: `1..=h`,
/// `n - h..n` and, for an odd degree, the opposite slot `n / 2`.
pub open spec fn neighbor_offsets(n: int, h: int, odd: bool) -> Set<int> {
    Set::new(|t: int| (1 <= t <= h) || (n - h <= t < n) || (odd && t == n / 2))
}

proof fn lemma_offsets_len(n: int, h: int, odd: bool)
    requires
        0 <= h,
        2 * h < n,
        odd ==> n % 2 == 0 && 2 * h + 1 < n,
    ensures
        neighbor_offsets(n, h, odd).finite(),
        neighbor_offsets(n, h, odd).len() == 2 * h + if odd { 1int } else { 0int },
{
    let a = set_int_range(1, h + 1);
    let b = set_int_range(n - h, n);
    lemma_int_range(1, h + 1);
    lemma_int_range(n - h, n);
    assert(a.disjoint(b));
    lemma_set_disjoint_lens(a, b);
    if odd {
        let c = set![n / 2];
        assert((a + b).disjoint(c));
        lemma_set_disjoint_lens(a + b, c);
        assert(neighbor_offsets(n, h, odd) =~= a + b + c);
    } else {
        assert(neighbor_offsets(n, h, odd) =~= a + b);
    }
}

/// Edge keys of a circulant graph of half-degree `h`, with the diametric pairs for an odd degree.
pub open spec fn ring_edges(labels: Seq<NodeId>, n: nat, h: nat, odd: bool) -> Seq<(NodeId, NodeId)> {
    if odd {
        normalized(spec_circulant_pairs(labels, n, h)) + normalized(spec_diameter_pairs(labels, n))
    } else {
        normalized(spec_circulant_pairs(labels, n, h))
    }
}

/// In the ring graph every node's neighbors are the labels at its neighbor offsets.
proof fn lemma_ring_degree(labels: Seq<NodeId>, n: nat, h: nat, odd: bool, v: NodeId)
    requires
        is_permutation(labels, n),
        2 * h < n,
        odd ==> n % 2 == 0 && 2 * h + 1 < n,
        v < n,
    ensures
        full_model(n, ring_edges(labels, n, h, odd)).spec_active_degree(v) == 2 * h + if odd { 1int } else { 0int },
{
    let ni = n as int;
    let hi = h as int;
    let half = ni / 2;
    let edges = ring_edges(labels, n, h, odd);
    let cp = spec_circulant_pairs(labels, n, h);
    let dp = spec_diameter_pairs(labels, n);
    let m = full_model(n, edges);
    assert(labelled(labels, n, v));
    let pv = choose|i: int| 0 <= i < n && #[trigger] labels[i] == v;
    let f = |t: int| labels[wrap(pv + t, ni)];
    let offsets = neighbor_offsets(ni, hi, odd);
    assert(cp.len() == n * h);
    if odd {
        assert(half + half == ni);
    }
    assert forall|x: NodeId| m.spec_neighbor_set(v).contains(x) implies offsets.map(f).contains(x) by {
        assert(edges.contains(ordered_pair(v, x)));
        let i = choose|i: int| 0 <= i < edges.len() && edges[i] == ordered_pair(v, x);
        if i < cp.len() {
            assert(h > 0) by {
                if h == 0 {
                    assert(cp.len() == 0) by (nonlinear_arith)
                        requires cp.len() == n * h, h == 0;
                }
            }
            lemma_circulant_entry(labels, n, h, i);
            let p = i / hi;
            let o = i % hi + 1;
            let b = wrap(p + o, ni);
            assert(edges[i] == normalized(cp)[i]);
            assert(labels[p] != labels[b]) by {
                if labels[p] == labels[b] { assert(p == b); }
            }
            if v == labels[p] {
                assert(pv == p);
                assert(offsets.contains(o) && x == f(o));
            } else {
                assert(v == labels[b] && x == labels[p]);
                assert(pv == b);
                assert(offsets.contains(ni - o) && x == f(ni - o));
            }
        } else {
            let j = i - cp.len();
            assert(edges[i] == normalized(dp)[j]);
            assert(labels[j] != labels[j + half]) by {
                if labels[j] == labels[j + half] { assert(j == j + half); }
            }
            if v == labels[j] {
                assert(pv == j);
                assert(offsets.contains(half) && x == f(half));
            } else {
                assert(v == labels[j + half] && x == labels[j]);
                assert(pv == j + half);
                assert(offsets.contains(half) && x == f(half));
            }
        }
    }
    assert forall|x: NodeId| offsets.map(f).contains(x) implies m.spec_neighbor_set(v).contains(x) by {
        let t = choose|t: int| offsets.contains(t) && x == f(t);
        let q = wrap(pv + t, ni);
        assert(x < n);
        if 1 <= t <= hi {
            let k = pv * hi + t - 1;
            vstd::arithmetic::div_mod::lemma_fundamental_div_mod_converse(k, hi, pv, t - 1);
            assert(k < ni * hi) by (nonlinear_arith)
                requires k == pv * hi + t - 1, 0 <= pv, pv + 1 <= ni, t <= hi, 0 <= hi;
            lemma_circulant_entry(labels, n, h, k);
            assert(edges[k] == normalized(cp)[k]);
            assert(edges[k] == ordered_pair(v, x));
        } else if ni - hi <= t < ni {
            let o = ni - t;
            let k = q * hi + o - 1;
            vstd::arithmetic::div_mod::lemma_fundamental_div_mod_converse(k, hi, q, o - 1);
            assert(k < ni * hi) by (nonlinear_arith)
                requires k == q * hi + o - 1, 0 <= q, q + 1 <= ni, o <= hi, 0 <= hi;
            lemma_circulant_entry(labels, n, h, k);
            assert(wrap(q + o, ni) == pv);
            assert(edges[k] == normalized(cp)[k]);
            assert(edges[k] == ordered_pair(x, v));
        } else {
            assert(odd && t == half);
            if pv < half {
                let i = cp.len() + pv;
                assert(edges[i] == normalized(dp)[pv]);
                assert(edges[i] == ordered_pair(v, x));
            } else {
                let j = pv - half;
                let i = cp.len() + j;
                assert(edges[i] == normalized(dp)[j]);
                assert(edges[i] == ordered_pair(x, v));
            }
        }
    }
    assert(m.spec_neighbor_set(v) =~= offsets.map(f));
    assert forall|t1: int, t2: int| offsets.contains(t1) && offsets.contains(t2) && #[trigger] f(t1) == #[trigger] f(t2) implies t1 == t2 by {
        assert(wrap(pv + t1, ni) == wrap(pv + t2, ni));
    }
    lemma_offsets_len(ni, hi, odd);
    lemma_map_size(offsets, m.spec_neighbor_set(v), f);
}

/// A regular topology with a feasible degree (below the node count, with an even
/// number of edge ends) is built without failure, has `n * degree / 2` edges and
/// gives every node exactly `degree` neighbors.
pub proof fn law_regular_degree_is_exact(n: nat, degree: u32, seed: u64)
    requires
        n <= u32::MAX,
        0 < degree < n,
        (n * degree) % 2 == 0,
    ensures
        spec_regular_edges(n, degree, seed) matches Ok(edges)
            && edges.len() == n * degree / 2
            && forall|v: NodeId| v < n ==> #[trigger] full_model(n, edges).spec_active_degree(v) == degree,
{
    let labels = spec_labels(n, seed);
    lemma_labels_permutation(n, seed);
    let h = (degree / 2) as nat;
    let odd = degree % 2 == 1;
    let cp = spec_circulant_pairs(labels, n, h);
    lemma_circulant_fresh(labels, n, h);
    lemma_add_fresh(Seq::empty(), n, cp);
    assert(Seq::<(NodeId, NodeId)>::empty() + normalized(cp) =~= normalized(cp));
    let edges = ring_edges(labels, n, h, odd);
    if odd {
        lemma_odd_factor_parity(n as int, degree as int);
        lemma_diameter_fresh(labels, n, h);
        lemma_add_fresh(normalized(cp), n, spec_diameter_pairs(labels, n));
        assert(spec_regular_edges(n, degree, seed) == Ok::<Seq<(NodeId, NodeId)>, crate::graph::GraphError>(edges));
        let nh = n / 2;
        assert(n * degree / 2 == n * h + nh) by (nonlinear_arith)
            requires degree == 2 * h + 1, n == 2 * nh;
    } else {
        assert(spec_regular_edges(n, degree, seed) == Ok::<Seq<(NodeId, NodeId)>, crate::graph::GraphError>(edges));
        assert(n * degree / 2 == n * h) by (nonlinear_arith)
            requires degree == 2 * h;
    }
    assert forall|v: NodeId| v < n implies #[trigger] full_model(n, edges).spec_active_degree(v) == degree by {
        lemma_ring_degree(labels, n, h, odd, v);
    }
}

} // verus!
