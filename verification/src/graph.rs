//! Compact stable-ID graph storage and deterministic topology generation.

use vstd::prelude::*;
use crate::text::str_equals;
use crate::bytes::{lex_order, lemma_lex_antisym, lemma_lex_trans, bytes16_order};
use vstd::string::StringSliceAdditionalSpecFns;
use crate::counting::{count_below, lemma_count_bound, lemma_count_ext, lemma_count_flip, lemma_count_zero, lemma_count_mono};

pub mod regular;
pub mod attachment;
pub mod walks;

use walks::{splits_at, lemma_no_split, lemma_split};

use attachment::{attach_pick, attach_total, attach_draws, attach_target_count, ascending_elems, attach_prefix, spec_scale_free_edges, lemma_ascending_elems};

verus! {

broadcast use vstd::array::group_array_axioms;

/// Stable node identifier used as an array index.
pub type NodeId = u32;
/// Stable edge identifier used as an array index.
pub type EdgeId = u32;

/// FIPS 128-bit node address, ordered lexicographically like the production type.
#[derive(Debug, Clone, Copy, PartialEq, Eq, PartialOrd, Ord, Hash, Default)]
pub struct NodeAddress(pub [u8; 16]);

/// Big-endian byte `k` (0 = most significant) of a 32-bit identifier.
pub open spec fn be_byte(id: u32, k: int) -> u8 {
    if k == 0 {
        (id / 0x100_0000) as u8
    } else if k == 1 {
        (id / 0x1_0000 % 0x100) as u8
    } else if k == 2 {
        (id / 0x100 % 0x100) as u8
    } else {
        (id % 0x100) as u8
    }
}

/// Bytes of the deterministic initial address of a node.
pub open spec fn spec_initial_address(id: u32) -> Seq<u8> {
    Seq::new(
        16,
        |i: int|
            if i == 0 {
                0x80u8
            } else if 12 <= i {
                be_byte(id, i - 12)
            } else {
                0u8
            },
    )
}

/// Unsigned big-endian value of a byte string.
pub open spec fn be_value(s: Seq<u8>) -> nat
    decreases s.len(),
{
    if s.len() == 0 {
        0
    } else {
        be_value(s.drop_last()) * 256 + s.last() as nat
    }
}

impl View for NodeAddress {
    type V = Seq<u8>;

    open spec fn view(&self) -> Seq<u8> {
        self.0@
    }
}

impl NodeAddress {
    /// Lower-case fixed-width hexadecimal representation.
    pub fn to_hex(self) -> (r: String)
        ensures
            r@ == hex_lower(self@),
    {
        hex_encode(self.0.as_slice())
    }

    /// Parse a fixed-width hexadecimal address.
    pub fn from_hex(value: &str) -> (r: Result<Self, GraphError>)
        ensures
            r is Ok <==> is_hex_text(value.spec_bytes()) && value.spec_bytes().len() == 32,
            r matches Ok(a) ==> a@ == hex_decoded(value.spec_bytes()),
            r matches Err(e) ==> e matches GraphError::Address(s) && s@ == value@,
    {
        let decoded = hex_decode(value.as_bytes());
        let bytes = match decoded {
            Ok(bytes) => bytes,
            Err(_) => {
                return Err(GraphError::Address(value.to_owned()));
            },
        };
        if bytes.len() != 16 {
            proof { lemma_hex_decoded_len(value.spec_bytes()); }
            return Err(GraphError::Address(value.to_owned()));
        }
        proof { lemma_hex_decoded_len(value.spec_bytes()); }
        let mut out = [0u8; 16];
        let mut i: usize = 0;
        while i < 16
            invariant
                i <= 16,
                bytes@.len() == 16,
                out@.len() == 16,
                forall|k: int| 0 <= k < i ==> out@[k] == bytes@[k],
            decreases 16 - i,
        {
            let ghost before = out@;
            out[i] = bytes[i];
            assert(out@ =~= before.update(i as int, bytes@[i as int]));
            i = i + 1;
        }
        let r = Self(out);
        assert(r@ =~= bytes@);
        Ok(r)
    }

    /// Deterministic high-range address for an initial benign node.
    pub fn initial(id: NodeId) -> (r: Self)
        ensures
            r@ == spec_initial_address(id),
    {
        let mut bytes = [0u8; 16];
        bytes[0] = 0x80;
        bytes[12] = (id / 0x100_0000) as u8;
        bytes[13] = (id / 0x1_0000 % 0x100) as u8;
        bytes[14] = (id / 0x100 % 0x100) as u8;
        bytes[15] = (id % 0x100) as u8;
        let r = Self(bytes);
        assert(r@ =~= spec_initial_address(id));
        r
    }

    /// Address exactly one integer lower, if the address is non-zero.
    pub fn one_lower(self) -> (r: Option<Self>)
        ensures
            match r {
                None => be_value(self@) == 0,
                Some(lower) => be_value(lower@) + 1 == be_value(self@),
            },
    {
        let mut bytes = self.0;
        let mut i: usize = 16;
        while i > 0
            invariant
                i <= 16,
                bytes@.len() == 16,
                self.0@.len() == 16,
                forall|j: int| i <= j < 16 ==> self.0@[j] == 0,
                forall|j: int| i <= j < 16 ==> bytes@[j] == 255,
                forall|j: int| 0 <= j < i ==> bytes@[j] == self.0@[j],
            decreases i,
        {
            let k = i - 1;
            let b = bytes[k];
            if b > 0 {
                let ghost before = bytes@;
                bytes[k] = b - 1;
                assert(bytes@ =~= before.update(k as int, (b - 1) as u8));
                proof {
                    lemma_decrement_value(self.0@, bytes@, k as int);
                }
                return Some(Self(bytes));
            }
            let ghost before = bytes@;
            bytes[k] = 255;
            assert(bytes@ =~= before.update(k as int, 255u8));
            i = k;
        }
        proof {
            lemma_zero_value(self.0@);
        }
        None
    }
}

proof fn lemma_hex_decoded_len(s: Seq<u8>)
    requires
        s.len() % 2 == 0,
    ensures
        hex_decoded(s).len() * 2 == s.len(),
    decreases s.len(),
{
    if s.len() >= 2 {
        lemma_hex_decoded_len(s.subrange(0, s.len() - 2));
    }
}

/// Decrementing the last non-zero byte and filling the zero tail with 255
/// lowers the big-endian value by exactly one.
proof fn lemma_decrement_value(s: Seq<u8>, t: Seq<u8>, k: int)
    requires
        0 <= k < s.len(),
        t.len() == s.len(),
        s[k] > 0,
        t[k] == s[k] - 1,
        forall|j: int| k < j < s.len() ==> s[j] == 0,
        forall|j: int| k < j < s.len() ==> t[j] == 255,
        forall|j: int| 0 <= j < k ==> t[j] == s[j],
    ensures
        be_value(t) + 1 == be_value(s),
    decreases s.len(),
{
    if k == s.len() - 1 {
        assert(s.drop_last() =~= t.drop_last());
    } else {
        lemma_decrement_value(s.drop_last(), t.drop_last(), k);
    }
}

/// An all-zero byte string has value zero.
proof fn lemma_zero_value(s: Seq<u8>)
    requires
        forall|j: int| 0 <= j < s.len() ==> s[j] == 0,
    ensures
        be_value(s) == 0,
    decreases s.len(),
{
    if s.len() > 0 {
        lemma_zero_value(s.drop_last());
    }
}

/// Supported exact-graph topology families.
#[derive(Debug, Clone, Copy, PartialEq, Eq, Structural)]
pub enum TopologyKind {
    /// Caller-provided undirected edges.
    Explicit,
    /// Linear chain.
    Chain,
    /// Binary breadth-first tree.
    BalancedTree,
    /// Seed-permuted circulant regular graph.
    RandomRegular,
    /// Seeded preferential-attachment graph.
    ScaleFree,
}

/// Deterministic attachment selectors for adversarial arrivals.
#[derive(Debug, Clone, Copy, PartialEq, Eq, Structural)]
pub enum AttachmentSelector {
    /// Node currently advertising the minimum root.
    CurrentRoot,
    /// Smallest-ID active leaf.
    Leaf,
    /// Highest-degree active node, tie-broken by ID.
    Hub,
    /// Smallest-ID articulation point.
    Articulation,
    /// Seeded active node selection.
    Random,
}

/// Compact graph failure.
#[derive(Debug, Clone, PartialEq, Eq)]
pub enum GraphError {
    /// Zero-node graph.
    EmptyGraph,
    /// Unknown topology spelling.
    UnsupportedTopology(String),
    /// Unknown attachment selector.
    UnsupportedSelector(String),
    /// Node ID is outside the stable array.
    DanglingNode(NodeId),
    /// Edge ID is outside the stable array.
    DanglingEdge(EdgeId),
    /// Self edges are invalid.
    SelfEdge(NodeId),
    /// Duplicate undirected edge.
    DuplicateEdge(NodeId, NodeId),
    /// Structure-of-arrays columns drifted.
    ColumnLength,
    /// Active graph is not connected.
    Disconnected,
    /// Invalid regular degree request.
    RegularDegree {
        /// Node count.
        nodes: u32,
        /// Requested degree.
        degree: u32,
    },
    /// Arrival reservation would leave no initial node.
    ArrivalCount(u32),
    /// Selected topology has no matching active attachment.
    NoAttachment(AttachmentSelector),
    /// Tree ancestry is malformed or cyclic.
    InvalidAncestry(NodeId),
    /// Address is not exactly 128 bits of hexadecimal.
    Address(String),
}

/// The topology named by a Campaign spelling, if any.
pub open spec fn spec_topology_named(value: Seq<char>) -> Option<TopologyKind> {
    if value == "explicit"@ {
        Some(TopologyKind::Explicit)
    } else if value == "chain"@ {
        Some(TopologyKind::Chain)
    } else if value == "balanced-tree"@ {
        Some(TopologyKind::BalancedTree)
    } else if value == "random-regular"@ {
        Some(TopologyKind::RandomRegular)
    } else if value == "scale-free"@ {
        Some(TopologyKind::ScaleFree)
    } else {
        None
    }
}

impl TopologyKind {
    /// Parse the Campaign spelling.
    pub fn parse(value: &str) -> (r: Result<Self, GraphError>)
        ensures
            match spec_topology_named(value@) {
                Some(kind) => r == Ok::<Self, GraphError>(kind),
                None => r matches Err(GraphError::UnsupportedTopology(s)) && s@ == value@,
            },
    {
        if str_equals(value, "explicit") {
            Ok(Self::Explicit)
        } else if str_equals(value, "chain") {
            Ok(Self::Chain)
        } else if str_equals(value, "balanced-tree") {
            Ok(Self::BalancedTree)
        } else if str_equals(value, "random-regular") {
            Ok(Self::RandomRegular)
        } else if str_equals(value, "scale-free") {
            Ok(Self::ScaleFree)
        } else {
            Err(GraphError::UnsupportedTopology(value.to_owned()))
        }
    }
}

/// The selector named by a Campaign spelling or one of its M0 aliases.
pub open spec fn spec_selector_named(value: Seq<char>) -> Option<AttachmentSelector> {
    if value == "current-root"@ {
        Some(AttachmentSelector::CurrentRoot)
    } else if value == "leaf"@ || value == "random-leaf"@ {
        Some(AttachmentSelector::Leaf)
    } else if value == "hub"@ || value == "highest-degree"@ {
        Some(AttachmentSelector::Hub)
    } else if value == "articulation"@ || value == "articulation-point"@ {
        Some(AttachmentSelector::Articulation)
    } else if value == "random"@ {
        Some(AttachmentSelector::Random)
    } else {
        None
    }
}

impl AttachmentSelector {
    /// Parse Campaign spellings and their M0 aliases.
    pub fn parse(value: &str) -> (r: Result<Self, GraphError>)
        ensures
            match spec_selector_named(value@) {
                Some(kind) => r == Ok::<Self, GraphError>(kind),
                None => r matches Err(GraphError::UnsupportedSelector(s)) && s@ == value@,
            },
    {
        if str_equals(value, "current-root") {
            Ok(Self::CurrentRoot)
        } else if str_equals(value, "leaf") || str_equals(value, "random-leaf") {
            Ok(Self::Leaf)
        } else if str_equals(value, "hub") || str_equals(value, "highest-degree") {
            Ok(Self::Hub)
        } else if str_equals(value, "articulation") || str_equals(value, "articulation-point") {
            Ok(Self::Articulation)
        } else if str_equals(value, "random") {
            Ok(Self::Random)
        } else {
            Err(GraphError::UnsupportedSelector(value.to_owned()))
        }
    }
}


/// Lexicographic comparison of two addresses.
fn address_order(a: &NodeAddress, b: &NodeAddress) -> (r: i8)
    ensures
        r as int == lex_order(a@, b@),
{
    bytes16_order(&a.0, &b.0)
}

/// Whether a vector holds a value.
fn contains_id(v: &Vec<u32>, x: u32) -> (r: bool)
    ensures
        r == v@.contains(x),
{
    let mut i: usize = 0;
    while i < v.len()
        invariant
            i <= v@.len(),
            forall|k: int| 0 <= k < i ==> v@[k] != x,
        decreases v@.len() - i,
    {
        if v[i] == x {
            return true;
        }
        i = i + 1;
    }
    false
}

/// Chain pairs for `n` nodes.
fn chain_pairs(n: u32) -> (r: Vec<(NodeId, NodeId)>)
    requires
        n >= 1,
    ensures
        r@ == spec_chain_pairs(n as nat),
{
    let mut pairs: Vec<(NodeId, NodeId)> = Vec::new();
    let mut node: u32 = 1;
    while node < n
        invariant
            1 <= node <= n,
            pairs@ == spec_chain_pairs(node as nat),
        decreases n - node,
    {
        pairs.push((node - 1, node));
        node = node + 1;
        assert(pairs@ =~= spec_chain_pairs(node as nat));
    }
    pairs
}

/// Balanced binary tree pairs for `n` nodes.
fn tree_pairs(n: u32) -> (r: Vec<(NodeId, NodeId)>)
    requires
        n >= 1,
    ensures
        r@ == spec_tree_pairs(n as nat),
{
    let mut pairs: Vec<(NodeId, NodeId)> = Vec::new();
    let mut node: u32 = 1;
    while node < n
        invariant
            1 <= node <= n,
            pairs@ == spec_tree_pairs(node as nat),
        decreases n - node,
    {
        pairs.push(((node - 1) / 2, node));
        node = node + 1;
        assert(pairs@ =~= spec_tree_pairs(node as nat));
    }
    pairs
}

/// Strictly ascending sequence.
pub open spec fn strictly_sorted(s: Seq<u32>) -> bool {
    forall|i: int, j: int| 0 <= i < j < s.len() ==> #[trigger] s[i] < #[trigger] s[j]
}

/// A strictly ascending sequence of values below `n` has at most `n` elements.
proof fn lemma_sorted_len(s: Seq<u32>, n: nat)
    requires
        strictly_sorted(s),
        forall|i: int| 0 <= i < s.len() ==> #[trigger] s[i] < n,
    ensures
        s.len() <= n,
    decreases s.len(),
{
    if s.len() > 0 {
        let t = s.drop_last();
        assert forall|i: int, j: int| 0 <= i < j < t.len() implies #[trigger] t[i] < #[trigger] t[j] by {
            assert(s[i] < s[j]);
        }
        assert forall|i: int| 0 <= i < t.len() implies #[trigger] t[i] < s.last() by {
            assert(s[i] < s[s.len() - 1]);
        }
        lemma_sorted_len(t, s.last() as nat);
        assert(s.last() < n);
    }
}

/// Insert a fresh value into a strictly ascending vector, keeping it ascending.
fn sorted_insert(v: &mut Vec<u32>, c: u32)
    requires
        strictly_sorted(old(v)@),
        !old(v)@.contains(c),
    ensures
        strictly_sorted(final(v)@),
        final(v)@.len() == old(v)@.len() + 1,
        forall|x: u32| #[trigger] final(v)@.contains(x) <==> (old(v)@.contains(x) || x == c),
{
    let mut p: usize = 0;
    while p < v.len() && v[p] < c
        invariant
            p <= v@.len(),
            forall|k: int| 0 <= k < p ==> #[trigger] v@[k] < c,
        decreases v@.len() - p,
    {
        p = p + 1;
    }
    let ghost before = v@;
    v.insert(p, c);
    assert forall|x: u32| #[trigger] v@.contains(x) <==> (before.contains(x) || x == c) by {
        if v@.contains(x) {
            let k = choose|k: int| 0 <= k < v@.len() && v@[k] == x;
            if k < p {
                assert(before[k] == x);
            } else if k > p {
                assert(before[k - 1] == x);
            }
        }
        if before.contains(x) {
            let k = choose|k: int| 0 <= k < before.len() && before[k] == x;
            if k < p {
                assert(v@[k] == x);
            } else {
                assert(v@[k + 1] == x);
            }
        }
        if x == c {
            assert(v@[p as int] == c);
        }
    }
    assert forall|i: int, j: int| 0 <= i < j < v@.len() implies #[trigger] v@[i] < #[trigger] v@[j] by {
        if p < before.len() {
            assert(before[p as int] != c);
            assert(before[p as int] >= c);
        }
        if i < p && j == p {
        } else if i < p && j > p {
            assert(before[i] < c);
        } else if i == p && j > p {
            assert(before[j - 1] >= before[p as int]);
        } else if i < p && j < p {
            assert(before[i] < before[j]);
        } else {
            assert(before[i - 1] < before[j - 1]);
        }
    }
}

/// Adding one undirected edge to a normalized edge list, as `add_edge` does.
pub open spec fn spec_add_edge(edges: Seq<(NodeId, NodeId)>, n: nat, a: NodeId, b: NodeId) -> Result<Seq<(NodeId, NodeId)>, GraphError> {
    if a >= n {
        Err(GraphError::DanglingNode(a))
    } else if b >= n {
        Err(GraphError::DanglingNode(b))
    } else if a == b {
        Err(GraphError::SelfEdge(a))
    } else if edges.contains(ordered_pair(a, b)) {
        Err(GraphError::DuplicateEdge(ordered_pair(a, b).0, ordered_pair(a, b).1))
    } else {
        Ok(edges.push(ordered_pair(a, b)))
    }
}

/// Adding every pair in order, stopping at the first failure.
pub open spec fn spec_add_all(edges: Seq<(NodeId, NodeId)>, n: nat, pairs: Seq<(NodeId, NodeId)>) -> Result<Seq<(NodeId, NodeId)>, GraphError>
    decreases pairs.len(),
{
    if pairs.len() == 0 {
        Ok(edges)
    } else {
        match spec_add_all(edges, n, pairs.drop_last()) {
            Err(e) => Err(e),
            Ok(es) => spec_add_edge(es, n, pairs.last().0, pairs.last().1),
        }
    }
}

/// Adding every pair that is not already present, stopping at the first failure.
pub open spec fn spec_add_missing(edges: Seq<(NodeId, NodeId)>, n: nat, pairs: Seq<(NodeId, NodeId)>) -> Result<Seq<(NodeId, NodeId)>, GraphError>
    decreases pairs.len(),
{
    if pairs.len() == 0 {
        Ok(edges)
    } else {
        match spec_add_missing(edges, n, pairs.drop_last()) {
            Err(e) => Err(e),
            Ok(es) => if es.contains(ordered_pair(pairs.last().0, pairs.last().1)) {
                Ok(es)
            } else {
                spec_add_edge(es, n, pairs.last().0, pairs.last().1)
            },
        }
    }
}

proof fn lemma_add_all_sticky(edges: Seq<(NodeId, NodeId)>, n: nat, pairs: Seq<(NodeId, NodeId)>, k: int)
    requires
        0 <= k <= pairs.len(),
        spec_add_all(edges, n, pairs.take(k)) is Err,
    ensures
        spec_add_all(edges, n, pairs) == spec_add_all(edges, n, pairs.take(k)),
    decreases pairs.len() - k,
{
    if k < pairs.len() {
        assert(pairs.take(k + 1).drop_last() =~= pairs.take(k));
        lemma_add_all_sticky(edges, n, pairs, k + 1);
    } else {
        assert(pairs.take(k) =~= pairs);
    }
}

proof fn lemma_add_missing_sticky(edges: Seq<(NodeId, NodeId)>, n: nat, pairs: Seq<(NodeId, NodeId)>, k: int)
    requires
        0 <= k <= pairs.len(),
        spec_add_missing(edges, n, pairs.take(k)) is Err,
    ensures
        spec_add_missing(edges, n, pairs) == spec_add_missing(edges, n, pairs.take(k)),
    decreases pairs.len() - k,
{
    if k < pairs.len() {
        assert(pairs.take(k + 1).drop_last() =~= pairs.take(k));
        lemma_add_missing_sticky(edges, n, pairs, k + 1);
    } else {
        assert(pairs.take(k) =~= pairs);
    }
}

/// Chain edges `i - (i + 1)`.
pub open spec fn spec_chain_pairs(n: nat) -> Seq<(NodeId, NodeId)> {
    Seq::new((n - 1) as nat, |i: int| (i as NodeId, (i + 1) as NodeId))
}

/// Binary breadth-first tree edges `((v - 1) / 2) - v`.
pub open spec fn spec_tree_pairs(n: nat) -> Seq<(NodeId, NodeId)> {
    Seq::new((n - 1) as nat, |i: int| ((i / 2) as NodeId, (i + 1) as NodeId))
}

/// Seed-permuted labels after `m` Fisher-Yates steps from the top index down.
pub open spec fn spec_shuffle(n: nat, seed: u64, m: nat) -> Seq<NodeId>
    decreases m,
{
    if m == 0 {
        Seq::new(n, |i: int| i as NodeId)
    } else {
        let prev = spec_shuffle(n, seed, (m - 1) as nat);
        let index = n - m;
        let swap = (crate::mixing::spec_deterministic_u64(seed, index as u64) as usize) as int % (index + 1);
        prev.update(index, prev[swap]).update(swap, prev[index])
    }
}

/// Final seed-permuted labels of a regular graph.
pub open spec fn spec_labels(n: nat, seed: u64) -> Seq<NodeId> {
    spec_shuffle(n, seed, (n - 1) as nat)
}

/// Circulant candidate pairs `labels[p] - labels[(p + o) % n]` for `o` in `1..=half`.
pub open spec fn spec_circulant_pairs(labels: Seq<NodeId>, n: nat, half: nat) -> Seq<(NodeId, NodeId)> {
    Seq::new(n * half, |k: int| (labels[k / half as int], labels[(k / half as int + k % half as int + 1) % n as int]))
}

/// Diametric pairs `labels[p] - labels[p + n / 2]` used for odd degrees.
pub open spec fn spec_diameter_pairs(labels: Seq<NodeId>, n: nat) -> Seq<(NodeId, NodeId)> {
    Seq::new(n / 2, |p: int| (labels[p], labels[p + n as int / 2]))
}

/// Edges of the seed-permuted circulant regular graph, or the construction failure.
pub open spec fn spec_regular_edges(n: nat, degree: u32, seed: u64) -> Result<Seq<(NodeId, NodeId)>, GraphError> {
    if degree == 0 || degree >= n || (n * degree) % 2 != 0 {
        Err(GraphError::RegularDegree { nodes: n as u32, degree })
    } else {
        let labels = spec_labels(n, seed);
        let base = spec_add_missing(Seq::empty(), n, spec_circulant_pairs(labels, n, (degree / 2) as nat));
        if degree % 2 == 1 {
            if n % 2 != 0 {
                Err(GraphError::RegularDegree { nodes: n as u32, degree })
            } else {
                match base {
                    Err(e) => Err(e),
                    Ok(es) => spec_add_all(es, n, spec_diameter_pairs(labels, n)),
                }
            }
        } else {
            base
        }
    }
}

proof fn lemma_shuffle_len(n: nat, seed: u64, m: nat)
    requires
        m < n,
    ensures
        spec_shuffle(n, seed, m).len() == n,
    decreases m,
{
    if m > 0 {
        lemma_shuffle_len(n, seed, (m - 1) as nat);
    }
}

proof fn lemma_circulant_index(labels: Seq<NodeId>, n: nat, half: nat, position: nat, offset: nat)
    requires
        labels.len() == n,
        position < n,
        1 <= offset <= half,
        2 * half < n,
    ensures
        position * half + offset - 1 < n * half,
        spec_circulant_pairs(labels, n, half)[position * half + offset - 1] == (labels[position as int], labels[((position + offset) % n) as int]),
{
    let k = position * half + offset - 1;
    assert(k < n * half) by (nonlinear_arith)
        requires k == position * half + offset - 1, position < n, offset <= half, offset >= 1;
    assert(k / half as int == position && k % half as int == offset - 1) by (nonlinear_arith)
        requires k == position * half + offset - 1, 1 <= offset <= half;
}

pub(crate) proof fn lemma_odd_factor_parity(n: int, d: int)
    requires
        n >= 0,
        d >= 0,
        (n * d) % 2 == 0,
        d % 2 == 1,
    ensures
        n % 2 == 0,
{
    let q = d / 2;
    assert(d == 2 * q + 1);
    assert(n * d == 2 * (n * q) + n) by (nonlinear_arith)
        requires d == 2 * q + 1;
    assert((2 * (n * q) + n) % 2 == n % 2) by {
        vstd::arithmetic::div_mod::lemma_mod_multiples_vanish(n * q, n, 2);
    }
}

/// Edges that a generator produces before the connectivity check, or its failure.
/// Preferential attachment links each later node to `average_degree / 2` earlier
/// nodes, and to one when the average degree is below two.
pub open spec fn spec_generated_edges(kind: TopologyKind, n: nat, average_degree: u32, seed: u64, explicit: Seq<(NodeId, NodeId)>) -> Result<Seq<(NodeId, NodeId)>, GraphError> {
    match kind {
        TopologyKind::Explicit => spec_add_all(Seq::empty(), n, explicit),
        TopologyKind::Chain => spec_add_all(Seq::empty(), n, spec_chain_pairs(n)),
        TopologyKind::BalancedTree => spec_add_all(Seq::empty(), n, spec_tree_pairs(n)),
        TopologyKind::RandomRegular => spec_regular_edges(n, average_degree, seed),
        TopologyKind::ScaleFree => Ok(spec_scale_free_edges(n, if average_degree < 2 { 1 } else { average_degree / 2 }, seed)),
    }
}

/// What `generate` yields: an empty graph fails, a generator failure is passed on,
/// and otherwise the generated edges form a store with freshly initialised node
/// columns, unless the graph of more than one node is disconnected.
pub open spec fn spec_generate_outcome(
    kind: TopologyKind,
    node_count: u32,
    average_degree: u32,
    seed: u64,
    explicit: Seq<(NodeId, NodeId)>,
    r: Result<GraphStore, GraphError>,
) -> bool {
    &&& node_count == 0 ==> r == Err::<GraphStore, GraphError>(GraphError::EmptyGraph)
    &&& r matches Ok(g) ==> g.spec_node_count() == node_count && g.spec_fresh_columns()
        && (node_count > 1 ==> g.spec_connected())
    &&& node_count > 0 ==> match spec_generated_edges(kind, node_count as nat, average_degree, seed, explicit) {
        Err(e) => r == Err::<GraphStore, GraphError>(e),
        Ok(edges) => {
            let m = GraphModel { n: node_count as nat, active: Seq::new(node_count as nat, |i: int| true), edges };
            if node_count > 1 && !m.spec_connected() {
                r == Err::<GraphStore, GraphError>(GraphError::Disconnected)
            } else {
                r matches Ok(g) && g.spec_edges() == edges
            }
        },
    }
}

/// Generation is replayable: the same topology, size, degree, seed and explicit
/// edges give the same failure, or stores with the same nodes and edges whose node
/// columns are all freshly initialised.
pub proof fn law_generate_replayable(
    kind: TopologyKind,
    node_count: u32,
    average_degree: u32,
    seed: u64,
    explicit: Seq<(NodeId, NodeId)>,
    first: Result<GraphStore, GraphError>,
    second: Result<GraphStore, GraphError>,
)
    requires
        spec_generate_outcome(kind, node_count, average_degree, seed, explicit, first),
        spec_generate_outcome(kind, node_count, average_degree, seed, explicit, second),
    ensures
        first is Err ==> first == second,
        first matches Ok(a) ==> second matches Ok(b) && a.spec_node_count() == b.spec_node_count()
            && a.spec_edges() == b.spec_edges() && a.spec_fresh_columns() && b.spec_fresh_columns(),
{
}

/// Shape of preferential-attachment edges: `0 - 1` first, then each later node's
/// links to strictly lower nodes, grouped by node and ascending within a node.
pub open spec fn spec_scale_free_shape(edges: Seq<(NodeId, NodeId)>, n: nat) -> bool {
    &&& n >= 2 ==> edges.len() >= 1 && edges[0] == (0u32, 1u32)
    &&& n < 2 ==> edges.len() == 0
    &&& forall|i: int| 1 <= i < edges.len() ==> (#[trigger] edges[i]).1 >= 2
    &&& forall|i: int, j: int| 0 <= i < j < edges.len() ==> (#[trigger] edges[i]).1 < (#[trigger] edges[j]).1
        || (edges[i].1 == edges[j].1 && edges[i].0 < edges[j].0)
}

/// Lower-case hexadecimal digit for a nibble.
pub open spec fn hex_digit(v: int) -> char {
    if v < 10 {
        (48 + v) as char
    } else {
        (87 + v) as char
    }
}

/// Lower-case fixed-width hexadecimal text of a byte string, high nibble first.
pub open spec fn hex_lower(s: Seq<u8>) -> Seq<char>
    decreases s.len(),
{
    if s.len() == 0 {
        Seq::empty()
    } else {
        hex_lower(s.drop_last()).push(hex_digit(s.last() as int / 16)).push(hex_digit(s.last() as int % 16))
    }
}

/// Whether an ASCII byte is a hexadecimal digit of either case.
pub open spec fn is_hex_byte(c: u8) -> bool {
    (48 <= c <= 57) || (65 <= c <= 70) || (97 <= c <= 102)
}

/// Value of a hexadecimal digit byte.
pub open spec fn hex_value(c: u8) -> int {
    if 65 <= c <= 70 {
        c - 65 + 10
    } else if 97 <= c <= 102 {
        c - 97 + 10
    } else {
        c - 48
    }
}

/// Whether a byte string is an even-length run of hexadecimal digits.
pub open spec fn is_hex_text(s: Seq<u8>) -> bool {
    s.len() % 2 == 0 && forall|i: int| 0 <= i < s.len() ==> is_hex_byte(#[trigger] s[i])
}

/// Bytes decoded from hexadecimal digit pairs.
pub open spec fn hex_decoded(s: Seq<u8>) -> Seq<u8>
    decreases s.len(),
{
    if s.len() < 2 {
        Seq::empty()
    } else {
        hex_decoded(s.subrange(0, s.len() - 2)).push((hex_value(s[s.len() - 2]) * 16 + hex_value(s[s.len() - 1])) as u8)
    }
}

/// Bytes of a text made of ASCII characters.
pub open spec fn ascii_of(cs: Seq<char>) -> Seq<u8> {
    Seq::new(cs.len(), |i: int| cs[i] as u8)
}

proof fn lemma_hex_digit_byte(v: int)
    requires
        0 <= v < 16,
    ensures
        '\0' <= hex_digit(v) <= '\u{7f}',
        is_hex_byte(hex_digit(v) as u8),
        hex_value(hex_digit(v) as u8) == v,
{
}

proof fn lemma_hex_lower_decodes(a: Seq<u8>)
    ensures
        hex_lower(a).len() == 2 * a.len(),
        forall|i: int| 0 <= i < hex_lower(a).len() ==> '\0' <= #[trigger] hex_lower(a)[i] <= '\u{7f}'
            && is_hex_byte(hex_lower(a)[i] as u8),
        hex_decoded(ascii_of(hex_lower(a))) == a,
    decreases a.len(),
{
    if a.len() == 0 {
        assert(ascii_of(hex_lower(a)) =~= Seq::<u8>::empty());
        assert(a =~= Seq::<u8>::empty());
    } else {
        let b = a.drop_last();
        let x = a.last();
        lemma_hex_lower_decodes(b);
        lemma_hex_digit_byte(x as int / 16);
        lemma_hex_digit_byte(x as int % 16);
        let hb = hex_lower(b);
        let h = hex_lower(a);
        let d1 = hex_digit(x as int / 16);
        let d2 = hex_digit(x as int % 16);
        assert(h == hb.push(d1).push(d2));
        assert forall|i: int| 0 <= i < h.len() implies '\0' <= #[trigger] h[i] <= '\u{7f}' && is_hex_byte(h[i] as u8) by {
            if i < hb.len() {
                assert(h[i] == hb[i]);
            }
        }
        let s = ascii_of(h);
        assert(s.subrange(0, s.len() - 2) =~= ascii_of(hb));
        assert(s[s.len() - 2] == d1 as u8);
        assert(s[s.len() - 1] == d2 as u8);
        assert((x as int / 16) * 16 + x as int % 16 == x as int);
        assert(a =~= b.push(x));
    }
}

/// Hexadecimal text round-trips: the text `to_hex` writes for an address is exactly
/// 32 hexadecimal digits, which `from_hex` accepts and decodes back to the same bytes.
pub proof fn law_hex_roundtrip(address: NodeAddress, text: &str)
    requires
        text@ == hex_lower(address@),
    ensures
        is_hex_text(text.spec_bytes()),
        text.spec_bytes().len() == 32,
        hex_decoded(text.spec_bytes()) == address@,
{
    lemma_hex_lower_decodes(address@);
    assert(vstd::string::is_ascii(text));
    vstd::string::is_ascii_spec_bytes(text);
    assert(text.spec_bytes() =~= ascii_of(text@));
    assert forall|i: int| 0 <= i < text.spec_bytes().len() implies is_hex_byte(#[trigger] text.spec_bytes()[i]) by {
        assert(is_hex_byte(hex_lower(address@)[i] as u8));
    }
}

/// The outside crate's hexadecimal decoding failure.
#[verifier::external_type_specification]
#[verifier::external_body]
pub struct ExFromHexError(hex::FromHexError);

/// Calls `hex::encode`: lower-case digits from the table `0123456789abcdef`,
/// high nibble before low nibble, for every byte in order.
#[verifier::external_body]
pub(crate) fn hex_encode(bytes: &[u8]) -> (r: String)
    ensures
        r@ == hex_lower(bytes@),
{
    hex::encode(bytes)
}

/// Calls `hex::decode`: succeeds exactly on even-length input made of
/// hexadecimal digits of either case, and then yields one byte per digit pair.
#[verifier::external_body]
fn hex_decode(data: &[u8]) -> (r: Result<Vec<u8>, hex::FromHexError>)
    ensures
        r is Ok <==> is_hex_text(data@),
        r matches Ok(v) ==> v@ == hex_decoded(data@),
{
    hex::decode(data)
}

/// Calls `Vec::capacity`, which is never below the length.
#[verifier::external_body]
fn vec_capacity<T>(v: &Vec<T>) -> (r: usize)
    ensures
        r >= v@.len(),
{
    v.capacity()
}

/// Estimated compact storage footprint, excluding optional inspection output.
#[derive(Debug, Clone, Copy, PartialEq, Eq)]
pub struct GraphMemoryFootprint {
    /// Bytes of fixed-width node columns per node.
    pub fixed_bytes_per_node: usize,
    /// Bytes of fixed-width edge columns per edge.
    pub fixed_bytes_per_edge: usize,
    /// Total allocated bytes estimated from vector capacities.
    pub allocated_bytes: usize,
}

/// Saturating product.
fn sat_mul(a: usize, b: usize) -> (r: usize)
    ensures
        r == if a * b > usize::MAX { usize::MAX as int } else { a * b },
{
    match a.checked_mul(b) {
        Some(v) => v,
        None => usize::MAX,
    }
}

/// Saturating sum.
fn sat_add(a: usize, b: usize) -> (r: usize)
    ensures
        r == if a + b > usize::MAX { usize::MAX as int } else { a + b },
{
    a.saturating_add(b)
}

/// Abstract view of the graph used by connectivity and selection contracts:
/// node count, activity column and normalized edges.
#[verifier::ext_equal]
pub struct GraphModel {
    pub n: nat,
    pub active: Seq<bool>,
    pub edges: Seq<(NodeId, NodeId)>,
}

impl GraphModel {
    /// Whether a node id is a stable active slot.
    pub open spec fn spec_is_active(&self, id: NodeId) -> bool {
        id < self.n && self.active[id as int]
    }

    /// Whether an undirected edge joins `a` and `b`.
    pub open spec fn spec_adjacent(&self, a: NodeId, b: NodeId) -> bool {
        self.edges.contains(ordered_pair(a, b))
    }

    /// Whether `x` is an active neighbor of `id`.
    pub open spec fn spec_neighbor(&self, id: NodeId, x: NodeId) -> bool {
        self.spec_adjacent(id, x) && self.spec_is_active(x)
    }

    /// The set of active neighbors of `id`.
    pub open spec fn spec_neighbor_set(&self, id: NodeId) -> Set<NodeId> {
        Set::new(|x: NodeId| self.spec_neighbor(id, x))
    }

    /// Degree among active nodes.
    pub open spec fn spec_active_degree(&self, id: NodeId) -> nat {
        self.spec_neighbor_set(id).len()
    }

    /// Whether `v` may lie on a walk that avoids `excluded`.
    pub open spec fn spec_allowed(&self, v: NodeId, excluded: Option<NodeId>) -> bool {
        self.spec_is_active(v) && excluded != Some(v)
    }

    /// A non-empty walk over allowed active nodes along stable edges.
    pub open spec fn spec_is_walk(&self, path: Seq<NodeId>, excluded: Option<NodeId>) -> bool {
        &&& path.len() > 0
        &&& forall|i: int| 0 <= i < path.len() ==> self.spec_allowed(#[trigger] path[i], excluded)
        &&& forall|i: int| 0 <= i < path.len() - 1 ==> self.spec_adjacent(#[trigger] path[i], path[i + 1])
    }

    /// Whether a walk avoiding `excluded` leads from `from` to `to`.
    pub open spec fn spec_reachable(&self, from: NodeId, to: NodeId, excluded: Option<NodeId>) -> bool {
        exists|path: Seq<NodeId>| #[trigger] self.spec_is_walk(path, excluded) && path[0] == from && path.last() == to
    }

    /// Whether `s` is the smallest allowed node.
    pub open spec fn spec_is_first_allowed(&self, s: NodeId, excluded: Option<NodeId>) -> bool {
        self.spec_allowed(s, excluded) && forall|v: NodeId| v < s ==> !#[trigger] self.spec_allowed(v, excluded)
    }

    /// Number of nodes reachable from the smallest allowed node, or zero.
    pub open spec fn spec_reach_count(&self, excluded: Option<NodeId>) -> nat {
        if exists|s: NodeId| self.spec_is_first_allowed(s, excluded) {
            let s = choose|s: NodeId| self.spec_is_first_allowed(s, excluded);
            count_below(self.n, |v: NodeId| self.spec_reachable(s, v, excluded))
        } else {
            0
        }
    }

    /// Number of active nodes.
    pub open spec fn spec_active_count(&self) -> nat {
        count_below(self.n, |v: NodeId| self.spec_is_active(v))
    }

    /// True if all active nodes share one component.
    pub open spec fn spec_connected(&self) -> bool {
        self.spec_active_count() <= 1 || self.spec_reach_count(None) == self.spec_active_count()
    }

    /// Whether `c` is an articulation point of the active graph: an active node whose
    /// removal separates two other active nodes that were joined, so that its
    /// component falls apart and the active graph gains a component.
    pub open spec fn spec_is_articulation(&self, c: NodeId) -> bool {
        &&& self.spec_is_active(c)
        &&& splits_at(*self, c)
    }

}

/// Structure-of-arrays node and edge storage.
#[derive(Debug, Clone, PartialEq, Eq)]
pub struct GraphStore {
    addresses: Vec<NodeAddress>,
    active: Vec<bool>,
    roots: Vec<NodeId>,
    parents: Vec<Option<NodeId>>,
    sequences: Vec<u64>,
    ancestries: Vec<Vec<NodeId>>,
    resource_classes: Vec<u16>,
    edge_a: Vec<NodeId>,
    edge_b: Vec<NodeId>,
}

/// An ancestry `[self, ..., root]` acceptable for node `id` in a graph of `n` nodes.
pub open spec fn valid_ancestry(id: NodeId, ancestry: Seq<NodeId>, n: nat) -> bool {
    &&& ancestry.len() > 0
    &&& ancestry[0] == id
    &&& forall|i: int| 0 <= i < ancestry.len() ==> (#[trigger] ancestry[i]) < n
    &&& forall|i: int, j: int|
        0 <= i < ancestry.len() && 0 <= j < ancestry.len() && i != j ==> ancestry[i] != ancestry[j]
}

/// The parent named by an ancestry: its second element, if any.
pub open spec fn ancestry_parent(ancestry: Seq<NodeId>) -> Option<NodeId> {
    if ancestry.len() > 1 {
        Some(ancestry[1])
    } else {
        None
    }
}

/// Undirected edge key with the smaller endpoint first.
pub open spec fn ordered_pair(a: NodeId, b: NodeId) -> (NodeId, NodeId) {
    if a < b {
        (a, b)
    } else {
        (b, a)
    }
}

impl GraphStore {
    /// Number of stable node slots.
    pub closed spec fn spec_node_count(&self) -> nat {
        self.addresses@.len()
    }

    /// Stable undirected edges, smaller endpoint first, in insertion order.
    pub closed spec fn spec_edges(&self) -> Seq<(NodeId, NodeId)> {
        Seq::new(self.edge_a@.len(), |i: int| (self.edge_a@[i], self.edge_b@[i]))
    }

    /// Activity column.
    pub closed spec fn spec_active(&self) -> Seq<bool> {
        self.active@
    }

    /// Address column.
    pub closed spec fn spec_addresses(&self) -> Seq<NodeAddress> {
        self.addresses@
    }

    /// Advertised root column.
    pub closed spec fn spec_roots(&self) -> Seq<NodeId> {
        self.roots@
    }

    /// Selected parent column.
    pub closed spec fn spec_parents(&self) -> Seq<Option<NodeId>> {
        self.parents@
    }

    /// Declaration sequence column.
    pub closed spec fn spec_sequences(&self) -> Seq<u64> {
        self.sequences@
    }

    /// Ancestry of one node.
    pub closed spec fn spec_ancestry(&self, id: int) -> Seq<NodeId> {
        self.ancestries@[id]@
    }

    /// Node columns exactly as `with_nodes` creates them.
    pub open spec fn spec_fresh_columns(&self) -> bool {
        let n = self.spec_node_count();
        &&& forall|i: int| 0 <= i < n ==> #[trigger] self.spec_addresses()[i]@ == spec_initial_address(i as u32)
        &&& forall|i: int| 0 <= i < n ==> #[trigger] self.spec_active()[i]
        &&& forall|i: int| 0 <= i < n ==> #[trigger] self.spec_roots()[i] == i
        &&& forall|i: int| 0 <= i < n ==> #[trigger] self.spec_parents()[i] == None::<NodeId>
        &&& forall|i: int| 0 <= i < n ==> #[trigger] self.spec_sequences()[i] == 1
        &&& forall|i: int| 0 <= i < n ==> #[trigger] self.spec_ancestry(i) == seq![i as NodeId]
    }

    /// Abstract graph: node count, activity and edges.
    pub open spec fn model(&self) -> GraphModel {
        GraphModel { n: self.spec_node_count(), active: self.spec_active(), edges: self.spec_edges() }
    }

    /// is active in the abstract graph.
    #[verifier::inline]
    pub open spec fn spec_is_active(&self, id: NodeId) -> bool {
        self.model().spec_is_active(id)
    }

    /// adjacent in the abstract graph.
    #[verifier::inline]
    pub open spec fn spec_adjacent(&self, a: NodeId, b: NodeId) -> bool {
        self.model().spec_adjacent(a, b)
    }

    /// neighbor in the abstract graph.
    #[verifier::inline]
    pub open spec fn spec_neighbor(&self, id: NodeId, x: NodeId) -> bool {
        self.model().spec_neighbor(id, x)
    }

    /// neighbor set in the abstract graph.
    #[verifier::inline]
    pub open spec fn spec_neighbor_set(&self, id: NodeId) -> Set<NodeId> {
        self.model().spec_neighbor_set(id)
    }

    /// active degree in the abstract graph.
    #[verifier::inline]
    pub open spec fn spec_active_degree(&self, id: NodeId) -> nat {
        self.model().spec_active_degree(id)
    }

    /// allowed in the abstract graph.
    #[verifier::inline]
    pub open spec fn spec_allowed(&self, v: NodeId, excluded: Option<NodeId>) -> bool {
        self.model().spec_allowed(v, excluded)
    }

    /// is walk in the abstract graph.
    #[verifier::inline]
    pub open spec fn spec_is_walk(&self, path: Seq<NodeId>, excluded: Option<NodeId>) -> bool {
        self.model().spec_is_walk(path, excluded)
    }

    /// reachable in the abstract graph.
    #[verifier::inline]
    pub open spec fn spec_reachable(&self, from: NodeId, to: NodeId, excluded: Option<NodeId>) -> bool {
        self.model().spec_reachable(from, to, excluded)
    }

    /// is first allowed in the abstract graph.
    #[verifier::inline]
    pub open spec fn spec_is_first_allowed(&self, s: NodeId, excluded: Option<NodeId>) -> bool {
        self.model().spec_is_first_allowed(s, excluded)
    }

    /// reach count in the abstract graph.
    #[verifier::inline]
    pub open spec fn spec_reach_count(&self, excluded: Option<NodeId>) -> nat {
        self.model().spec_reach_count(excluded)
    }

    /// active count in the abstract graph.
    #[verifier::inline]
    pub open spec fn spec_active_count(&self) -> nat {
        self.model().spec_active_count()
    }

    /// connected in the abstract graph.
    #[verifier::inline]
    pub open spec fn spec_connected(&self) -> bool {
        self.model().spec_connected()
    }

    /// is articulation in the abstract graph.
    #[verifier::inline]
    pub open spec fn spec_is_articulation(&self, c: NodeId) -> bool {
        self.model().spec_is_articulation(c)
    }

    /// Address of the root advertised by `v`.
    pub open spec fn spec_root_address(&self, v: NodeId) -> Seq<u8> {
        self.spec_addresses()[self.spec_roots()[v as int] as int]@
    }

    /// Whether `u` sorts strictly before `v` by `(root address, id)`.
    pub open spec fn spec_root_key_lt(&self, u: NodeId, v: NodeId) -> bool {
        let c = lex_order(self.spec_root_address(u), self.spec_root_address(v));
        c < 0 || (c == 0 && u < v)
    }

    /// Active node ids below `k`, ascending.
    pub open spec fn spec_active_prefix(&self, k: nat) -> Seq<NodeId>
        decreases k,
    {
        if k == 0 {
            Seq::empty()
        } else {
            let rest = self.spec_active_prefix((k - 1) as nat);
            if self.spec_is_active((k - 1) as NodeId) {
                rest.push((k - 1) as NodeId)
            } else {
                rest
            }
        }
    }

    /// All active node ids, ascending.
    pub open spec fn spec_active_ids(&self) -> Seq<NodeId> {
        self.spec_active_prefix(self.spec_node_count())
    }

    /// The node an attachment selector resolves to, if it has one.
    pub open spec fn spec_selection_ok(&self, selector: AttachmentSelector, seed: u64, ordinal: u64, r: NodeId) -> bool {
        &&& self.spec_is_active(r)
        &&& match selector {
            AttachmentSelector::CurrentRoot => forall|v: NodeId| #[trigger] self.spec_is_active(v) ==> !self.spec_root_key_lt(v, r),
            AttachmentSelector::Leaf => self.spec_active_degree(r) <= 1 && forall|v: NodeId|
                v < r && #[trigger] self.spec_is_active(v) ==> self.spec_active_degree(v) > 1,
            AttachmentSelector::Hub => forall|v: NodeId| #[trigger] self.spec_is_active(v) ==> (
                self.spec_active_degree(v) < self.spec_active_degree(r)
                || (self.spec_active_degree(v) == self.spec_active_degree(r) && r <= v)),
            AttachmentSelector::Articulation => self.spec_is_articulation(r) && forall|v: NodeId|
                v < r ==> !#[trigger] self.spec_is_articulation(v),
            AttachmentSelector::Random => r == self.spec_active_ids()[
                (crate::mixing::spec_deterministic_u64(seed, ordinal) as usize) as int % self.spec_active_ids().len() as int],
        }
    }

    /// Whether an attachment selector has no eligible node.
    pub open spec fn spec_selection_empty(&self, selector: AttachmentSelector) -> bool {
        ||| self.spec_active_count() == 0
        ||| (selector == AttachmentSelector::Leaf && forall|v: NodeId| #[trigger] self.spec_is_active(v) ==> self.spec_active_degree(v) > 1)
        ||| (selector == AttachmentSelector::Articulation && forall|v: NodeId| !#[trigger] self.spec_is_articulation(v))
    }

    /// Storage well-formedness: equal column lengths, in-range normalized unique
    /// edges and tree columns that describe valid ancestries.
    pub closed spec fn wf(&self) -> bool {
        let n = self.addresses@.len();
        &&& n <= u32::MAX
        &&& self.active@.len() == n
        &&& self.roots@.len() == n
        &&& self.parents@.len() == n
        &&& self.sequences@.len() == n
        &&& self.ancestries@.len() == n
        &&& self.resource_classes@.len() == n
        &&& self.edge_a@.len() == self.edge_b@.len()
        &&& forall|i: int| 0 <= i < self.edge_a@.len() ==> #[trigger] self.edge_a@[i] < self.edge_b@[i]
        &&& forall|i: int| 0 <= i < self.edge_b@.len() ==> #[trigger] self.edge_b@[i] < n
        &&& forall|i: int, j: int|
            #![trigger self.edge_a@[i], self.edge_a@[j]]
            0 <= i < self.edge_a@.len() && 0 <= j < self.edge_a@.len() && i != j ==> (
            self.edge_a@[i] != self.edge_a@[j] || self.edge_b@[i] != self.edge_b@[j])
        &&& forall|i: int|
            0 <= i < n ==> valid_ancestry(i as NodeId, #[trigger] self.ancestries@[i]@, n)
        &&& forall|i: int| 0 <= i < n ==> #[trigger] self.roots@[i] == self.ancestries@[i]@.last()
        &&& forall|i: int|
            0 <= i < n ==> #[trigger] self.parents@[i] == ancestry_parent(self.ancestries@[i]@)
    }

    /// Every node column has one entry per stable node slot.
    pub proof fn lemma_column_lengths(&self)
        requires
            self.wf(),
        ensures
            self.spec_addresses().len() == self.spec_node_count(),
            self.spec_active().len() == self.spec_node_count(),
            self.spec_roots().len() == self.spec_node_count(),
            self.spec_parents().len() == self.spec_node_count(),
            self.spec_sequences().len() == self.spec_node_count(),
            self.spec_node_count() <= u32::MAX,
    {
    }

    proof fn lemma_edges_facts(&self)
        requires
            self.wf(),
        ensures
            self.spec_edges().len() == self.edge_a@.len(),
            forall|i: int|
                0 <= i < self.edge_a@.len() ==> #[trigger] self.spec_edges()[i] == (
                self.edge_a@[i],
                self.edge_b@[i],
            ),
            forall|i: int|
                0 <= i < self.spec_edges().len() ==> #[trigger] self.spec_edges()[i].0
                    < self.spec_edges()[i].1 && self.spec_edges()[i].1 < self.spec_node_count(),
    {
    }

    /// Create a store with `node_count` stable IDs and no edges.
    pub fn with_nodes(node_count: u32) -> (r: Self)
        ensures
            r.wf(),
            r.spec_node_count() == node_count,
            r.spec_edges().len() == 0,
            r.spec_fresh_columns(),
            forall|i: int| 0 <= i < node_count ==> #[trigger] r.spec_addresses()[i]@ == spec_initial_address(i as u32),
            forall|i: int| 0 <= i < node_count ==> #[trigger] r.spec_active()[i],
            forall|i: int| 0 <= i < node_count ==> #[trigger] r.spec_roots()[i] == i,
            forall|i: int| 0 <= i < node_count ==> #[trigger] r.spec_parents()[i] == None::<NodeId>,
            forall|i: int| 0 <= i < node_count ==> #[trigger] r.spec_sequences()[i] == 1,
            forall|i: int| 0 <= i < node_count ==> #[trigger] r.spec_ancestry(i) == seq![i as NodeId],
    {
        let mut addresses: Vec<NodeAddress> = Vec::new();
        let mut active: Vec<bool> = Vec::new();
        let mut roots: Vec<NodeId> = Vec::new();
        let mut parents: Vec<Option<NodeId>> = Vec::new();
        let mut sequences: Vec<u64> = Vec::new();
        let mut ancestries: Vec<Vec<NodeId>> = Vec::new();
        let mut resource_classes: Vec<u16> = Vec::new();
        let mut id: u32 = 0;
        while id < node_count
            invariant
                id <= node_count,
                addresses@.len() == id,
                active@.len() == id,
                roots@.len() == id,
                parents@.len() == id,
                sequences@.len() == id,
                ancestries@.len() == id,
                resource_classes@.len() == id,
                forall|i: int| 0 <= i < id ==> #[trigger] addresses@[i]@ == spec_initial_address(i as u32),
                forall|i: int| 0 <= i < id ==> #[trigger] active@[i],
                forall|i: int| 0 <= i < id ==> #[trigger] roots@[i] == i,
                forall|i: int| 0 <= i < id ==> #[trigger] parents@[i] == None::<NodeId>,
                forall|i: int| 0 <= i < id ==> #[trigger] sequences@[i] == 1,
                forall|i: int| 0 <= i < id ==> #[trigger] ancestries@[i]@ == seq![i as NodeId],
            decreases node_count - id,
        {
            addresses.push(NodeAddress::initial(id));
            active.push(true);
            roots.push(id);
            parents.push(None);
            sequences.push(1);
            let mut path: Vec<NodeId> = Vec::new();
            path.push(id);
            assert(path@ =~= seq![id]);
            ancestries.push(path);
            resource_classes.push(0);
            id = id + 1;
        }
        let r = Self {
            addresses,
            active,
            roots,
            parents,
            sequences,
            ancestries,
            resource_classes,
            edge_a: Vec::new(),
            edge_b: Vec::new(),
        };
        assert forall|i: int| 0 <= i < node_count implies valid_ancestry(
            i as NodeId,
            #[trigger] r.ancestries@[i]@,
            node_count as nat,
        ) by {
            assert(r.ancestries@[i]@ =~= seq![i as NodeId]);
        }
        r
    }

    /// Number of stable node slots.
    pub fn node_count(&self) -> (r: usize)
        requires
            self.wf(),
        ensures
            r == self.spec_node_count(),
    {
        self.addresses.len()
    }

    /// Number of stable undirected edges.
    pub fn edge_count(&self) -> (r: usize)
        requires
            self.wf(),
        ensures
            r == self.spec_edges().len(),
    {
        self.edge_a.len()
    }

    /// Stable node IDs in ascending order.
    pub fn node_ids(&self) -> (r: Vec<NodeId>)
        requires
            self.wf(),
        ensures
            r@.len() == self.spec_node_count(),
            forall|i: int| 0 <= i < r@.len() ==> #[trigger] r@[i] == i,
    {
        let n = self.addresses.len();
        let mut ids: Vec<NodeId> = Vec::new();
        let mut i: usize = 0;
        while i < n
            invariant
                n == self.spec_node_count(),
                n <= u32::MAX,
                i <= n,
                ids@.len() == i,
                forall|j: int| 0 <= j < i ==> #[trigger] ids@[j] == j,
            decreases n - i,
        {
            ids.push(i as NodeId);
            i = i + 1;
        }
        ids
    }

    /// Return an address by stable node ID.
    pub fn address(&self, id: NodeId) -> (r: Result<NodeAddress, GraphError>)
        requires
            self.wf(),
        ensures
            id < self.spec_node_count() ==> r == Ok::<NodeAddress, GraphError>(self.spec_addresses()[id as int]),
            id >= self.spec_node_count() ==> r == Err::<NodeAddress, GraphError>(GraphError::DanglingNode(id)),
    {
        if (id as usize) < self.addresses.len() {
            Ok(self.addresses[id as usize])
        } else {
            Err(GraphError::DanglingNode(id))
        }
    }

    /// Replace an address while preserving the stable ID.
    pub fn set_address(&mut self, id: NodeId, address: NodeAddress) -> (r: Result<(), GraphError>)
        requires
            old(self).wf(),
        ensures
            final(self).wf(),
            id < old(self).spec_node_count() ==> r is Ok && final(self).spec_addresses() == old(self).spec_addresses().update(id as int, address),
            id >= old(self).spec_node_count() ==> r == Err::<(), GraphError>(GraphError::DanglingNode(id)) && final(self).spec_addresses() == old(self).spec_addresses(),
            final(self).spec_node_count() == old(self).spec_node_count(),
            final(self).spec_edges() == old(self).spec_edges(),
            final(self).spec_active() == old(self).spec_active(),
            final(self).spec_roots() == old(self).spec_roots(),
            final(self).spec_parents() == old(self).spec_parents(),
            final(self).spec_sequences() == old(self).spec_sequences(),
            forall|i: int| 0 <= i < old(self).spec_node_count() ==> #[trigger] final(self).spec_ancestry(i) == old(self).spec_ancestry(i),
    {
        if (id as usize) < self.addresses.len() {
            self.addresses.set(id as usize, address);
            Ok(())
        } else {
            Err(GraphError::DanglingNode(id))
        }
    }

    /// Whether a node participates in the current graph.
    pub fn is_active(&self, id: NodeId) -> (r: bool)
        requires
            self.wf(),
        ensures
            r == self.spec_is_active(id),
    {
        if (id as usize) < self.active.len() {
            self.active[id as usize]
        } else {
            false
        }
    }

    /// Activate or reserve a stable node slot.
    pub fn set_active(&mut self, id: NodeId, active: bool) -> (r: Result<(), GraphError>)
        requires
            old(self).wf(),
        ensures
            final(self).wf(),
            id < old(self).spec_node_count() ==> r is Ok && final(self).spec_active() == old(self).spec_active().update(id as int, active),
            id >= old(self).spec_node_count() ==> r == Err::<(), GraphError>(GraphError::DanglingNode(id)) && final(self).spec_active() == old(self).spec_active(),
            final(self).spec_node_count() == old(self).spec_node_count(),
            final(self).spec_edges() == old(self).spec_edges(),
            final(self).spec_addresses() == old(self).spec_addresses(),
            final(self).spec_roots() == old(self).spec_roots(),
            final(self).spec_parents() == old(self).spec_parents(),
            final(self).spec_sequences() == old(self).spec_sequences(),
            forall|i: int| 0 <= i < old(self).spec_node_count() ==> #[trigger] final(self).spec_ancestry(i) == old(self).spec_ancestry(i),
    {
        if (id as usize) < self.active.len() {
            self.active.set(id as usize, active);
            Ok(())
        } else {
            Err(GraphError::DanglingNode(id))
        }
    }

    /// Mark the highest stable IDs inactive for later arrivals.
    pub fn reserve_arrivals(&mut self, count: u32) -> (r: Result<(), GraphError>)
        requires
            old(self).wf(),
        ensures
            final(self).wf(),
            count >= old(self).spec_node_count() ==> r == Err::<(), GraphError>(GraphError::ArrivalCount(count)) && *final(self) == *old(self),
            count < old(self).spec_node_count() ==> r is Ok && final(self).spec_active() == Seq::new(
                old(self).spec_node_count(),
                |i: int| if i >= old(self).spec_node_count() - count { false } else { old(self).spec_active()[i] },
            ),
            final(self).spec_node_count() == old(self).spec_node_count(),
            final(self).spec_edges() == old(self).spec_edges(),
            final(self).spec_addresses() == old(self).spec_addresses(),
            final(self).spec_roots() == old(self).spec_roots(),
            final(self).spec_parents() == old(self).spec_parents(),
            final(self).spec_sequences() == old(self).spec_sequences(),
            forall|i: int| 0 <= i < old(self).spec_node_count() ==> #[trigger] final(self).spec_ancestry(i) == old(self).spec_ancestry(i),
    {
        let n = self.active.len();
        if count as usize >= n {
            return Err(GraphError::ArrivalCount(count));
        }
        let start = n - count as usize;
        let mut id = start;
        while id < n
            invariant
                start <= id <= n,
                n == old(self).spec_node_count(),
                start == n - count,
                self.active@.len() == n,
                self.addresses == old(self).addresses,
                self.roots == old(self).roots,
                self.parents == old(self).parents,
                self.sequences == old(self).sequences,
                self.ancestries == old(self).ancestries,
                self.resource_classes == old(self).resource_classes,
                self.edge_a == old(self).edge_a,
                self.edge_b == old(self).edge_b,
                forall|i: int| 0 <= i < n ==> #[trigger] self.active@[i] == if start <= i < id { false } else { old(self).active@[i] },
            decreases n - id,
        {
            self.active.set(id, false);
            id = id + 1;
        }
        assert(self.spec_active() =~= Seq::new(
            old(self).spec_node_count(),
            |i: int| if i >= old(self).spec_node_count() - count { false } else { old(self).spec_active()[i] },
        ));
        Ok(())
    }

    /// Add a stable undirected edge.
    pub fn add_edge(&mut self, a: NodeId, b: NodeId) -> (r: Result<EdgeId, GraphError>)
        requires
            old(self).wf(),
        ensures
            final(self).wf(),
            spec_add_edge(old(self).spec_edges(), old(self).spec_node_count(), a, b) == match r {
                Ok(_) => Ok::<Seq<(NodeId, NodeId)>, GraphError>(final(self).spec_edges()),
                Err(e) => Err::<Seq<(NodeId, NodeId)>, GraphError>(e),
            },
            a >= old(self).spec_node_count() ==> r == Err::<EdgeId, GraphError>(GraphError::DanglingNode(a)),
            a < old(self).spec_node_count() && b >= old(self).spec_node_count() ==> r == Err::<EdgeId, GraphError>(GraphError::DanglingNode(b)),
            a < old(self).spec_node_count() && b < old(self).spec_node_count() && a == b ==> r == Err::<EdgeId, GraphError>(GraphError::SelfEdge(a)),
            a < old(self).spec_node_count() && b < old(self).spec_node_count() && a != b && old(self).spec_adjacent(a, b)
                ==> r == Err::<EdgeId, GraphError>(GraphError::DuplicateEdge(ordered_pair(a, b).0, ordered_pair(a, b).1)),
            r is Err ==> final(self).spec_edges() == old(self).spec_edges(),
            a < old(self).spec_node_count() && b < old(self).spec_node_count() && a != b && !old(self).spec_adjacent(a, b)
                ==> r == Ok::<EdgeId, GraphError>((old(self).spec_edges().len() as usize) as EdgeId)
                    && final(self).spec_edges() == old(self).spec_edges().push(ordered_pair(a, b)),
            final(self).spec_node_count() == old(self).spec_node_count(),
            final(self).spec_addresses() == old(self).spec_addresses(),
            final(self).spec_active() == old(self).spec_active(),
            final(self).spec_roots() == old(self).spec_roots(),
            final(self).spec_parents() == old(self).spec_parents(),
            final(self).spec_sequences() == old(self).spec_sequences(),
            forall|i: int| 0 <= i < old(self).spec_node_count() ==> #[trigger] final(self).spec_ancestry(i) == old(self).spec_ancestry(i),
    {
        let n = self.addresses.len();
        if a as usize >= n {
            return Err(GraphError::DanglingNode(a));
        }
        if b as usize >= n {
            return Err(GraphError::DanglingNode(b));
        }
        if a == b {
            return Err(GraphError::SelfEdge(a));
        }
        let (lo, hi) = if a < b { (a, b) } else { (b, a) };
        proof { self.lemma_edges_facts(); }
        if self.edge_between(a, b).is_some() {
            return Err(GraphError::DuplicateEdge(lo, hi));
        }
        let id = #[verifier::truncate] (self.edge_a.len() as EdgeId);
        let ghost old_edges = self.spec_edges();
        self.edge_a.push(lo);
        self.edge_b.push(hi);
        assert(self.spec_edges() =~= old_edges.push((lo, hi)));
        assert forall|i: int, j: int|
            #![trigger self.edge_a@[i], self.edge_a@[j]]
            0 <= i < self.edge_a@.len() && 0 <= j < self.edge_a@.len() && i != j implies (
            self.edge_a@[i] != self.edge_a@[j] || self.edge_b@[i] != self.edge_b@[j]) by {
            if i == old_edges.len() as int {
                assert(old_edges[j] == (self.edge_a@[j], self.edge_b@[j]));
            } else if j == old_edges.len() as int {
                assert(old_edges[i] == (self.edge_a@[i], self.edge_b@[i]));
            }
        }
        Ok(id)
    }

    /// Edge endpoints by stable ID.
    pub fn edge(&self, id: EdgeId) -> (r: Result<(NodeId, NodeId), GraphError>)
        requires
            self.wf(),
        ensures
            id < self.spec_edges().len() ==> r == Ok::<(NodeId, NodeId), GraphError>(self.spec_edges()[id as int]),
            id >= self.spec_edges().len() ==> r == Err::<(NodeId, NodeId), GraphError>(GraphError::DanglingEdge(id)),
    {
        let index = id as usize;
        if index < self.edge_a.len() {
            Ok((self.edge_a[index], self.edge_b[index]))
        } else {
            Err(GraphError::DanglingEdge(id))
        }
    }

    /// Stable edge ID between two nodes.
    pub fn edge_between(&self, left: NodeId, right: NodeId) -> (r: Option<EdgeId>)
        requires
            self.wf(),
        ensures
            r is None <==> !self.spec_adjacent(left, right),
            r matches Some(e) ==> exists|i: int| 0 <= i < self.spec_edges().len() && #[trigger] self.spec_edges()[i] == ordered_pair(left, right) && e == (i as usize) as EdgeId,
    {
        let (a, b) = if left < right { (left, right) } else { (right, left) };
        let len = self.edge_a.len();
        let mut i: usize = 0;
        proof { self.lemma_edges_facts(); }
        while i < len
            invariant
                self.wf(),
                len == self.edge_a@.len(),
                (a, b) == ordered_pair(left, right),
                i <= len,
                forall|j: int| 0 <= j < i ==> #[trigger] self.spec_edges()[j] != (a, b),
            decreases len - i,
        {
            proof { self.lemma_edges_facts(); }
            if self.edge_a[i] == a && self.edge_b[i] == b {
                assert(self.spec_edges()[i as int] == (a, b));
                return Some(#[verifier::truncate] (i as EdgeId));
            }
            i = i + 1;
        }
        proof { self.lemma_edges_facts(); }
        assert(!self.spec_edges().contains((a, b)));
        None
    }

    /// Active neighbors in stable ID order.
    pub fn active_neighbors(&self, id: NodeId) -> (r: Vec<NodeId>)
        requires
            self.wf(),
        ensures
            strictly_sorted(r@),
            forall|x: NodeId| #[trigger] r@.contains(x) <==> self.spec_neighbor(id, x),
            r@.len() == self.spec_active_degree(id),
            r@.len() <= self.spec_edges().len(),
            r@.len() <= self.spec_node_count(),
    {
        let len = self.edge_a.len();
        let mut neighbors: Vec<NodeId> = Vec::new();
        let mut i: usize = 0;
        proof { self.lemma_edges_facts(); }
        while i < len
            invariant
                self.wf(),
                len == self.edge_a@.len(),
                i <= len,
                neighbors@.len() <= i,
                strictly_sorted(neighbors@),
                forall|x: NodeId| #[trigger] neighbors@.contains(x) <==> (self.spec_is_active(x) && exists|j: int|
                    0 <= j < i && #[trigger] self.spec_edges()[j] == ordered_pair(id, x)),
            decreases len - i,
        {
            proof { self.lemma_edges_facts(); }
            let a = self.edge_a[i];
            let b = self.edge_b[i];
            let candidate = if a == id && self.is_active(b) {
                Some(b)
            } else if b == id && self.is_active(a) {
                Some(a)
            } else {
                None
            };
            let ghost prev = neighbors@;
            if let Some(c) = candidate {
                assert(self.spec_edges()[i as int] == ordered_pair(id, c));
                proof {
                    if neighbors@.contains(c) {
                        let j = choose|j: int| 0 <= j < i && #[trigger] self.spec_edges()[j] == ordered_pair(id, c);
                        assert(self.edge_a@[j] == self.edge_a@[i as int]);
                        assert(false);
                    }
                }
                sorted_insert(&mut neighbors, c);
            }
            assert forall|x: NodeId| #[trigger] neighbors@.contains(x) <==> (self.spec_is_active(x) && exists|j: int|
                0 <= j < i + 1 && #[trigger] self.spec_edges()[j] == ordered_pair(id, x)) by {
                if self.spec_edges()[i as int] == ordered_pair(id, x) && self.spec_is_active(x) {
                    assert(candidate == Some(x));
                }
                if neighbors@.contains(x) && !prev.contains(x) {
                    assert(self.spec_edges()[i as int] == ordered_pair(id, x));
                }
            }
            i = i + 1;
        }
        proof {
            assert forall|x: NodeId| #[trigger] neighbors@.contains(x) <==> self.spec_neighbor(id, x) by {
                if self.spec_neighbor(id, x) {
                    let j = choose|j: int| 0 <= j < self.spec_edges().len() && self.spec_edges()[j] == ordered_pair(id, x);
                    assert(self.spec_edges()[j] == ordered_pair(id, x));
                }
            }
            assert(neighbors@.no_duplicates());
            assert forall|i: int| 0 <= i < neighbors@.len() implies #[trigger] neighbors@[i] < self.spec_node_count() by {
                assert(neighbors@.contains(neighbors@[i]));
            }
            lemma_sorted_len(neighbors@, self.spec_node_count());
            neighbors@.unique_seq_to_set();
            assert(neighbors@.to_set() =~= self.spec_neighbor_set(id));
        }
        neighbors
    }

    /// Degree among active nodes.
    pub fn active_degree(&self, id: NodeId) -> (r: usize)
        requires
            self.wf(),
        ensures
            r == self.spec_active_degree(id),
            r <= self.spec_node_count(),
    {
        self.active_neighbors(id).len()
    }

    /// Read the advertised root of a node.
    pub fn root(&self, id: NodeId) -> (r: NodeId)
        requires
            self.wf(),
            id < self.spec_node_count(),
        ensures
            r == self.spec_roots()[id as int],
            r == self.spec_ancestry(id as int).last(),
            r < self.spec_node_count(),
    {
        proof { assert(valid_ancestry(id, self.ancestries@[id as int]@, self.spec_node_count())); }
        self.roots[id as usize]
    }

    /// Read the selected parent of a node.
    pub fn parent(&self, id: NodeId) -> (r: Option<NodeId>)
        requires
            self.wf(),
            id < self.spec_node_count(),
        ensures
            r == self.spec_parents()[id as int],
            r == ancestry_parent(self.spec_ancestry(id as int)),
    {
        self.parents[id as usize]
    }

    /// Read the current ancestry `[self, ..., root]`.
    pub fn ancestry(&self, id: NodeId) -> (r: &[NodeId])
        requires
            self.wf(),
            id < self.spec_node_count(),
        ensures
            r@ == self.spec_ancestry(id as int),
            valid_ancestry(id, r@, self.spec_node_count()),
    {
        proof { assert(valid_ancestry(id, self.ancestries@[id as int]@, self.spec_node_count())); }
        self.ancestries[id as usize].as_slice()
    }

    /// Read the current declaration sequence.
    pub fn sequence(&self, id: NodeId) -> (r: u64)
        requires
            self.wf(),
            id < self.spec_node_count(),
        ensures
            r == self.spec_sequences()[id as int],
    {
        self.sequences[id as usize]
    }

    /// Atomically update tree state and increment the declaration sequence.
    pub fn set_tree(&mut self, id: NodeId, parent: Option<NodeId>, ancestry: Vec<NodeId>) -> (r: Result<(), GraphError>)
        requires
            old(self).wf(),
        ensures
            final(self).wf(),
            r is Ok <==> (valid_ancestry(id, ancestry@, old(self).spec_node_count()) && parent == ancestry_parent(ancestry@)),
            r is Err ==> r == Err::<(), GraphError>(GraphError::InvalidAncestry(id)) && *final(self) == *old(self),
            r is Ok ==> {
                &&& final(self).spec_parents() == old(self).spec_parents().update(id as int, parent)
                &&& final(self).spec_roots() == old(self).spec_roots().update(id as int, ancestry@.last())
                &&& final(self).spec_sequences() == old(self).spec_sequences().update(
                    id as int,
                    if old(self).spec_sequences()[id as int] == u64::MAX { u64::MAX } else { (old(self).spec_sequences()[id as int] + 1) as u64 },
                )
                &&& final(self).spec_ancestry(id as int) == ancestry@
                &&& forall|i: int| 0 <= i < old(self).spec_node_count() && i != id ==> #[trigger] final(self).spec_ancestry(i) == old(self).spec_ancestry(i)
            },
            final(self).spec_node_count() == old(self).spec_node_count(),
            final(self).spec_edges() == old(self).spec_edges(),
            final(self).spec_addresses() == old(self).spec_addresses(),
            final(self).spec_active() == old(self).spec_active(),
    {
        let n = self.addresses.len();
        let len = ancestry.len();
        if len == 0 || ancestry[0] != id {
            return Err(GraphError::InvalidAncestry(id));
        }
        let mut i: usize = 0;
        while i < len
            invariant
                len == ancestry@.len(),
                n == self.spec_node_count(),
                self.wf(),
                *self == *old(self),
                i <= len,
                forall|k: int| 0 <= k < i ==> (#[trigger] ancestry@[k]) < n,
                forall|k: int, l: int| 0 <= k < i && 0 <= l < len && k != l ==> ancestry@[k] != ancestry@[l],
            decreases len - i,
        {
            if ancestry[i] as usize >= n {
                return Err(GraphError::InvalidAncestry(id));
            }
            let mut j: usize = 0;
            while j < len
                invariant
                    len == ancestry@.len(),
                    self.wf(),
                    *self == *old(self),
                    i < len,
                    j <= len,
                    forall|l: int| 0 <= l < j && l != i ==> ancestry@[i as int] != ancestry@[l],
                decreases len - j,
            {
                if j != i && ancestry[j] == ancestry[i] {
                    return Err(GraphError::InvalidAncestry(id));
                }
                j = j + 1;
            }
            i = i + 1;
        }
        let expected_parent = if len > 1 { Some(ancestry[1]) } else { None };
        if parent != expected_parent {
            return Err(GraphError::InvalidAncestry(id));
        }
        let root = ancestry[len - 1];
        let next = if self.sequences[id as usize] == u64::MAX { u64::MAX } else { self.sequences[id as usize] + 1 };
        let ghost prev = *self;
        self.parents.set(id as usize, parent);
        self.roots.set(id as usize, root);
        self.ancestries.set(id as usize, ancestry);
        self.sequences.set(id as usize, next);
        proof {
            assert forall|i: int| 0 <= i < n implies valid_ancestry(i as NodeId, #[trigger] self.ancestries@[i]@, n as nat) by {
                if i != id {
                    assert(self.ancestries@[i] == prev.ancestries@[i]);
                }
            }
        }
        Ok(())
    }

    /// Reset a node to a self-root state without changing its address.
    pub fn reset_self_root(&mut self, id: NodeId) -> (r: Result<(), GraphError>)
        requires
            old(self).wf(),
        ensures
            final(self).wf(),
            id >= old(self).spec_node_count() ==> r == Err::<(), GraphError>(GraphError::InvalidAncestry(id)) && *final(self) == *old(self),
            id < old(self).spec_node_count() ==> {
                &&& r is Ok
                &&& final(self).spec_parents() == old(self).spec_parents().update(id as int, None)
                &&& final(self).spec_roots() == old(self).spec_roots().update(id as int, id)
                &&& final(self).spec_ancestry(id as int) == seq![id]
                &&& final(self).spec_sequences() == old(self).spec_sequences().update(
                    id as int,
                    if old(self).spec_sequences()[id as int] == u64::MAX { u64::MAX } else { (old(self).spec_sequences()[id as int] + 1) as u64 },
                )
                &&& forall|i: int| 0 <= i < old(self).spec_node_count() && i != id ==> #[trigger] final(self).spec_ancestry(i) == old(self).spec_ancestry(i)
            },
            final(self).spec_node_count() == old(self).spec_node_count(),
            final(self).spec_edges() == old(self).spec_edges(),
            final(self).spec_addresses() == old(self).spec_addresses(),
            final(self).spec_active() == old(self).spec_active(),
    {
        let mut path: Vec<NodeId> = Vec::new();
        path.push(id);
        assert(path@ =~= seq![id]);
        self.set_tree(id, None, path)
    }

    /// A walk that only visits a neighbor-closed marked set ends inside it.
    proof fn lemma_closed_walk(&self, seen: Seq<bool>, path: Seq<NodeId>, excluded: Option<NodeId>)
        requires
            self.wf(),
            seen.len() == self.spec_node_count(),
            self.spec_is_walk(path, excluded),
            seen[path[0] as int],
            forall|u: NodeId, w: NodeId|
                u < self.spec_node_count() && #[trigger] seen[u as int] && self.spec_allowed(w, excluded)
                    && #[trigger] self.spec_adjacent(u, w) ==> seen[w as int],
        ensures
            seen[path.last() as int],
        decreases path.len(),
    {
        if path.len() > 1 {
            let prefix = path.drop_last();
            assert forall|i: int| 0 <= i < prefix.len() - 1 implies self.spec_adjacent(#[trigger] prefix[i], prefix[i + 1]) by {
                assert(self.spec_adjacent(path[i], path[i + 1]));
            }
            assert forall|i: int| 0 <= i < prefix.len() implies self.spec_allowed(#[trigger] prefix[i], excluded) by {
                assert(self.spec_allowed(path[i], excluded));
            }
            self.lemma_closed_walk(seen, prefix, excluded);
            let k = path.len() - 2;
            assert(self.spec_adjacent(path[k], path[k + 1]));
            assert(self.spec_allowed(path[k + 1], excluded));
        }
    }

    /// Extending a walk by one allowed neighbor keeps it a walk.
    proof fn lemma_walk_push(&self, path: Seq<NodeId>, w: NodeId, excluded: Option<NodeId>)
        requires
            self.spec_is_walk(path, excluded),
            self.spec_allowed(w, excluded),
            self.spec_adjacent(path.last(), w),
        ensures
            self.spec_is_walk(path.push(w), excluded),
            path.push(w)[0] == path[0],
            path.push(w).last() == w,
    {
        let q = path.push(w);
        assert forall|i: int| 0 <= i < q.len() - 1 implies self.spec_adjacent(#[trigger] q[i], q[i + 1]) by {
            if i < path.len() - 1 {
                assert(q[i] == path[i] && q[i + 1] == path[i + 1]);
            }
        }
        assert forall|i: int| 0 <= i < q.len() implies self.spec_allowed(#[trigger] q[i], excluded) by {
            if i < path.len() {
                assert(q[i] == path[i]);
            }
        }
    }

    /// Count of nodes reachable from the smallest allowed node, by breadth-first search.
    fn reachable_count_excluding(&self, excluded: Option<NodeId>) -> (r: usize)
        requires
            self.wf(),
        ensures
            r == self.spec_reach_count(excluded),
    {
        let n = self.addresses.len();
        // smallest allowed start
        let mut s: usize = 0;
        while s < n && !(self.active[s] && excluded != Some(s as NodeId))
            invariant
                self.wf(),
                n == self.spec_node_count(),
                s <= n,
                forall|v: NodeId| v < s ==> !#[trigger] self.spec_allowed(v, excluded),
            decreases n - s,
        {
            s = s + 1;
        }
        if s == n {
            proof {
                assert(!exists|x: NodeId| self.spec_is_first_allowed(x, excluded));
            }
            return 0;
        }
        let start = s as NodeId;
        assert(self.spec_is_first_allowed(start, excluded));
        let ghost chosen = choose|x: NodeId| self.spec_is_first_allowed(x, excluded);
        proof {
            if chosen != start {
                if chosen < start {
                    assert(!self.spec_allowed(chosen, excluded));
                } else {
                    assert(!self.spec_allowed(start, excluded));
                }
            }
        }
        let (seen, count) = self.reach_from(start, excluded);
        proof {
            lemma_count_ext(n as nat, |v: NodeId| seen@[v as int], |v: NodeId| self.spec_reachable(start, v, excluded));
        }
        count
    }

    /// Nodes reachable from an allowed `start` while avoiding `excluded`, by
    /// breadth-first search, and how many there are.
    fn reach_from(&self, start: NodeId, excluded: Option<NodeId>) -> (r: (Vec<bool>, usize))
        requires
            self.wf(),
            start < self.spec_node_count(),
            self.spec_allowed(start, excluded),
        ensures
            r.0@.len() == self.spec_node_count(),
            forall|v: NodeId| v < self.spec_node_count() ==> #[trigger] r.0@[v as int] == self.spec_reachable(start, v, excluded),
            r.1 == count_below(self.spec_node_count(), |v: NodeId| r.0@[v as int]),
    {
        let n = self.addresses.len();
        let ghost chosen = start;
        let mut seen: Vec<bool> = Vec::new();
        let mut k: usize = 0;
        while k < n
            invariant
                k <= n,
                seen@.len() == k,
                forall|v: int| 0 <= v < k ==> !#[trigger] seen@[v],
            decreases n - k,
        {
            seen.push(false);
            k = k + 1;
        }
        proof {
            lemma_count_ext(n as nat, |v: NodeId| seen@[v as int], |v: NodeId| false);
            assert(count_below(n as nat, |v: NodeId| false) == 0) by {
                lemma_count_mono(n as nat, |v: NodeId| false, |v: NodeId| false);
                lemma_count_zero(n as nat);
            }
        }
        let ghost before = seen@;
        seen.set(start as usize, true);
        proof {
            lemma_count_flip(n as nat, |v: NodeId| before[v as int], |v: NodeId| seen@[v as int], start);
            let p = seq![start];
            assert(self.spec_is_walk(p, excluded));
        }
        let mut queue: Vec<NodeId> = Vec::new();
        queue.push(start);
        let mut count: usize = 1;
        proof {
            assert forall|v: int| 0 <= v < n && #[trigger] seen@[v] implies exists|k: int| 0 <= k < queue@.len() && queue@[k] == v by {
                if v != start {
                    assert(!before[v]);
                }
                assert(queue@[0] == v);
            }
        }
        let mut head: usize = 0;
        while head < queue.len()
            invariant
                self.wf(),
                n == self.spec_node_count(),
                n <= u32::MAX,
                start < n,
                chosen == start,
                seen@.len() == n,
                seen@[start as int],
                head <= queue@.len(),
                queue@.len() == count,
                count == count_below(n as nat, |v: NodeId| seen@[v as int]),
                forall|k: int| 0 <= k < queue@.len() ==> (#[trigger] queue@[k]) < n && seen@[queue@[k] as int],
                forall|v: int| 0 <= v < n && #[trigger] seen@[v] ==> exists|k: int| 0 <= k < queue@.len() && queue@[k] == v,
                forall|v: NodeId| v < n && #[trigger] seen@[v as int] ==> self.spec_reachable(start, v, excluded),
                forall|k: int, w: NodeId|
                    0 <= k < head && self.spec_allowed(w, excluded) && #[trigger] self.spec_adjacent(#[trigger] queue@[k], w) ==> seen@[w as int],
            decreases n - head,
        {
            proof {
                lemma_count_bound(n as nat, |v: NodeId| seen@[v as int]);
            }
            let node = queue[head];
            let neighbors = self.active_neighbors(node);
            let m = neighbors.len();
            let mut j: usize = 0;
            proof {
                assert forall|i: int| 0 <= i < m implies #[trigger] neighbors@[i] < n by {
                    assert(neighbors@.contains(neighbors@[i]));
                }
            }
            while j < m
                invariant
                    self.wf(),
                    n == self.spec_node_count(),
                    n <= u32::MAX,
                    start < n,
                    node < n,
                    node == queue@[head as int],
                    head < queue@.len(),
                    seen@[node as int],
                    m == neighbors@.len(),
                    j <= m,
                    forall|i: int| 0 <= i < m ==> #[trigger] neighbors@[i] < n,
                    forall|x: NodeId| #[trigger] neighbors@.contains(x) <==> self.spec_neighbor(node, x),
                    seen@.len() == n,
                    seen@[start as int],
                    queue@.len() == count,
                    count == count_below(n as nat, |v: NodeId| seen@[v as int]),
                    forall|k: int| 0 <= k < queue@.len() ==> (#[trigger] queue@[k]) < n && seen@[queue@[k] as int],
                    forall|v: int| 0 <= v < n && #[trigger] seen@[v] ==> exists|k: int| 0 <= k < queue@.len() && queue@[k] == v,
                    forall|v: NodeId| v < n && #[trigger] seen@[v as int] ==> self.spec_reachable(start, v, excluded),
                    forall|k: int, w: NodeId|
                        0 <= k < head && self.spec_allowed(w, excluded) && #[trigger] self.spec_adjacent(#[trigger] queue@[k], w) ==> seen@[w as int],
                    forall|i: int| 0 <= i < j ==> excluded == Some(#[trigger] neighbors@[i]) || seen@[neighbors@[i] as int],
                decreases m - j,
            {
                let w = neighbors[j];
                assert(neighbors@.contains(w));
                if excluded != Some(w) && !seen[w as usize] {
                    proof {
                        let path = choose|path: Seq<NodeId>| #[trigger] self.spec_is_walk(path, excluded) && path[0] == start && path.last() == node;
                        self.lemma_walk_push(path, w, excluded);
                        lemma_count_bound(n as nat, |v: NodeId| seen@[v as int]);
                        if count == n {
                            lemma_count_flip(n as nat, |v: NodeId| seen@[v as int], |v: NodeId| seen@[v as int] || v == w, w);
                            lemma_count_bound(n as nat, |v: NodeId| seen@[v as int] || v == w);
                        }
                    }
                    let ghost prev = seen@;
                    let ghost prevq = queue@;
                    seen.set(w as usize, true);
                    proof {
                        lemma_count_flip(n as nat, |v: NodeId| prev[v as int], |v: NodeId| seen@[v as int], w);
                    }
                    queue.push(w);
                    count = count + 1;
                    proof {
                        assert forall|v: int| 0 <= v < n && #[trigger] seen@[v] implies exists|k: int| 0 <= k < queue@.len() && queue@[k] == v by {
                            if v == w {
                                assert(queue@[queue@.len() - 1] == v);
                            } else {
                                assert(prev[v]);
                                let k = choose|k: int| 0 <= k < prevq.len() && prevq[k] == v;
                                assert(queue@[k] == v);
                            }
                        }
                        assert forall|v: NodeId| v < n && #[trigger] seen@[v as int] implies self.spec_reachable(start, v, excluded) by {
                            if v == w {
                                let path = choose|path: Seq<NodeId>| #[trigger] self.spec_is_walk(path, excluded) && path[0] == start && path.last() == node;
                                self.lemma_walk_push(path, w, excluded);
                                assert(self.spec_is_walk(path.push(w), excluded));
                            } else {
                                assert(prev[v as int]);
                            }
                        }
                    }
                }
                assert(excluded == Some(neighbors@[j as int]) || seen@[neighbors@[j as int] as int]);
                j = j + 1;
            }
            proof {
                assert forall|k: int, w: NodeId|
                    0 <= k < head + 1 && self.spec_allowed(w, excluded) && #[trigger] self.spec_adjacent(#[trigger] queue@[k], w) implies seen@[w as int] by {
                    if k == head {
                        assert(self.spec_neighbor(node, w));
                        assert(neighbors@.contains(w));
                        let i = choose|i: int| 0 <= i < neighbors@.len() && neighbors@[i] == w;
                        assert(excluded == Some(neighbors@[i]) || seen@[neighbors@[i] as int]);
                    }
                }
            }
            head = head + 1;
        }
        proof {
            assert forall|u: NodeId, w: NodeId|
                u < n && #[trigger] seen@[u as int] && self.spec_allowed(w, excluded)
                    && #[trigger] self.spec_adjacent(u, w) implies seen@[w as int] by {
                let k = choose|k: int| 0 <= k < queue@.len() && queue@[k] == u as int;
                assert(self.spec_adjacent(queue@[k], w));
            }
            assert forall|v: NodeId| v < n implies #[trigger] seen@[v as int] == self.spec_reachable(start, v, excluded) by {
                if self.spec_reachable(start, v, excluded) {
                    let path = choose|path: Seq<NodeId>| #[trigger] self.spec_is_walk(path, excluded) && path[0] == start && path.last() == v;
                    self.lemma_closed_walk(seen@, path, excluded);
                }
            }
        }
        (seen, count)
    }

    /// Number of active nodes.
    fn active_count(&self) -> (r: usize)
        requires
            self.wf(),
        ensures
            r == self.spec_active_count(),
    {
        let n = self.active.len();
        let mut count: usize = 0;
        let mut i: usize = 0;
        while i < n
            invariant
                self.wf(),
                n == self.spec_node_count(),
                i <= n,
                count == count_below(i as nat, |v: NodeId| self.spec_is_active(v)),
            decreases n - i,
        {
            proof {
                lemma_count_bound(i as nat, |v: NodeId| self.spec_is_active(v));
            }
            if self.active[i] {
                count = count + 1;
            }
            i = i + 1;
        }
        count
    }

    /// True if all active nodes share one component.
    pub fn is_connected_active(&self) -> (r: bool)
        requires
            self.wf(),
        ensures
            r == self.spec_connected(),
    {
        let active_count = self.active_count();
        active_count <= 1 || self.reachable_count_excluding(None) == active_count
    }

    /// Whether active node `c` is an articulation point: its active neighbors do not
    /// all reach its first active neighbor once `c` is removed.
    fn is_articulation(&self, c: NodeId) -> (r: bool)
        requires
            self.wf(),
            c < self.spec_node_count(),
        ensures
            r == self.spec_is_articulation(c),
    {
        if !self.active[c as usize] {
            return false;
        }
        let ghost m = self.model();
        proof {
            self.lemma_edges_facts();
            assert(!m.spec_adjacent(c, c)) by {
                if m.spec_adjacent(c, c) {
                    let i = choose|i: int| 0 <= i < m.edges.len() && m.edges[i] == ordered_pair(c, c);
                    assert(m.edges[i].0 < m.edges[i].1);
                }
            }
        }
        let neighbors = self.active_neighbors(c);
        if neighbors.len() == 0 {
            proof {
                assert forall|u: NodeId| #[trigger] m.spec_adjacent(c, u) && m.spec_allowed(u, Some(c)) implies m.spec_reachable(c, u, Some(c)) by {
                    assert(self.spec_neighbor(c, u));
                    assert(neighbors@.contains(u));
                }
                lemma_no_split(m, c, c);
            }
            return false;
        }
        let x0 = neighbors[0];
        proof {
            assert(neighbors@.contains(x0));
            assert forall|i: int| 0 <= i < neighbors@.len() implies #[trigger] neighbors@[i] != c && m.spec_adjacent(c, neighbors@[i])
                && m.spec_allowed(neighbors@[i], Some(c)) && neighbors@[i] < self.spec_node_count() by {
                assert(neighbors@.contains(neighbors@[i]));
            }
        }
        let (seen, _) = self.reach_from(x0, Some(c));
        let mut j: usize = 0;
        while j < neighbors.len()
            invariant
                self.wf(),
                m == self.model(),
                c < self.spec_node_count(),
                self.spec_is_active(c),
                !m.spec_adjacent(c, c),
                x0 == neighbors@[0],
                neighbors@.len() > 0,
                j <= neighbors@.len(),
                seen@.len() == self.spec_node_count(),
                forall|v: NodeId| v < self.spec_node_count() ==> #[trigger] seen@[v as int] == m.spec_reachable(x0, v, Some(c)),
                forall|x: NodeId| #[trigger] neighbors@.contains(x) <==> self.spec_neighbor(c, x),
                forall|i: int| 0 <= i < neighbors@.len() ==> #[trigger] neighbors@[i] != c && m.spec_adjacent(c, neighbors@[i])
                    && m.spec_allowed(neighbors@[i], Some(c)) && neighbors@[i] < self.spec_node_count(),
                forall|i: int| 0 <= i < j ==> seen@[#[trigger] neighbors@[i] as int],
            decreases neighbors@.len() - j,
        {
            let y = neighbors[j];
            if !seen[y as usize] {
                proof {
                    assert(!m.spec_reachable(x0, y, Some(c)));
                    lemma_split(m, c, x0, y);
                }
                return true;
            }
            j = j + 1;
        }
        proof {
            assert forall|u: NodeId| #[trigger] m.spec_adjacent(c, u) && m.spec_allowed(u, Some(c)) implies m.spec_reachable(x0, u, Some(c)) by {
                assert(self.spec_neighbor(c, u));
                assert(neighbors@.contains(u));
                let i = choose|i: int| 0 <= i < neighbors@.len() && neighbors@[i] == u;
                assert(seen@[neighbors@[i] as int]);
            }
            lemma_no_split(m, c, x0);
        }
        false
    }

    /// Active articulation points in stable ID order.
    pub fn articulation_points(&self) -> (r: Vec<NodeId>)
        requires
            self.wf(),
        ensures
            strictly_sorted(r@),
            forall|c: NodeId| #[trigger] r@.contains(c) <==> self.spec_is_articulation(c),
    {
        let n = self.addresses.len();
        let mut points: Vec<NodeId> = Vec::new();
        let mut c: usize = 0;
        while c < n
            invariant
                self.wf(),
                n == self.spec_node_count(),
                n <= u32::MAX,
                c <= n,
                forall|k: int| 0 <= k < points@.len() ==> #[trigger] points@[k] < c,
                strictly_sorted(points@),
                forall|x: NodeId| #[trigger] points@.contains(x) <==> (x < c && self.spec_is_articulation(x)),
            decreases n - c,
        {
            let candidate = c as NodeId;
            if self.is_articulation(candidate) {
                let ghost prev = points@;
                points.push(candidate);
                proof {
                    assert forall|x: NodeId| #[trigger] points@.contains(x) <==> (x < c + 1 && self.spec_is_articulation(x)) by {
                        if points@.contains(x) && x != candidate {
                            let k = choose|k: int| 0 <= k < points@.len() && points@[k] == x;
                            assert(prev[k] == x);
                            assert(prev.contains(x));
                        }
                        if x < c && self.spec_is_articulation(x) {
                            assert(prev.contains(x));
                            let k = choose|k: int| 0 <= k < prev.len() && prev[k] == x;
                            assert(points@[k] == x);
                        }
                        if x == candidate {
                            assert(points@[points@.len() - 1] == x);
                        }
                    }
                }
            } else {
                proof {
                    assert forall|x: NodeId| #[trigger] points@.contains(x) <==> (x < c + 1 && self.spec_is_articulation(x)) by {
                        if x == candidate {
                            assert(!points@.contains(x)) by {
                                if points@.contains(x) {
                                    assert(x < c);
                                }
                            }
                        }
                    }
                }
            }
            c = c + 1;
        }
        points
    }

    proof fn lemma_active_prefix(&self, k: nat)
        requires
            self.wf(),
            k <= self.spec_node_count(),
        ensures
            self.spec_active_prefix(k).len() == count_below(k, |v: NodeId| self.spec_is_active(v)),
            strictly_sorted(self.spec_active_prefix(k)),
            forall|i: int| 0 <= i < self.spec_active_prefix(k).len() ==> #[trigger] self.spec_active_prefix(k)[i] < k,
            forall|v: NodeId| #[trigger] self.spec_active_prefix(k).contains(v) <==> (v < k && self.spec_is_active(v)),
        decreases k,
    {
        if k > 0 {
            self.lemma_active_prefix((k - 1) as nat);
            let rest = self.spec_active_prefix((k - 1) as nat);
            let cur = self.spec_active_prefix(k);
            assert forall|v: NodeId| #[trigger] cur.contains(v) <==> (v < k && self.spec_is_active(v)) by {
                if self.spec_is_active((k - 1) as NodeId) {
                    if v == (k - 1) as NodeId {
                        assert(cur[cur.len() - 1] == v);
                    }
                    if rest.contains(v) {
                        let i = choose|i: int| 0 <= i < rest.len() && rest[i] == v;
                        assert(cur[i] == v);
                    }
                    if cur.contains(v) {
                        let i = choose|i: int| 0 <= i < cur.len() && cur[i] == v;
                        if i < rest.len() {
                            assert(rest[i] == v);
                        }
                    }
                }
            }
        }
    }

    /// Active node ids, ascending.
    fn active_ids(&self) -> (r: Vec<NodeId>)
        requires
            self.wf(),
        ensures
            r@ == self.spec_active_ids(),
            r@.len() == self.spec_active_count(),
    {
        let n = self.active.len();
        let mut ids: Vec<NodeId> = Vec::new();
        let mut i: usize = 0;
        while i < n
            invariant
                self.wf(),
                n == self.spec_node_count(),
                n <= u32::MAX,
                i <= n,
                ids@ == self.spec_active_prefix(i as nat),
            decreases n - i,
        {
            if self.active[i] {
                ids.push(i as NodeId);
            }
            i = i + 1;
        }
        proof { self.lemma_active_prefix(n as nat); }
        ids
    }

    /// Resolve an attachment selector or return an explicit diagnostic.
    pub fn select_attachment(&self, selector: AttachmentSelector, seed: u64, ordinal: u64) -> (r: Result<NodeId, GraphError>)
        requires
            self.wf(),
        ensures
            r matches Ok(v) ==> self.spec_selection_ok(selector, seed, ordinal, v),
            r is Err <==> self.spec_selection_empty(selector),
            r is Err ==> r == Err::<NodeId, GraphError>(GraphError::NoAttachment(selector)),
    {
        let active = self.active_ids();
        proof { self.lemma_active_prefix(self.spec_node_count()); }
        let len = active.len();
        if len == 0 {
            return Err(GraphError::NoAttachment(selector));
        }
        assert(active@.contains(active@[0]));
        match selector {
            AttachmentSelector::CurrentRoot => {
                let mut best = active[0];
                let mut best_address = self.addresses[self.root(best) as usize];
                let mut i: usize = 1;
                proof {
                    lemma_lex_antisym(best_address@, best_address@);
                }
                while i < len
                    invariant
                        self.wf(),
                        len == active@.len(),
                        1 <= i <= len,
                        active@ == self.spec_active_ids(),
                        strictly_sorted(active@),
                        forall|v: NodeId| #[trigger] active@.contains(v) <==> (v < self.spec_node_count() && self.spec_is_active(v)),
                        self.spec_is_active(best),
                        best_address@ == self.spec_root_address(best),
                        best <= active@[i - 1],
                        forall|k: int| 0 <= k < i ==> !self.spec_root_key_lt(#[trigger] active@[k], best),
                    decreases len - i,
                {
                    let v = active[i];
                    assert(active@.contains(v));
                    let v_address = self.addresses[self.root(v) as usize];
                    let c = address_order(&v_address, &best_address);
                    assert(active@[i - 1] < active@[i as int]);
                    if c < 0 || (c == 0 && v < best) {
                        proof {
                            lemma_lex_antisym(v_address@, v_address@);
                            assert forall|k: int| 0 <= k < i + 1 implies !self.spec_root_key_lt(#[trigger] active@[k], v) by {
                                let u = active@[k];
                                if k < i && self.spec_root_key_lt(u, v) {
                                    let au = self.spec_root_address(u);
                                    let av = self.spec_root_address(v);
                                    let ab = self.spec_root_address(best);
                                    lemma_lex_antisym(au, av);
                                    lemma_lex_antisym(av, ab);
                                    lemma_lex_antisym(au, ab);
                                    if lex_order(au, av) < 0 && lex_order(av, ab) < 0 {
                                        lemma_lex_trans(au, av, ab);
                                    }
                                    assert(self.spec_root_key_lt(u, best));
                                }
                            }
                        }
                        best = v;
                        best_address = v_address;
                    } else {
                        proof {
                            lemma_lex_antisym(v_address@, best_address@);
                            if c == 0 {
                                assert(v != best);
                            }
                        }
                    }
                    i = i + 1;
                }
                proof {
                    assert forall|v: NodeId| #[trigger] self.spec_is_active(v) implies !self.spec_root_key_lt(v, best) by {
                        assert(active@.contains(v));
                        let k = choose|k: int| 0 <= k < active@.len() && active@[k] == v;
                        assert(!self.spec_root_key_lt(active@[k], best));
                    }
                }
                Ok(best)
            },
            AttachmentSelector::Leaf => {
                let mut i: usize = 0;
                while i < len
                    invariant
                        self.wf(),
                        len == active@.len(),
                        i <= len,
                        active@ == self.spec_active_ids(),
                        strictly_sorted(active@),
                        forall|v: NodeId| #[trigger] active@.contains(v) <==> (v < self.spec_node_count() && self.spec_is_active(v)),
                        len == self.spec_active_count(),
                        selector == AttachmentSelector::Leaf,
                        forall|k: int| 0 <= k < i ==> self.spec_active_degree(#[trigger] active@[k]) > 1,
                    decreases len - i,
                {
                    let v = active[i];
                    assert(active@.contains(v));
                    if self.active_degree(v) <= 1 {
                        proof {
                            assert(self.spec_is_active(v));
                            assert(self.spec_active_count() > 0);
                            assert forall|u: NodeId| u < v && #[trigger] self.spec_is_active(u) implies self.spec_active_degree(u) > 1 by {
                                assert(active@.contains(u));
                                let k = choose|k: int| 0 <= k < active@.len() && active@[k] == u;
                                if k >= i {
                                    if k > i {
                                        assert(active@[i as int] < active@[k]);
                                    }
                                }
                            }
                        }
                        return Ok(v);
                    }
                    i = i + 1;
                }
                proof {
                    assert forall|v: NodeId| #[trigger] self.spec_is_active(v) implies self.spec_active_degree(v) > 1 by {
                        assert(active@.contains(v));
                        let k = choose|k: int| 0 <= k < active@.len() && active@[k] == v;
                        assert(self.spec_active_degree(active@[k]) > 1);
                    }
                }
                Err(GraphError::NoAttachment(selector))
            },
            AttachmentSelector::Hub => {
                let mut best = active[0];
                let mut best_degree = self.active_degree(best);
                let mut i: usize = 1;
                while i < len
                    invariant
                        self.wf(),
                        len == active@.len(),
                        1 <= i <= len,
                        active@ == self.spec_active_ids(),
                        strictly_sorted(active@),
                        forall|v: NodeId| #[trigger] active@.contains(v) <==> (v < self.spec_node_count() && self.spec_is_active(v)),
                        self.spec_is_active(best),
                        best_degree == self.spec_active_degree(best),
                        best <= active@[i - 1],
                        forall|k: int| 0 <= k < i ==> (self.spec_active_degree(#[trigger] active@[k]) < best_degree
                            || (self.spec_active_degree(active@[k]) == best_degree && best <= active@[k])),
                    decreases len - i,
                {
                    let v = active[i];
                    assert(active@.contains(v));
                    assert(active@[i - 1] < active@[i as int]);
                    let d = self.active_degree(v);
                    if d > best_degree {
                        best = v;
                        best_degree = d;
                        proof {
                            assert forall|k: int| 0 <= k < i + 1 implies (self.spec_active_degree(#[trigger] active@[k]) < best_degree
                                || (self.spec_active_degree(active@[k]) == best_degree && best <= active@[k])) by {
                                if k < i {
                                    assert(active@[k] < active@[i as int]);
                                }
                            }
                        }
                    }
                    i = i + 1;
                }
                proof {
                    assert forall|v: NodeId| #[trigger] self.spec_is_active(v) implies (
                        self.spec_active_degree(v) < self.spec_active_degree(best)
                        || (self.spec_active_degree(v) == self.spec_active_degree(best) && best <= v)) by {
                        assert(active@.contains(v));
                        let k = choose|k: int| 0 <= k < active@.len() && active@[k] == v;
                        assert(self.spec_active_degree(active@[k]) < best_degree
                            || (self.spec_active_degree(active@[k]) == best_degree && best <= active@[k]));
                    }
                }
                Ok(best)
            },
            AttachmentSelector::Articulation => {
                let points = self.articulation_points();
                if points.len() == 0 {
                    proof {
                        assert forall|v: NodeId| !#[trigger] self.spec_is_articulation(v) by {
                            if self.spec_is_articulation(v) {
                                assert(points@.contains(v));
                            }
                        }
                    }
                    return Err(GraphError::NoAttachment(selector));
                }
                let first = points[0];
                proof {
                    assert(points@.contains(first));
                    assert forall|v: NodeId| v < first implies !#[trigger] self.spec_is_articulation(v) by {
                        if self.spec_is_articulation(v) {
                            assert(points@.contains(v));
                            let k = choose|k: int| 0 <= k < points@.len() && points@[k] == v;
                            if k > 0 {
                                assert(points@[0] < points@[k]);
                            }
                        }
                    }
                }
                Ok(first)
            },
            AttachmentSelector::Random => {
                let index = (#[verifier::truncate] (crate::mixing::deterministic_u64(seed, ordinal) as usize)) % len;
                let v = active[index];
                assert(active@.contains(v));
                Ok(v)
            },
        }
    }

    /// Seed-permuted labels `0..n`.
    fn regular_labels(n: u32, seed: u64) -> (r: Vec<NodeId>)
        requires
            n >= 1,
        ensures
            r@ == spec_labels(n as nat, seed),
    {
        let mut labels: Vec<NodeId> = Vec::new();
        let mut i: u32 = 0;
        while i < n
            invariant
                i <= n,
                labels@.len() == i,
                forall|k: int| 0 <= k < i ==> #[trigger] labels@[k] == k,
            decreases n - i,
        {
            labels.push(i);
            i = i + 1;
        }
        assert(labels@ =~= spec_shuffle(n as nat, seed, 0));
        let mut index: usize = (n - 1) as usize;
        while index >= 1
            invariant
                index < n,
                labels@.len() == n,
                labels@ == spec_shuffle(n as nat, seed, (n - 1 - index) as nat),
            decreases index,
        {
            let swap = (#[verifier::truncate] (crate::mixing::deterministic_u64(seed, index as u64) as usize)) % (index + 1);
            let at_index = labels[index];
            let at_swap = labels[swap];
            labels.set(index, at_swap);
            labels.set(swap, at_index);
            index = index - 1;
        }
        labels
    }

    /// Add the circulant candidates that are not yet present, stopping at the first failure.
    fn add_circulant(&mut self, labels: &Vec<NodeId>, half: u32) -> (r: Result<(), GraphError>)
        requires
            old(self).wf(),
            old(self).spec_fresh_columns(),
            old(self).spec_edges().len() == 0,
            labels@.len() == old(self).spec_node_count(),
            2 * half < old(self).spec_node_count(),
        ensures
            final(self).wf(),
            final(self).spec_fresh_columns(),
            final(self).spec_node_count() == old(self).spec_node_count(),
            match spec_add_missing(Seq::empty(), old(self).spec_node_count(), spec_circulant_pairs(labels@, old(self).spec_node_count(), half as nat)) {
                Ok(edges) => r is Ok && final(self).spec_edges() == edges,
                Err(e) => r == Err::<(), GraphError>(e),
            },
    {
        let n = self.addresses.len() as u32;
        let ghost cands = spec_circulant_pairs(labels@, n as nat, half as nat);
        let mut position: u32 = 0;
        proof {
            assert(cands.take(0) =~= Seq::<(NodeId, NodeId)>::empty());
            assert(self.spec_edges() =~= Seq::<(NodeId, NodeId)>::empty());
        }
        while position < n
            invariant
                self.wf(),
                self.spec_fresh_columns(),
                self.spec_node_count() == n,
                n == old(self).spec_node_count(),
                labels@.len() == n,
                2 * half < n,
                position <= n,
                cands == spec_circulant_pairs(labels@, n as nat, half as nat),
                spec_add_missing(Seq::empty(), n as nat, cands.take(position * half)) == Ok::<Seq<(NodeId, NodeId)>, GraphError>(self.spec_edges()),
            decreases n - position,
        {
            let mut offset: u32 = 1;
            while offset <= half
                invariant
                    self.wf(),
                    self.spec_fresh_columns(),
                    self.spec_node_count() == n,
                    n == old(self).spec_node_count(),
                    labels@.len() == n,
                    2 * half < n,
                    position < n,
                    1 <= offset <= half + 1,
                    cands == spec_circulant_pairs(labels@, n as nat, half as nat),
                    spec_add_missing(Seq::empty(), n as nat, cands.take(position * half + offset - 1)) == Ok::<Seq<(NodeId, NodeId)>, GraphError>(self.spec_edges()),
                decreases half + 1 - offset,
            {
                let other = ((position as u64 + offset as u64) % (n as u64)) as u32;
                let ghost k = position * half + offset - 1;
                proof {
                    lemma_circulant_index(labels@, n as nat, half as nat, position as nat, offset as nat);
                    assert(cands.take(k + 1).drop_last() =~= cands.take(k));
                    assert(cands.take(k + 1).last() == cands[k]);
                }
                let a = labels[position as usize];
                let b = labels[other as usize];
                if self.edge_between(a, b).is_none() {
                    let added = self.add_edge(a, b);
                    if let Err(e) = added {
                        proof {
                            lemma_add_missing_sticky(Seq::empty(), n as nat, cands, k + 1);
                        }
                        return Err(e);
                    }
                }
                offset = offset + 1;
            }
            proof {
                assert((position + 1) * half == position * half + half) by (nonlinear_arith);
            }
            position = position + 1;
        }
        proof {
            assert(cands.take(n * half) =~= cands);
        }
        Ok(())
    }

    /// Add the diametric pairs in order, stopping at the first failure.
    fn add_diameters(&mut self, labels: &Vec<NodeId>) -> (r: Result<(), GraphError>)
        requires
            old(self).wf(),
            old(self).spec_fresh_columns(),
            labels@.len() == old(self).spec_node_count(),
        ensures
            final(self).wf(),
            final(self).spec_fresh_columns(),
            final(self).spec_node_count() == old(self).spec_node_count(),
            match spec_add_all(old(self).spec_edges(), old(self).spec_node_count(), spec_diameter_pairs(labels@, old(self).spec_node_count())) {
                Ok(edges) => r is Ok && final(self).spec_edges() == edges,
                Err(e) => r == Err::<(), GraphError>(e),
            },
    {
        let n = self.addresses.len() as u32;
        let ghost base = self.spec_edges();
        let ghost diam = spec_diameter_pairs(labels@, n as nat);
        let mut position: u32 = 0;
        proof {
            assert(diam.take(0) =~= Seq::<(NodeId, NodeId)>::empty());
        }
        while position < n / 2
            invariant
                self.wf(),
                self.spec_fresh_columns(),
                self.spec_node_count() == n,
                n == old(self).spec_node_count(),
                base == old(self).spec_edges(),
                labels@.len() == n,
                position <= n / 2,
                diam == spec_diameter_pairs(labels@, n as nat),
                spec_add_all(base, n as nat, diam.take(position as int)) == Ok::<Seq<(NodeId, NodeId)>, GraphError>(self.spec_edges()),
            decreases n / 2 - position,
        {
            proof {
                assert(diam.take(position + 1).drop_last() =~= diam.take(position as int));
                assert(diam[position as int] == (labels@[position as int], labels@[position + n / 2]));
            }
            let added = self.add_edge(labels[position as usize], labels[(position + n / 2) as usize]);
            if let Err(e) = added {
                proof {
                    lemma_add_all_sticky(base, n as nat, diam, position + 1);
                }
                return Err(e);
            }
            position = position + 1;
        }
        proof {
            assert(diam.take((n / 2) as int) =~= diam);
        }
        Ok(())
    }

    /// Add the seed-permuted circulant regular edges to a store without edges.
    fn generate_regular(&mut self, degree: u32, seed: u64) -> (r: Result<(), GraphError>)
        requires
            old(self).wf(),
            old(self).spec_edges().len() == 0,
            old(self).spec_fresh_columns(),
        ensures
            final(self).wf(),
            final(self).spec_fresh_columns(),
            final(self).spec_node_count() == old(self).spec_node_count(),
            match spec_regular_edges(old(self).spec_node_count(), degree, seed) {
                Ok(edges) => r is Ok && final(self).spec_edges() == edges,
                Err(e) => r == Err::<(), GraphError>(e),
            },
    {
        let n = self.addresses.len() as u32;
        proof {
            assert((n as u64) * (degree as u64) <= u64::MAX) by (nonlinear_arith)
                requires n <= u32::MAX, degree <= u32::MAX;
        }
        if degree == 0 || degree >= n || ((n as u64) * (degree as u64)) % 2 != 0 {
            return Err(GraphError::RegularDegree { nodes: n, degree });
        }
        let labels = Self::regular_labels(n, seed);
        proof { lemma_shuffle_len(n as nat, seed, (n - 1) as nat); }
        let half = degree / 2;
        let circulant = self.add_circulant(&labels, half);
        if let Err(e) = circulant {
            proof {
                if degree % 2 == 1 {
                    lemma_odd_factor_parity(n as int, degree as int);
                }
            }
            return Err(e);
        }
        if degree % 2 == 1 {
            if n % 2 != 0 {
                return Err(GraphError::RegularDegree { nodes: n, degree });
            }
            return self.add_diameters(&labels);
        }
        Ok(())
    }

    /// The candidate below `node` that a draw lands on, walking cumulative
    /// weights of degree plus one.
    fn pick_candidate(&self, node: u32, draw: u64) -> (r: Option<NodeId>)
        requires
            self.wf(),
        ensures
            r == attach_pick(self.model(), node as nat, draw as int, 0),
            r matches Some(c) ==> c < node,
    {
        let mut rest = draw;
        let mut candidate: u32 = 0;
        while candidate < node
            invariant
                self.wf(),
                candidate <= node,
                attach_pick(self.model(), node as nat, rest as int, candidate as nat)
                    == attach_pick(self.model(), node as nat, draw as int, 0),
            decreases node - candidate,
        {
            let weight = self.active_degree(candidate) as u64 + 1;
            if rest < weight {
                return Some(candidate);
            }
            rest = rest - weight;
            candidate = candidate + 1;
        }
        None
    }

    /// Saturating total attachment weight of the candidates below `node`.
    fn attachment_total(&self, node: u32) -> (r: u64)
        requires
            self.wf(),
        ensures
            r == attach_total(self.model(), node as nat),
            r >= node,
    {
        let mut total_weight: u64 = 0;
        let mut c: u32 = 0;
        while c < node
            invariant
                self.wf(),
                c <= node,
                total_weight == attach_total(self.model(), c as nat),
                total_weight >= c,
            decreases node - c,
        {
            let weight = self.active_degree(c) as u64 + 1;
            total_weight = total_weight.saturating_add(weight);
            c = c + 1;
        }
        total_weight
    }

    /// The distinct targets of `node`, ascending, drawn with weights of degree plus one.
    fn attachment_targets(&self, node: u32, links_per_node: u32, seed: u64) -> (r: Vec<NodeId>)
        requires
            self.wf(),
            node >= 2,
        ensures
            strictly_sorted(r@),
            forall|i: int| 0 <= i < r@.len() ==> #[trigger] r@[i] < node,
            r@ == ascending_elems(attach_draws(self.model(), node as nat, attach_target_count(links_per_node, node as nat), seed,
                attach_total(self.model(), node as nat), 0, Set::empty(), 0)),
    {
        let target_count: usize = if links_per_node < node { if links_per_node == 0 { 1 } else { links_per_node as usize } } else { node as usize };
        let total_weight = self.attachment_total(node);
        let ghost m = self.model();
        let ghost goal = attach_draws(m, node as nat, target_count as nat, seed, total_weight, 0, Set::empty(), 0);
        let ghost mut chosen_set: Set<NodeId> = Set::empty();
        let mut chosen: Vec<NodeId> = Vec::new();
        let mut draw_ordinal: u64 = 0;
        while chosen.len() < target_count && draw_ordinal < u64::MAX
            invariant
                self.wf(),
                m == self.model(),
                total_weight >= node,
                node >= 2,
                strictly_sorted(chosen@),
                forall|x: NodeId| #[trigger] chosen@.contains(x) ==> x < node,
                forall|x: NodeId| #[trigger] chosen@.contains(x) <==> chosen_set.contains(x),
                attach_draws(m, node as nat, target_count as nat, seed, total_weight, draw_ordinal as nat, chosen_set, chosen@.len()) == goal,
            decreases u64::MAX - draw_ordinal,
        {
            let draw = crate::mixing::deterministic_u64(seed ^ (node as u64), draw_ordinal) % total_weight;
            let picked = self.pick_candidate(node, draw);
            let ghost before = chosen_set;
            match picked {
                Some(c) => {
                    if !contains_id(&chosen, c) {
                        sorted_insert(&mut chosen, c);
                        proof {
                            chosen_set = chosen_set.insert(c);
                        }
                    }
                },
                None => {},
            }
            draw_ordinal = draw_ordinal + 1;
        }
        proof {
            lemma_ascending_elems(chosen@, chosen_set);
            assert forall|i: int| 0 <= i < chosen@.len() implies #[trigger] chosen@[i] < node by {
                assert(chosen@.contains(chosen@[i]));
            }
        }
        chosen
    }

    /// Add seeded preferential-attachment edges to a store without edges.
    fn generate_scale_free(&mut self, links_per_node: u32, seed: u64) -> (r: Result<(), GraphError>)
        requires
            old(self).wf(),
            old(self).spec_edges().len() == 0,
            old(self).spec_fresh_columns(),
            old(self).spec_node_count() >= 1,
        ensures
            r is Ok,
            final(self).wf(),
            final(self).spec_fresh_columns(),
            final(self).spec_node_count() == old(self).spec_node_count(),
            final(self).spec_edges() == spec_scale_free_edges(old(self).spec_node_count(), links_per_node, seed),
            spec_scale_free_shape(final(self).spec_edges(), final(self).spec_node_count()),
    {
        let n = self.addresses.len() as u32;
        if n == 1 {
            return Ok(());
        }
        let first = self.add_edge(0, 1);
        assert(first is Ok);
        assert(self.spec_edges() =~= seq![(0u32, 1u32)]);
        let mut node: u32 = 2;
        while node < n
            invariant
                self.wf(),
                self.spec_fresh_columns(),
                self.spec_node_count() == n,
                n == old(self).spec_node_count(),
                2 <= node <= n,
                self.spec_edges() == attach_prefix(n as nat, links_per_node, seed, node as nat),
                spec_scale_free_shape(self.spec_edges(), self.spec_node_count()),
                forall|i: int| 0 <= i < self.spec_edges().len() ==> (#[trigger] self.spec_edges()[i]).1 < node,
            decreases n - node,
        {
            let ghost prev = self.spec_edges();
            proof {
                assert(self.model() =~= GraphModel { n: n as nat, active: Seq::new(n as nat, |i: int| true), edges: prev });
            }
            let chosen = self.attachment_targets(node, links_per_node, seed);
            let m = chosen.len();
            let mut k: usize = 0;
            let ghost start_len = self.spec_edges().len();
            while k < m
                invariant
                    self.wf(),
                    self.spec_fresh_columns(),
                    self.spec_node_count() == n,
                    n == old(self).spec_node_count(),
                    2 <= node < n,
                    k <= m,
                    m == chosen@.len(),
                    strictly_sorted(chosen@),
                    forall|i: int| 0 <= i < chosen@.len() ==> #[trigger] chosen@[i] < node,
                    start_len >= 1,
                    start_len == prev.len(),
                    self.spec_edges().len() == start_len + k,
                    self.spec_edges().take(start_len as int) == prev,
                    spec_scale_free_shape(self.spec_edges(), self.spec_node_count()),
                    forall|i: int| 0 <= i < start_len ==> (#[trigger] self.spec_edges()[i]).1 < node,
                    forall|i: int| start_len <= i < self.spec_edges().len() ==> #[trigger] self.spec_edges()[i] == (chosen@[i - start_len], node),
                decreases m - k,
            {
                let t = chosen[k];
                let ghost before = self.spec_edges();
                proof {
                    if before.contains((t, node)) {
                        let i = choose|i: int| 0 <= i < before.len() && before[i] == (t, node);
                        if i >= start_len {
                            assert(chosen@[i - start_len] < chosen@[k as int]);
                        }
                    }
                    assert(ordered_pair(node, t) == (t, node));
                }
                let added = self.add_edge(node, t);
                assert(added is Ok);
                proof {
                    let e = self.spec_edges();
                    assert(e == before.push((t, node)));
                    assert(e.take(start_len as int) =~= before.take(start_len as int));
                    assert forall|i: int, j: int| 0 <= i < j < e.len() implies (#[trigger] e[i]).1 < (#[trigger] e[j]).1
                        || (e[i].1 == e[j].1 && e[i].0 < e[j].0) by {
                        if j == e.len() - 1 && i < before.len() {
                            if i >= start_len {
                                assert(chosen@[i - start_len] < chosen@[k as int]);
                            }
                        }
                    }
                }
                k = k + 1;
            }
            proof {
                let e = self.spec_edges();
                assert(e =~= prev + Seq::new(chosen@.len(), |i: int| (chosen@[i], node)));
                assert(attach_prefix(n as nat, links_per_node, seed, (node + 1) as nat)
                    == prev + Seq::new(chosen@.len(), |i: int| (chosen@[i], node)));
            }
            node = node + 1;
        }
        Ok(())
    }

    /// Generate a deterministic topology.
    pub fn generate(
        kind: TopologyKind,
        node_count: u32,
        average_degree: u32,
        seed: u64,
        explicit_edges: &[(NodeId, NodeId)],
    ) -> (r: Result<Self, GraphError>)
        ensures
            spec_generate_outcome(kind, node_count, average_degree, seed, explicit_edges@, r),
            r matches Ok(g) ==> g.wf(),
            kind == TopologyKind::ScaleFree ==> (r matches Ok(g) ==> spec_scale_free_shape(g.spec_edges(), node_count as nat)),
    {
        if node_count == 0 {
            return Err(GraphError::EmptyGraph);
        }
        let mut graph = Self::with_nodes(node_count);
        assert(graph.spec_edges() =~= Seq::<(NodeId, NodeId)>::empty());
        let built = match kind {
            TopologyKind::Explicit => graph.add_pairs(explicit_edges),
            TopologyKind::Chain => {
                let pairs = chain_pairs(node_count);
                graph.add_pairs(pairs.as_slice())
            },
            TopologyKind::BalancedTree => {
                let pairs = tree_pairs(node_count);
                graph.add_pairs(pairs.as_slice())
            },
            TopologyKind::RandomRegular => graph.generate_regular(average_degree, seed),
            TopologyKind::ScaleFree => {
                let links = if average_degree < 2 { 1 } else { average_degree / 2 };
                graph.generate_scale_free(links, seed)
            },
        };
        if let Err(e) = built {
            return Err(e);
        }
        let checked = graph.validate();
        if let Err(e) = checked {
            return Err(e);
        }
        proof {
            assert(graph.spec_active() =~= Seq::new(node_count as nat, |i: int| true));
        }
        proof {
            assert(graph.model() =~= GraphModel { n: node_count as nat, active: Seq::new(node_count as nat, |i: int| true), edges: graph.spec_edges() });
        }
        if node_count > 1 && !graph.is_connected_active() {
            return Err(GraphError::Disconnected);
        }
        Ok(graph)
    }

    /// Add every pair in order, stopping at the first failure.
    fn add_pairs(&mut self, pairs: &[(NodeId, NodeId)]) -> (r: Result<(), GraphError>)
        requires
            old(self).wf(),
            old(self).spec_fresh_columns(),
        ensures
            final(self).wf(),
            final(self).spec_fresh_columns(),
            final(self).spec_node_count() == old(self).spec_node_count(),
            match spec_add_all(old(self).spec_edges(), old(self).spec_node_count(), pairs@) {
                Ok(edges) => r is Ok && final(self).spec_edges() == edges,
                Err(e) => r == Err::<(), GraphError>(e),
            },
    {
        let ghost base = self.spec_edges();
        let len = pairs.len();
        let mut i: usize = 0;
        proof {
            assert(pairs@.take(0) =~= Seq::<(NodeId, NodeId)>::empty());
        }
        while i < len
            invariant
                self.wf(),
                self.spec_fresh_columns(),
                self.spec_node_count() == old(self).spec_node_count(),
                base == old(self).spec_edges(),
                len == pairs@.len(),
                i <= len,
                spec_add_all(base, self.spec_node_count(), pairs@.take(i as int)) == Ok::<Seq<(NodeId, NodeId)>, GraphError>(self.spec_edges()),
            decreases len - i,
        {
            proof {
                assert(pairs@.take(i + 1).drop_last() =~= pairs@.take(i as int));
            }
            let (a, b) = pairs[i];
            let added = self.add_edge(a, b);
            if let Err(e) = added {
                proof {
                    lemma_add_all_sticky(base, self.spec_node_count(), pairs@, i + 1);
                }
                return Err(e);
            }
            i = i + 1;
        }
        proof {
            assert(pairs@.take(len as int) =~= pairs@);
        }
        Ok(())
    }

    /// Validate stable IDs, edge uniqueness, and tree columns.
    pub fn validate(&self) -> (r: Result<(), GraphError>)
        requires
            self.wf(),
        ensures
            r is Ok,
    {
        let count = self.addresses.len();
        if self.active.len() != count || self.roots.len() != count || self.parents.len() != count
            || self.sequences.len() != count || self.ancestries.len() != count
            || self.resource_classes.len() != count {
            return Err(GraphError::ColumnLength);
        }
        if self.edge_a.len() != self.edge_b.len() {
            return Err(GraphError::ColumnLength);
        }
        let mut i: usize = 0;
        while i < self.edge_a.len()
            invariant
                self.wf(),
                count == self.spec_node_count(),
                i <= self.edge_a@.len(),
            decreases self.edge_a@.len() - i,
        {
            if self.edge_a[i] as usize >= count || self.edge_b[i] as usize >= count {
                return Err(GraphError::DanglingEdge(#[verifier::truncate] (i as EdgeId)));
            }
            i = i + 1;
        }
        Ok(())
    }

    /// Estimate fixed-width and currently allocated graph storage.
    pub fn memory_footprint(&self) -> (r: GraphMemoryFootprint)
        requires
            self.wf(),
        ensures
            r.fixed_bytes_per_node == 39,
            r.fixed_bytes_per_edge == 8,
            r.allocated_bytes >= if 39 * self.spec_node_count() + 8 * self.spec_edges().len() > usize::MAX {
                usize::MAX as int
            } else {
                (39 * self.spec_node_count() + 8 * self.spec_edges().len()) as int
            },
    {
        let fixed_bytes_per_node: usize = 16 + 1 + 4 + 8 + 8 + 2;
        let fixed_bytes_per_edge: usize = 4 * 2;
        let mut allocated = sat_mul(vec_capacity(&self.addresses), 16);
        allocated = sat_add(allocated, sat_mul(vec_capacity(&self.active), 1));
        allocated = sat_add(allocated, sat_mul(vec_capacity(&self.roots), 4));
        allocated = sat_add(allocated, sat_mul(vec_capacity(&self.parents), 8));
        allocated = sat_add(allocated, sat_mul(vec_capacity(&self.sequences), 8));
        allocated = sat_add(allocated, sat_mul(vec_capacity(&self.resource_classes), 2));
        allocated = sat_add(allocated, sat_mul(vec_capacity(&self.edge_a), 4));
        allocated = sat_add(allocated, sat_mul(vec_capacity(&self.edge_b), 4));
        let mut i: usize = 0;
        while i < self.ancestries.len()
            invariant
                i <= self.ancestries@.len(),
                allocated >= if 39 * self.spec_node_count() + 8 * self.spec_edges().len() > usize::MAX {
                    usize::MAX as int
                } else {
                    (39 * self.spec_node_count() + 8 * self.spec_edges().len()) as int
                },
            decreases self.ancestries@.len() - i,
        {
            allocated = sat_add(allocated, sat_mul(vec_capacity(&self.ancestries[i]), 4));
            i = i + 1;
        }
        GraphMemoryFootprint { fixed_bytes_per_node, fixed_bytes_per_edge, allocated_bytes: allocated }
    }
}

} // verus!
