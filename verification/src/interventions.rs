//! Validation of a campaign's intervention events into the inputs the simulation
//! schedules: arrivals, network cuts, link updates, session rekeys, cache expiries,
//! lookup waves, transport-class failures, parent-cost changes and Sybil arrivals.

use vstd::prelude::*;
use vstd::string::StringExecFns;
use crate::graph::{NodeId, EdgeId, AttachmentSelector, spec_selector_named};
use crate::campaign::Field;
use crate::network::decimal;
use crate::labels::push_decimal;
use crate::text::str_equals;

pub mod laws;

verus! {

/// One campaign event as the intervention parser reads it.
#[derive(Debug, Clone)]
pub struct InterventionEvent {
    /// `action`, if it is a string.
    pub action: Option<String>,
    /// `id`, if it is a string.
    pub id: Option<String>,
    /// The `at` duration.
    pub at: Field<u64>,
    /// `target`, if it is an integer.
    pub target: Option<u64>,
    /// `target`, if it is a string.
    pub target_text: Option<String>,
    /// `parameters.attachments` when it is an array: `None` entries are not integers.
    pub attachments: Option<Vec<Option<u64>>>,
    /// The integer entries of `parameters.nodes` when it is an array.
    pub group: Option<Vec<u64>>,
    /// Integer `parameters.node`.
    pub node: Option<u64>,
    /// Integer `parameters.edge`.
    pub edge: Option<u64>,
    /// String `parameters.profile`.
    pub profile: Option<String>,
    /// Integer `parameters.count`.
    pub count: Option<u64>,
    /// Integer `parameters.bandwidth_bps`.
    pub bandwidth_bps: Option<u64>,
    /// Integer `parameters.latency.nanoseconds`.
    pub latency_ns: Option<u64>,
    /// Integer `parameters.jitter.nanoseconds`.
    pub jitter_ns: Option<u64>,
    /// Integer `parameters.loss_ppm`.
    pub loss_ppm: Option<u64>,
    /// Integer `parameters.mtu_bytes`.
    pub mtu_bytes: Option<u64>,
    /// Integer `parameters.queue_bytes`.
    pub queue_bytes: Option<u64>,
    /// Integer `parameters.cycles`.
    pub cycles: Option<u64>,
    /// Integer `parameters.interval.nanoseconds`.
    pub interval_ns: Option<u64>,
    /// Integer `parameters.preferred_cost_ppm`.
    pub preferred_cost_ppm: Option<u64>,
    /// Integer `parameters.degraded_cost_ppm`.
    pub degraded_cost_ppm: Option<u64>,
    /// Integer `parameters.operations_per_identity`.
    pub operations_per_identity: Option<u64>,
    /// String `parameters.address_policy`.
    pub address_policy: Option<String>,
    /// String `parameters.attachment`.
    pub attachment: Option<String>,
}

/// The campaign's adversary settings read by Sybil arrivals.
#[derive(Debug, Clone)]
pub struct AdversaryFields {
    /// `adversaries.mode`, if it is a string.
    pub mode: Option<String>,
    /// Integer `adversaries.budgets.identities`.
    pub identities: Option<u64>,
    /// Integer `adversaries.budgets.operations`.
    pub operations: Option<u64>,
}

/// Why the intervention events cannot be scheduled.
#[derive(Debug, Clone, Copy, PartialEq, Eq, Structural)]
pub enum InterventionError {
    /// The event's action is not supported.
    UnsupportedAction { index: usize },
    /// An arrival's attachments are not all node ids.
    AttachmentNotNode { index: usize },
    /// An arrival targets a node outside the scale (the least such target).
    ArrivalTarget { index: usize, target: u64 },
    /// The event has no `at` duration.
    TimeMissing { index: usize },
    /// The event's `at` is an unresolved value-set axis.
    TimeUnresolved { index: usize },
    /// The event's `at` is not a normalized duration.
    TimeMalformed { index: usize },
    /// A partition or merge does not name a non-empty proper group of valid nodes.
    Group { index: usize },
    /// A link update names no integer edge.
    EdgeMissing { index: usize },
    /// A link update's loss exceeds one million parts per million.
    LossRange { index: usize },
    /// A link update's edge does not fit a 32-bit edge id.
    EdgeRange { index: usize },
    /// A lookup wave's count is outside `1..=100000`.
    LookupCount { index: usize },
    /// A transport-class event names no profile.
    ProfileMissing { index: usize },
    /// A parent-cost event targets a node outside the scale.
    ParentTarget { index: usize },
    /// A parent-cost event's cycles are outside `1..=1000`.
    ParentCycles { index: usize },
    /// A parent-cost event's costs are not `0 < preferred < degraded`.
    ParentCosts { index: usize },
    /// Sybil arrivals need the authenticated adversary mode.
    SybilMode { index: usize },
    /// Sybil arrivals need a count or an identity budget.
    SybilCountMissing { index: usize },
    /// The Sybil count is outside `1..=100000` or not below the scale.
    SybilCountRange { index: usize },
    /// The adversary budget does not cover what the event needs.
    BudgetExhausted { required: u64, available: u64 },
    /// The Sybil address policy is not supported.
    SybilPolicy { index: usize },
    /// The Sybil attachment selector is not a known spelling.
    SybilAttachment { index: usize },
    /// A scheduled time overflows 64 bits.
    Arithmetic,
}

/// A node arriving with chosen attachments.
#[derive(Debug, Clone)]
pub struct ManualArrivalInput {
    pub at_ns: u64,
    pub lower_root: bool,
    pub targets: Vec<NodeId>,
}

/// A partition (`enabled == false`) or merge of a node group.
#[derive(Debug, Clone)]
pub struct NetworkCutInput {
    pub id: String,
    pub at_ns: u64,
    pub nodes: Vec<NodeId>,
    pub enabled: bool,
}

/// A change or restoration of one edge's link conditions.
#[derive(Debug, Clone)]
pub struct LinkUpdateInput {
    pub id: String,
    pub at_ns: u64,
    pub edge: EdgeId,
    pub restore: bool,
    pub bandwidth_bps: Option<u64>,
    pub latency_ns: Option<u64>,
    pub jitter_ns: Option<u64>,
    pub loss_ppm: Option<u32>,
    pub mtu_bytes: Option<u64>,
    pub queue_bytes: Option<u64>,
}

/// A synchronized session rekey.
#[derive(Debug, Clone)]
pub struct SessionRekeyInput {
    pub id: String,
    pub at_ns: u64,
}

/// An expiry of the coordinate caches.
#[derive(Debug, Clone)]
pub struct CacheExpiryInput {
    pub id: String,
    pub at_ns: u64,
}

/// A wave of simultaneous lookups.
#[derive(Debug, Clone)]
pub struct LookupWaveInput {
    pub id: String,
    pub at_ns: u64,
    pub count: Option<u64>,
}

/// A failure or restoration of one transport class.
#[derive(Debug, Clone)]
pub struct TransportClassInput {
    pub id: String,
    pub at_ns: u64,
    pub profile: String,
    pub restore: bool,
}

/// One phase of a parent-cost change.
#[derive(Debug, Clone)]
pub struct ParentCostInput {
    pub id: String,
    pub at_ns: u64,
    pub target: Option<NodeId>,
    pub phase: u32,
    pub action: String,
    pub preferred_cost_ppm: u64,
    pub degraded_cost_ppm: u64,
}

/// One authenticated Sybil arrival.
#[derive(Debug, Clone)]
pub struct SybilArrivalInput {
    pub id: String,
    pub at_ns: u64,
    pub ordinal: u32,
    pub address_policy: String,
    pub attachment: AttachmentSelector,
    pub operations: u64,
}

/// Everything the intervention events schedule.
#[derive(Debug, Clone)]
pub struct InterventionPlan {
    pub manual_arrivals: Vec<ManualArrivalInput>,
    pub cuts: Vec<NetworkCutInput>,
    pub link_updates: Vec<LinkUpdateInput>,
    pub rekeys: Vec<SessionRekeyInput>,
    pub cache_expiries: Vec<CacheExpiryInput>,
    pub lookup_waves: Vec<LookupWaveInput>,
    pub transport_classes: Vec<TransportClassInput>,
    pub parent_costs: Vec<ParentCostInput>,
    pub sybils: Vec<SybilArrivalInput>,
}

/// An arrival as plain values.
pub struct ArrivalView {
    pub at_ns: u64,
    pub lower_root: bool,
    pub targets: Seq<NodeId>,
}

/// A cut as plain values.
pub struct CutView {
    pub id: Seq<char>,
    pub at_ns: u64,
    pub nodes: Seq<NodeId>,
    pub enabled: bool,
}

/// A link update as plain values.
pub struct LinkUpdateView {
    pub id: Seq<char>,
    pub at_ns: u64,
    pub edge: EdgeId,
    pub restore: bool,
    pub bandwidth_bps: Option<u64>,
    pub latency_ns: Option<u64>,
    pub jitter_ns: Option<u64>,
    pub loss_ppm: Option<u32>,
    pub mtu_bytes: Option<u64>,
    pub queue_bytes: Option<u64>,
}

/// A timed, identified event (rekey, cache expiry) as plain values.
pub struct TimedView {
    pub id: Seq<char>,
    pub at_ns: u64,
}

/// A lookup wave as plain values.
pub struct LookupWaveView {
    pub id: Seq<char>,
    pub at_ns: u64,
    pub count: Option<u64>,
}

/// A transport-class event as plain values.
pub struct TransportClassView {
    pub id: Seq<char>,
    pub at_ns: u64,
    pub profile: Seq<char>,
    pub restore: bool,
}

/// A parent-cost phase as plain values.
pub struct ParentCostView {
    pub id: Seq<char>,
    pub at_ns: u64,
    pub target: Option<NodeId>,
    pub phase: u32,
    pub action: Seq<char>,
    pub preferred_cost_ppm: u64,
    pub degraded_cost_ppm: u64,
}

/// A Sybil arrival as plain values.
pub struct SybilView {
    pub id: Seq<char>,
    pub at_ns: u64,
    pub ordinal: u32,
    pub address_policy: Seq<char>,
    pub attachment: AttachmentSelector,
    pub operations: u64,
}

/// The plan as plain values.
#[verifier::ext_equal]
pub struct PlanView {
    pub manual_arrivals: Seq<ArrivalView>,
    pub cuts: Seq<CutView>,
    pub link_updates: Seq<LinkUpdateView>,
    pub rekeys: Seq<TimedView>,
    pub cache_expiries: Seq<TimedView>,
    pub lookup_waves: Seq<LookupWaveView>,
    pub transport_classes: Seq<TransportClassView>,
    pub parent_costs: Seq<ParentCostView>,
    pub sybils: Seq<SybilView>,
}

impl View for ManualArrivalInput {
    type V = ArrivalView;

    open spec fn view(&self) -> ArrivalView {
        ArrivalView { at_ns: self.at_ns, lower_root: self.lower_root, targets: self.targets@ }
    }
}

impl View for NetworkCutInput {
    type V = CutView;

    open spec fn view(&self) -> CutView {
        CutView { id: self.id@, at_ns: self.at_ns, nodes: self.nodes@, enabled: self.enabled }
    }
}

impl View for LinkUpdateInput {
    type V = LinkUpdateView;

    open spec fn view(&self) -> LinkUpdateView {
        LinkUpdateView {
            id: self.id@,
            at_ns: self.at_ns,
            edge: self.edge,
            restore: self.restore,
            bandwidth_bps: self.bandwidth_bps,
            latency_ns: self.latency_ns,
            jitter_ns: self.jitter_ns,
            loss_ppm: self.loss_ppm,
            mtu_bytes: self.mtu_bytes,
            queue_bytes: self.queue_bytes,
        }
    }
}

impl View for SessionRekeyInput {
    type V = TimedView;

    open spec fn view(&self) -> TimedView {
        TimedView { id: self.id@, at_ns: self.at_ns }
    }
}

impl View for CacheExpiryInput {
    type V = TimedView;

    open spec fn view(&self) -> TimedView {
        TimedView { id: self.id@, at_ns: self.at_ns }
    }
}

impl View for LookupWaveInput {
    type V = LookupWaveView;

    open spec fn view(&self) -> LookupWaveView {
        LookupWaveView { id: self.id@, at_ns: self.at_ns, count: self.count }
    }
}

impl View for TransportClassInput {
    type V = TransportClassView;

    open spec fn view(&self) -> TransportClassView {
        TransportClassView { id: self.id@, at_ns: self.at_ns, profile: self.profile@, restore: self.restore }
    }
}

impl View for ParentCostInput {
    type V = ParentCostView;

    open spec fn view(&self) -> ParentCostView {
        ParentCostView {
            id: self.id@,
            at_ns: self.at_ns,
            target: self.target,
            phase: self.phase,
            action: self.action@,
            preferred_cost_ppm: self.preferred_cost_ppm,
            degraded_cost_ppm: self.degraded_cost_ppm,
        }
    }
}

impl View for SybilArrivalInput {
    type V = SybilView;

    open spec fn view(&self) -> SybilView {
        SybilView {
            id: self.id@,
            at_ns: self.at_ns,
            ordinal: self.ordinal,
            address_policy: self.address_policy@,
            attachment: self.attachment,
            operations: self.operations,
        }
    }
}

impl View for InterventionPlan {
    type V = PlanView;

    open spec fn view(&self) -> PlanView {
        PlanView {
            manual_arrivals: self.manual_arrivals@.map_values(|x: ManualArrivalInput| x@),
            cuts: self.cuts@.map_values(|x: NetworkCutInput| x@),
            link_updates: self.link_updates@.map_values(|x: LinkUpdateInput| x@),
            rekeys: self.rekeys@.map_values(|x: SessionRekeyInput| x@),
            cache_expiries: self.cache_expiries@.map_values(|x: CacheExpiryInput| x@),
            lookup_waves: self.lookup_waves@.map_values(|x: LookupWaveInput| x@),
            transport_classes: self.transport_classes@.map_values(|x: TransportClassInput| x@),
            parent_costs: self.parent_costs@.map_values(|x: ParentCostInput| x@),
            sybils: self.sybils@.map_values(|x: SybilArrivalInput| x@),
        }
    }
}

/// Strictly ascending integers.
pub open spec fn ascending(s: Seq<u64>) -> bool {
    forall|i: int, j: int| 0 <= i < j < s.len() ==> #[trigger] s[i] < #[trigger] s[j]
}

/// The members of `s`, ascending and each once (what sorting and deduplicating gives).
pub open spec fn sorted_members(s: Seq<u64>) -> Seq<u64> {
    choose|q: Seq<u64>| ascending(q) && forall|x: u64| #[trigger] q.contains(x) <==> s.contains(x)
}

/// The first entry at least `bound` of a sequence, if any.
pub open spec fn first_at_least(q: Seq<u64>, bound: u64) -> Option<u64>
    decreases q.len(),
{
    if q.len() == 0 {
        None
    } else if q[0] >= bound {
        Some(q[0])
    } else {
        first_at_least(q.drop_first(), bound)
    }
}

/// Node ids from integers below the scale.
pub open spec fn as_node_ids(q: Seq<u64>) -> Seq<NodeId> {
    Seq::new(q.len(), |i: int| q[i] as NodeId)
}

/// The event's id, or `{action}-{index}`.
pub open spec fn spec_event_id(ev: InterventionEvent, index: usize, action: Seq<char>) -> Seq<char> {
    match ev.id {
        Some(s) => s@,
        None => action + "-"@ + decimal(index as nat),
    }
}

/// The event's required `at` duration.
pub open spec fn spec_required_time(ev: InterventionEvent, index: usize) -> Result<u64, InterventionError> {
    match ev.at {
        Field::Absent => Err(InterventionError::TimeMissing { index }),
        Field::Unresolved => Err(InterventionError::TimeUnresolved { index }),
        Field::Malformed => Err(InterventionError::TimeMalformed { index }),
        Field::Present(t) => Ok(t),
    }
}

/// An optional integer or a default.
pub open spec fn or_u64(o: Option<u64>, d: u64) -> u64 {
    match o {
        Some(v) => v,
        None => d,
    }
}

/// A text view of an optional string.
pub open spec fn opt_text(o: Option<String>) -> Option<Seq<char>> {
    match o {
        Some(s) => Some(s@),
        None => None,
    }
}

/// The actions the engine accepts.
pub open spec fn supported_action(a: Seq<char>) -> bool {
    ||| a == "introduce-lower-root-identities"@
    ||| a == "introduce-lower-root-node"@
    ||| a == "introduce-node"@
    ||| a == "inject-parent-loop"@
    ||| a == "disappear-node"@
    ||| a == "reappear-node"@
    ||| a == "partition-network"@
    ||| a == "merge-network"@
    ||| a == "set-link-conditions"@
    ||| a == "restore-link-conditions"@
    ||| a == "synchronized-session-rekey"@
    ||| a == "expire-coordinate-cache"@
    ||| a == "simultaneous-lookups"@
    ||| a == "fail-transport-class"@
    ||| a == "restore-transport-class"@
    ||| a == "swap-parent-ancestry"@
    ||| a == "alternate-parent-quality"@
    ||| a == "attach-authenticated-sybils"@
}

proof fn lemma_ascending_same_members(a: Seq<u64>, b: Seq<u64>)
    requires
        ascending(a),
        ascending(b),
        forall|x: u64| #[trigger] a.contains(x) <==> b.contains(x),
    ensures
        a == b,
    decreases a.len(),
{
    if a.len() == 0 {
        if b.len() > 0 {
            assert(b.contains(b[0]));
            assert(a.contains(b[0]));
        }
        assert(a =~= b);
    } else {
        assert(a.contains(a[0]));
        assert(b.contains(a[0]));
        assert(b.len() > 0);
        assert(b.contains(b[0]));
        assert(a.contains(b[0]));
        let i = choose|i: int| 0 <= i < b.len() && b[i] == a[0];
        let j = choose|j: int| 0 <= j < a.len() && a[j] == b[0];
        if i > 0 {
            assert(b[0] < b[i]);
        }
        if j > 0 {
            assert(a[0] < a[j]);
        }
        let ta = a.drop_first();
        let tb = b.drop_first();
        assert forall|p: int, q: int| 0 <= p < q < ta.len() implies #[trigger] ta[p] < #[trigger] ta[q] by {
            assert(a[p + 1] < a[q + 1]);
        }
        assert forall|p: int, q: int| 0 <= p < q < tb.len() implies #[trigger] tb[p] < #[trigger] tb[q] by {
            assert(b[p + 1] < b[q + 1]);
        }
        assert forall|x: u64| #[trigger] ta.contains(x) <==> tb.contains(x) by {
            if ta.contains(x) {
                let k = choose|k: int| 0 <= k < ta.len() && ta[k] == x;
                assert(a[k + 1] == x && a[0] < a[k + 1]);
                assert(a.contains(x));
                let l = choose|l: int| 0 <= l < b.len() && b[l] == x;
                assert(l != 0);
                assert(tb[l - 1] == x);
            }
            if tb.contains(x) {
                let k = choose|k: int| 0 <= k < tb.len() && tb[k] == x;
                assert(b[k + 1] == x && b[0] < b[k + 1]);
                assert(b.contains(x));
                assert(a.contains(x));
                let l = choose|l: int| 0 <= l < a.len() && a[l] == x;
                assert(l != 0);
                assert(ta[l - 1] == x);
            }
        }
        lemma_ascending_same_members(ta, tb);
        assert(a =~= seq![a[0]] + ta);
        assert(b =~= seq![b[0]] + tb);
    }
}

proof fn lemma_sorted_members(q: Seq<u64>, s: Seq<u64>)
    requires
        ascending(q),
        forall|x: u64| #[trigger] q.contains(x) <==> s.contains(x),
    ensures
        sorted_members(s) == q,
{
    let r = sorted_members(s);
    assert(ascending(r) && forall|x: u64| #[trigger] r.contains(x) <==> s.contains(x));
    lemma_ascending_same_members(r, q);
}

/// Insert a value into a strictly ascending vector unless it is already there.
fn insert_member(v: &mut Vec<u64>, c: u64)
    requires
        ascending(old(v)@),
    ensures
        ascending(final(v)@),
        forall|x: u64| #[trigger] final(v)@.contains(x) <==> (old(v)@.contains(x) || x == c),
        final(v)@.len() <= old(v)@.len() + 1,
{
    let mut p: usize = 0;
    while p < v.len() && v[p] < c
        invariant
            p <= v@.len(),
            forall|k: int| 0 <= k < p ==> #[trigger] v@[k] < c,
        decreases v@.len() - p,
    {
        p = p + 1;
    }
    if p < v.len() && v[p] == c {
        assert(v@.contains(c));
        return;
    }
    let ghost before = v@;
    v.insert(p, c);
    assert forall|x: u64| #[trigger] v@.contains(x) <==> (before.contains(x) || x == c) by {
        if v@.contains(x) {
            let k = choose|k: int| 0 <= k < v@.len() && v@[k] == x;
            if k < p {
                assert(before[k] == x);
            } else if k > p {
                assert(before[k - 1] == x);
            }
        }
        if before.contains(x) {
            let k = choose|k: int| 0 <= k < before.len() && before[k] == x;
            if k < p {
                assert(v@[k] == x);
            } else {
                assert(v@[k + 1] == x);
            }
        }
        if x == c {
            assert(v@[p as int] == c);
        }
    }
    assert forall|i: int, j: int| 0 <= i < j < v@.len() implies #[trigger] v@[i] < #[trigger] v@[j] by {
        if p < before.len() {
            assert(before[p as int] > c);
        }
        if i < p && j == p {
        } else if i < p && j > p {
            assert(before[i] < c);
        } else if i == p && j > p {
            assert(before[j - 1] >= before[p as int]);
        } else if i < p && j < p {
            assert(before[i] < before[j]);
        } else {
            assert(before[i - 1] < before[j - 1]);
        }
    }
}

/// Saturating product.
pub open spec fn sat_mul(a: u64, b: int) -> int {
    if a * b > u64::MAX {
        u64::MAX as int
    } else {
        a * b
    }
}

/// A string setting or a default.
pub open spec fn text_or(o: Option<String>, d: Seq<char>) -> Seq<char> {
    match o {
        Some(s) => s@,
        None => d,
    }
}

/// The integer attachments of an arrival, if every entry is one.
pub open spec fn spec_attachments(ev: InterventionEvent) -> Option<Seq<u64>> {
    match ev.attachments {
        None => Some(Seq::empty()),
        Some(v) => if exists|i: int| 0 <= i < v@.len() && (#[trigger] v@[i]) is None {
            None
        } else {
            Some(Seq::new(v@.len(), |i: int| v@[i]->Some_0))
        },
    }
}

/// A node arrival: its attachments and target, sorted and deduplicated, must all be
/// nodes of the scale, and it needs a time.
pub open spec fn spec_arrival(ev: InterventionEvent, index: usize, action: Seq<char>, nodes: u64) -> Result<ArrivalView, InterventionError> {
    match spec_attachments(ev) {
        None => Err(InterventionError::AttachmentNotNode { index }),
        Some(values) => {
            let all = match ev.target {
                Some(t) => values.push(t),
                None => values,
            };
            let q = sorted_members(all);
            match first_at_least(q, nodes) {
                Some(t) => Err(InterventionError::ArrivalTarget { index, target: t }),
                None => match spec_required_time(ev, index) {
                    Err(e) => Err(e),
                    Ok(at) => Ok(ArrivalView { at_ns: at, lower_root: action == "introduce-lower-root-node"@, targets: as_node_ids(q) }),
                },
            }
        },
    }
}

/// A partition or merge group: the listed nodes plus the target, sorted and
/// deduplicated, non-empty, smaller than the scale and all within it.
pub open spec fn spec_group(ev: InterventionEvent, nodes: u64) -> Option<Seq<u64>> {
    let listed = match ev.group {
        Some(v) => v@,
        None => Seq::empty(),
    };
    let all = match ev.target {
        Some(t) => listed.push(t),
        None => match ev.node {
            Some(t) => listed.push(t),
            None => listed,
        },
    };
    let q = sorted_members(all);
    if q.len() == 0 || q.len() >= nodes || first_at_least(q, nodes) is Some {
        None
    } else {
        Some(q)
    }
}

/// A partition (or, for `merge-network`, a merge) of a node group.
pub open spec fn spec_cut(ev: InterventionEvent, index: usize, action: Seq<char>, nodes: u64) -> Result<CutView, InterventionError> {
    match spec_group(ev, nodes) {
        None => Err(InterventionError::Group { index }),
        Some(q) => match spec_required_time(ev, index) {
            Err(e) => Err(e),
            Ok(at) => Ok(CutView { id: spec_event_id(ev, index, action), at_ns: at, nodes: as_node_ids(q), enabled: action == "merge-network"@ }),
        },
    }
}

/// A link-condition change (or restoration) of one edge.
pub open spec fn spec_link_update(ev: InterventionEvent, index: usize, action: Seq<char>) -> Result<LinkUpdateView, InterventionError> {
    let edge = match ev.target {
        Some(t) => Some(t),
        None => ev.edge,
    };
    match edge {
        None => Err(InterventionError::EdgeMissing { index }),
        Some(e) => if ev.loss_ppm matches Some(l) && l > 1_000_000 {
            Err(InterventionError::LossRange { index })
        } else {
            match spec_required_time(ev, index) {
                Err(err) => Err(err),
                Ok(at) => if e > u32::MAX {
                    Err(InterventionError::EdgeRange { index })
                } else {
                    Ok(LinkUpdateView {
                        id: spec_event_id(ev, index, action),
                        at_ns: at,
                        edge: e as EdgeId,
                        restore: action == "restore-link-conditions"@,
                        bandwidth_bps: ev.bandwidth_bps,
                        latency_ns: ev.latency_ns,
                        jitter_ns: ev.jitter_ns,
                        loss_ppm: match ev.loss_ppm {
                            Some(l) => Some(l as u32),
                            None => None,
                        },
                        mtu_bytes: ev.mtu_bytes,
                        queue_bytes: ev.queue_bytes,
                    })
                },
            }
        },
    }
}

/// A timed event identified by id.
pub open spec fn spec_timed(ev: InterventionEvent, index: usize, action: Seq<char>) -> Result<TimedView, InterventionError> {
    match spec_required_time(ev, index) {
        Err(e) => Err(e),
        Ok(at) => Ok(TimedView { id: spec_event_id(ev, index, action), at_ns: at }),
    }
}

/// A lookup wave of at most 100000 lookups.
pub open spec fn spec_lookup_wave(ev: InterventionEvent, index: usize, action: Seq<char>) -> Result<LookupWaveView, InterventionError> {
    if ev.count matches Some(c) && (c == 0 || c > 100_000) {
        Err(InterventionError::LookupCount { index })
    } else {
        match spec_required_time(ev, index) {
            Err(e) => Err(e),
            Ok(at) => Ok(LookupWaveView { id: spec_event_id(ev, index, action), at_ns: at, count: ev.count }),
        }
    }
}

/// A transport-class failure (or, for `restore-transport-class`, restoration).
pub open spec fn spec_transport_class(ev: InterventionEvent, index: usize, action: Seq<char>) -> Result<TransportClassView, InterventionError> {
    let profile = match ev.target_text {
        Some(t) => Some(t),
        None => ev.profile,
    };
    match profile {
        None => Err(InterventionError::ProfileMissing { index }),
        Some(pr) => match spec_required_time(ev, index) {
            Err(e) => Err(e),
            Ok(at) => Ok(TransportClassView { id: spec_event_id(ev, index, action), at_ns: at, profile: pr@, restore: action == "restore-transport-class"@ }),
        },
    }
}

/// Phase `p` of a parent-cost change, `p` intervals after `at`.
pub open spec fn parent_phase(id: Seq<char>, at: u64, interval: u64, target: Option<u64>, action: Seq<char>, preferred: u64, degraded: u64, p: int) -> ParentCostView {
    ParentCostView {
        id,
        at_ns: (at + sat_mul(interval, p)) as u64,
        target: match target {
            Some(t) => Some(t as NodeId),
            None => None,
        },
        phase: p as u32,
        action,
        preferred_cost_ppm: preferred,
        degraded_cost_ppm: degraded,
    }
}

/// The Sybil arrival of ordinal `o`, `o` intervals after `at`.
pub open spec fn sybil_arrival(id: Seq<char>, at: u64, interval: u64, policy: Seq<char>, attachment: AttachmentSelector, ops: u64, o: int) -> SybilView {
    SybilView {
        id,
        at_ns: (at + sat_mul(interval, o)) as u64,
        ordinal: o as u32,
        address_policy: policy,
        attachment,
        operations: ops,
    }
}

/// Parent-cost phases: one for a swap, `cycles` (4 by default, at most 1000) for an
/// alternation, `interval` apart (250 ms by default), with `0 < preferred < degraded`.
pub open spec fn spec_parent_costs(ev: InterventionEvent, index: usize, action: Seq<char>, nodes: u64) -> Result<Seq<ParentCostView>, InterventionError> {
    let target = match ev.target {
        Some(t) => Some(t),
        None => ev.node,
    };
    let cycles = if action == "alternate-parent-quality"@ { or_u64(ev.cycles, 4) } else { 1 };
    let interval = or_u64(ev.interval_ns, 250_000_000);
    let preferred = or_u64(ev.preferred_cost_ppm, 1_000_000);
    let degraded = or_u64(ev.degraded_cost_ppm, 6_000_000);
    if target matches Some(t) && t >= nodes {
        Err(InterventionError::ParentTarget { index })
    } else if !(1 <= cycles <= 1_000) {
        Err(InterventionError::ParentCycles { index })
    } else if preferred == 0 || degraded <= preferred {
        Err(InterventionError::ParentCosts { index })
    } else {
        match spec_required_time(ev, index) {
            Err(e) => Err(e),
            Ok(at) => if exists|p: int| 0 <= p < cycles && at + #[trigger] sat_mul(interval, p) > u64::MAX {
                Err(InterventionError::Arithmetic)
            } else {
                Ok(Seq::new(cycles as nat, |p: int| parent_phase(spec_event_id(ev, index, action), at, interval, target, action, preferred, degraded, p)))
            },
        }
    }
}

/// Authenticated Sybil arrivals: the adversary mode must allow them; their count
/// (the event's, else the identity budget) must be in `1..=100000`, below the scale
/// and within the identity budget; their operations within the operation budget;
/// their address policy and attachment supported; one arrival per ordinal,
/// `interval` apart.
pub open spec fn spec_sybils(ev: InterventionEvent, index: usize, adv: AdversaryFields, nodes: u64) -> Result<Seq<SybilView>, InterventionError> {
    let count = match ev.count {
        Some(c) => Some(c),
        None => adv.identities,
    };
    if opt_text(adv.mode) != Some("authenticated-protocol-valid"@) {
        Err(InterventionError::SybilMode { index })
    } else {
        match count {
            None => Err(InterventionError::SybilCountMissing { index }),
            Some(c) => if c == 0 || c > 100_000 || c >= nodes {
                Err(InterventionError::SybilCountRange { index })
            } else if adv.identities matches Some(b) && c > b {
                Err(InterventionError::BudgetExhausted { required: c, available: adv.identities->Some_0 })
            } else {
                let ops = or_u64(ev.operations_per_identity, 1);
                let required = sat_mul(c, ops as int) as u64;
                if adv.operations matches Some(b) && required > b {
                    Err(InterventionError::BudgetExhausted { required, available: adv.operations->Some_0 })
                } else {
                    let policy = text_or(ev.address_policy, "uniform-valid"@);
                    if policy != "uniform-valid"@ && policy != "lower-than-current-root"@ {
                        Err(InterventionError::SybilPolicy { index })
                    } else {
                        match spec_selector_named(text_or(ev.attachment, "hub"@)) {
                            None => Err(InterventionError::SybilAttachment { index }),
                            Some(attachment) => {
                                let interval = or_u64(ev.interval_ns, 0);
                                match spec_required_time(ev, index) {
                                    Err(e) => Err(e),
                                    Ok(at) => if exists|o: int| 0 <= o < c && at + #[trigger] sat_mul(interval, o) > u64::MAX {
                                        Err(InterventionError::Arithmetic)
                                    } else {
                                        Ok(Seq::new(c as nat, |o: int| sybil_arrival(spec_event_id(ev, index, "attach-authenticated-sybils"@), at, interval, policy, attachment, ops, o)))
                                    },
                                }
                            },
                        }
                    }
                }
            },
        }
    }
}

/// The plan with nothing scheduled.
pub open spec fn empty_plan() -> PlanView {
    PlanView {
        manual_arrivals: Seq::empty(),
        cuts: Seq::empty(),
        link_updates: Seq::empty(),
        rekeys: Seq::empty(),
        cache_expiries: Seq::empty(),
        lookup_waves: Seq::empty(),
        transport_classes: Seq::empty(),
        parent_costs: Seq::empty(),
        sybils: Seq::empty(),
    }
}

/// What one event (at position `index`) adds to the plan.
pub open spec fn spec_step(p: PlanView, ev: InterventionEvent, index: usize, adv: AdversaryFields, nodes: u64) -> Result<PlanView, InterventionError> {
    let a = text_or(ev.action, ""@);
    if !supported_action(a) {
        Err(InterventionError::UnsupportedAction { index })
    } else if a == "introduce-lower-root-node"@ || a == "introduce-node"@ {
        match spec_arrival(ev, index, a, nodes) {
            Err(e) => Err(e),
            Ok(x) => Ok(PlanView { manual_arrivals: p.manual_arrivals.push(x), ..p }),
        }
    } else if a == "partition-network"@ || a == "merge-network"@ {
        match spec_cut(ev, index, a, nodes) {
            Err(e) => Err(e),
            Ok(x) => Ok(PlanView { cuts: p.cuts.push(x), ..p }),
        }
    } else if a == "set-link-conditions"@ || a == "restore-link-conditions"@ {
        match spec_link_update(ev, index, a) {
            Err(e) => Err(e),
            Ok(x) => Ok(PlanView { link_updates: p.link_updates.push(x), ..p }),
        }
    } else if a == "synchronized-session-rekey"@ {
        match spec_timed(ev, index, a) {
            Err(e) => Err(e),
            Ok(x) => Ok(PlanView { rekeys: p.rekeys.push(x), ..p }),
        }
    } else if a == "expire-coordinate-cache"@ {
        match spec_timed(ev, index, a) {
            Err(e) => Err(e),
            Ok(x) => Ok(PlanView { cache_expiries: p.cache_expiries.push(x), ..p }),
        }
    } else if a == "simultaneous-lookups"@ {
        match spec_lookup_wave(ev, index, a) {
            Err(e) => Err(e),
            Ok(x) => Ok(PlanView { lookup_waves: p.lookup_waves.push(x), ..p }),
        }
    } else if a == "fail-transport-class"@ || a == "restore-transport-class"@ {
        match spec_transport_class(ev, index, a) {
            Err(e) => Err(e),
            Ok(x) => Ok(PlanView { transport_classes: p.transport_classes.push(x), ..p }),
        }
    } else if a == "swap-parent-ancestry"@ || a == "alternate-parent-quality"@ {
        match spec_parent_costs(ev, index, a, nodes) {
            Err(e) => Err(e),
            Ok(xs) => Ok(PlanView { parent_costs: p.parent_costs + xs, ..p }),
        }
    } else if a == "attach-authenticated-sybils"@ {
        match spec_sybils(ev, index, adv, nodes) {
            Err(e) => Err(e),
            Ok(xs) => Ok(PlanView { sybils: p.sybils + xs, ..p }),
        }
    } else {
        Ok(p)
    }
}

/// The plan of the first events, before arrivals are put in time order.
pub open spec fn spec_plan_prefix(evs: Seq<InterventionEvent>, adv: AdversaryFields, nodes: u64) -> Result<PlanView, InterventionError>
    decreases evs.len(),
{
    if evs.len() == 0 {
        Ok(empty_plan())
    } else {
        match spec_plan_prefix(evs.drop_last(), adv, nodes) {
            Err(e) => Err(e),
            Ok(p) => spec_step(p, evs.last(), (evs.len() - 1) as usize, adv, nodes),
        }
    }
}

/// `x` placed after every arrival of `q` that is not later than it.
pub open spec fn insert_by_time(q: Seq<ArrivalView>, x: ArrivalView) -> Seq<ArrivalView>
    decreases q.len(),
{
    if q.len() == 0 {
        seq![x]
    } else if q.last().at_ns <= x.at_ns {
        q.push(x)
    } else {
        insert_by_time(q.drop_last(), x).push(q.last())
    }
}

/// Arrivals in time order, arrivals at the same time in event order.
pub open spec fn sort_by_time(s: Seq<ArrivalView>) -> Seq<ArrivalView>
    decreases s.len(),
{
    if s.len() == 0 {
        Seq::empty()
    } else {
        insert_by_time(sort_by_time(s.drop_last()), s.last())
    }
}

/// The plan the events give, or the first problem with them: every event must have
/// a supported action, and each is checked as its kind requires, in event order;
/// arrivals come out in time order.
pub open spec fn spec_interventions(events: Option<Vec<InterventionEvent>>, adv: AdversaryFields, nodes: u64) -> Result<PlanView, InterventionError> {
    match events {
        None => Ok(empty_plan()),
        Some(v) => match spec_plan_prefix(v@, adv, nodes) {
            Err(e) => Err(e),
            Ok(p) => Ok(in_time_order(p)),
        },
    }
}

/// The plan with its arrivals put in time order.
pub open spec fn in_time_order(p: PlanView) -> PlanView {
    PlanView { manual_arrivals: sort_by_time(p.manual_arrivals), ..p }
}


/// The event's id, or `{action}-{index}`.
fn event_id(ev: &InterventionEvent, index: usize, action: &str) -> (r: String)
    ensures
        r@ == spec_event_id(*ev, index, action@),
{
    match &ev.id {
        Some(s) => s.clone(),
        None => {
            let mut s = String::from_str(action);
            s.append("-");
            push_decimal(&mut s, index as u64);
            s
        },
    }
}

/// The event's `at` duration, which every scheduled event needs.
fn required_time(ev: &InterventionEvent, index: usize) -> (r: Result<u64, InterventionError>)
    ensures
        r == spec_required_time(*ev, index),
{
    match &ev.at {
        Field::Absent => Err(InterventionError::TimeMissing { index }),
        Field::Unresolved => Err(InterventionError::TimeUnresolved { index }),
        Field::Malformed => Err(InterventionError::TimeMalformed { index }),
        Field::Present(t) => Ok(*t),
    }
}

/// The first entry of `q` that is at least `bound`.
fn find_at_least(q: &Vec<u64>, bound: u64) -> (r: Option<u64>)
    ensures
        r == first_at_least(q@, bound),
{
    let n = q.len();
    let mut i: usize = 0;
    assert(q@.subrange(0, n as int) =~= q@);
    while i < n
        invariant
            n == q@.len(),
            i <= n,
            first_at_least(q@, bound) == first_at_least(q@.subrange(i as int, n as int), bound),
        decreases n - i,
    {
        let ghost rest = q@.subrange(i as int, n as int);
        assert(rest.drop_first() =~= q@.subrange(i + 1, n as int));
        if q[i] >= bound {
            return Some(q[i]);
        }
        i = i + 1;
    }
    assert(q@.subrange(n as int, n as int).len() == 0);
    None
}

/// The members of `values`, ascending and each once.
fn sorted_members_of(values: &Vec<u64>) -> (r: Vec<u64>)
    ensures
        r@ == sorted_members(values@),
{
    let mut out: Vec<u64> = Vec::new();
    let n = values.len();
    let mut i: usize = 0;
    while i < n
        invariant
            n == values@.len(),
            i <= n,
            ascending(out@),
            forall|x: u64| #[trigger] out@.contains(x) <==> values@.take(i as int).contains(x),
        decreases n - i,
    {
        let ghost before = out@;
        insert_member(&mut out, values[i]);
        let ghost t = values@.take(i as int);
        let ghost t1 = values@.take(i + 1);
        assert(t1 =~= t.push(values@[i as int]));
        assert forall|x: u64| #[trigger] out@.contains(x) <==> t1.contains(x) by {
            if t1.contains(x) {
                let k = choose|k: int| 0 <= k < t1.len() && t1[k] == x;
                if k < i {
                    assert(t[k] == x);
                    assert(t.contains(x));
                }
            }
            if t.contains(x) {
                let k = choose|k: int| 0 <= k < t.len() && t[k] == x;
                assert(t1[k] == x);
            }
            if x == values@[i as int] {
                assert(t1[i as int] == x);
            }
        }
        i = i + 1;
    }
    assert(values@.take(n as int) =~= values@);
    proof {
        lemma_sorted_members(out@, values@);
    }
    out
}

/// Node ids of integers.
fn node_ids(q: &Vec<u64>) -> (r: Vec<NodeId>)
    ensures
        r@ == as_node_ids(q@),
{
    let mut out: Vec<NodeId> = Vec::new();
    let n = q.len();
    let mut i: usize = 0;
    while i < n
        invariant
            n == q@.len(),
            i <= n,
            out@ =~= as_node_ids(q@.take(i as int)),
        decreases n - i,
    {
        out.push(q[i] as NodeId);
        i = i + 1;
        assert(out@ =~= as_node_ids(q@.take(i as int)));
    }
    assert(q@.take(n as int) =~= q@);
    out
}

/// A copy of a vector of integers.
fn copy_values(v: &Vec<u64>) -> (r: Vec<u64>)
    ensures
        r@ == v@,
{
    let mut out: Vec<u64> = Vec::new();
    let n = v.len();
    let mut i: usize = 0;
    while i < n
        invariant
            n == v@.len(),
            i <= n,
            out@ =~= v@.take(i as int),
        decreases n - i,
    {
        out.push(v[i]);
        i = i + 1;
        assert(out@ =~= v@.take(i as int));
    }
    assert(v@.take(n as int) =~= v@);
    out
}

/// A node arrival with its sorted, deduplicated attachments.
fn parse_arrival(ev: &InterventionEvent, index: usize, action: &str, nodes: u64) -> (r: Result<ManualArrivalInput, InterventionError>)
    ensures
        match spec_arrival(*ev, index, action@, nodes) {
            Ok(v) => r matches Ok(x) && x@ == v,
            Err(e) => r == Err::<ManualArrivalInput, InterventionError>(e),
        },
{
    let mut all: Vec<u64> = Vec::new();
    match &ev.attachments {
        None => {},
        Some(v) => {
            let n = v.len();
            let mut i: usize = 0;
            while i < n
                invariant
                    n == v@.len(),
                    i <= n,
                    all@ =~= Seq::new(i as nat, |k: int| v@[k]->Some_0),
                    forall|k: int| 0 <= k < i ==> (#[trigger] v@[k]) is Some,
                    ev.attachments == Some(*v),
                decreases n - i,
            {
                match v[i] {
                    None => {
                        assert(v@[i as int] is None);
                        assert(exists|k: int| 0 <= k < v@.len() && (#[trigger] v@[k]) is None);
                        assert(spec_attachments(*ev) is None);
                        return Err(InterventionError::AttachmentNotNode { index });
                    },
                    Some(x) => {
                        all.push(x);
                    },
                }
                i = i + 1;
                assert(all@ =~= Seq::new(i as nat, |k: int| v@[k]->Some_0));
            }
        },
    }
    assert(spec_attachments(*ev) == Some(all@));
    if let Some(t) = ev.target {
        all.push(t);
    }
    let q = sorted_members_of(&all);
    if let Some(t) = find_at_least(&q, nodes) {
        return Err(InterventionError::ArrivalTarget { index, target: t });
    }
    let at_ns = required_time(ev, index)?;
    Ok(ManualArrivalInput { at_ns, lower_root: str_equals(action, "introduce-lower-root-node"), targets: node_ids(&q) })
}

/// The group of a partition or merge, if it is a non-empty proper group of nodes.
fn parse_group(ev: &InterventionEvent, nodes: u64) -> (r: Option<Vec<u64>>)
    ensures
        match spec_group(*ev, nodes) {
            Some(q) => r matches Some(v) && v@ == q,
            None => r is None,
        },
{
    let mut all: Vec<u64> = match &ev.group {
        Some(v) => copy_values(v),
        None => Vec::new(),
    };
    match ev.target {
        Some(t) => all.push(t),
        None => match ev.node {
            Some(t) => all.push(t),
            None => {},
        },
    }
    let q = sorted_members_of(&all);
    if q.len() == 0 || q.len() as u64 >= nodes || find_at_least(&q, nodes).is_some() {
        None
    } else {
        Some(q)
    }
}

/// A partition, or for `merge-network` a merge.
fn parse_cut(ev: &InterventionEvent, index: usize, action: &str, nodes: u64) -> (r: Result<NetworkCutInput, InterventionError>)
    ensures
        match spec_cut(*ev, index, action@, nodes) {
            Ok(v) => r matches Ok(x) && x@ == v,
            Err(e) => r == Err::<NetworkCutInput, InterventionError>(e),
        },
{
    let q = match parse_group(ev, nodes) {
        Some(q) => q,
        None => {
            return Err(InterventionError::Group { index });
        },
    };
    let id = event_id(ev, index, action);
    let at_ns = required_time(ev, index)?;
    Ok(NetworkCutInput { id, at_ns, nodes: node_ids(&q), enabled: str_equals(action, "merge-network") })
}

/// A change, or for `restore-link-conditions` a restoration, of one edge's conditions.
fn parse_link_update(ev: &InterventionEvent, index: usize, action: &str) -> (r: Result<LinkUpdateInput, InterventionError>)
    ensures
        match spec_link_update(*ev, index, action@) {
            Ok(v) => r matches Ok(x) && x@ == v,
            Err(e) => r == Err::<LinkUpdateInput, InterventionError>(e),
        },
{
    let edge = match ev.target {
        Some(t) => t,
        None => match ev.edge {
            Some(e) => e,
            None => {
                return Err(InterventionError::EdgeMissing { index });
            },
        },
    };
    if let Some(l) = ev.loss_ppm {
        if l > 1_000_000 {
            return Err(InterventionError::LossRange { index });
        }
    }
    let id = event_id(ev, index, action);
    let at_ns = required_time(ev, index)?;
    if edge > 4_294_967_295 {
        return Err(InterventionError::EdgeRange { index });
    }
    let loss_ppm: Option<u32> = match ev.loss_ppm {
        Some(l) => Some(l as u32),
        None => None,
    };
    Ok(LinkUpdateInput {
        id,
        at_ns,
        edge: edge as EdgeId,
        restore: str_equals(action, "restore-link-conditions"),
        bandwidth_bps: ev.bandwidth_bps,
        latency_ns: ev.latency_ns,
        jitter_ns: ev.jitter_ns,
        loss_ppm,
        mtu_bytes: ev.mtu_bytes,
        queue_bytes: ev.queue_bytes,
    })
}

/// The id and time of a rekey or cache expiry.
fn parse_timed(ev: &InterventionEvent, index: usize, action: &str) -> (r: Result<(String, u64), InterventionError>)
    ensures
        match spec_timed(*ev, index, action@) {
            Ok(v) => r matches Ok(x) && x.0@ == v.id && x.1 == v.at_ns,
            Err(e) => r == Err::<(String, u64), InterventionError>(e),
        },
{
    let id = event_id(ev, index, action);
    let at_ns = required_time(ev, index)?;
    Ok((id, at_ns))
}

/// A wave of at most 100000 simultaneous lookups.
fn parse_lookup_wave(ev: &InterventionEvent, index: usize, action: &str) -> (r: Result<LookupWaveInput, InterventionError>)
    ensures
        match spec_lookup_wave(*ev, index, action@) {
            Ok(v) => r matches Ok(x) && x@ == v,
            Err(e) => r == Err::<LookupWaveInput, InterventionError>(e),
        },
{
    if let Some(c) = ev.count {
        if c == 0 || c > 100_000 {
            return Err(InterventionError::LookupCount { index });
        }
    }
    let id = event_id(ev, index, action);
    let at_ns = required_time(ev, index)?;
    Ok(LookupWaveInput { id, at_ns, count: ev.count })
}

/// A failure, or for `restore-transport-class` a restoration, of a transport class.
fn parse_transport_class(ev: &InterventionEvent, index: usize, action: &str) -> (r: Result<TransportClassInput, InterventionError>)
    ensures
        match spec_transport_class(*ev, index, action@) {
            Ok(v) => r matches Ok(x) && x@ == v,
            Err(e) => r == Err::<TransportClassInput, InterventionError>(e),
        },
{
    let profile = match &ev.target_text {
        Some(t) => t.clone(),
        None => match &ev.profile {
            Some(p) => p.clone(),
            None => {
                return Err(InterventionError::ProfileMissing { index });
            },
        },
    };
    let id = event_id(ev, index, action);
    let at_ns = required_time(ev, index)?;
    Ok(TransportClassInput { id, at_ns, profile, restore: str_equals(action, "restore-transport-class") })
}

/// `a * b`, or `u64::MAX` where it overflows.
fn saturating_product(a: u64, b: u64) -> (r: u64)
    ensures
        r == sat_mul(a, b as int),
{
    match a.checked_mul(b) {
        Some(v) => v,
        None => u64::MAX,
    }
}

/// The phases of a parent-cost change.
#[verifier::loop_isolation(false)]
fn parse_parent_costs(ev: &InterventionEvent, index: usize, action: &str, nodes: u64) -> (r: Result<Vec<ParentCostInput>, InterventionError>)
    ensures
        match spec_parent_costs(*ev, index, action@, nodes) {
            Ok(v) => r matches Ok(x) && x@.map_values(|c: ParentCostInput| c@) == v,
            Err(e) => r == Err::<Vec<ParentCostInput>, InterventionError>(e),
        },
{
    let target = match ev.target {
        Some(t) => Some(t),
        None => ev.node,
    };
    if let Some(t) = target {
        if t >= nodes {
            return Err(InterventionError::ParentTarget { index });
        }
    }
    let cycles: u64 = if str_equals(action, "alternate-parent-quality") {
        match ev.cycles {
            Some(c) => c,
            None => 4,
        }
    } else {
        1
    };
    if cycles < 1 || cycles > 1_000 {
        return Err(InterventionError::ParentCycles { index });
    }
    let interval: u64 = match ev.interval_ns {
        Some(v) => v,
        None => 250_000_000,
    };
    let preferred: u64 = match ev.preferred_cost_ppm {
        Some(v) => v,
        None => 1_000_000,
    };
    let degraded: u64 = match ev.degraded_cost_ppm {
        Some(v) => v,
        None => 6_000_000,
    };
    if preferred == 0 || degraded <= preferred {
        return Err(InterventionError::ParentCosts { index });
    }
    let at = required_time(ev, index)?;
    let id = event_id(ev, index, action);
    let target_node: Option<NodeId> = match target {
        Some(t) => Some(t as NodeId),
        None => None,
    };
    let ghost idv = id@;
    let mut out: Vec<ParentCostInput> = Vec::new();
    let mut phase: u64 = 0;
    while phase < cycles
        invariant
            phase <= cycles,
            cycles <= 1_000,
            out@.len() == phase,
            id@ == idv,
            forall|k: int| 0 <= k < phase ==> at + #[trigger] sat_mul(interval, k) <= u64::MAX,
            forall|k: int| 0 <= k < phase ==> (#[trigger] out@[k])@ == parent_phase(idv, at, interval, target, action@, preferred, degraded, k),
        decreases cycles - phase,
    {
        let step = saturating_product(interval, phase);
        let at_ns = match at.checked_add(step) {
            Some(v) => v,
            None => {
                assert(at + sat_mul(interval, phase as int) > u64::MAX);
                return Err(InterventionError::Arithmetic);
            },
        };
        let entry = ParentCostInput {
            id: id.clone(),
            at_ns,
            target: target_node,
            phase: phase as u32,
            action: String::from_str(action),
            preferred_cost_ppm: preferred,
            degraded_cost_ppm: degraded,
        };
        assert(entry@ == parent_phase(idv, at, interval, target, action@, preferred, degraded, phase as int));
        out.push(entry);
        phase = phase + 1;
    }
    assert(out@.map_values(|c: ParentCostInput| c@) =~= Seq::new(cycles as nat, |p: int| parent_phase(idv, at, interval, target, action@, preferred, degraded, p)));
    Ok(out)
}

/// The arrivals of authenticated Sybil identities.
#[verifier::loop_isolation(false)]
fn parse_sybils(ev: &InterventionEvent, index: usize, adv: &AdversaryFields, nodes: u64) -> (r: Result<Vec<SybilArrivalInput>, InterventionError>)
    ensures
        match spec_sybils(*ev, index, *adv, nodes) {
            Ok(v) => r matches Ok(x) && x@.map_values(|c: SybilArrivalInput| c@) == v,
            Err(e) => r == Err::<Vec<SybilArrivalInput>, InterventionError>(e),
        },
{
    let mode_ok = match &adv.mode {
        Some(m) => str_equals(m.as_str(), "authenticated-protocol-valid"),
        None => false,
    };
    if !mode_ok {
        return Err(InterventionError::SybilMode { index });
    }
    let count: u64 = match ev.count {
        Some(c) => c,
        None => match adv.identities {
            Some(c) => c,
            None => {
                return Err(InterventionError::SybilCountMissing { index });
            },
        },
    };
    if count == 0 || count > 100_000 || count >= nodes {
        return Err(InterventionError::SybilCountRange { index });
    }
    if let Some(b) = adv.identities {
        if count > b {
            return Err(InterventionError::BudgetExhausted { required: count, available: b });
        }
    }
    let ops: u64 = match ev.operations_per_identity {
        Some(o) => o,
        None => 1,
    };
    let required = saturating_product(count, ops);
    if let Some(b) = adv.operations {
        if required > b {
            return Err(InterventionError::BudgetExhausted { required, available: b });
        }
    }
    let policy: &str = match &ev.address_policy {
        Some(p) => p.as_str(),
        None => "uniform-valid",
    };
    if !str_equals(policy, "uniform-valid") && !str_equals(policy, "lower-than-current-root") {
        return Err(InterventionError::SybilPolicy { index });
    }
    let attachment_name: &str = match &ev.attachment {
        Some(a) => a.as_str(),
        None => "hub",
    };
    let attachment = match AttachmentSelector::parse(attachment_name) {
        Ok(a) => a,
        Err(_) => {
            return Err(InterventionError::SybilAttachment { index });
        },
    };
    let interval: u64 = match ev.interval_ns {
        Some(v) => v,
        None => 0,
    };
    let at = required_time(ev, index)?;
    let id = event_id(ev, index, "attach-authenticated-sybils");
    let ghost idv = id@;
    let ghost pv = policy@;
    let mut out: Vec<SybilArrivalInput> = Vec::new();
    let mut ordinal: u64 = 0;
    while ordinal < count
        invariant
            ordinal <= count,
            count <= 100_000,
            out@.len() == ordinal,
            id@ == idv,
            policy@ == pv,
            forall|k: int| 0 <= k < ordinal ==> at + #[trigger] sat_mul(interval, k) <= u64::MAX,
            forall|k: int| 0 <= k < ordinal ==> (#[trigger] out@[k])@ == sybil_arrival(idv, at, interval, pv, attachment, ops, k),
        decreases count - ordinal,
    {
        let step = saturating_product(interval, ordinal);
        let at_ns = match at.checked_add(step) {
            Some(v) => v,
            None => {
                assert(at + sat_mul(interval, ordinal as int) > u64::MAX);
                return Err(InterventionError::Arithmetic);
            },
        };
        let entry = SybilArrivalInput {
            id: id.clone(),
            at_ns,
            ordinal: ordinal as u32,
            address_policy: String::from_str(policy),
            attachment,
            operations: ops,
        };
        out.push(entry);
        ordinal = ordinal + 1;
    }
    assert(out@.map_values(|c: SybilArrivalInput| c@) =~= Seq::new(count as nat, |o: int| sybil_arrival(idv, at, interval, pv, attachment, ops, o)));
    Ok(out)
}

proof fn lemma_insert_by_time(q: Seq<ArrivalView>, x: ArrivalView, p: int)
    requires
        0 <= p <= q.len(),
        forall|k: int| p <= k < q.len() ==> (#[trigger] q[k]).at_ns > x.at_ns,
        p == 0 || q[p - 1].at_ns <= x.at_ns,
    ensures
        insert_by_time(q, x) == q.take(p) + seq![x] + q.skip(p),
    decreases q.len(),
{
    if q.len() == 0 {
        assert(q.take(p) + seq![x] + q.skip(p) =~= seq![x]);
    } else if q.len() == p {
        assert(q.take(p) + seq![x] + q.skip(p) =~= q.push(x));
    } else {
        let d = q.drop_last();
        lemma_insert_by_time(d, x, p);
        assert((d.take(p) + seq![x] + d.skip(p)).push(q.last()) =~= q.take(p) + seq![x] + q.skip(p));
    }
}

/// Insert an arrival after every arrival not later than it.
fn insert_arrival(v: &mut Vec<ManualArrivalInput>, x: ManualArrivalInput)
    ensures
        final(v)@.map_values(|a: ManualArrivalInput| a@) == insert_by_time(old(v)@.map_values(|a: ManualArrivalInput| a@), x@),
{
    let ghost q = v@.map_values(|a: ManualArrivalInput| a@);
    let ghost xv = x@;
    let mut p: usize = v.len();
    while p > 0 && v[p - 1].at_ns > x.at_ns
        invariant
            p <= v@.len(),
            v@.map_values(|a: ManualArrivalInput| a@) == q,
            forall|k: int| p <= k < v@.len() ==> (#[trigger] v@[k]).at_ns > x.at_ns,
        decreases p,
    {
        p = p - 1;
    }
    proof {
        assert forall|k: int| p <= k < q.len() implies (#[trigger] q[k]).at_ns > xv.at_ns by {
            assert(q[k] == v@[k]@);
        }
        if p > 0 {
            assert(q[p - 1] == v@[p - 1]@);
        }
        lemma_insert_by_time(q, xv, p as int);
    }
    v.insert(p, x);
    assert(v@.map_values(|a: ManualArrivalInput| a@) =~= q.take(p as int) + seq![xv] + q.skip(p as int));
}

/// Whether the engine accepts an action.
fn is_supported_action(a: &str) -> (r: bool)
    ensures
        r == supported_action(a@),
{
    str_equals(a, "introduce-lower-root-identities")
        || str_equals(a, "introduce-lower-root-node")
        || str_equals(a, "introduce-node")
        || str_equals(a, "inject-parent-loop")
        || str_equals(a, "disappear-node")
        || str_equals(a, "reappear-node")
        || str_equals(a, "partition-network")
        || str_equals(a, "merge-network")
        || str_equals(a, "set-link-conditions")
        || str_equals(a, "restore-link-conditions")
        || str_equals(a, "synchronized-session-rekey")
        || str_equals(a, "expire-coordinate-cache")
        || str_equals(a, "simultaneous-lookups")
        || str_equals(a, "fail-transport-class")
        || str_equals(a, "restore-transport-class")
        || str_equals(a, "swap-parent-ancestry")
        || str_equals(a, "alternate-parent-quality")
        || str_equals(a, "attach-authenticated-sybils")
}

/// Add what one event schedules to a plan whose arrivals are in time order.
#[verifier::rlimit(40)]
fn apply_event(plan: &mut InterventionPlan, Ghost(p): Ghost<PlanView>, ev: &InterventionEvent, index: usize, adv: &AdversaryFields, nodes: u64) -> (r: Result<(), InterventionError>)
    requires
        old(plan)@ == in_time_order(p),
    ensures
        match spec_step(p, *ev, index, *adv, nodes) {
            Ok(q) => r is Ok && final(plan)@ == in_time_order(q),
            Err(e) => r == Err::<(), InterventionError>(e),
        },
{
    let a: &str = match &ev.action {
        Some(s) => s.as_str(),
        None => "",
    };
    assert(a@ == text_or(ev.action, ""@));
    if !is_supported_action(a) {
        return Err(InterventionError::UnsupportedAction { index });
    }
    if str_equals(a, "introduce-lower-root-node") || str_equals(a, "introduce-node") {
        let x = parse_arrival(ev, index, a, nodes)?;
        let ghost xv = x@;
        assert(p.manual_arrivals.push(xv).drop_last() =~= p.manual_arrivals);
        insert_arrival(&mut plan.manual_arrivals, x);
    } else if str_equals(a, "partition-network") || str_equals(a, "merge-network") {
        let x = parse_cut(ev, index, a, nodes)?;
        let ghost xv = x@;
        let ghost before = plan.cuts@;
        plan.cuts.push(x);
        assert(plan.cuts@.map_values(|c: NetworkCutInput| c@) =~= before.map_values(|c: NetworkCutInput| c@).push(xv));
    } else if str_equals(a, "set-link-conditions") || str_equals(a, "restore-link-conditions") {
        let x = parse_link_update(ev, index, a)?;
        let ghost xv = x@;
        let ghost before = plan.link_updates@;
        plan.link_updates.push(x);
        assert(plan.link_updates@.map_values(|c: LinkUpdateInput| c@) =~= before.map_values(|c: LinkUpdateInput| c@).push(xv));
    } else if str_equals(a, "synchronized-session-rekey") {
        let (id, at_ns) = parse_timed(ev, index, a)?;
        let x = SessionRekeyInput { id, at_ns };
        let ghost xv = x@;
        let ghost before = plan.rekeys@;
        plan.rekeys.push(x);
        assert(plan.rekeys@.map_values(|c: SessionRekeyInput| c@) =~= before.map_values(|c: SessionRekeyInput| c@).push(xv));
    } else if str_equals(a, "expire-coordinate-cache") {
        let (id, at_ns) = parse_timed(ev, index, a)?;
        let x = CacheExpiryInput { id, at_ns };
        let ghost xv = x@;
        let ghost before = plan.cache_expiries@;
        plan.cache_expiries.push(x);
        assert(plan.cache_expiries@.map_values(|c: CacheExpiryInput| c@) =~= before.map_values(|c: CacheExpiryInput| c@).push(xv));
    } else if str_equals(a, "simultaneous-lookups") {
        let x = parse_lookup_wave(ev, index, a)?;
        let ghost xv = x@;
        let ghost before = plan.lookup_waves@;
        plan.lookup_waves.push(x);
        assert(plan.lookup_waves@.map_values(|c: LookupWaveInput| c@) =~= before.map_values(|c: LookupWaveInput| c@).push(xv));
    } else if str_equals(a, "fail-transport-class") || str_equals(a, "restore-transport-class") {
        let x = parse_transport_class(ev, index, a)?;
        let ghost xv = x@;
        let ghost before = plan.transport_classes@;
        plan.transport_classes.push(x);
        assert(plan.transport_classes@.map_values(|c: TransportClassInput| c@) =~= before.map_values(|c: TransportClassInput| c@).push(xv));
    } else if str_equals(a, "swap-parent-ancestry") || str_equals(a, "alternate-parent-quality") {
        let mut xs = parse_parent_costs(ev, index, a, nodes)?;
        let ghost xsv = xs@;
        let ghost before = plan.parent_costs@;
        plan.parent_costs.append(&mut xs);
        assert(plan.parent_costs@.map_values(|c: ParentCostInput| c@) =~= before.map_values(|c: ParentCostInput| c@) + xsv.map_values(|c: ParentCostInput| c@));
    } else if str_equals(a, "attach-authenticated-sybils") {
        let mut xs = parse_sybils(ev, index, adv, nodes)?;
        let ghost xsv = xs@;
        let ghost before = plan.sybils@;
        plan.sybils.append(&mut xs);
        assert(plan.sybils@.map_values(|c: SybilArrivalInput| c@) =~= before.map_values(|c: SybilArrivalInput| c@) + xsv.map_values(|c: SybilArrivalInput| c@));
    }
    Ok(())
}

proof fn lemma_prefix_error(evs: Seq<InterventionEvent>, j: int, adv: AdversaryFields, nodes: u64)
    requires
        0 <= j <= evs.len(),
        spec_plan_prefix(evs.take(j), adv, nodes) is Err,
    ensures
        spec_plan_prefix(evs, adv, nodes) == spec_plan_prefix(evs.take(j), adv, nodes),
    decreases evs.len(),
{
    if evs.len() == j {
        assert(evs.take(j) =~= evs);
    } else {
        let d = evs.drop_last();
        assert(d.take(j) =~= evs.take(j));
        lemma_prefix_error(d, j, adv, nodes);
    }
}

/// Validate a campaign's events into the plan of interventions to schedule.
///
/// Events are read in order; the first one that is not valid decides the error.
/// Arrivals are returned in time order (arrivals at the same time in event order);
/// everything else in event order.
pub fn parse_interventions(events: &Option<Vec<InterventionEvent>>, adversaries: &AdversaryFields, nodes: u64) -> (r: Result<InterventionPlan, InterventionError>)
    ensures
        match spec_interventions(*events, *adversaries, nodes) {
            Ok(v) => r matches Ok(plan) && plan@ == v,
            Err(e) => r matches Err(x) && x == e,
        },
{
    let mut plan = InterventionPlan {
        manual_arrivals: Vec::new(),
        cuts: Vec::new(),
        link_updates: Vec::new(),
        rekeys: Vec::new(),
        cache_expiries: Vec::new(),
        lookup_waves: Vec::new(),
        transport_classes: Vec::new(),
        parent_costs: Vec::new(),
        sybils: Vec::new(),
    };
    assert(plan@ =~= in_time_order(empty_plan()));
    match events {
        None => Ok(plan),
        Some(evs) => {
            let n = evs.len();
            let mut i: usize = 0;
            let ghost mut p = empty_plan();
            assert(evs@.take(0) =~= Seq::<InterventionEvent>::empty());
            while i < n
                invariant
                    n == evs@.len(),
                    i <= n,
                    spec_plan_prefix(evs@.take(i as int), *adversaries, nodes) == Ok::<PlanView, InterventionError>(p),
                    plan@ == in_time_order(p),
                    *events == Some(*evs),
                decreases n - i,
            {
                let ghost t1 = evs@.take(i + 1);
                assert(t1.drop_last() =~= evs@.take(i as int));
                assert(t1.last() == evs@[i as int]);
                match apply_event(&mut plan, Ghost(p), &evs[i], i, adversaries, nodes) {
                    Err(e) => {
                        proof {
                            assert(spec_step(p, evs@[i as int], i, *adversaries, nodes) == Err::<PlanView, InterventionError>(e));
                            assert(spec_plan_prefix(t1, *adversaries, nodes) == Err::<PlanView, InterventionError>(e));
                            lemma_prefix_error(evs@, i + 1, *adversaries, nodes);
                            assert(spec_plan_prefix(evs@, *adversaries, nodes) == Err::<PlanView, InterventionError>(e));
                        }
                        return Err(e);
                    },
                    Ok(()) => {
                        proof {
                            p = spec_step(p, evs@[i as int], i, *adversaries, nodes)->Ok_0;
                        }
                    },
                }
                i = i + 1;
            }
            assert(evs@.take(n as int) =~= evs@);
            Ok(plan)
        },
    }
}

} // verus!
