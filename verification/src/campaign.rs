//! Validation of the campaign settings that configure an individual-engine run:
//! required and optional scalars, defaults, ranges and lifecycle events, checked in
//! a fixed order so that the first problem found is the one reported.

use vstd::prelude::*;
use crate::graph::{
    NodeId, NodeAddress, TopologyKind, AttachmentSelector, spec_topology_named, spec_selector_named,
    is_hex_text, hex_decoded,
};
use crate::network::{LinkConfig, LinkOrdering};
use crate::text::str_equals;
use vstd::string::StringSliceAdditionalSpecFns;

verus! {

/// Default debounce between TreeAnnounce replacements.
pub const DEFAULT_DEBOUNCE_NS: u64 = 500_000_000;

/// A campaign setting as read at its path: absent, an unresolved value-set axis,
/// present with the wrong shape, or present with its value. A duration's value is
/// its normalized nanosecond count.
#[derive(Debug, Clone)]
pub enum Field<T> {
    /// Nothing at the path.
    Absent,
    /// A value-set axis that was not compiled to one value.
    Unresolved,
    /// A value of the wrong type, or a duration without nanoseconds.
    Malformed,
    /// The value.
    Present(T),
}

/// One entry of the campaign's event list, as the run configuration reads it.
#[derive(Debug, Clone)]
pub struct CampaignEvent {
    /// The event's action, if it is a string.
    pub action: Option<String>,
    /// The event's `at` duration.
    pub at: Field<u64>,
    /// The integer `target`, if any.
    pub target: Option<u64>,
    /// The integer `parameters.node`, if any.
    pub parameter_node: Option<u64>,
}

/// The campaign settings read by the run configuration.
#[derive(Debug, Clone)]
pub struct CampaignFields {
    /// `/engine/modes` (required string).
    pub mode: Field<String>,
    /// `/scale/nodes` (required integer).
    pub nodes: Field<u64>,
    /// `/identities/arrivals/count`.
    pub arrivals: Field<u64>,
    /// `/topology/generator` (required string).
    pub generator: Field<String>,
    /// `/topology/average_degree`.
    pub average_degree: Field<u64>,
    /// `/topology/explicit_edges` when it is an array: each entry is `None` when it
    /// is not an array, else its first two elements as integers where they are.
    pub explicit_edges: Option<Vec<Option<(Option<u64>, Option<u64>)>>>,
    /// `/identities/arrivals/attachment`.
    pub attachment: Field<String>,
    /// `/identities/arrivals/address_policy`.
    pub address_policy: Field<String>,
    /// `/identities/arrivals/precomputed_ladder` when it is an array: each entry is
    /// `None` when it is not a string.
    pub precomputed_ladder: Option<Vec<Option<String>>>,
    /// `/identities/arrivals/attacker_budget/mode`.
    pub attacker_budget_mode: Field<String>,
    /// `/identities/arrivals/attacker_budget/operations`.
    pub attacker_operations: Field<u64>,
    /// `/identities/arrivals/schedule/start` (duration).
    pub arrival_start: Field<u64>,
    /// `/identities/arrivals/schedule/interval` (duration).
    pub arrival_interval: Field<u64>,
    /// `/protocol/parameters/tree_announce_debounce` (duration).
    pub debounce: Field<u64>,
    /// `/protocol/parameters/parent_hysteresis_ppm`.
    pub parent_hysteresis_ppm: Field<u64>,
    /// `/protocol/parameters/parent_hold_down` (duration).
    pub parent_hold_down: Field<u64>,
    /// `/links/ordering`.
    pub ordering: Field<String>,
    /// `/transports/assignment` (required string).
    pub transport: Field<String>,
    /// `/links/latency` (duration).
    pub latency: Field<u64>,
    /// `/links/bandwidth_bps`.
    pub bandwidth_bps: Field<u64>,
    /// `/links/loss_ppm`.
    pub loss_ppm: Field<u64>,
    /// `/links/duplication_ppm`.
    pub duplication_ppm: Field<u64>,
    /// `/links/mtu_bytes`.
    pub mtu_bytes: Field<u64>,
    /// `/links/queue_bytes`.
    pub queue_bytes: Field<u64>,
    /// `/events` when it is an array.
    pub events: Option<Vec<CampaignEvent>>,
}

/// Which setting a shape failure concerns.
#[derive(Debug, Clone, Copy, PartialEq, Eq, Structural)]
pub enum ConfigField {
    Mode,
    Nodes,
    Arrivals,
    Generator,
    AverageDegree,
    Attachment,
    AddressPolicy,
    AttackerBudgetMode,
    AttackerOperations,
    ArrivalStart,
    ArrivalInterval,
    Debounce,
    ParentHysteresis,
    ParentHoldDown,
    LinkOrder,
    Transport,
    Latency,
    Bandwidth,
    Loss,
    Duplication,
    Mtu,
    Queue,
    /// The `at` duration of an event.
    EventAt,
}

/// Why a campaign cannot configure an individual-engine run.
#[derive(Debug, Clone, Copy, PartialEq, Eq, Structural)]
pub enum ConfigError {
    /// A required setting is missing.
    Missing(ConfigField),
    /// A setting is an unresolved value-set axis.
    Unresolved(ConfigField),
    /// A setting has the wrong type.
    Malformed(ConfigField),
    /// The engine mode is not `compact-discrete-event`.
    Mode,
    /// The node count is outside `2..=2000000`.
    NodeCount(u64),
    /// There must be fewer arrivals than nodes.
    ArrivalCount { arrivals: u64, nodes: u64 },
    /// The topology generator is not a known spelling.
    Topology,
    /// An explicit edge is not an array.
    ExplicitEdgeShape,
    /// The attachment selector is not a known spelling.
    Attachment,
    /// The address policy is not supported.
    AddressPolicy,
    /// A precomputed ladder entry is not a string.
    LadderEntry { index: usize },
    /// A precomputed ladder entry is not a 128-bit hexadecimal address.
    LadderAddress { index: usize },
    /// The precomputed ladder is shorter than the number of arrivals.
    LadderLength { have: usize, need: u64 },
    /// The arrival interval exceeds ten seconds.
    ArrivalCadence,
    /// The link ordering is neither `datagram` nor `stream`.
    LinkOrder,
    /// The transport assignment is not homogeneous UDP, TCP or Ethernet.
    Transport,
    /// A disappear or reappear event has no `at` duration.
    LifecycleTime,
    /// A disappear or reappear event has no integer target.
    LifecycleTarget,
    /// A disappear or reappear event targets a node outside the scale.
    LifecycleNode { node: u64, nodes: u64 },
}

/// A node disappearing or reappearing at a given time.
#[derive(Debug, Clone, Copy, PartialEq, Eq, Structural)]
pub struct LifecycleInput {
    /// When the change happens.
    pub at_ns: u64,
    /// The node.
    pub node: NodeId,
    /// Reappearance rather than disappearance.
    pub reappear: bool,
}

/// The validated run configuration.
#[derive(Debug, Clone)]
pub struct RunConfig {
    pub nodes: u32,
    pub arrivals: u32,
    pub topology: TopologyKind,
    pub average_degree: u32,
    pub explicit_edges: Vec<(NodeId, NodeId)>,
    pub attachment: AttachmentSelector,
    pub address_policy: String,
    pub precomputed_ladder: Vec<NodeAddress>,
    pub attacker_budget_mode: String,
    pub attacker_operations: Option<u64>,
    pub arrival_start_ns: u64,
    pub arrival_interval_ns: u64,
    pub debounce_ns: u64,
    pub parent_hysteresis_ppm: u32,
    pub parent_hold_down_ns: u64,
    pub link: LinkConfig,
    pub inject_parent_loop_at_ns: Option<u64>,
    pub lifecycle: Vec<LifecycleInput>,
}

/// The run configuration as plain values.
pub struct RunConfigView {
    pub nodes: u32,
    pub arrivals: u32,
    pub topology: TopologyKind,
    pub average_degree: u32,
    pub explicit_edges: Seq<(NodeId, NodeId)>,
    pub attachment: AttachmentSelector,
    pub address_policy: Seq<char>,
    pub precomputed_ladder: Seq<Seq<u8>>,
    pub attacker_budget_mode: Seq<char>,
    pub attacker_operations: Option<u64>,
    pub arrival_start_ns: u64,
    pub arrival_interval_ns: u64,
    pub debounce_ns: u64,
    pub parent_hysteresis_ppm: u32,
    pub parent_hold_down_ns: u64,
    pub link: LinkConfig,
    pub inject_parent_loop_at_ns: Option<u64>,
    pub lifecycle: Seq<LifecycleInput>,
}

impl View for RunConfig {
    type V = RunConfigView;

    open spec fn view(&self) -> RunConfigView {
        RunConfigView {
            nodes: self.nodes,
            arrivals: self.arrivals,
            topology: self.topology,
            average_degree: self.average_degree,
            explicit_edges: self.explicit_edges@,
            attachment: self.attachment,
            address_policy: self.address_policy@,
            precomputed_ladder: self.precomputed_ladder@.map_values(|a: NodeAddress| a@),
            attacker_budget_mode: self.attacker_budget_mode@,
            attacker_operations: self.attacker_operations,
            arrival_start_ns: self.arrival_start_ns,
            arrival_interval_ns: self.arrival_interval_ns,
            debounce_ns: self.debounce_ns,
            parent_hysteresis_ppm: self.parent_hysteresis_ppm,
            parent_hold_down_ns: self.parent_hold_down_ns,
            link: self.link,
            inject_parent_loop_at_ns: self.inject_parent_loop_at_ns,
            lifecycle: self.lifecycle@,
        }
    }
}

/// A required setting: its value, or why it is unusable.
pub open spec fn required<T>(f: Field<T>, name: ConfigField) -> Result<T, ConfigError> {
    match f {
        Field::Absent => Err(ConfigError::Missing(name)),
        Field::Unresolved => Err(ConfigError::Unresolved(name)),
        Field::Malformed => Err(ConfigError::Malformed(name)),
        Field::Present(v) => Ok(v),
    }
}

/// An optional setting: its value if present, or why it is unusable.
pub open spec fn optional<T>(f: Field<T>, name: ConfigField) -> Result<Option<T>, ConfigError> {
    match f {
        Field::Absent => Ok(None),
        Field::Unresolved => Err(ConfigError::Unresolved(name)),
        Field::Malformed => Err(ConfigError::Malformed(name)),
        Field::Present(v) => Ok(Some(v)),
    }
}

/// An optional value or a default.
pub open spec fn or_default<T>(o: Option<T>, d: T) -> T {
    match o {
        Some(v) => v,
        None => d,
    }
}

/// A view of an optional string setting.
pub open spec fn text_view(o: Option<String>) -> Option<Seq<char>> {
    match o {
        Some(s) => Some(s@),
        None => None,
    }
}

/// The explicit edges, each endpoint a node id truncated from its integer (or from
/// `u64::MAX` where it is not one); fails at the first entry that is not an array.
pub open spec fn spec_explicit_edges(es: Seq<Option<(Option<u64>, Option<u64>)>>) -> Result<Seq<(NodeId, NodeId)>, ConfigError>
    decreases es.len(),
{
    if es.len() == 0 {
        Ok(Seq::empty())
    } else {
        match spec_explicit_edges(es.drop_last()) {
            Err(e) => Err(e),
            Ok(p) => match es.last() {
                None => Err(ConfigError::ExplicitEdgeShape),
                Some((a, b)) => Ok(p.push((or_default(a, u64::MAX) as NodeId, or_default(b, u64::MAX) as NodeId))),
            },
        }
    }
}

/// The UTF-8 bytes of a text.
pub open spec fn text_bytes(cs: Seq<char>) -> Seq<u8> {
    (choose|t: &str| #[trigger] t@ == cs).spec_bytes()
}

/// The decoded ladder addresses; fails at the first entry that is not a string or
/// not 32 hexadecimal digits.
pub open spec fn spec_ladder(ls: Seq<Option<String>>) -> Result<Seq<Seq<u8>>, ConfigError>
    decreases ls.len(),
{
    if ls.len() == 0 {
        Ok(Seq::empty())
    } else {
        match spec_ladder(ls.drop_last()) {
            Err(e) => Err(e),
            Ok(p) => match ls.last() {
                None => Err(ConfigError::LadderEntry { index: (ls.len() - 1) as usize }),
                Some(s) => {
                    let bytes = text_bytes(s@);
                    if is_hex_text(bytes) && bytes.len() == 32 {
                        Ok(p.push(hex_decoded(bytes)))
                    } else {
                        Err(ConfigError::LadderAddress { index: (ls.len() - 1) as usize })
                    }
                },
            },
        }
    }
}

/// The explicit edges setting: none when it is not an array.
pub open spec fn spec_edges_field(es: Option<Vec<Option<(Option<u64>, Option<u64>)>>>) -> Result<Seq<(NodeId, NodeId)>, ConfigError> {
    match es {
        None => Ok(Seq::empty()),
        Some(v) => spec_explicit_edges(v@),
    }
}

/// The precomputed ladder setting: empty when it is not an array.
pub open spec fn spec_ladder_field(ls: Option<Vec<Option<String>>>) -> Result<Seq<Seq<u8>>, ConfigError> {
    match ls {
        None => Ok(Seq::empty()),
        Some(v) => spec_ladder(v@),
    }
}

/// The time of the first `inject-parent-loop` event, if any.
pub open spec fn spec_inject_at(evs: Seq<CampaignEvent>) -> Result<Option<u64>, ConfigError>
    decreases evs.len(),
{
    if evs.len() == 0 {
        Ok(None)
    } else if text_view(evs[0].action) == Some("inject-parent-loop"@) {
        optional(evs[0].at, ConfigField::EventAt)
    } else {
        spec_inject_at(evs.drop_first())
    }
}

/// Whether an event disappears or reappears a node.
pub open spec fn is_lifecycle(ev: CampaignEvent) -> bool {
    text_view(ev.action) == Some("disappear-node"@) || text_view(ev.action) == Some("reappear-node"@)
}

/// One lifecycle event checked against the node count.
pub open spec fn spec_lifecycle_entry(ev: CampaignEvent, nodes: u64) -> Result<LifecycleInput, ConfigError> {
    match ev.at {
        Field::Absent => Err(ConfigError::LifecycleTime),
        Field::Unresolved => Err(ConfigError::Unresolved(ConfigField::EventAt)),
        Field::Malformed => Err(ConfigError::Malformed(ConfigField::EventAt)),
        Field::Present(at) => {
            let node = match ev.target {
                Some(t) => Some(t),
                None => ev.parameter_node,
            };
            match node {
                None => Err(ConfigError::LifecycleTarget),
                Some(n) => if n >= nodes {
                    Err(ConfigError::LifecycleNode { node: n, nodes })
                } else {
                    Ok(LifecycleInput { at_ns: at, node: n as NodeId, reappear: text_view(ev.action) == Some("reappear-node"@) })
                },
            }
        },
    }
}

/// The lifecycle events in order; fails at the first malformed one.
pub open spec fn spec_lifecycle(evs: Seq<CampaignEvent>, nodes: u64) -> Result<Seq<LifecycleInput>, ConfigError>
    decreases evs.len(),
{
    if evs.len() == 0 {
        Ok(Seq::empty())
    } else {
        match spec_lifecycle(evs.drop_last(), nodes) {
            Err(e) => Err(e),
            Ok(p) => if is_lifecycle(evs.last()) {
                match spec_lifecycle_entry(evs.last(), nodes) {
                    Err(e) => Err(e),
                    Ok(x) => Ok(p.push(x)),
                }
            } else {
                Ok(p)
            },
        }
    }
}

proof fn lemma_lifecycle_nodes(evs: Seq<CampaignEvent>, nodes: u64)
    requires
        spec_lifecycle(evs, nodes) is Ok,
        nodes <= 2_000_000,
    ensures
        forall|i: int| 0 <= i < spec_lifecycle(evs, nodes)->Ok_0.len() ==> (#[trigger] spec_lifecycle(evs, nodes)->Ok_0[i]).node < nodes,
    decreases evs.len(),
{
    if evs.len() > 0 {
        let d = evs.drop_last();
        lemma_lifecycle_nodes(d, nodes);
        let p = spec_lifecycle(d, nodes)->Ok_0;
        let r = spec_lifecycle(evs, nodes)->Ok_0;
        if is_lifecycle(evs.last()) {
            let x = spec_lifecycle_entry(evs.last(), nodes)->Ok_0;
            assert(r == p.push(x));
            assert forall|i: int| 0 <= i < r.len() implies (#[trigger] r[i]).node < nodes by {
                if i < p.len() {
                    assert(r[i] == p[i]);
                }
            }
        }
    }
}

/// A numeric setting as given, or its default where the campaign leaves it out.
pub open spec fn setting_or_default(f: Field<u64>, d: u64) -> u64 {
    match f {
        Field::Present(v) => v,
        _ => d,
    }
}

/// Each link setting of a validated configuration is read from its own campaign
/// field and nowhere else: latency (default 1 ms), bandwidth (default 1 Gbit/s), loss
/// and duplication (default none), MTU (default 9000 bytes) and queue (default 1 MiB);
/// jitter is the default link's, and the configuration's other settings do not enter.
/// The link is a stream link exactly when the campaign asks for `stream` ordering, and
/// its transport overhead is 40 bytes for TCP, 18 for Ethernet and 28 for UDP (also the
/// base of a mixed assignment).
pub proof fn law_link_settings_from_own_fields(c: CampaignFields)
    requires
        spec_run_config(c) is Ok,
    ensures
        spec_run_config(c)->Ok_0.link.latency_ns == setting_or_default(c.latency, 1_000_000),
        spec_run_config(c)->Ok_0.link.bandwidth_bps == setting_or_default(c.bandwidth_bps, 1_000_000_000),
        spec_run_config(c)->Ok_0.link.loss_ppm == setting_or_default(c.loss_ppm, 0) as u32,
        spec_run_config(c)->Ok_0.link.duplication_ppm == setting_or_default(c.duplication_ppm, 0) as u32,
        spec_run_config(c)->Ok_0.link.mtu_bytes == setting_or_default(c.mtu_bytes, 9_000),
        spec_run_config(c)->Ok_0.link.queue_bytes == setting_or_default(c.queue_bytes, 1_048_576),
        spec_run_config(c)->Ok_0.link.jitter_ns == 500_000,
        (spec_run_config(c)->Ok_0.link.ordering == LinkOrdering::Stream) <==> (c.ordering matches Field::Present(o) && o@ == "stream"@),
        c.transport matches Field::Present(t) && t@ == "all-tcp"@ ==> spec_run_config(c)->Ok_0.link.transport_overhead_bytes == 40,
        c.transport matches Field::Present(t) && t@ == "all-ethernet"@ ==> spec_run_config(c)->Ok_0.link.transport_overhead_bytes == 18,
        c.transport matches Field::Present(t) && (t@ == "all-udp"@ || t@ == "random-mixed"@)
            ==> spec_run_config(c)->Ok_0.link.transport_overhead_bytes == 28,
{
    reveal_strlit("stream");
    reveal_strlit("datagram");
    reveal_strlit("all-tcp");
    reveal_strlit("all-udp");
    reveal_strlit("all-ethernet");
    reveal_strlit("random-mixed");
    assert("datagram"@.len() != "stream"@.len());
    assert("all-tcp"@[4] != "all-udp"@[4]);
    assert("all-tcp"@.len() != "random-mixed"@.len());
    assert("all-ethernet"@.len() != "all-udp"@.len());
    assert("all-ethernet"@[0] != "random-mixed"@[0]);
    assert("all-ethernet"@.len() != "all-tcp"@.len());
    let ordering_text = or_default(text_view(optional(c.ordering, ConfigField::LinkOrder)->Ok_0), "datagram"@);
    match c.ordering {
        Field::Present(o) => {
            assert(ordering_text == o@);
        },
        _ => {
            assert(ordering_text == "datagram"@);
        },
    }
}

/// A configuration that validates has a scale of 2 to 2000000 nodes, fewer arrivals
/// than nodes, and lifecycle events only for nodes of that scale.
pub proof fn law_run_config_scale(c: CampaignFields)
    requires
        spec_run_config(c) is Ok,
    ensures
        2 <= spec_run_config(c)->Ok_0.nodes <= 2_000_000,
        spec_run_config(c)->Ok_0.arrivals < spec_run_config(c)->Ok_0.nodes,
        forall|i: int| 0 <= i < spec_run_config(c)->Ok_0.lifecycle.len()
            ==> (#[trigger] spec_run_config(c)->Ok_0.lifecycle[i]).node < spec_run_config(c)->Ok_0.nodes,
{
    let nodes = required(c.nodes, ConfigField::Nodes)->Ok_0;
    let evs = match c.events {
        None => Seq::empty(),
        Some(v) => v@,
    };
    if spec_lifecycle(evs, nodes) is Ok {
        lemma_lifecycle_nodes(evs, nodes);
    }
}

/// Whether an address policy is supported.
pub open spec fn supported_policy(p: Seq<char>) -> bool {
    ||| p == "one-lower"@
    ||| p == "one-lower-than-current-root"@
    ||| p == "strictly-descending"@
    ||| p == "strictly-lower-than-current-root"@
    ||| p == "precomputed-ladder"@
}

/// Transport overhead of the base link under a transport assignment. A
/// `random-mixed` assignment gives each edge the overhead of its endpoints' profiles
/// later; its base link carries the UDP overhead.
pub open spec fn transport_overhead(t: Seq<char>) -> Option<u64> {
    if t == "all-udp"@ || t == "random-mixed"@ {
        Some(28)
    } else if t == "all-tcp"@ {
        Some(40)
    } else if t == "all-ethernet"@ {
        Some(18)
    } else {
        None
    }
}

/// The link settings, in the order they are read, over the default link.
pub open spec fn spec_link(c: CampaignFields, ordering: LinkOrdering, overhead: u64) -> Result<LinkConfig, ConfigError> {
    match optional(c.latency, ConfigField::Latency) {
        Err(e) => Err(e),
        Ok(latency) => match optional(c.bandwidth_bps, ConfigField::Bandwidth) {
            Err(e) => Err(e),
            Ok(bandwidth) => match optional(c.loss_ppm, ConfigField::Loss) {
                Err(e) => Err(e),
                Ok(loss) => match optional(c.duplication_ppm, ConfigField::Duplication) {
                    Err(e) => Err(e),
                    Ok(dup) => match optional(c.mtu_bytes, ConfigField::Mtu) {
                        Err(e) => Err(e),
                        Ok(mtu) => match optional(c.queue_bytes, ConfigField::Queue) {
                            Err(e) => Err(e),
                            Ok(queue) => Ok(LinkConfig {
                                latency_ns: or_default(latency, 1_000_000),
                                jitter_ns: crate::network::spec_default_link().jitter_ns,
                                bandwidth_bps: or_default(bandwidth, 1_000_000_000),
                                loss_ppm: or_default(loss, 0) as u32,
                                duplication_ppm: or_default(dup, 0) as u32,
                                ordering,
                                mtu_bytes: or_default(mtu, 9_000),
                                queue_bytes: or_default(queue, 1_048_576),
                                transport_overhead_bytes: overhead,
                            }),
                        },
                    },
                },
            },
        },
    }
}

/// Timing and protocol settings: arrival start and interval (at most ten seconds),
/// debounce, parent hysteresis and hold-down, in that order.
pub open spec fn spec_timing(c: CampaignFields) -> Result<(u64, u64, u64, u32, u64), ConfigError> {
    match optional(c.arrival_start, ConfigField::ArrivalStart) {
        Err(e) => Err(e),
        Ok(start) => match optional(c.arrival_interval, ConfigField::ArrivalInterval) {
            Err(e) => Err(e),
            Ok(interval) => if or_default(interval, 500_000_000) > 10_000_000_000 {
                Err(ConfigError::ArrivalCadence)
            } else {
                match optional(c.debounce, ConfigField::Debounce) {
                    Err(e) => Err(e),
                    Ok(debounce) => match optional(c.parent_hysteresis_ppm, ConfigField::ParentHysteresis) {
                        Err(e) => Err(e),
                        Ok(hysteresis) => match optional(c.parent_hold_down, ConfigField::ParentHoldDown) {
                            Err(e) => Err(e),
                            Ok(hold) => Ok((
                                or_default(start, 2_000_000_000),
                                or_default(interval, 500_000_000),
                                or_default(debounce, DEFAULT_DEBOUNCE_NS),
                                or_default(hysteresis, 0) as u32,
                                or_default(hold, 0),
                            )),
                        },
                    },
                }
            },
        },
    }
}

/// Identity settings after the scale: the address policy (one of the supported
/// ones, by default strictly lower than the current root), the precomputed ladder
/// (long enough for every arrival under the ladder policy), and the attacker budget.
pub open spec fn spec_identities(c: CampaignFields, arrivals: u64) -> Result<(Seq<char>, Seq<Seq<u8>>, Seq<char>, Option<u64>), ConfigError> {
    match optional(c.address_policy, ConfigField::AddressPolicy) {
        Err(e) => Err(e),
        Ok(p) => {
            let policy = or_default(text_view(p), "strictly-lower-than-current-root"@);
            if !supported_policy(policy) {
                Err(ConfigError::AddressPolicy)
            } else {
                match spec_ladder_field(c.precomputed_ladder) {
                    Err(e) => Err(e),
                    Ok(l) => if policy == "precomputed-ladder"@ && l.len() < arrivals {
                        Err(ConfigError::LadderLength { have: l.len() as usize, need: arrivals })
                    } else {
                        match optional(c.attacker_budget_mode, ConfigField::AttackerBudgetMode) {
                            Err(e) => Err(e),
                            Ok(m) => match optional(c.attacker_operations, ConfigField::AttackerOperations) {
                                Err(e) => Err(e),
                                Ok(ops) => Ok((policy, l, or_default(text_view(m), "free-input"@), ops)),
                            },
                        }
                    },
                }
            }
        },
    }
}

/// The run configuration a campaign gives, or the first problem with it, checked in
/// this order: mode, node count (in `2..=2000000`), arrivals (fewer than nodes,
/// none by default), topology generator, average degree (2 by default), explicit
/// edges, attachment selector (current root by default), identity settings, timing,
/// link ordering (datagram by default), transport assignment, link settings, the
/// parent-loop injection time and the lifecycle events.
pub open spec fn spec_run_config(c: CampaignFields) -> Result<RunConfigView, ConfigError> {
    match required(c.mode, ConfigField::Mode) {
        Err(e) => Err(e),
        Ok(mode) => if mode@ != "compact-discrete-event"@ {
            Err(ConfigError::Mode)
        } else {
            match required(c.nodes, ConfigField::Nodes) {
                Err(e) => Err(e),
                Ok(nodes) => if !(2 <= nodes <= 2_000_000) {
                    Err(ConfigError::NodeCount(nodes))
                } else {
                    match optional(c.arrivals, ConfigField::Arrivals) {
                        Err(e) => Err(e),
                        Ok(a) => if or_default(a, 0) >= nodes {
                            Err(ConfigError::ArrivalCount { arrivals: or_default(a, 0), nodes })
                        } else {
                            spec_run_config_rest(c, nodes, or_default(a, 0))
                        },
                    }
                },
            }
        },
    }
}

/// The run configuration once the scale is known.
pub open spec fn spec_run_config_rest(c: CampaignFields, nodes: u64, arrivals: u64) -> Result<RunConfigView, ConfigError> {
    match required(c.generator, ConfigField::Generator) {
        Err(e) => Err(e),
        Ok(g) => match spec_topology_named(g@) {
            None => Err(ConfigError::Topology),
            Some(topology) => match optional(c.average_degree, ConfigField::AverageDegree) {
                Err(e) => Err(e),
                Ok(degree) => match spec_edges_field(c.explicit_edges) {
                    Err(e) => Err(e),
                    Ok(edges) => match optional(c.attachment, ConfigField::Attachment) {
                        Err(e) => Err(e),
                        Ok(att) => match (match att {
                            None => Some(AttachmentSelector::CurrentRoot),
                            Some(s) => spec_selector_named(s@),
                        }) {
                            None => Err(ConfigError::Attachment),
                            Some(attachment) => match spec_identities(c, arrivals) {
                                Err(e) => Err(e),
                                Ok((policy, ladder, budget_mode, ops)) => match spec_timing(c) {
                                    Err(e) => Err(e),
                                    Ok((start, interval, debounce, hysteresis, hold)) => match optional(c.ordering, ConfigField::LinkOrder) {
                                        Err(e) => Err(e),
                                        Ok(o) => {
                                            let ordering_text = or_default(text_view(o), "datagram"@);
                                            if ordering_text != "datagram"@ && ordering_text != "stream"@ {
                                                Err(ConfigError::LinkOrder)
                                            } else {
                                                let ordering = if ordering_text == "stream"@ { LinkOrdering::Stream } else { LinkOrdering::Datagram };
                                                match required(c.transport, ConfigField::Transport) {
                                                    Err(e) => Err(e),
                                                    Ok(t) => match transport_overhead(t@) {
                                                        None => Err(ConfigError::Transport),
                                                        Some(overhead) => match spec_link(c, ordering, overhead) {
                                                            Err(e) => Err(e),
                                                            Ok(link) => {
                                                                let evs = match c.events {
                                                                    None => Seq::empty(),
                                                                    Some(v) => v@,
                                                                };
                                                                match spec_inject_at(evs) {
                                                                    Err(e) => Err(e),
                                                                    Ok(inject) => match spec_lifecycle(evs, nodes) {
                                                                        Err(e) => Err(e),
                                                                        Ok(lifecycle) => Ok(RunConfigView {
                                                                            nodes: nodes as u32,
                                                                            arrivals: arrivals as u32,
                                                                            topology,
                                                                            average_degree: or_default(degree, 2) as u32,
                                                                            explicit_edges: edges,
                                                                            attachment,
                                                                            address_policy: policy,
                                                                            precomputed_ladder: ladder,
                                                                            attacker_budget_mode: budget_mode,
                                                                            attacker_operations: ops,
                                                                            arrival_start_ns: start,
                                                                            arrival_interval_ns: interval,
                                                                            debounce_ns: debounce,
                                                                            parent_hysteresis_ppm: hysteresis,
                                                                            parent_hold_down_ns: hold,
                                                                            link,
                                                                            inject_parent_loop_at_ns: inject,
                                                                            lifecycle,
                                                                        }),
                                                                    },
                                                                }
                                                            },
                                                        },
                                                    },
                                                }
                                            }
                                        },
                                    },
                                },
                            },
                        },
                    },
                },
            },
        },
    }
}

proof fn lemma_text_bytes(t: &str)
    ensures
        text_bytes(t@) == t.spec_bytes(),
{
    assert(t@ == t@);
    let c = choose|u: &str| #[trigger] u@ == t@;
    assert(c@ == t@);
}

proof fn lemma_edges_sticky(es: Seq<Option<(Option<u64>, Option<u64>)>>, k: int)
    requires
        0 <= k <= es.len(),
        spec_explicit_edges(es.take(k)) is Err,
    ensures
        spec_explicit_edges(es) == spec_explicit_edges(es.take(k)),
    decreases es.len() - k,
{
    if k < es.len() {
        assert(es.take(k + 1).drop_last() =~= es.take(k));
        lemma_edges_sticky(es, k + 1);
    } else {
        assert(es.take(k) =~= es);
    }
}

proof fn lemma_ladder_sticky(ls: Seq<Option<String>>, k: int)
    requires
        0 <= k <= ls.len(),
        spec_ladder(ls.take(k)) is Err,
    ensures
        spec_ladder(ls) == spec_ladder(ls.take(k)),
    decreases ls.len() - k,
{
    if k < ls.len() {
        assert(ls.take(k + 1).drop_last() =~= ls.take(k));
        lemma_ladder_sticky(ls, k + 1);
    } else {
        assert(ls.take(k) =~= ls);
    }
}

proof fn lemma_lifecycle_sticky(evs: Seq<CampaignEvent>, nodes: u64, k: int)
    requires
        0 <= k <= evs.len(),
        spec_lifecycle(evs.take(k), nodes) is Err,
    ensures
        spec_lifecycle(evs, nodes) == spec_lifecycle(evs.take(k), nodes),
    decreases evs.len() - k,
{
    if k < evs.len() {
        assert(evs.take(k + 1).drop_last() =~= evs.take(k));
        lemma_lifecycle_sticky(evs, nodes, k + 1);
    } else {
        assert(evs.take(k) =~= evs);
    }
}

fn required_u64(f: &Field<u64>, name: ConfigField) -> (r: Result<u64, ConfigError>)
    ensures
        r == required(*f, name),
{
    match f {
        Field::Absent => Err(ConfigError::Missing(name)),
        Field::Unresolved => Err(ConfigError::Unresolved(name)),
        Field::Malformed => Err(ConfigError::Malformed(name)),
        Field::Present(v) => Ok(*v),
    }
}

fn optional_u64(f: &Field<u64>, name: ConfigField) -> (r: Result<Option<u64>, ConfigError>)
    ensures
        r == optional(*f, name),
{
    match f {
        Field::Absent => Ok(None),
        Field::Unresolved => Err(ConfigError::Unresolved(name)),
        Field::Malformed => Err(ConfigError::Malformed(name)),
        Field::Present(v) => Ok(Some(*v)),
    }
}

fn required_text<'a>(f: &'a Field<String>, name: ConfigField) -> (r: Result<&'a str, ConfigError>)
    ensures
        match required(*f, name) {
            Ok(s) => r matches Ok(t) && t@ == s@,
            Err(e) => r == Err::<&str, ConfigError>(e),
        },
{
    match f {
        Field::Absent => Err(ConfigError::Missing(name)),
        Field::Unresolved => Err(ConfigError::Unresolved(name)),
        Field::Malformed => Err(ConfigError::Malformed(name)),
        Field::Present(v) => Ok(v.as_str()),
    }
}

fn optional_text<'a>(f: &'a Field<String>, name: ConfigField) -> (r: Result<Option<&'a str>, ConfigError>)
    ensures
        match optional(*f, name) {
            Ok(o) => r matches Ok(x) && match o {
                Some(s) => x matches Some(t) && t@ == s@,
                None => x is None,
            },
            Err(e) => r == Err::<Option<&str>, ConfigError>(e),
        },
{
    match f {
        Field::Absent => Ok(None),
        Field::Unresolved => Err(ConfigError::Unresolved(name)),
        Field::Malformed => Err(ConfigError::Malformed(name)),
        Field::Present(v) => Ok(Some(v.as_str())),
    }
}

fn explicit_edges(es: &Option<Vec<Option<(Option<u64>, Option<u64>)>>>) -> (r: Result<Vec<(NodeId, NodeId)>, ConfigError>)
    ensures
        match spec_edges_field(*es) {
            Ok(s) => r matches Ok(v) && v@ == s,
            Err(e) => r == Err::<Vec<(NodeId, NodeId)>, ConfigError>(e),
        },
{
    let mut out: Vec<(NodeId, NodeId)> = Vec::new();
    match es {
        None => Ok(out),
        Some(v) => {
            let n = v.len();
            let mut i: usize = 0;
            assert(v@.take(0) =~= Seq::<Option<(Option<u64>, Option<u64>)>>::empty());
            while i < n
                invariant
                    n == v@.len(),
                    i <= n,
                    spec_explicit_edges(v@.take(i as int)) == Ok::<Seq<(NodeId, NodeId)>, ConfigError>(out@),
                    spec_edges_field(*es) == spec_explicit_edges(v@),
                decreases n - i,
            {
                assert(v@.take(i + 1).drop_last() =~= v@.take(i as int));
                assert(v@.take(i + 1).last() == v@[i as int]);
                match v[i] {
                    None => {
                        proof {
                            assert(spec_explicit_edges(v@.take(i + 1)) == Err::<Seq<(NodeId, NodeId)>, ConfigError>(ConfigError::ExplicitEdgeShape));
                            lemma_edges_sticky(v@, i + 1);
                        }
                        return Err(ConfigError::ExplicitEdgeShape);
                    },
                    Some((a, b)) => {
                        let x = match a {
                            Some(x) => x,
                            None => u64::MAX,
                        };
                        let y = match b {
                            Some(y) => y,
                            None => u64::MAX,
                        };
                        out.push((#[verifier::truncate] (x as NodeId), #[verifier::truncate] (y as NodeId)));
                    },
                }
                i = i + 1;
            }
            assert(v@.take(n as int) =~= v@);
            Ok(out)
        },
    }
}

fn ladder(ls: &Option<Vec<Option<String>>>) -> (r: Result<Vec<NodeAddress>, ConfigError>)
    ensures
        match spec_ladder_field(*ls) {
            Ok(s) => r matches Ok(v) && v@.map_values(|a: NodeAddress| a@) == s,
            Err(e) => r == Err::<Vec<NodeAddress>, ConfigError>(e),
        },
{
    let mut out: Vec<NodeAddress> = Vec::new();
    match ls {
        None => {
            assert(out@.map_values(|a: NodeAddress| a@) =~= Seq::<Seq<u8>>::empty());
            Ok(out)
        },
        Some(v) => {
            let n = v.len();
            let mut i: usize = 0;
            assert(v@.take(0) =~= Seq::<Option<String>>::empty());
            assert(out@.map_values(|a: NodeAddress| a@) =~= Seq::<Seq<u8>>::empty());
            while i < n
                invariant
                    n == v@.len(),
                    i <= n,
                    spec_ladder(v@.take(i as int)) == Ok::<Seq<Seq<u8>>, ConfigError>(out@.map_values(|a: NodeAddress| a@)),
                    spec_ladder_field(*ls) == spec_ladder(v@),
                decreases n - i,
            {
                assert(v@.take(i + 1).drop_last() =~= v@.take(i as int));
                assert(v@.take(i + 1).last() == v@[i as int]);
                match &v[i] {
                    None => {
                        proof {
                            assert(spec_ladder(v@.take(i + 1)) == Err::<Seq<Seq<u8>>, ConfigError>(ConfigError::LadderEntry { index: i }));
                            lemma_ladder_sticky(v@, i + 1);
                        }
                        return Err(ConfigError::LadderEntry { index: i });
                    },
                    Some(s) => {
                        let t = s.as_str();
                        proof {
                            lemma_text_bytes(t);
                        }
                        match NodeAddress::from_hex(t) {
                            Ok(a) => {
                                let ghost before = out@;
                                out.push(a);
                                assert(out@.map_values(|a: NodeAddress| a@)
                                    =~= before.map_values(|a: NodeAddress| a@).push(a@));
                            },
                            Err(_) => {
                                proof {
                                    assert(spec_ladder(v@.take(i + 1)) == Err::<Seq<Seq<u8>>, ConfigError>(ConfigError::LadderAddress { index: i }));
                                    lemma_ladder_sticky(v@, i + 1);
                                }
                                return Err(ConfigError::LadderAddress { index: i });
                            },
                        }
                    },
                }
                i = i + 1;
            }
            assert(v@.take(n as int) =~= v@);
            Ok(out)
        },
    }
}

fn inject_at(evs: &Vec<CampaignEvent>) -> (r: Result<Option<u64>, ConfigError>)
    ensures
        r == spec_inject_at(evs@),
{
    let n = evs.len();
    let mut i: usize = 0;
    assert(evs@.skip(0) =~= evs@);
    while i < n
        invariant
            n == evs@.len(),
            i <= n,
            spec_inject_at(evs@) == spec_inject_at(evs@.skip(i as int)),
        decreases n - i,
    {
        assert(evs@.skip(i as int)[0] == evs@[i as int]);
        assert(evs@.skip(i as int).drop_first() =~= evs@.skip(i + 1));
        let matches_action = match &evs[i].action {
            Some(a) => str_equals(a.as_str(), "inject-parent-loop"),
            None => false,
        };
        if matches_action {
            return optional_u64(&evs[i].at, ConfigField::EventAt);
        }
        i = i + 1;
    }
    assert(evs@.skip(n as int) =~= Seq::<CampaignEvent>::empty());
    Ok(None)
}

fn lifecycle(evs: &Vec<CampaignEvent>, nodes: u64) -> (r: Result<Vec<LifecycleInput>, ConfigError>)
    ensures
        match spec_lifecycle(evs@, nodes) {
            Ok(s) => r matches Ok(v) && v@ == s,
            Err(e) => r == Err::<Vec<LifecycleInput>, ConfigError>(e),
        },
{
    let mut out: Vec<LifecycleInput> = Vec::new();
    let n = evs.len();
    let mut i: usize = 0;
    assert(evs@.take(0) =~= Seq::<CampaignEvent>::empty());
    while i < n
        invariant
            n == evs@.len(),
            i <= n,
            spec_lifecycle(evs@.take(i as int), nodes) == Ok::<Seq<LifecycleInput>, ConfigError>(out@),
        decreases n - i,
    {
        assert(evs@.take(i + 1).drop_last() =~= evs@.take(i as int));
        assert(evs@.take(i + 1).last() == evs@[i as int]);
        let ev = &evs[i];
        let (disappear, reappear) = match &ev.action {
            Some(a) => (str_equals(a.as_str(), "disappear-node"), str_equals(a.as_str(), "reappear-node")),
            None => (false, false),
        };
        if disappear || reappear {
            let at = match ev.at {
                Field::Absent => {
                    proof { lemma_lifecycle_sticky(evs@, nodes, i + 1); }
                    return Err(ConfigError::LifecycleTime);
                },
                Field::Unresolved => {
                    proof { lemma_lifecycle_sticky(evs@, nodes, i + 1); }
                    return Err(ConfigError::Unresolved(ConfigField::EventAt));
                },
                Field::Malformed => {
                    proof { lemma_lifecycle_sticky(evs@, nodes, i + 1); }
                    return Err(ConfigError::Malformed(ConfigField::EventAt));
                },
                Field::Present(at) => at,
            };
            let node = match ev.target {
                Some(t) => Some(t),
                None => ev.parameter_node,
            };
            match node {
                None => {
                    proof { lemma_lifecycle_sticky(evs@, nodes, i + 1); }
                    return Err(ConfigError::LifecycleTarget);
                },
                Some(x) => {
                    if x >= nodes {
                        proof { lemma_lifecycle_sticky(evs@, nodes, i + 1); }
                        return Err(ConfigError::LifecycleNode { node: x, nodes });
                    }
                    out.push(LifecycleInput { at_ns: at, node: x as NodeId, reappear });
                },
            }
        }
        i = i + 1;
    }
    assert(evs@.take(n as int) =~= evs@);
    Ok(out)
}

fn identities(c: &CampaignFields, arrivals: u64) -> (r: Result<(String, Vec<NodeAddress>, String, Option<u64>), ConfigError>)
    ensures
        match spec_identities(*c, arrivals) {
            Ok((p, l, m, o)) => r matches Ok(x) && x.0@ == p && x.1@.map_values(|a: NodeAddress| a@) == l
                && x.2@ == m && x.3 == o,
            Err(e) => r == Err::<(String, Vec<NodeAddress>, String, Option<u64>), ConfigError>(e),
        },
{
    let p = match optional_text(&c.address_policy, ConfigField::AddressPolicy) {
        Ok(p) => p,
        Err(e) => {
            return Err(e);
        },
    };
    let policy: &str = match p {
        Some(t) => t,
        None => "strictly-lower-than-current-root",
    };
    let supported = str_equals(policy, "one-lower") || str_equals(policy, "one-lower-than-current-root")
        || str_equals(policy, "strictly-descending") || str_equals(policy, "strictly-lower-than-current-root")
        || str_equals(policy, "precomputed-ladder");
    if !supported {
        return Err(ConfigError::AddressPolicy);
    }
    let ladder = match ladder(&c.precomputed_ladder) {
        Ok(l) => l,
        Err(e) => {
            return Err(e);
        },
    };
    if str_equals(policy, "precomputed-ladder") && (ladder.len() as u64) < arrivals {
        return Err(ConfigError::LadderLength { have: ladder.len(), need: arrivals });
    }
    let m = match optional_text(&c.attacker_budget_mode, ConfigField::AttackerBudgetMode) {
        Ok(m) => m,
        Err(e) => {
            return Err(e);
        },
    };
    let mode: &str = match m {
        Some(t) => t,
        None => "free-input",
    };
    let ops = match optional_u64(&c.attacker_operations, ConfigField::AttackerOperations) {
        Ok(o) => o,
        Err(e) => {
            return Err(e);
        },
    };
    Ok((policy.to_owned(), ladder, mode.to_owned(), ops))
}

fn timing(c: &CampaignFields) -> (r: Result<(u64, u64, u64, u32, u64), ConfigError>)
    ensures
        r == spec_timing(*c),
{
    let start = match optional_u64(&c.arrival_start, ConfigField::ArrivalStart) {
        Ok(v) => v,
        Err(e) => {
            return Err(e);
        },
    };
    let interval = match optional_u64(&c.arrival_interval, ConfigField::ArrivalInterval) {
        Ok(v) => v,
        Err(e) => {
            return Err(e);
        },
    };
    let interval_ns = match interval {
        Some(v) => v,
        None => 500_000_000,
    };
    if interval_ns > 10_000_000_000 {
        return Err(ConfigError::ArrivalCadence);
    }
    let debounce = match optional_u64(&c.debounce, ConfigField::Debounce) {
        Ok(v) => v,
        Err(e) => {
            return Err(e);
        },
    };
    let hysteresis = match optional_u64(&c.parent_hysteresis_ppm, ConfigField::ParentHysteresis) {
        Ok(v) => v,
        Err(e) => {
            return Err(e);
        },
    };
    let hold = match optional_u64(&c.parent_hold_down, ConfigField::ParentHoldDown) {
        Ok(v) => v,
        Err(e) => {
            return Err(e);
        },
    };
    let start_ns = match start {
        Some(v) => v,
        None => 2_000_000_000,
    };
    let debounce_ns = match debounce {
        Some(v) => v,
        None => DEFAULT_DEBOUNCE_NS,
    };
    let hysteresis_ppm = match hysteresis {
        Some(v) => v,
        None => 0,
    };
    let hold_ns = match hold {
        Some(v) => v,
        None => 0,
    };
    Ok((start_ns, interval_ns, debounce_ns, #[verifier::truncate] (hysteresis_ppm as u32), hold_ns))
}

fn link(c: &CampaignFields, ordering: LinkOrdering, overhead: u64) -> (r: Result<LinkConfig, ConfigError>)
    ensures
        r == spec_link(*c, ordering, overhead),
{
    let latency = match optional_u64(&c.latency, ConfigField::Latency) {
        Ok(v) => v,
        Err(e) => {
            return Err(e);
        },
    };
    let bandwidth = match optional_u64(&c.bandwidth_bps, ConfigField::Bandwidth) {
        Ok(v) => v,
        Err(e) => {
            return Err(e);
        },
    };
    let loss = match optional_u64(&c.loss_ppm, ConfigField::Loss) {
        Ok(v) => v,
        Err(e) => {
            return Err(e);
        },
    };
    let dup = match optional_u64(&c.duplication_ppm, ConfigField::Duplication) {
        Ok(v) => v,
        Err(e) => {
            return Err(e);
        },
    };
    let mtu = match optional_u64(&c.mtu_bytes, ConfigField::Mtu) {
        Ok(v) => v,
        Err(e) => {
            return Err(e);
        },
    };
    let queue = match optional_u64(&c.queue_bytes, ConfigField::Queue) {
        Ok(v) => v,
        Err(e) => {
            return Err(e);
        },
    };
    let loss_ppm = match loss {
        Some(v) => v,
        None => 0,
    };
    let dup_ppm = match dup {
        Some(v) => v,
        None => 0,
    };
    Ok(LinkConfig {
        latency_ns: match latency {
            Some(v) => v,
            None => 1_000_000,
        },
        jitter_ns: 500_000,
        bandwidth_bps: match bandwidth {
            Some(v) => v,
            None => 1_000_000_000,
        },
        loss_ppm: #[verifier::truncate] (loss_ppm as u32),
        duplication_ppm: #[verifier::truncate] (dup_ppm as u32),
        ordering,
        mtu_bytes: match mtu {
            Some(v) => v,
            None => 9_000,
        },
        queue_bytes: match queue {
            Some(v) => v,
            None => 1_048_576,
        },
        transport_overhead_bytes: overhead,
    })
}

/// Validate the campaign settings of an individual-engine run and build its
/// configuration, reporting the first problem in the documented order.
pub fn run_config_from_campaign(c: &CampaignFields) -> (r: Result<RunConfig, ConfigError>)
    ensures
        match spec_run_config(*c) {
            Ok(v) => r matches Ok(cfg) && cfg@ == v,
            Err(e) => r matches Err(x) && x == e,
        },
{
    let mode = match required_text(&c.mode, ConfigField::Mode) {
        Ok(m) => m,
        Err(e) => {
            return Err(e);
        },
    };
    if !str_equals(mode, "compact-discrete-event") {
        return Err(ConfigError::Mode);
    }
    let nodes = match required_u64(&c.nodes, ConfigField::Nodes) {
        Ok(n) => n,
        Err(e) => {
            return Err(e);
        },
    };
    if !(2 <= nodes && nodes <= 2_000_000) {
        return Err(ConfigError::NodeCount(nodes));
    }
    let arrivals = match optional_u64(&c.arrivals, ConfigField::Arrivals) {
        Ok(Some(a)) => a,
        Ok(None) => 0,
        Err(e) => {
            return Err(e);
        },
    };
    if arrivals >= nodes {
        return Err(ConfigError::ArrivalCount { arrivals, nodes });
    }
    run_config_rest(c, nodes, arrivals)
}

fn run_config_rest(c: &CampaignFields, nodes: u64, arrivals: u64) -> (r: Result<RunConfig, ConfigError>)
    requires
        2 <= nodes <= 2_000_000,
        arrivals < nodes,
    ensures
        match spec_run_config_rest(*c, nodes, arrivals) {
            Ok(v) => r matches Ok(cfg) && cfg@ == v,
            Err(e) => r matches Err(x) && x == e,
        },
{
    let generator = match required_text(&c.generator, ConfigField::Generator) {
        Ok(g) => g,
        Err(e) => {
            return Err(e);
        },
    };
    let topology = match TopologyKind::parse(generator) {
        Ok(k) => k,
        Err(_) => {
            return Err(ConfigError::Topology);
        },
    };
    let degree = match optional_u64(&c.average_degree, ConfigField::AverageDegree) {
        Ok(Some(d)) => d,
        Ok(None) => 2,
        Err(e) => {
            return Err(e);
        },
    };
    let edges = match explicit_edges(&c.explicit_edges) {
        Ok(es) => es,
        Err(e) => {
            return Err(e);
        },
    };
    let att = match optional_text(&c.attachment, ConfigField::Attachment) {
        Ok(a) => a,
        Err(e) => {
            return Err(e);
        },
    };
    let attachment = match att {
        None => AttachmentSelector::CurrentRoot,
        Some(t) => match AttachmentSelector::parse(t) {
            Ok(a) => a,
            Err(_) => {
                return Err(ConfigError::Attachment);
            },
        },
    };
    let (policy, ladder, budget_mode, ops) = match identities(c, arrivals) {
        Ok(x) => x,
        Err(e) => {
            return Err(e);
        },
    };
    let (start, interval, debounce, hysteresis, hold) = match timing(c) {
        Ok(x) => x,
        Err(e) => {
            return Err(e);
        },
    };
    let o = match optional_text(&c.ordering, ConfigField::LinkOrder) {
        Ok(o) => o,
        Err(e) => {
            return Err(e);
        },
    };
    let ordering_text: &str = match o {
        Some(t) => t,
        None => "datagram",
    };
    let is_datagram = str_equals(ordering_text, "datagram");
    let is_stream = str_equals(ordering_text, "stream");
    if !is_datagram && !is_stream {
        return Err(ConfigError::LinkOrder);
    }
    let ordering = if is_stream { LinkOrdering::Stream } else { LinkOrdering::Datagram };
    let transport = match required_text(&c.transport, ConfigField::Transport) {
        Ok(t) => t,
        Err(e) => {
            return Err(e);
        },
    };
    let overhead: u64 = if str_equals(transport, "all-udp") || str_equals(transport, "random-mixed") {
        28
    } else if str_equals(transport, "all-tcp") {
        40
    } else if str_equals(transport, "all-ethernet") {
        18
    } else {
        return Err(ConfigError::Transport);
    };
    let link = match link(c, ordering, overhead) {
        Ok(l) => l,
        Err(e) => {
            return Err(e);
        },
    };
    let empty: Vec<CampaignEvent> = Vec::new();
    let evs: &Vec<CampaignEvent> = match &c.events {
        Some(v) => v,
        None => &empty,
    };
    let inject = match inject_at(evs) {
        Ok(x) => x,
        Err(e) => {
            return Err(e);
        },
    };
    let lifecycle = match lifecycle(evs, nodes) {
        Ok(x) => x,
        Err(e) => {
            return Err(e);
        },
    };
    let cfg = RunConfig {
        nodes: nodes as u32,
        arrivals: arrivals as u32,
        topology,
        average_degree: #[verifier::truncate] (degree as u32),
        explicit_edges: edges,
        attachment,
        address_policy: policy,
        precomputed_ladder: ladder,
        attacker_budget_mode: budget_mode,
        attacker_operations: ops,
        arrival_start_ns: start,
        arrival_interval_ns: interval,
        debounce_ns: debounce,
        parent_hysteresis_ppm: hysteresis,
        parent_hold_down_ns: hold,
        link,
        inject_parent_loop_at_ns: inject,
        lifecycle,
    };
    Ok(cfg)
}

} // verus!
