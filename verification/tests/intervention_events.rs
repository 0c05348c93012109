use fips_engine::campaign::Field;
use fips_engine::graph::AttachmentSelector;
use fips_engine::interventions::{
    parse_interventions, AdversaryFields, InterventionError, InterventionEvent, InterventionPlan,
};

const SECOND: u64 = 1_000_000_000;
const MILLISECOND: u64 = 1_000_000;

fn event(action: &str, at_ns: u64) -> InterventionEvent {
    InterventionEvent {
        action: Some(action.to_owned()),
        id: None,
        at: Field::Present(at_ns),
        target: None,
        target_text: None,
        attachments: None,
        group: None,
        node: None,
        edge: None,
        profile: None,
        count: None,
        bandwidth_bps: None,
        latency_ns: None,
        jitter_ns: None,
        loss_ppm: None,
        mtu_bytes: None,
        queue_bytes: None,
        cycles: None,
        interval_ns: None,
        preferred_cost_ppm: None,
        degraded_cost_ppm: None,
        operations_per_identity: None,
        address_policy: None,
        attachment: None,
    }
}

fn no_adversary() -> AdversaryFields {
    AdversaryFields { mode: None, identities: None, operations: None }
}

fn authenticated(identities: u64, operations: u64) -> AdversaryFields {
    AdversaryFields {
        mode: Some("authenticated-protocol-valid".to_owned()),
        identities: Some(identities),
        operations: Some(operations),
    }
}

fn sybil_wave(count: u64, policy: &str) -> InterventionEvent {
    let mut ev = event("attach-authenticated-sybils", 2 * SECOND);
    ev.id = Some("sybil-wave".to_owned());
    ev.count = Some(count);
    ev.interval_ns = Some(100 * MILLISECOND);
    ev.attachment = Some("hub".to_owned());
    ev.address_policy = Some(policy.to_owned());
    ev.operations_per_identity = Some(4);
    ev
}

fn run(events: Vec<InterventionEvent>, adversary: AdversaryFields, nodes: u64) -> Result<InterventionPlan, InterventionError> {
    parse_interventions(&Some(events), &adversary, nodes)
}

#[test]
fn sybil_identity_budget_is_rejected_before_execution() {
    assert_eq!(
        run(vec![sybil_wave(4, "uniform-valid")], authenticated(3, 100), 10).unwrap_err(),
        InterventionError::BudgetExhausted { required: 4, available: 3 }
    );
}

#[test]
fn sybil_wave_schedules_one_arrival_per_ordinal() {
    let plan = run(vec![sybil_wave(3, "lower-than-current-root")], authenticated(3, 100), 10).unwrap();
    assert_eq!(plan.sybils.len(), 3);
    for (ordinal, sybil) in plan.sybils.iter().enumerate() {
        assert_eq!(sybil.id, "sybil-wave");
        assert_eq!(sybil.ordinal, ordinal as u32);
        assert_eq!(sybil.at_ns, 2 * SECOND + ordinal as u64 * 100 * MILLISECOND);
        assert_eq!(sybil.address_policy, "lower-than-current-root");
        assert_eq!(sybil.attachment, AttachmentSelector::Hub);
        assert_eq!(sybil.operations, 4);
    }
}

#[test]
fn sybil_operations_beyond_budget_are_rejected() {
    let mut wave = sybil_wave(3, "uniform-valid");
    wave.operations_per_identity = Some(40);
    assert_eq!(
        run(vec![wave], authenticated(3, 100), 10).unwrap_err(),
        InterventionError::BudgetExhausted { required: 120, available: 100 }
    );
}

#[test]
fn sybil_waves_need_the_authenticated_mode_and_known_settings() {
    assert_eq!(
        run(vec![sybil_wave(2, "uniform-valid")], no_adversary(), 10).unwrap_err(),
        InterventionError::SybilMode { index: 0 }
    );
    assert_eq!(
        run(vec![sybil_wave(10, "uniform-valid")], authenticated(20, 100), 10).unwrap_err(),
        InterventionError::SybilCountRange { index: 0 }
    );
    assert_eq!(
        run(vec![sybil_wave(2, "anywhere")], authenticated(3, 100), 10).unwrap_err(),
        InterventionError::SybilPolicy { index: 0 }
    );
    let mut wave = sybil_wave(2, "uniform-valid");
    wave.attachment = Some("nowhere".to_owned());
    assert_eq!(
        run(vec![wave], authenticated(3, 100), 10).unwrap_err(),
        InterventionError::SybilAttachment { index: 0 }
    );
}

#[test]
fn unknown_actions_are_rejected_at_their_index() {
    let events = vec![event("synchronized-session-rekey", SECOND), event("teleport-node", SECOND)];
    assert_eq!(
        run(events, no_adversary(), 10).unwrap_err(),
        InterventionError::UnsupportedAction { index: 1 }
    );
    let mut unnamed = event("", SECOND);
    unnamed.action = None;
    assert_eq!(
        run(vec![unnamed], no_adversary(), 10).unwrap_err(),
        InterventionError::UnsupportedAction { index: 0 }
    );
}

#[test]
fn absent_events_schedule_nothing() {
    let plan = parse_interventions(&None, &no_adversary(), 10).unwrap();
    assert!(plan.manual_arrivals.is_empty() && plan.cuts.is_empty() && plan.sybils.is_empty());
    let plan = run(vec![event("disappear-node", SECOND)], no_adversary(), 10).unwrap();
    assert!(plan.manual_arrivals.is_empty() && plan.cuts.is_empty() && plan.link_updates.is_empty());
}

#[test]
fn arrival_targets_are_sorted_deduplicated_and_within_scale() {
    let mut arrival = event("introduce-node", SECOND);
    arrival.attachments = Some(vec![Some(5), Some(2), Some(5)]);
    arrival.target = Some(3);
    let plan = run(vec![arrival.clone()], no_adversary(), 6).unwrap();
    assert_eq!(plan.manual_arrivals[0].targets, vec![2, 3, 5]);
    assert!(!plan.manual_arrivals[0].lower_root);
    assert_eq!(
        run(vec![arrival.clone()], no_adversary(), 5).unwrap_err(),
        InterventionError::ArrivalTarget { index: 0, target: 5 }
    );
    arrival.attachments = Some(vec![Some(1), None]);
    assert_eq!(
        run(vec![arrival], no_adversary(), 6).unwrap_err(),
        InterventionError::AttachmentNotNode { index: 0 }
    );
}

#[test]
fn arrivals_come_out_in_time_order() {
    let late = event("introduce-node", 3 * SECOND);
    let early = event("introduce-lower-root-node", SECOND);
    let mut late_again = event("introduce-lower-root-node", 3 * SECOND);
    late_again.target = Some(4);
    let plan = run(vec![late, early, late_again], no_adversary(), 10).unwrap();
    let times: Vec<u64> = plan.manual_arrivals.iter().map(|a| a.at_ns).collect();
    assert_eq!(times, vec![SECOND, 3 * SECOND, 3 * SECOND]);
    assert!(plan.manual_arrivals[0].lower_root);
    assert!(plan.manual_arrivals[1].targets.is_empty());
    assert_eq!(plan.manual_arrivals[2].targets, vec![4]);
}

#[test]
fn partitions_need_a_proper_group_of_valid_nodes() {
    let mut cut = event("partition-network", SECOND);
    cut.group = Some(vec![3, 1, 3]);
    cut.node = Some(0);
    let plan = run(vec![cut.clone()], no_adversary(), 5).unwrap();
    assert_eq!(plan.cuts[0].nodes, vec![0, 1, 3]);
    assert_eq!(plan.cuts[0].id, "partition-network-0");
    assert!(!plan.cuts[0].enabled);
    assert_eq!(run(vec![cut.clone()], no_adversary(), 3).unwrap_err(), InterventionError::Group { index: 0 });
    let mut merge = event("merge-network", SECOND);
    assert_eq!(run(vec![merge.clone()], no_adversary(), 5).unwrap_err(), InterventionError::Group { index: 0 });
    merge.target = Some(2);
    merge.id = Some("heal".to_owned());
    let plan = run(vec![merge], no_adversary(), 5).unwrap();
    assert!(plan.cuts[0].enabled);
    assert_eq!(plan.cuts[0].id, "heal");
}

#[test]
fn link_updates_check_edge_and_loss() {
    let mut update = event("set-link-conditions", SECOND);
    assert_eq!(run(vec![update.clone()], no_adversary(), 5).unwrap_err(), InterventionError::EdgeMissing { index: 0 });
    update.edge = Some(7);
    update.loss_ppm = Some(1_000_001);
    assert_eq!(run(vec![update.clone()], no_adversary(), 5).unwrap_err(), InterventionError::LossRange { index: 0 });
    update.loss_ppm = Some(250_000);
    update.mtu_bytes = Some(1_280);
    let plan = run(vec![update.clone()], no_adversary(), 5).unwrap();
    let link = &plan.link_updates[0];
    assert_eq!((link.edge, link.loss_ppm, link.mtu_bytes, link.restore), (7, Some(250_000), Some(1_280), false));
    assert_eq!(link.id, "set-link-conditions-0");
    update.target = Some(4_294_967_296);
    assert_eq!(run(vec![update], no_adversary(), 5).unwrap_err(), InterventionError::EdgeRange { index: 0 });
}

#[test]
fn every_scheduled_event_needs_a_concrete_time() {
    let mut rekey = event("synchronized-session-rekey", 0);
    rekey.at = Field::Absent;
    assert_eq!(run(vec![rekey.clone()], no_adversary(), 5).unwrap_err(), InterventionError::TimeMissing { index: 0 });
    rekey.at = Field::Unresolved;
    assert_eq!(run(vec![rekey.clone()], no_adversary(), 5).unwrap_err(), InterventionError::TimeUnresolved { index: 0 });
    rekey.at = Field::Malformed;
    assert_eq!(run(vec![rekey], no_adversary(), 5).unwrap_err(), InterventionError::TimeMalformed { index: 0 });
    let plan = run(
        vec![event("synchronized-session-rekey", SECOND), event("expire-coordinate-cache", 2 * SECOND)],
        no_adversary(),
        5,
    )
    .unwrap();
    assert_eq!((plan.rekeys[0].id.as_str(), plan.rekeys[0].at_ns), ("synchronized-session-rekey-0", SECOND));
    assert_eq!((plan.cache_expiries[0].id.as_str(), plan.cache_expiries[0].at_ns), ("expire-coordinate-cache-1", 2 * SECOND));
}

#[test]
fn lookup_waves_and_transport_classes_are_checked() {
    let mut wave = event("simultaneous-lookups", SECOND);
    wave.count = Some(0);
    assert_eq!(run(vec![wave.clone()], no_adversary(), 5).unwrap_err(), InterventionError::LookupCount { index: 0 });
    wave.count = Some(100_000);
    assert_eq!(run(vec![wave], no_adversary(), 5).unwrap().lookup_waves[0].count, Some(100_000));
    let mut fail = event("fail-transport-class", SECOND);
    assert_eq!(run(vec![fail.clone()], no_adversary(), 5).unwrap_err(), InterventionError::ProfileMissing { index: 0 });
    fail.profile = Some("udp".to_owned());
    let plan = run(vec![fail], no_adversary(), 5).unwrap();
    assert_eq!(plan.transport_classes[0].profile, "udp");
    assert!(!plan.transport_classes[0].restore);
}

#[test]
fn alternating_parent_quality_schedules_each_cycle() {
    let mut flap = event("alternate-parent-quality", SECOND);
    flap.cycles = Some(3);
    flap.target = Some(2);
    let plan = run(vec![flap.clone()], no_adversary(), 5).unwrap();
    let times: Vec<u64> = plan.parent_costs.iter().map(|c| c.at_ns).collect();
    assert_eq!(times, vec![SECOND, SECOND + 250 * MILLISECOND, SECOND + 500 * MILLISECOND]);
    assert_eq!(plan.parent_costs[2].phase, 2);
    assert_eq!(plan.parent_costs[0].target, Some(2));
    assert_eq!((plan.parent_costs[0].preferred_cost_ppm, plan.parent_costs[0].degraded_cost_ppm), (1_000_000, 6_000_000));
    assert_eq!(plan.parent_costs[0].action, "alternate-parent-quality");
    let swap = event("swap-parent-ancestry", SECOND);
    assert_eq!(run(vec![swap], no_adversary(), 5).unwrap().parent_costs.len(), 1);
    flap.cycles = Some(0);
    assert_eq!(run(vec![flap.clone()], no_adversary(), 5).unwrap_err(), InterventionError::ParentCycles { index: 0 });
    flap.cycles = Some(2);
    flap.degraded_cost_ppm = Some(1_000_000);
    assert_eq!(run(vec![flap.clone()], no_adversary(), 5).unwrap_err(), InterventionError::ParentCosts { index: 0 });
    flap.degraded_cost_ppm = None;
    flap.at = Field::Present(u64::MAX - 1);
    assert_eq!(run(vec![flap.clone()], no_adversary(), 5).unwrap_err(), InterventionError::Arithmetic);
    flap.target = Some(5);
    assert_eq!(run(vec![flap], no_adversary(), 5).unwrap_err(), InterventionError::ParentTarget { index: 0 });
}
