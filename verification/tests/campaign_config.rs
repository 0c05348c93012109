use fips_engine::campaign::{
    run_config_from_campaign, CampaignEvent, CampaignFields, ConfigError, ConfigField, Field,
};
use fips_engine::graph::{AttachmentSelector, TopologyKind};
use fips_engine::network::LinkOrdering;

fn minimal() -> CampaignFields {
    CampaignFields {
        mode: Field::Present("compact-discrete-event".to_owned()),
        nodes: Field::Present(12),
        arrivals: Field::Absent,
        generator: Field::Present("chain".to_owned()),
        average_degree: Field::Absent,
        explicit_edges: None,
        attachment: Field::Absent,
        address_policy: Field::Absent,
        precomputed_ladder: None,
        attacker_budget_mode: Field::Absent,
        attacker_operations: Field::Absent,
        arrival_start: Field::Absent,
        arrival_interval: Field::Absent,
        debounce: Field::Absent,
        parent_hysteresis_ppm: Field::Absent,
        parent_hold_down: Field::Absent,
        ordering: Field::Absent,
        transport: Field::Present("all-udp".to_owned()),
        latency: Field::Absent,
        bandwidth_bps: Field::Absent,
        loss_ppm: Field::Absent,
        duplication_ppm: Field::Absent,
        mtu_bytes: Field::Absent,
        queue_bytes: Field::Absent,
        events: None,
    }
}

fn error_of(c: CampaignFields) -> ConfigError {
    match run_config_from_campaign(&c) {
        Err(e) => e,
        Ok(_) => panic!("expected a configuration error"),
    }
}

#[test]
fn minimal_campaign_takes_documented_defaults() {
    let cfg = run_config_from_campaign(&minimal()).unwrap();
    assert_eq!(cfg.nodes, 12);
    assert_eq!(cfg.arrivals, 0);
    assert_eq!(cfg.topology, TopologyKind::Chain);
    assert_eq!(cfg.average_degree, 2);
    assert_eq!(cfg.attachment, AttachmentSelector::CurrentRoot);
    assert_eq!(cfg.address_policy, "strictly-lower-than-current-root");
    assert_eq!(cfg.attacker_budget_mode, "free-input");
    assert_eq!(cfg.arrival_start_ns, 2_000_000_000);
    assert_eq!(cfg.arrival_interval_ns, 500_000_000);
    assert_eq!(cfg.debounce_ns, 500_000_000);
    assert_eq!(cfg.link.ordering, LinkOrdering::Datagram);
    assert_eq!(cfg.link.transport_overhead_bytes, 28);
    assert_eq!(cfg.link.mtu_bytes, 9_000);
    assert!(cfg.lifecycle.is_empty());
    assert_eq!(cfg.inject_parent_loop_at_ns, None);
}

#[test]
fn scale_mode_and_arrival_checks_come_first() {
    let mut c = minimal();
    c.mode = Field::Absent;
    assert_eq!(error_of(c), ConfigError::Missing(ConfigField::Mode));
    let mut c = minimal();
    c.mode = Field::Present("batch".to_owned());
    c.nodes = Field::Present(1);
    assert_eq!(error_of(c), ConfigError::Mode);
    let mut c = minimal();
    c.nodes = Field::Present(2_000_001);
    assert_eq!(error_of(c), ConfigError::NodeCount(2_000_001));
    let mut c = minimal();
    c.arrivals = Field::Present(12);
    assert_eq!(error_of(c), ConfigError::ArrivalCount { arrivals: 12, nodes: 12 });
    let mut c = minimal();
    c.nodes = Field::Unresolved;
    assert_eq!(error_of(c), ConfigError::Unresolved(ConfigField::Nodes));
}

#[test]
fn transport_ordering_ladder_and_cadence_are_validated() {
    let mut c = minimal();
    c.transport = Field::Present("random-mixed".to_owned());
    assert_eq!(run_config_from_campaign(&c).unwrap().link.transport_overhead_bytes, 28);
    let mut c = minimal();
    c.transport = Field::Present("all-infiniband".to_owned());
    assert_eq!(error_of(c), ConfigError::Transport);
    let mut c = minimal();
    c.ordering = Field::Present("reliable".to_owned());
    assert_eq!(error_of(c), ConfigError::LinkOrder);
    let mut c = minimal();
    c.ordering = Field::Present("stream".to_owned());
    c.transport = Field::Present("all-tcp".to_owned());
    let cfg = run_config_from_campaign(&c).unwrap();
    assert_eq!(cfg.link.ordering, LinkOrdering::Stream);
    assert_eq!(cfg.link.transport_overhead_bytes, 40);
    let mut c = minimal();
    c.arrivals = Field::Present(2);
    c.address_policy = Field::Present("precomputed-ladder".to_owned());
    c.precomputed_ladder = Some(vec![Some("ff".repeat(16))]);
    assert_eq!(error_of(c), ConfigError::LadderLength { have: 1, need: 2 });
    let mut c = minimal();
    c.precomputed_ladder = Some(vec![Some("ff".repeat(16)), Some("xyz".to_owned())]);
    assert_eq!(error_of(c), ConfigError::LadderAddress { index: 1 });
    let mut c = minimal();
    c.arrival_interval = Field::Present(10_000_000_001);
    assert_eq!(error_of(c), ConfigError::ArrivalCadence);
    let mut c = minimal();
    c.explicit_edges = Some(vec![Some((Some(0), Some(1))), None]);
    assert_eq!(error_of(c), ConfigError::ExplicitEdgeShape);
}

#[test]
fn lifecycle_events_are_read_in_order_and_checked_against_scale() {
    let event = |action: &str, at: Field<u64>, target: Option<u64>| CampaignEvent {
        action: Some(action.to_owned()),
        at,
        target,
        parameter_node: None,
    };
    let mut c = minimal();
    c.events = Some(vec![
        event("inject-parent-loop", Field::Present(7), None),
        event("disappear-node", Field::Present(10), Some(3)),
        event("set-link-conditions", Field::Absent, None),
        event("reappear-node", Field::Present(20), Some(3)),
    ]);
    let cfg = run_config_from_campaign(&c).unwrap();
    assert_eq!(cfg.inject_parent_loop_at_ns, Some(7));
    assert_eq!(cfg.lifecycle.len(), 2);
    assert_eq!(cfg.lifecycle[0].at_ns, 10);
    assert!(!cfg.lifecycle[0].reappear);
    assert!(cfg.lifecycle[1].reappear);
    let mut c = minimal();
    c.events = Some(vec![event("disappear-node", Field::Present(10), Some(12))]);
    assert_eq!(error_of(c), ConfigError::LifecycleNode { node: 12, nodes: 12 });
    let mut c = minimal();
    c.events = Some(vec![event("disappear-node", Field::Absent, Some(1))]);
    assert_eq!(error_of(c), ConfigError::LifecycleTime);
}
