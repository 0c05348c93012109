use fips_engine::network::{
    Delivery, EnqueueRequest, LinkClass, LinkConfig, LinkError, LinkOrdering, LinkService,
    StreamEnqueueRequest,
};

#[test]
fn single_link_matches_analytical_delivery_time_and_bytes() {
    let config = LinkConfig {
        latency_ns: 2_000_000,
        bandwidth_bps: 1_000_000,
        transport_overhead_bytes: 0,
        ordering: LinkOrdering::Stream,
        ..LinkConfig::default()
    };
    let mut service = LinkService::uniform(7, 1, config);
    let result = service
        .enqueue(EnqueueRequest {
            edge_id: 0,
            from: 0,
            to: 1,
            class: LinkClass::Control,
            frame_bytes: 1_000,
            useful_payload_bytes: 0,
            now_ns: 10,
        })
        .unwrap();
    assert_eq!(result.transmitted_bytes, 1_000);
    assert_eq!(result.deliveries[0].deliver_at_ns, 10_000_010);
    service.record_delivery(&result.deliveries[0], 0).unwrap();
    service.reconcile().unwrap();
}

#[test]
fn mtu_and_queue_failures_are_typed_and_counted() {
    let config = LinkConfig {
        mtu_bytes: 100,
        queue_bytes: 150,
        transport_overhead_bytes: 0,
        bandwidth_bps: 1,
        ..LinkConfig::default()
    };
    let mut service = LinkService::uniform(1, 1, config);
    assert!(matches!(
        service.enqueue(EnqueueRequest {
            edge_id: 0,
            from: 0,
            to: 1,
            class: LinkClass::Control,
            frame_bytes: 101,
            useful_payload_bytes: 0,
            now_ns: 0,
        }),
        Err(LinkError::MtuExceeded { .. })
    ));
    service
        .enqueue(EnqueueRequest {
            edge_id: 0,
            from: 0,
            to: 1,
            class: LinkClass::Control,
            frame_bytes: 100,
            useful_payload_bytes: 0,
            now_ns: 0,
        })
        .unwrap();
    assert!(matches!(
        service.enqueue(EnqueueRequest {
            edge_id: 0,
            from: 0,
            to: 1,
            class: LinkClass::Control,
            frame_bytes: 100,
            useful_payload_bytes: 0,
            now_ns: 0,
        }),
        Err(LinkError::QueueFull { .. })
    ));
    let counters = service.counters(0, 0, 1);
    assert_eq!(counters.accepted_frames, 1);
    assert_eq!(counters.rejected_frames, 2);
    assert_eq!(counters.rejected_bytes, 201);
}

#[test]
fn seeded_loss_and_duplication_are_replayable() {
    let config = LinkConfig {
        loss_ppm: 300_000,
        duplication_ppm: 500_000,
        queue_bytes: 1_000_000,
        ..LinkConfig::default()
    };
    let mut left = LinkService::uniform(99, 1, config.clone());
    let mut right = LinkService::uniform(99, 1, config);
    for sequence in 0..20 {
        assert_eq!(
            left.enqueue(EnqueueRequest {
                edge_id: 0,
                from: 0,
                to: 1,
                class: LinkClass::Control,
                frame_bytes: 100,
                useful_payload_bytes: 0,
                now_ns: sequence,
            }),
            right.enqueue(EnqueueRequest {
                edge_id: 0,
                from: 0,
                to: 1,
                class: LinkClass::Control,
                frame_bytes: 100,
                useful_payload_bytes: 0,
                now_ns: sequence,
            })
        );
    }
}

#[test]
fn control_and_useful_payload_share_capacity_but_not_accounting() {
    let config = LinkConfig {
        ordering: LinkOrdering::Stream,
        bandwidth_bps: 8_000,
        latency_ns: 0,
        transport_overhead_bytes: 0,
        ..LinkConfig::default()
    };
    let mut service = LinkService::uniform(1, 1, config);
    let control = service
        .enqueue(EnqueueRequest {
            edge_id: 0,
            from: 0,
            to: 1,
            class: LinkClass::Control,
            frame_bytes: 1_000,
            useful_payload_bytes: 0,
            now_ns: 0,
        })
        .unwrap();
    let useful = service
        .enqueue(EnqueueRequest {
            edge_id: 0,
            from: 0,
            to: 1,
            class: LinkClass::UsefulPayload,
            frame_bytes: 1_100,
            useful_payload_bytes: 1_000,
            now_ns: 0,
        })
        .unwrap();
    assert_eq!(control.deliveries[0].deliver_at_ns, 1_000_000_000);
    assert_eq!(useful.deliveries[0].deliver_at_ns, 2_100_000_000);
    service.record_delivery(&control.deliveries[0], 0).unwrap();
    service
        .record_delivery(&useful.deliveries[0], 1_000)
        .unwrap();
    let counters = service.counters(0, 0, 1);
    assert_eq!(counters.delivered_bytes, 2_100);
    assert_eq!(counters.useful_payload_bytes, 1_000);
    service.reconcile().unwrap();
}

#[test]
fn aggregate_stream_packetization_reconciles_transmit_loss_and_delivery() {
    let mut links = LinkService::uniform(
        7,
        1,
        LinkConfig {
            bandwidth_bps: 10_000_000,
            loss_ppm: 10_000,
            mtu_bytes: 1_500,
            ordering: LinkOrdering::Stream,
            ..LinkConfig::default()
        },
    );
    let result = links
        .enqueue_stream(StreamEnqueueRequest {
            edge_id: 0,
            from: 0,
            to: 1,
            useful_payload_bytes: 1_000_000,
            protocol_overhead_bytes: 106,
            now_ns: 0,
        })
        .unwrap();
    assert!(result.packet_count > 1);
    assert!(result.retransmitted_packets > 0);
    links.record_delivery(&result.delivery, 1_000_000).unwrap();
    links.reconcile().unwrap();
}

#[test]
fn stream_packet_arithmetic_is_exact() {
    let mut links = LinkService::uniform(
        7,
        1,
        LinkConfig {
            bandwidth_bps: 10_000_000,
            loss_ppm: 10_000,
            mtu_bytes: 1_500,
            ordering: LinkOrdering::Stream,
            ..LinkConfig::default()
        },
    );
    let result = links
        .enqueue_stream(StreamEnqueueRequest {
            edge_id: 0,
            from: 0,
            to: 1,
            useful_payload_bytes: 1_000_000,
            protocol_overhead_bytes: 106,
            now_ns: 0,
        })
        .unwrap();
    // 1500 - (106 + 28) = 1366 payload bytes per packet.
    assert_eq!(result.packet_count, 733);
    assert_eq!(result.delivery.wire_bytes, 1_000_000 + 733 * 134);
    // ceil(733 * 10_000 / 990_000) = 8 retransmissions.
    assert_eq!(result.retransmitted_packets, 8);
    let average = (result.delivery.wire_bytes + 732) / 733;
    assert_eq!(result.lost_bytes, 8 * average);
    assert_eq!(result.transmitted_bytes, result.delivery.wire_bytes + result.lost_bytes);
    assert_eq!(result.delivery.frame_bytes, 1_000_000 + 733 * 106);
    assert_eq!(result.delivery.class, LinkClass::UsefulPayload);
}

#[test]
fn stream_rejections_are_typed() {
    let mut links = LinkService::uniform(1, 1, LinkConfig { mtu_bytes: 134, ..LinkConfig::default() });
    let request = StreamEnqueueRequest {
        edge_id: 0,
        from: 0,
        to: 1,
        useful_payload_bytes: 10,
        protocol_overhead_bytes: 106,
        now_ns: 0,
    };
    assert_eq!(
        links.enqueue_stream(request.clone()),
        Err(LinkError::MtuExceeded { edge: 0, frame_bytes: 135, mtu_bytes: 134 })
    );
    assert_eq!(
        links.enqueue_stream(StreamEnqueueRequest { edge_id: 3, ..request.clone() }),
        Err(LinkError::UnknownEdge(3))
    );
    let mut lossy = LinkService::uniform(1, 1, LinkConfig { loss_ppm: 1_000_000, ..LinkConfig::default() });
    assert_eq!(lossy.enqueue_stream(request), Err(LinkError::Arithmetic));
}

#[test]
fn zero_bandwidth_and_unknown_edges_are_rejected() {
    let mut service = LinkService::uniform(1, 1, LinkConfig { bandwidth_bps: 0, ..LinkConfig::default() });
    let request = EnqueueRequest {
        edge_id: 0,
        from: 0,
        to: 1,
        class: LinkClass::Control,
        frame_bytes: 10,
        useful_payload_bytes: 0,
        now_ns: 0,
    };
    assert_eq!(service.enqueue(request.clone()), Err(LinkError::ZeroBandwidth(0)));
    assert_eq!(
        service.enqueue(EnqueueRequest { edge_id: 1, ..request }),
        Err(LinkError::UnknownEdge(1))
    );
    assert_eq!(service.set_config(5, LinkConfig::default()), Err(LinkError::UnknownEdge(5)));
    assert_eq!(service.set_shared_group(5, 1), Err(LinkError::UnknownEdge(5)));
    assert!(service.config(5).is_err());
    assert_eq!(service.shared_group(0), None);
}

#[test]
fn missing_direction_and_unbalanced_counters_are_reported() {
    let mut service = LinkService::uniform(1, 1, LinkConfig::default());
    let delivery = Delivery {
        edge_id: 0,
        from: 0,
        to: 1,
        class: LinkClass::Control,
        frame_bytes: 10,
        wire_bytes: 38,
        deliver_at_ns: 0,
        copy_ordinal: 0,
    };
    assert_eq!(service.record_delivery(&delivery, 0), Err(LinkError::MissingDirection(0)));
    service
        .enqueue(EnqueueRequest {
            edge_id: 0,
            from: 0,
            to: 1,
            class: LinkClass::Control,
            frame_bytes: 10,
            useful_payload_bytes: 0,
            now_ns: 0,
        })
        .unwrap();
    assert_eq!(
        service.reconcile(),
        Err(LinkError::Reconciliation {
            edge: 0,
            from: 0,
            to: 1,
            transmitted: 38,
            delivered: 0,
            lost: 0,
        })
    );
    let labels = service.all_counters();
    assert_eq!(labels.len(), 1);
    assert_eq!(labels[0].0, "edge-0:0->1");
    assert_eq!(labels[0].1.transmitted_bytes, 38);
}

#[test]
fn enqueue_accounts_for_every_transmitted_byte() {
    let config = LinkConfig {
        loss_ppm: 300_000,
        duplication_ppm: 500_000,
        queue_bytes: 1_000_000,
        ..LinkConfig::default()
    };
    let mut service = LinkService::uniform(5, 1, config);
    for sequence in 0..40 {
        let result = service
            .enqueue(EnqueueRequest {
                edge_id: 0,
                from: 0,
                to: 1,
                class: LinkClass::Control,
                frame_bytes: 100,
                useful_payload_bytes: 0,
                now_ns: sequence,
            })
            .unwrap();
        let delivered: u64 = result.deliveries.iter().map(|d| d.wire_bytes).sum();
        assert_eq!(result.transmitted_bytes, result.lost_bytes + delivered);
        for delivery in &result.deliveries {
            service.record_delivery(delivery, 0).unwrap();
        }
    }
    service.reconcile().unwrap();
}

#[test]
fn shared_group_serializes_both_directions_on_one_medium() {
    let config = LinkConfig {
        bandwidth_bps: 8_000,
        latency_ns: 0,
        jitter_ns: 0,
        transport_overhead_bytes: 0,
        ..LinkConfig::default()
    };
    let mut service = LinkService::uniform(1, 1, config);
    service.set_shared_group(0, 4).unwrap();
    assert_eq!(service.shared_group(0), Some(4));
    let first = service
        .enqueue(EnqueueRequest {
            edge_id: 0,
            from: 0,
            to: 1,
            class: LinkClass::Control,
            frame_bytes: 1_000,
            useful_payload_bytes: 0,
            now_ns: 0,
        })
        .unwrap();
    let second = service
        .enqueue(EnqueueRequest {
            edge_id: 0,
            from: 1,
            to: 0,
            class: LinkClass::Control,
            frame_bytes: 1_000,
            useful_payload_bytes: 0,
            now_ns: 0,
        })
        .unwrap();
    assert_eq!(first.deliveries[0].deliver_at_ns, 1_000_000_000);
    assert_eq!(second.deliveries[0].deliver_at_ns, 2_000_000_000);
}

#[test]
fn delivery_time_overflow_keeps_the_queued_transmission() {
    let config = LinkConfig {
        latency_ns: u64::MAX,
        bandwidth_bps: 8_000,
        transport_overhead_bytes: 0,
        mtu_bytes: 1_000,
        queue_bytes: 1_000,
        loss_ppm: 0,
        duplication_ppm: 0,
        ordering: LinkOrdering::Datagram,
        ..LinkConfig::default()
    };
    let mut service = LinkService::uniform(3, 1, config);
    let request = EnqueueRequest {
        edge_id: 0,
        from: 0,
        to: 1,
        class: LinkClass::Control,
        frame_bytes: 600,
        useful_payload_bytes: 0,
        now_ns: 0,
    };
    assert!(matches!(service.enqueue(request), Err(LinkError::Arithmetic)));
    let counters = service.counters(0, 0, 1);
    assert_eq!(counters.accepted_frames, 1);
    assert_eq!(counters.transmitted_bytes, 0);
    // The first transmission still occupies the medium until it completes.
    assert!(matches!(
        service.enqueue(request),
        Err(LinkError::QueueFull { queued_bytes: 600, .. })
    ));
}

#[test]
fn stream_deliveries_never_overtake_earlier_frames() {
    let slow = LinkConfig {
        latency_ns: 10_000_000,
        bandwidth_bps: 1_000_000_000,
        transport_overhead_bytes: 0,
        ordering: LinkOrdering::Stream,
        ..LinkConfig::default()
    };
    let mut service = LinkService::uniform(5, 1, slow);
    let request = EnqueueRequest {
        edge_id: 0,
        from: 0,
        to: 1,
        class: LinkClass::Control,
        frame_bytes: 125,
        useful_payload_bytes: 0,
        now_ns: 0,
    };
    let first = service.enqueue(request).unwrap();
    assert_eq!(first.deliveries[0].deliver_at_ns, 10_001_000);
    service
        .set_config(0, LinkConfig { latency_ns: 0, ..slow })
        .unwrap();
    let second = service.enqueue(EnqueueRequest { now_ns: 5_000, ..request }).unwrap();
    // Without the stream contract this copy would arrive at 6_000 ns.
    assert_eq!(second.deliveries[0].deliver_at_ns, 10_001_000);
}

#[test]
fn crediting_every_scheduled_delivery_reconciles_all_directions() {
    let config = LinkConfig {
        loss_ppm: 250_000,
        duplication_ppm: 400_000,
        queue_bytes: 10_000_000,
        ..LinkConfig::default()
    };
    let mut service = LinkService::uniform(11, 2, config);
    let mut outstanding: Vec<Delivery> = Vec::new();
    for step in 0..30_u64 {
        let edge = (step % 2) as u32;
        let result = service
            .enqueue(EnqueueRequest {
                edge_id: edge,
                from: edge,
                to: edge + 1,
                class: LinkClass::Control,
                frame_bytes: 200 + step,
                useful_payload_bytes: 0,
                now_ns: step * 1_000,
            })
            .unwrap();
        outstanding.extend(result.deliveries);
    }
    let stream = service
        .enqueue_stream(StreamEnqueueRequest {
            edge_id: 1,
            from: 2,
            to: 1,
            useful_payload_bytes: 50_000,
            protocol_overhead_bytes: 106,
            now_ns: 0,
        })
        .unwrap();
    outstanding.push(stream.delivery);
    assert!(service.reconcile().is_err() || outstanding.is_empty());
    for delivery in &outstanding {
        service.record_delivery(delivery, 0).unwrap();
    }
    service.reconcile().unwrap();
}
