use fips_engine::bloom::BloomMode;
use fips_engine::network::LinkOrdering;
use fips_engine::recovery::{
    recovery_settings_from_fields, RecoveryError, RecoveryFields, UnsupportedSetting,
};

fn empty() -> RecoveryFields {
    RecoveryFields {
        bloom: None,
        ordering: None,
        latency_ns: None,
        jitter_ns: None,
        bandwidth_bps: None,
        loss_ppm: None,
        duplication_ppm: None,
        mtu_bytes: None,
        queue_bytes: None,
        arrival_start_ns: None,
        arrival_interval_ns: None,
        bloom_debounce_ns: None,
        cache_entries: None,
        cache_ttl_ns: None,
        lookup_ttl: None,
        lookup_attempts: None,
        payload_bytes: None,
        rate_bps: None,
        flow_count: None,
        segments_per_stream: None,
        burst_size: None,
        burst_interval_ns: None,
        resource_assignment: None,
    }
}

fn unsupported(setting: UnsupportedSetting) -> RecoveryError {
    RecoveryError::Unsupported(setting)
}

#[test]
fn recovery_defaults_fill_every_setting() {
    let s = recovery_settings_from_fields(&empty(), 16, 4, 5_000_000_000).unwrap();
    assert_eq!((s.nodes, s.arrivals), (16, 4));
    assert_eq!(s.bloom_mode, BloomMode::ExactBits);
    assert_eq!(s.link.ordering, LinkOrdering::Stream);
    assert_eq!((s.link.latency_ns, s.link.jitter_ns), (1_000_000, 500_000));
    assert_eq!((s.link.bandwidth_bps, s.link.mtu_bytes, s.link.transport_overhead_bytes), (10_000_000, 1_500, 28));
    assert_eq!(s.lookup.mtu_bytes, 1_472);
    assert_eq!((s.lookup.ttl, s.lookup.maximum_attempts), (64, 3));
    // Last arrival at 2s + 3 * 499ms = 3.497s; quiescence at 5s.
    assert_eq!(s.tree_recovery_ns, 1_503_000_000);
    // 512 bytes at 4.096 Mbit/s: one payload per millisecond.
    assert_eq!(s.interval_ns, 1_000_000);
    assert_eq!((s.cache_entries, s.cache_ttl_ns, s.flow_count), (64, 5_000_000_000, 128));
    assert!(!s.heterogeneous);
}

#[test]
fn recovery_settings_follow_the_campaign() {
    let mut c = empty();
    c.bloom = Some("sparse-bits".to_owned());
    c.ordering = Some("datagram".to_owned());
    c.latency_ns = Some(4_000_000);
    c.mtu_bytes = Some(20);
    c.rate_bps = Some(0);
    c.payload_bytes = Some(1);
    c.resource_assignment = Some("heterogeneous".to_owned());
    let s = recovery_settings_from_fields(&c, 3, 0, 0).unwrap();
    assert_eq!(s.bloom_mode, BloomMode::SparseBits);
    assert_eq!(s.link.ordering, LinkOrdering::Datagram);
    assert_eq!(s.link.jitter_ns, 2_000_000);
    assert_eq!(s.lookup.mtu_bytes, 0);
    assert_eq!(s.interval_ns, 8_000_000_000);
    assert_eq!(s.tree_recovery_ns, 0);
    assert!(s.heterogeneous);
}

#[test]
fn recovery_settings_reject_the_first_unusable_value() {
    assert_eq!(
        recovery_settings_from_fields(&empty(), 1 << 32, 0, 0).unwrap_err(),
        unsupported(UnsupportedSetting::NodeIds)
    );
    let mut c = empty();
    c.bloom = Some("counting".to_owned());
    c.ordering = Some("reliable".to_owned());
    assert_eq!(recovery_settings_from_fields(&c, 4, 0, 0).unwrap_err(), unsupported(UnsupportedSetting::BloomMode));
    c.bloom = None;
    assert_eq!(recovery_settings_from_fields(&c, 4, 0, 0).unwrap_err(), unsupported(UnsupportedSetting::LinkOrdering));
    let mut c = empty();
    c.loss_ppm = Some(1 << 32);
    assert_eq!(recovery_settings_from_fields(&c, 4, 0, 0).unwrap_err(), unsupported(UnsupportedSetting::LossPpm));
    let mut c = empty();
    c.lookup_ttl = Some(256);
    assert_eq!(recovery_settings_from_fields(&c, 4, 0, 0).unwrap_err(), unsupported(UnsupportedSetting::LookupTtl));
    assert_eq!(
        recovery_settings_from_fields(&c, 4, 1 << 32, 0).unwrap_err(),
        unsupported(UnsupportedSetting::ArrivalCount)
    );
    let mut c = empty();
    c.burst_size = Some(1 << 33);
    assert_eq!(recovery_settings_from_fields(&c, 4, 0, 0).unwrap_err(), unsupported(UnsupportedSetting::BurstSize));
}
