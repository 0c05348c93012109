use fips_engine::lookup::{
    lookup_request_bytes, lookup_response_bytes, path_broken_bytes, LookupCase, LookupConfig,
    LookupOutcome, LookupService, RoutingSignal, COORDS_REQUIRED_BYTES,
    ESTABLISHED_FMP_OVERHEAD_BYTES, MTU_EXCEEDED_BYTES,
};
use sha2::{Digest, Sha256};

fn case(hops: u32) -> LookupCase {
    LookupCase {
        seed: 5,
        ordinal: u64::from(hops),
        source: 0,
        destination: 1,
        required_hops: hops,
        origin_depth: hops,
        target_depth: hops,
        false_positive_candidates: 4,
        reverse_path_broken: false,
        target_absent: false,
    }
}

#[test]
fn ttl_63_64_65_and_beyond_are_explicit() {
    for (hops, expected) in [
        (63, LookupOutcome::Success),
        (64, LookupOutcome::Success),
        (65, LookupOutcome::TtlExpired),
        (128, LookupOutcome::TtlExpired),
    ] {
        let mut service = LookupService::new(LookupConfig {
            mtu_bytes: 65_535,
            maximum_attempts: 1,
            ..LookupConfig::default()
        });
        assert_eq!(service.execute(&case(hops), 0).outcome, expected);
    }
}

#[test]
fn executable_codec_sizes_and_mtu_boundary_match() {
    assert_eq!(lookup_request_bytes(0), 62);
    assert_eq!(lookup_response_bytes(0), 109);
    assert_eq!(lookup_request_bytes(64), 1_086);
    assert_eq!(lookup_response_bytes(64), 1_133);
    assert_eq!(path_broken_bytes(None), 40);
    assert_eq!(COORDS_REQUIRED_BYTES, 38);
    assert_eq!(MTU_EXCEEDED_BYTES, 40);
    let mut service = LookupService::new(LookupConfig {
        mtu_bytes: lookup_response_bytes(64) + ESTABLISHED_FMP_OVERHEAD_BYTES - 1,
        maximum_attempts: 1,
        ..LookupConfig::default()
    });
    assert_eq!(
        service.execute(&case(64), 0).outcome,
        LookupOutcome::MtuExceeded
    );
}

#[test]
fn retry_lineage_dedup_jitter_and_signal_limits_are_deterministic() {
    let mut broken = case(5);
    broken.reverse_path_broken = true;
    let config = LookupConfig {
        signal_interval_ns: 1_000_000_000,
        ..LookupConfig::default()
    };
    let mut first = LookupService::new(config.clone());
    let mut second = LookupService::new(config);
    let left = first.execute(&broken, 0);
    let right = second.execute(&broken, 0);
    assert_eq!(left, right);
    assert_eq!(left.attempts.len(), 3);
    assert_eq!(left.counters.retries, 2);
    assert_eq!(
        left.attempts[1].parent_causal_id.as_deref(),
        Some(left.attempts[0].causal_id.as_str())
    );
    assert_eq!(left.counters.deduplicated, 6);
    assert!(left.counters.signals_rate_limited > 0);
}

fn expected_stable_id(seed: u64, ordinal: u64, attempt: u32, lane: u64) -> u64 {
    let mut hasher = Sha256::new();
    hasher.update(seed.to_le_bytes());
    hasher.update(ordinal.to_le_bytes());
    hasher.update(attempt.to_le_bytes());
    hasher.update(lane.to_le_bytes());
    let digest = hasher.finalize();
    u64::from_le_bytes(digest[0..8].try_into().unwrap())
}

#[test]
fn attempt_records_follow_the_closed_form_schedule() {
    let mut broken = case(5);
    broken.reverse_path_broken = true;
    let config = LookupConfig::default();
    let mut service = LookupService::new(config);
    let run = service.execute(&broken, 1_000);
    assert_eq!(run.outcome, LookupOutcome::ReversePathBroken);
    assert_eq!(run.attempts[0].causal_id, "lookup-0000000000000005-attempt-0");
    assert_eq!(run.attempts[2].causal_id, "lookup-0000000000000005-attempt-2");
    assert_eq!(run.attempts[0].parent_causal_id, None);
    assert_eq!(run.attempts[0].request_id, expected_stable_id(5, 5, 0, 0));
    assert_eq!(run.attempts[0].started_at_ns, 1_000);
    let jitter = expected_stable_id(5, 5, 1, 99) % 10_000_000;
    assert_eq!(run.attempts[1].started_at_ns, 1_000 + 200_000_000 + jitter);
    assert_eq!(run.attempts[1].request_message_bytes, 62 + 16 * 5);
    assert_eq!(run.attempts[1].response_message_bytes, 109 + 16 * 5);
    assert_eq!(run.attempts[1].signal, Some(RoutingSignal::PathBroken));
    assert_eq!(run.counters.lookups, 1);
    assert_eq!(run.counters.failures, 1);
    assert_eq!(run.counters.successes, 0);
    assert_eq!(run.counters.attempts, 3);
    assert_eq!(run.counters.false_positive_candidates, 12);
    assert_eq!(run.counters.request_message_bytes, 3 * (62 + 80));
    assert_eq!(
        run.counters.signals.count(RoutingSignal::PathBroken) + run.counters.signals_rate_limited,
        3
    );
    assert_eq!(run.counters.recovery_time_ns, run.attempts[2].started_at_ns - 1_000);
}

#[test]
fn absent_targets_and_zero_budgets_fail() {
    let mut absent = case(5);
    absent.target_absent = true;
    let mut service = LookupService::new(LookupConfig::default());
    let run = service.execute(&absent, 0);
    assert_eq!(run.outcome, LookupOutcome::Negative);
    assert_eq!(run.attempts.len(), 3);
    assert_eq!(run.counters.response_message_bytes, 3 * (109 + 80));
    let mut idle = LookupService::new(LookupConfig { maximum_attempts: 0, ..LookupConfig::default() });
    let run = idle.execute(&case(5), 0);
    assert_eq!(run.outcome, LookupOutcome::Negative);
    assert!(run.attempts.is_empty());
    assert_eq!(run.counters.failures, 1);
    assert_eq!(run.counters.recovery_time_ns, 0);
}

#[test]
fn coords_required_signals_are_rate_limited() {
    let mut service = LookupService::new(LookupConfig { signal_interval_ns: 100, ..LookupConfig::default() });
    assert!(service.coords_required(0));
    assert!(!service.coords_required(99));
    assert!(service.coords_required(100));
    assert!(!service.coords_required(50));
    assert_eq!(path_broken_bytes(Some(2)), 40 + 48);
}
