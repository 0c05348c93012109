use fips_engine::engine::{
    combine_loss, combined_loss, stable_jitter, GraphRecoveryCounters, RecoveryPhase,
    StreamedBloomCounters,
};
use fips_engine::bloom::BloomWaveCounters;
use fips_engine::cache::CacheCounters;
use sha2::{Digest, Sha256};

#[test]
fn independent_losses_combine_without_exceeding_one_million() {
    assert_eq!(combined_loss(0, 0, 0), 0);
    assert_eq!(combined_loss(1_000_000, 0, 0), 1_000_000);
    assert_eq!(combined_loss(100_000, 100_000, 0), 190_000);
}

#[test]
fn loss_stages_saturate_and_pass_through() {
    assert_eq!(combined_loss(2_000_000, 5, 5), 1_000_000);
    assert_eq!(combined_loss(250_000, 0, 0), 250_000);
    assert_eq!(combined_loss(0, 0, 300_000), 300_000);
    assert_eq!(combine_loss(100_000, 100_000), 190_000);
    assert_eq!(combine_loss(0, 1_000_000), 1_000_000);
    assert_eq!(combine_loss(0, 0), 0);
}

#[test]
fn recovery_jitter_is_a_bounded_digest_draw() {
    assert_eq!(stable_jitter(1, 2, 3, 0), 0);
    let mut hasher = Sha256::new();
    hasher.update(1_u64.to_le_bytes());
    hasher.update(2_usize.to_le_bytes());
    hasher.update(3_u32.to_le_bytes());
    let digest = hasher.finalize();
    let draw = u64::from_le_bytes(digest[..8].try_into().unwrap());
    assert_eq!(stable_jitter(1, 2, 3, 1_000), draw % 1_000);
}

#[test]
fn recovery_counters_reconcile_exactly() {
    let mut counters = GraphRecoveryCounters {
        cache: CacheCounters::default(),
        lookups: 3,
        attempts: 5,
        retries: 2,
        successes: 2,
        failures: 1,
        session_setups: 0,
        session_acks: 0,
        rekeys: 0,
        teardowns: 0,
        session_disruptions: 0,
        transmitted_wire_bytes: 10,
        delivered_wire_bytes: 7,
        lost_wire_bytes: 3,
        quiescence_ns: 0,
    };
    assert!(counters.reconciles());
    counters.lost_wire_bytes = 2;
    assert!(!counters.reconciles());
    let mut bloom = StreamedBloomCounters {
        wave: BloomWaveCounters::default(),
        delivered_frames: 0,
        transmitted_wire_bytes: 0,
        delivered_wire_bytes: 0,
        lost_wire_bytes: 0,
        quiescence_ns: 0,
    };
    assert!(bloom.reconciles());
    bloom.wave.requested = 1;
    assert!(!bloom.reconciles());
}

#[test]
fn recovery_phases_name_their_plane() {
    assert_eq!(RecoveryPhase::LookupRequest.message(), "lookup-request");
    assert_eq!(RecoveryPhase::SessionAck.message(), "session-ack");
    assert_eq!(RecoveryPhase::LookupResponse.plane(), "lookup");
    assert_eq!(RecoveryPhase::SessionSetup.plane(), "session");
}
