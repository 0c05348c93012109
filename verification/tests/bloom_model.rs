use fips_engine::bloom::{
    seeded_draw, BloomError, BloomMode, BloomModel, BloomReplacementWave, PeerRole,
    FILTER_ANNOUNCE_BYTES, FILTER_ANNOUNCE_FMP_BYTES,
};
use sha2::{Digest, Sha256};

fn fpr(model: &BloomModel) -> f64 {
    (model.occupied_bits() as f64 / model.num_bits() as f64).powi(i32::from(model.hash_count()))
}

#[test]
fn exact_and_sparse_agree_before_crossover() {
    let mut exact = BloomModel::new(BloomMode::ExactBits);
    let mut sparse = BloomModel::new(BloomMode::SparseBits);
    for value in 0_u64..100 {
        exact.insert(&value.to_le_bytes());
        sparse.insert(&value.to_le_bytes());
    }
    assert!(!sparse.sparse_crossover_reached());
    assert_eq!(exact.occupied_bits(), sparse.occupied_bits());
    assert_eq!(fpr(&exact), fpr(&sparse));
    for value in 0_u64..200 {
        assert_eq!(
            exact.contains_seeded(&value.to_le_bytes(), 7, value, value < 100),
            sparse.contains_seeded(&value.to_le_bytes(), 7, value, value < 100)
        );
    }
}

#[test]
fn split_horizon_boundaries_and_directional_waves_reconcile() {
    let mut wave = BloomReplacementWave::new(500_000_000);
    assert_eq!(wave.request(1, PeerRole::Parent, 0), 0);
    wave.flush(0, 0.01 > 0.20, 1500);
    assert_eq!(wave.request(1, PeerRole::Parent, 499_000_000), 500_000_000);
    assert_eq!(wave.request(1, PeerRole::Parent, 500_000_000), 500_000_000);
    assert_eq!(wave.request(2, PeerRole::Child, 501_000_000), 501_000_000);
    wave.flush(501_000_000, 0.01 > 0.20, 1500);
    assert_eq!(wave.counters.coalesced, 1);
    assert_eq!(wave.counters.sent, 3);
    assert_eq!(wave.counters.by_role.count(PeerRole::Parent), 2);
    assert_eq!(wave.counters.by_role.count(PeerRole::Child), 1);
    assert!(wave.reconciles());
}

#[test]
fn antipoison_and_mtu_rejections_are_counted() {
    let mut wave = BloomReplacementWave::new(500_000_000);
    wave.request(1, PeerRole::Mesh, 0);
    wave.flush(0, 0.21 > 0.20, 1500);
    wave.request(2, PeerRole::Mesh, 1);
    wave.flush(1, 0.01 > 0.20, 1000);
    assert_eq!(wave.counters.rejected, 2);
    assert!(wave.reconciles());
}

#[test]
fn inserted_values_are_always_found() {
    for mode in [BloomMode::ExactBits, BloomMode::SparseBits] {
        let mut model = BloomModel::with_params(mode, 64, 3);
        for value in [b"alpha".as_slice(), b"beta", b"gamma"] {
            assert_eq!(model.insert(value), 3);
            assert_eq!(model.contains_seeded(value, 1, 1, false), Some(true));
        }
        assert!(model.occupied_bits() >= 1);
        assert!(model.occupied_bits() <= 9);
    }
}

#[test]
fn occupancy_counts_insertions_and_defers_membership() {
    let mut model = BloomModel::new(BloomMode::Occupancy);
    model.insert(b"x");
    match &model {
        BloomModel::Occupancy { insertions, occupied_bits, .. } => {
            assert_eq!(*insertions, 1);
            assert_eq!(*occupied_bits, 0);
        }
        _ => unreachable!(),
    }
    assert_eq!(model.contains_seeded(b"x", 1, 1, false), None);
    assert_eq!(model.contains_seeded(b"x", 1, 1, true), Some(true));
    assert_eq!(model.mode(), BloomMode::Occupancy);
}

#[test]
fn unions_require_matching_shapes() {
    let mut left = BloomModel::with_params(BloomMode::ExactBits, 64, 3);
    let mut right = BloomModel::with_params(BloomMode::ExactBits, 64, 3);
    left.insert(b"left");
    right.insert(b"right");
    assert_eq!(left.union_assign(&right), Ok(8));
    assert_eq!(left.contains_seeded(b"left", 0, 0, false), Some(true));
    assert_eq!(left.contains_seeded(b"right", 0, 0, false), Some(true));
    let wide = BloomModel::with_params(BloomMode::ExactBits, 128, 3);
    assert_eq!(left.union_assign(&wide), Err(BloomError::Incompatible));
    let sparse = BloomModel::with_params(BloomMode::SparseBits, 64, 3);
    assert_eq!(left.union_assign(&sparse), Err(BloomError::ModeMismatch));
    let mut sparse_left = BloomModel::with_params(BloomMode::SparseBits, 64, 3);
    let mut sparse_right = BloomModel::with_params(BloomMode::SparseBits, 64, 3);
    sparse_left.insert(b"left");
    sparse_right.insert(b"right");
    sparse_left.union_assign(&sparse_right).unwrap();
    assert_eq!(sparse_left.occupied_bits(), left.occupied_bits());
}

#[test]
fn sparse_crossover_is_reached_at_one_eighth_of_the_width() {
    let mut sparse = BloomModel::with_params(BloomMode::SparseBits, 16, 1);
    let mut value = 0_u64;
    while !sparse.sparse_crossover_reached() {
        sparse.insert(&value.to_le_bytes());
        value += 1;
    }
    assert_eq!(sparse.occupied_bits(), 2);
}

#[test]
fn seeded_draw_is_the_leading_digest_word() {
    let mut hasher = Sha256::new();
    hasher.update(99_u64.to_le_bytes());
    hasher.update(4_u64.to_le_bytes());
    hasher.update(b"same");
    let digest = hasher.finalize();
    let expected = u64::from_le_bytes(digest[0..8].try_into().unwrap());
    assert_eq!(seeded_draw(99, 4, b"same"), expected);
    assert_ne!(seeded_draw(99, 4, b"same"), seeded_draw(99, 5, b"same"));
}

#[test]
fn transmissions_carry_causal_identifiers_and_debounce() {
    let mut wave = BloomReplacementWave::new(100);
    wave.request(7, PeerRole::Child, 10);
    wave.request_causal(3, PeerRole::Parent, 10, String::from("root-change"));
    assert_eq!(wave.pending(), 2);
    wave.flush(10, false, 1500);
    assert_eq!(wave.pending(), 0);
    assert_eq!(wave.transmissions.len(), 2);
    assert_eq!(wave.transmissions[0].peer, 3);
    assert_eq!(wave.transmissions[0].causal_id, "root-change");
    assert_eq!(wave.transmissions[1].causal_id, "bloom:peer-00000007");
    assert_eq!(wave.transmissions[1].frame_bytes, FILTER_ANNOUNCE_FMP_BYTES);
    assert_eq!(wave.counters.message_bytes, 2 * FILTER_ANNOUNCE_BYTES);
    assert_eq!(wave.request(7, PeerRole::Child, 50), 110);
    wave.flush(109, false, 1500);
    assert_eq!(wave.pending(), 1);
    wave.flush(110, false, 1500);
    assert_eq!(wave.pending(), 0);
    assert!(wave.reconciles());
}

#[test]
fn flush_reports_whether_counters_fit() {
    let mut wave = BloomReplacementWave::new(0);
    wave.request(1, PeerRole::Parent, 0);
    wave.request(2, PeerRole::Mesh, 10);
    assert!(wave.flush_fits(0, false, 1_500));
    wave.counters.by_role.parent = u64::MAX;
    assert!(!wave.flush_fits(0, false, 1_500));
    // A rejected flush sends nothing, so role counts cannot overflow.
    assert!(wave.flush_fits(0, true, 1_500));
    // Only the mesh replacement is due later; it alone is counted then.
    wave.counters.by_role.parent = 0;
    wave.counters.by_role.mesh = u64::MAX;
    assert!(wave.flush_fits(5, false, 1_500));
    assert!(!wave.flush_fits(10, false, 1_500));
}
