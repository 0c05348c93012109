use fips_engine::graph::{AttachmentSelector, GraphError, GraphStore, NodeAddress, TopologyKind};
use fips_engine::digest::sha256_hex;

#[test]
fn random_regular_degree_constraint_is_exact() {
    let graph = GraphStore::generate(TopologyKind::RandomRegular, 20, 4, 99, &[]).unwrap();
    assert!(graph.node_ids().iter().all(|&id| graph.active_degree(id) == 4));
    assert_eq!(graph.edge_count(), 40);
}

#[test]
fn stable_store_rejects_dangling_duplicate_and_cyclic_state() {
    let mut graph = GraphStore::with_nodes(3);
    graph.add_edge(0, 1).unwrap();
    assert_eq!(graph.add_edge(1, 0), Err(GraphError::DuplicateEdge(0, 1)));
    assert_eq!(graph.add_edge(0, 3), Err(GraphError::DanglingNode(3)));
    assert_eq!(
        graph.set_tree(2, Some(1), vec![2, 1, 2]),
        Err(GraphError::InvalidAncestry(2))
    );
}

#[test]
fn attachment_selectors_are_deterministic() {
    let graph = GraphStore::generate(TopologyKind::Chain, 7, 2, 7, &[]).unwrap();
    assert_eq!(
        graph
            .select_attachment(AttachmentSelector::Leaf, 1, 1)
            .unwrap(),
        0
    );
    assert_eq!(
        graph
            .select_attachment(AttachmentSelector::Hub, 1, 1)
            .unwrap(),
        1
    );
    assert_eq!(
        graph
            .select_attachment(AttachmentSelector::Articulation, 1, 1)
            .unwrap(),
        1
    );
    assert_eq!(
        graph
            .select_attachment(AttachmentSelector::Random, 5, 2)
            .unwrap(),
        graph
            .select_attachment(AttachmentSelector::Random, 5, 2)
            .unwrap()
    );
}

#[test]
fn compact_footprint_is_published_by_formula() {
    let graph = GraphStore::generate(TopologyKind::Chain, 100, 2, 1, &[]).unwrap();
    let footprint = graph.memory_footprint();
    assert!(footprint.fixed_bytes_per_node <= 48);
    assert_eq!(footprint.fixed_bytes_per_edge, 8);
    assert!(footprint.allocated_bytes < 16_000);
}

#[test]
fn generators_are_connected_and_seed_stable() {
    let cases = [
        (TopologyKind::Chain, 2),
        (TopologyKind::BalancedTree, 2),
        (TopologyKind::RandomRegular, 4),
        (TopologyKind::ScaleFree, 4),
    ];
    for (kind, degree) in cases {
        let left = GraphStore::generate(kind, 20, degree, 77, &[]).unwrap();
        let right = GraphStore::generate(kind, 20, degree, 77, &[]).unwrap();
        assert!(left.is_connected_active());
        assert_eq!(left, right);
        assert!(left.validate().is_ok());
    }
}

#[test]
fn address_text_round_trips() {
    let address = NodeAddress::initial(0x0102_0304);
    let text = address.to_hex();
    assert_eq!(text, "80000000000000000000000001020304");
    assert_eq!(NodeAddress::from_hex(&text).unwrap(), address);
    assert_eq!(
        NodeAddress::from_hex("80000000000000000000000001020304").unwrap().0[15],
        4
    );
    assert!(matches!(NodeAddress::from_hex("8000"), Err(GraphError::Address(_))));
    assert!(matches!(
        NodeAddress::from_hex("zz000000000000000000000001020304"),
        Err(GraphError::Address(_))
    ));
}

#[test]
fn one_lower_decrements_with_borrow() {
    let address = NodeAddress([0x80, 0, 0, 0, 0, 0, 0, 0, 0, 0, 0, 0, 0, 0, 1, 0]);
    let lower = address.one_lower().unwrap();
    assert_eq!(lower.0, [0x80, 0, 0, 0, 0, 0, 0, 0, 0, 0, 0, 0, 0, 0, 0, 0xff]);
    assert_eq!(NodeAddress([0; 16]).one_lower(), None);
}

#[test]
fn topology_and_selector_spellings_parse() {
    assert_eq!(TopologyKind::parse("chain").unwrap(), TopologyKind::Chain);
    assert_eq!(TopologyKind::parse("random-regular").unwrap(), TopologyKind::RandomRegular);
    assert!(matches!(TopologyKind::parse("ring"), Err(GraphError::UnsupportedTopology(_))));
    assert_eq!(AttachmentSelector::parse("leaf").unwrap(), AttachmentSelector::Leaf);
    assert!(matches!(AttachmentSelector::parse("best"), Err(GraphError::UnsupportedSelector(_))));
}

#[test]
fn regular_degree_rejects_impossible_requests() {
    assert_eq!(
        GraphStore::generate(TopologyKind::RandomRegular, 5, 3, 1, &[]),
        Err(GraphError::RegularDegree { nodes: 5, degree: 3 })
    );
    assert_eq!(
        GraphStore::generate(TopologyKind::RandomRegular, 4, 4, 1, &[]),
        Err(GraphError::RegularDegree { nodes: 4, degree: 4 })
    );
    assert_eq!(GraphStore::generate(TopologyKind::Chain, 0, 2, 1, &[]), Err(GraphError::EmptyGraph));
}

#[test]
fn explicit_edges_and_neighbors_follow_activity() {
    let mut graph = GraphStore::generate(TopologyKind::Explicit, 4, 0, 0, &[(0, 1), (1, 2), (2, 3)]).unwrap();
    assert_eq!(graph.edge_count(), 3);
    assert_eq!(graph.edge(1).unwrap(), (1, 2));
    assert_eq!(graph.edge_between(2, 1), Some(1));
    assert_eq!(graph.active_neighbors(1), vec![0, 2]);
    graph.set_active(2, false).unwrap();
    assert_eq!(graph.active_neighbors(1), vec![0]);
    assert_eq!(graph.active_degree(1), 1);
    assert!(!graph.is_connected_active());
    assert!(matches!(graph.edge(3), Err(GraphError::DanglingEdge(3))));
    assert!(matches!(graph.add_edge(2, 2), Err(GraphError::SelfEdge(2))));
}

#[test]
fn chain_interior_nodes_are_articulation_points() {
    let graph = GraphStore::generate(TopologyKind::Chain, 5, 2, 3, &[]).unwrap();
    assert_eq!(graph.articulation_points(), vec![1, 2, 3]);
}

#[test]
fn tree_state_is_validated_and_reset() {
    let mut graph = GraphStore::generate(TopologyKind::Chain, 3, 2, 3, &[]).unwrap();
    graph.set_tree(2, Some(1), vec![2, 1, 0]).unwrap();
    assert_eq!(graph.root(2), 0);
    assert_eq!(graph.parent(2), Some(1));
    assert_eq!(graph.ancestry(2), &[2, 1, 0]);
    graph.reset_self_root(2).unwrap();
    assert_eq!(graph.root(2), 2);
    assert_eq!(graph.parent(2), None);
    assert!(matches!(graph.set_tree(7, None, vec![7]), Err(GraphError::InvalidAncestry(7))));
}

#[test]
fn odd_regular_degree_adds_diametric_pairs() {
    for seed in [0_u64, 5, 123_456] {
        let graph = GraphStore::generate(TopologyKind::RandomRegular, 12, 5, seed, &[]).unwrap();
        assert!(graph.node_ids().iter().all(|&id| graph.active_degree(id) == 5));
        assert_eq!(graph.edge_count(), 30);
    }
    let pair = GraphStore::generate(TopologyKind::RandomRegular, 2, 1, 9, &[]).unwrap();
    assert_eq!(pair.edge_count(), 1);
    assert_eq!(
        GraphStore::generate(TopologyKind::RandomRegular, 6, 1, 9, &[]),
        Err(GraphError::Disconnected)
    );
}

#[test]
fn articulation_points_split_components_even_when_disconnected() {
    let pair_of_pairs =
        GraphStore::generate(TopologyKind::Explicit, 4, 0, 0, &[(0, 1), (2, 3)]);
    assert_eq!(pair_of_pairs, Err(GraphError::Disconnected));
    let mut graph = GraphStore::with_nodes(4);
    graph.add_edge(0, 1).unwrap();
    graph.add_edge(2, 3).unwrap();
    assert!(graph.articulation_points().is_empty());
    let mut forked = GraphStore::with_nodes(6);
    for (a, b) in [(0, 1), (1, 2), (3, 4), (4, 5)] {
        forked.add_edge(a, b).unwrap();
    }
    assert_eq!(forked.articulation_points(), vec![1, 4]);
    let chain = GraphStore::generate(TopologyKind::Chain, 7, 2, 7, &[]).unwrap();
    assert_eq!(chain.articulation_points(), vec![1, 2, 3, 4, 5]);
}

#[test]
fn sha256_hex_matches_known_digests() {
    assert_eq!(
        sha256_hex(b"abc"),
        "ba7816bf8f01cfea414140de5dae2223b00361a396177a9cb410ff61f20015ad"
    );
    assert_eq!(
        sha256_hex(b""),
        "e3b0c44298fc1c149afbf4c8996fb92427ae41e4649b934ca495991b7852b855"
    );
}
