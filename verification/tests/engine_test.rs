use ordent::arena::{NodeId, NodeState};
use ordent::engine::{OrdentEngine, TickError, TickStage};

fn node(theta: u32, d_theta: u32) -> NodeState {
    NodeState { theta, d_theta }
}

fn two_node_engine(theta0: u32, theta1: u32) -> (OrdentEngine, NodeId, NodeId) {
    let mut engine = OrdentEngine::new(2, 2);
    let n0 = engine.insert_node(node(theta0, 0));
    let n1 = engine.insert_node(node(theta1, 0));
    engine.active_nodes = vec![n0, n1];
    engine.target_nodes = vec![n1];
    engine.edge_offsets = vec![0];
    engine.edge_counts = vec![1];
    engine.edge_sources = vec![n0];
    (engine, n0, n1)
}

#[test]
fn inserted_nodes_are_readable_and_distinct() {
    let mut engine = OrdentEngine::new(4, 4);
    let a = engine.insert_node(node(1, 2));
    let b = engine.insert_node(node(3, 4));
    assert_ne!(a, b);
    assert_eq!(a.slot(), 0);
    assert_eq!(b.slot(), 1);
    assert_eq!(a.generation(), 1);
    assert_eq!(engine.node(a), Some(node(1, 2)));
    assert_eq!(engine.node(b), Some(node(3, 4)));
    assert!(!engine.is_full());
}

#[test]
fn handle_from_another_engine_is_unknown() {
    let mut big = OrdentEngine::new(1, 1);
    big.insert_node(node(0, 0));
    let foreign = big.insert_node(node(0, 0));
    let mut small = OrdentEngine::new(1, 1);
    small.insert_node(node(0, 0));
    assert_eq!(small.node(foreign), None);
}

#[test]
fn new_engine_has_zeroed_lags_of_edge_capacity() {
    let engine = OrdentEngine::new(5, 3);
    assert_eq!(engine.phase_lags(), &vec![0i32; 5]);
}

#[test]
fn tick_without_edges_only_integrates() {
    let mut engine = OrdentEngine::new(4, 4);
    let a = engine.insert_node(node(100, 10));
    let b = engine.insert_node(node(7, 3));
    engine.active_nodes = vec![a];
    assert_eq!(engine.begin_tick(16), Ok(TickStage::Settled));
    assert_eq!(engine.node(a), Some(node(260, 10)));
    // Not active: unchanged.
    assert_eq!(engine.node(b), Some(node(7, 3)));
}

#[test]
fn repeated_active_node_integrates_once_per_occurrence() {
    let mut engine = OrdentEngine::new(4, 4);
    let a = engine.insert_node(node(0, 5));
    engine.active_nodes = vec![a, a, a];
    assert_eq!(engine.begin_tick(2), Ok(TickStage::Settled));
    assert_eq!(engine.node(a), Some(node(30, 5)));
}

#[test]
fn integration_wraps_around_the_circle() {
    let mut engine = OrdentEngine::new(1, 1);
    let a = engine.insert_node(node(u32::MAX - 5, 3));
    engine.active_nodes = vec![a];
    assert_eq!(engine.begin_tick(4), Ok(TickStage::Settled));
    assert_eq!(engine.node(a), Some(node(6, 3)));
}

#[test]
fn two_ticks_equal_one_tick_of_the_summed_step() {
    let mut e1 = OrdentEngine::new(1, 1);
    let a1 = e1.insert_node(node(9, 1_000_003));
    e1.active_nodes = vec![a1];
    e1.begin_tick(7_000).unwrap();
    e1.begin_tick(u32::MAX - 10).unwrap();

    let mut e2 = OrdentEngine::new(1, 1);
    let a2 = e2.insert_node(node(9, 1_000_003));
    e2.active_nodes = vec![a2];
    e2.begin_tick(7_000u32.wrapping_add(u32::MAX - 10)).unwrap();
    assert_eq!(e1.node(a1), e2.node(a2));
}

#[test]
fn zero_step_without_edges_changes_nothing() {
    let mut engine = OrdentEngine::new(1, 1);
    let a = engine.insert_node(node(42, 99));
    engine.active_nodes = vec![a];
    assert_eq!(engine.begin_tick(0), Ok(TickStage::Settled));
    assert_eq!(engine.node(a), Some(node(42, 99)));
}

#[test]
fn unknown_active_node_stops_integration_there() {
    let mut other = OrdentEngine::new(1, 1);
    for _ in 0..5 {
        other.insert_node(node(0, 0));
    }
    let foreign = other.insert_node(node(0, 0));
    let mut engine = OrdentEngine::new(1, 1);
    let a = engine.insert_node(node(1, 1));
    let b = engine.insert_node(node(1, 1));
    engine.active_nodes = vec![a, foreign, b];
    assert_eq!(engine.begin_tick(5), Err(TickError::UnknownActiveNode));
    // Entries before the unknown one were integrated, the rest not.
    assert_eq!(engine.node(a), Some(node(6, 1)));
    assert_eq!(engine.node(b), Some(node(1, 1)));
}

#[test]
fn wraparound_lag_is_gathered() {
    let (mut engine, _n0, n1) = two_node_engine(u32::MAX - 100_000, 100_000);
    assert_eq!(engine.begin_tick(16), Ok(TickStage::Gathered));
    assert_eq!(engine.phase_lags()[0], -200_001);
    // The attraction is negative: a negative force carries n1 across zero.
    let force = (-150_000i32) as u32;
    assert_eq!(engine.finish_tick(&[force]), Ok(()));
    assert!(engine.node(n1).unwrap().theta > u32::MAX / 2);
}

#[test]
fn lag_at_opposite_phases_is_gathered() {
    let (mut engine, _n0, _n1) = two_node_engine(u32::MAX / 2, 0);
    assert_eq!(engine.begin_tick(0), Ok(TickStage::Gathered));
    assert_eq!(engine.phase_lags()[0], i32::MAX);
}

#[test]
fn gather_uses_integrated_phases() {
    let mut engine = OrdentEngine::new(1, 1);
    let src = engine.insert_node(node(1000, 10));
    let dst = engine.insert_node(node(0, 0));
    engine.active_nodes = vec![src, dst];
    engine.target_nodes = vec![dst];
    engine.edge_offsets = vec![0];
    engine.edge_counts = vec![1];
    engine.edge_sources = vec![src];
    assert_eq!(engine.begin_tick(5), Ok(TickStage::Gathered));
    assert_eq!(engine.phase_lags()[0], 1050);
}

#[test]
fn csr_rows_with_several_sources_and_an_isolated_target() {
    let mut engine = OrdentEngine::new(10, 10);
    let n0 = engine.insert_node(node(u32::MAX / 4, 0));
    let n1 = engine.insert_node(node(u32::MAX / 4, 0));
    let n2 = engine.insert_node(node(0, 0));
    let n3 = engine.insert_node(node(0, 0));
    engine.active_nodes = vec![n0, n1, n2, n3];
    engine.target_nodes = vec![n2, n3];
    engine.edge_offsets = vec![0, 2];
    engine.edge_counts = vec![2, 0];
    engine.edge_sources = vec![n0, n1];
    assert_eq!(engine.begin_tick(0), Ok(TickStage::Gathered));
    let lags = engine.phase_lags();
    assert_eq!(lags[0], 1_073_741_823);
    assert_eq!(lags[1], 1_073_741_823);
    // The reduced forces: two for n2, none (zero) for the isolated n3.
    assert_eq!(engine.finish_tick(&[1000, 0]), Ok(()));
    assert_eq!(engine.node(n2), Some(node(1000, 0)));
    assert_eq!(engine.node(n3), Some(node(0, 0)));
    assert_eq!(engine.node(n0), Some(node(u32::MAX / 4, 0)));
}

#[test]
fn lags_beyond_the_gathered_edges_keep_their_values() {
    let mut engine = OrdentEngine::new(3, 3);
    let a = engine.insert_node(node(10, 0));
    let b = engine.insert_node(node(0, 0));
    engine.target_nodes = vec![b];
    engine.edge_offsets = vec![0];
    engine.edge_counts = vec![2];
    engine.edge_sources = vec![a, a];
    assert_eq!(engine.begin_tick(0), Ok(TickStage::Gathered));
    assert_eq!(engine.phase_lags(), &vec![10, 10, 0]);
    // Only the first source is counted now: the second lag stays as it was.
    engine.edge_counts = vec![1];
    engine.edge_sources = vec![b, a];
    assert_eq!(engine.begin_tick(0), Ok(TickStage::Gathered));
    assert_eq!(engine.phase_lags(), &vec![0, 10, 0]);
}

#[test]
fn rotated_phases_gather_the_same_lags() {
    let shift = 2_500_000_000u32;
    let (mut e1, _, _) = two_node_engine(1_000, 4_000_000_000);
    let (mut e2, _, _) = two_node_engine(1_000u32.wrapping_add(shift), 4_000_000_000u32.wrapping_add(shift));
    assert_eq!(e1.begin_tick(0), Ok(TickStage::Gathered));
    assert_eq!(e2.begin_tick(0), Ok(TickStage::Gathered));
    assert_eq!(e1.phase_lags()[0], e2.phase_lags()[0]);
}

#[test]
fn too_many_edges_is_refused() {
    let mut engine = OrdentEngine::new(1, 4);
    let a = engine.insert_node(node(3, 1));
    let b = engine.insert_node(node(0, 0));
    engine.active_nodes = vec![a];
    engine.target_nodes = vec![b];
    engine.edge_offsets = vec![0];
    engine.edge_counts = vec![2];
    engine.edge_sources = vec![a, a];
    assert_eq!(engine.phase_lags(), &vec![0]);
    assert_eq!(engine.begin_tick(1), Err(TickError::EdgeCapacityExceeded));
    // The integration is done before the capacity is checked, and kept.
    assert_eq!(engine.node(a), Some(node(4, 1)));
    assert_eq!(engine.phase_lags(), &vec![0]);
}

#[test]
fn too_many_targets_is_refused() {
    let mut engine = OrdentEngine::new(4, 1);
    let a = engine.insert_node(node(0, 0));
    let b = engine.insert_node(node(0, 0));
    engine.target_nodes = vec![a, b];
    engine.edge_offsets = vec![0, 1];
    engine.edge_counts = vec![1, 0];
    engine.edge_sources = vec![b];
    engine.active_nodes = vec![a];
    engine.set_node(a, node(10, 2));
    assert_eq!(engine.begin_tick(3), Err(TickError::TargetCapacityExceeded));
    assert_eq!(engine.node(a), Some(node(16, 2)));
}

#[test]
fn without_edges_no_capacity_is_checked() {
    let mut engine = OrdentEngine::new(0, 0);
    let a = engine.insert_node(node(0, 0));
    let b = engine.insert_node(node(0, 0));
    engine.target_nodes = vec![a, b];
    assert_eq!(engine.begin_tick(0), Ok(TickStage::Settled));
}

#[test]
fn missing_offsets_are_a_malformed_topology() {
    let (mut engine, _, _) = two_node_engine(0, 0);
    engine.edge_offsets = vec![];
    let n0 = engine.active_nodes[0];
    engine.set_node(n0, node(0, 7));
    assert_eq!(engine.begin_tick(2), Err(TickError::MalformedTopology));
    assert_eq!(engine.node(n0), Some(node(14, 7)));
}

#[test]
fn counts_beyond_the_sources_are_a_malformed_topology() {
    let (mut engine, _, _) = two_node_engine(0, 0);
    engine.edge_counts = vec![2];
    assert_eq!(engine.begin_tick(0), Err(TickError::MalformedTopology));
}

#[test]
fn offset_beyond_the_sources_is_a_malformed_topology() {
    let (mut engine, _, _) = two_node_engine(0, 0);
    engine.edge_offsets = vec![1];
    assert_eq!(engine.begin_tick(0), Err(TickError::MalformedTopology));
}

#[test]
fn unknown_source_is_a_malformed_topology() {
    let mut other = OrdentEngine::new(1, 1);
    for _ in 0..5 {
        other.insert_node(node(0, 0));
    }
    let foreign = other.insert_node(node(0, 0));
    let (mut engine, _, _) = two_node_engine(0, 0);
    engine.edge_sources = vec![foreign];
    assert_eq!(engine.begin_tick(0), Err(TickError::MalformedTopology));
}

#[test]
fn force_count_must_match_targets() {
    let (mut engine, _, n1) = two_node_engine(0, 5);
    assert_eq!(engine.finish_tick(&[1, 2]), Err(TickError::ForceCountMismatch));
    assert_eq!(engine.node(n1), Some(node(5, 0)));
}

#[test]
fn aliased_targets_are_refused() {
    let (mut engine, _, n1) = two_node_engine(0, 5);
    engine.target_nodes = vec![n1, n1];
    assert_eq!(engine.finish_tick(&[1, 2]), Err(TickError::AliasedTargets));
    assert_eq!(engine.node(n1), Some(node(5, 0)));
}

#[test]
fn unknown_target_is_refused() {
    let mut other = OrdentEngine::new(1, 1);
    for _ in 0..5 {
        other.insert_node(node(0, 0));
    }
    let foreign = other.insert_node(node(0, 0));
    let (mut engine, _, n1) = two_node_engine(0, 5);
    engine.target_nodes = vec![n1, foreign];
    assert_eq!(engine.finish_tick(&[1, 2]), Err(TickError::UnknownTarget));
    assert_eq!(engine.node(n1), Some(node(5, 0)));
}

#[test]
fn forces_go_to_their_own_targets_in_any_order() {
    let mut engine = OrdentEngine::new(4, 4);
    let a = engine.insert_node(node(0, 0));
    let b = engine.insert_node(node(0, 0));
    let c = engine.insert_node(node(0, 0));
    engine.target_nodes = vec![c, a];
    assert_eq!(engine.finish_tick(&[30, 10]), Ok(()));
    assert_eq!(engine.node(a), Some(node(10, 0)));
    assert_eq!(engine.node(b), Some(node(0, 0)));
    assert_eq!(engine.node(c), Some(node(30, 0)));
}

#[test]
fn opposite_forces_cancel() {
    let mut engine = OrdentEngine::new(4, 4);
    let a = engine.insert_node(node(17, 2));
    let b = engine.insert_node(node(u32::MAX, 0));
    engine.target_nodes = vec![a, b];
    let forces = [5u32, 4_000_000_000];
    let opposite = [forces[0].wrapping_neg(), forces[1].wrapping_neg()];
    assert_eq!(engine.finish_tick(&forces), Ok(()));
    assert_eq!(engine.finish_tick(&opposite), Ok(()));
    assert_eq!(engine.node(a), Some(node(17, 2)));
    assert_eq!(engine.node(b), Some(node(u32::MAX, 0)));
}

#[test]
fn set_node_replaces_a_live_node_only() {
    let mut engine = OrdentEngine::new(1, 1);
    let a = engine.insert_node(node(1, 2));
    let b = engine.insert_node(node(3, 4));
    assert!(engine.set_node(a, node(9, 9)));
    assert_eq!(engine.node(a), Some(node(9, 9)));
    assert_eq!(engine.node(b), Some(node(3, 4)));

    let mut other = OrdentEngine::new(1, 1);
    for _ in 0..5 {
        other.insert_node(node(0, 0));
    }
    let foreign = other.insert_node(node(0, 0));
    assert!(!engine.set_node(foreign, node(5, 5)));
    assert_eq!(engine.node(foreign), None);
}

#[test]
fn large_chain_of_ten_thousand_nodes() {
    let num_nodes = 10_000usize;
    let mut engine = OrdentEngine::new(num_nodes, num_nodes);
    let mut nodes = Vec::with_capacity(num_nodes);
    for i in 0..num_nodes {
        nodes.push(engine.insert_node(node((i as u32).wrapping_mul(1000), 100)));
    }
    engine.active_nodes.clone_from(&nodes);
    // Node[i] is influenced by node[i - 1].
    for i in 1..num_nodes {
        engine.target_nodes.push(nodes[i]);
        engine.edge_offsets.push((i - 1) as u32);
        engine.edge_counts.push(1);
        engine.edge_sources.push(nodes[i - 1]);
    }
    let mut forces = vec![0u32; num_nodes - 1];
    for tick in 0..101u32 {
        let dt = if tick == 0 { 0 } else { 10 };
        assert_eq!(engine.begin_tick(dt), Ok(TickStage::Gathered));
        let lags = engine.phase_lags();
        for i in 0..num_nodes - 1 {
            forces[i] = (lags[i] / 2) as u32;
        }
        assert_eq!(engine.finish_tick(&forces), Ok(()));
    }
    assert_eq!(engine.target_nodes.len(), num_nodes - 1);
    // The head of the chain has no source: it only integrates.
    assert_eq!(engine.node(nodes[0]), Some(node(100 * 10 * 100, 100)));
}

#[test]
fn set_topology_replaces_the_topology_only() {
    let mut engine = OrdentEngine::new(3, 3);
    let a = engine.insert_node(node(10, 1));
    let b = engine.insert_node(node(0, 0));
    engine.set_topology(vec![a, b], vec![b], vec![0], vec![1], vec![a]);
    assert_eq!(engine.active_nodes, vec![a, b]);
    assert_eq!(engine.target_nodes, vec![b]);
    assert_eq!(engine.edge_offsets, vec![0]);
    assert_eq!(engine.edge_counts, vec![1]);
    assert_eq!(engine.edge_sources, vec![a]);
    assert_eq!(engine.node(a), Some(node(10, 1)));
    assert_eq!(engine.begin_tick(2), Ok(TickStage::Gathered));
    assert_eq!(engine.phase_lags(), &vec![12, 0, 0]);
}
