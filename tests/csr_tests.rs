use arb_solver::csr::{AddEdgeResult, GraphCSR};
use arb_solver::error::Error;
use arb_solver::types::{Edge, WEIGHT_SCALE};

fn w(rate: f64) -> i64 {
    (-rate.ln() * WEIGHT_SCALE as f64).round() as i64
}

#[test]
fn from_edges_creates_correct_csr_for_small_graph() {
    let mut edges: Vec<Edge> = vec![(2, 1, w(0.99)), (0, 2, w(1.1)), (0, 1, w(0.9))];
    let csr = GraphCSR::from_edges(3, &mut edges, 3);

    assert_eq!(csr.node_pointers, vec![0, 2, 2, 3]);
    assert_eq!(csr.edge_targets, vec![2, 1, 1]);

    let expected_weights: Vec<i64> = edges.iter().map(|&(_, _, r)| r).collect();
    assert_eq!(csr.edge_weights, expected_weights);
    assert_eq!(csr.edge_weights, vec![w(1.1), w(0.9), w(0.99)]);
    assert_eq!(csr.num_nodes, 3);
    assert!(csr.pending_updates.is_empty());
    assert_eq!(csr.rebuild_limit, 3);
}

#[test]
fn node_with_no_outgoing_edges() {
    let mut edges: Vec<Edge> = vec![(0, 2, w(1.0))];
    let csr = GraphCSR::from_edges(3, &mut edges, 3);

    assert_eq!(csr.node_pointers, vec![0, 1, 1, 1]);
    assert_eq!(csr.edge_targets, vec![2]);
    assert_eq!(csr.edge_weights, vec![w(1.0)]);
}

#[test]
fn single_node_graph() {
    let csr = GraphCSR::from_edges(1, &mut [], 1);

    assert_eq!(csr.num_nodes, 1);
    assert_eq!(csr.node_pointers, vec![0, 0]);
    assert!(csr.edge_targets.is_empty());
}

#[test]
fn empty_graph() {
    let csr = GraphCSR::from_edges(0, &mut [], 1);

    assert_eq!(csr.num_nodes, 0);
    assert_eq!(csr.node_pointers, vec![0]);
    assert!(csr.edge_targets.is_empty());
}

#[test]
fn multiple_edges_from_same_node() {
    let mut edges: Vec<Edge> = vec![(0, 1, w(1.0)), (0, 2, w(2.0)), (0, 3, w(3.0))];
    let csr = GraphCSR::from_edges(4, &mut edges, 3);

    assert_eq!(csr.node_pointers, vec![0, 3, 3, 3, 3]);
    assert_eq!(csr.edge_targets, vec![1, 2, 3]);
}

#[test]
fn edge_weight_transformation() {
    let mut edges: Vec<Edge> = vec![(0, 1, w(0.5)), (1, 2, w(2.0)), (2, 0, w(1.5))];
    let csr = GraphCSR::from_edges(3, &mut edges, 3);

    let expected_weights: Vec<i64> = edges.iter().map(|&(_, _, r)| r).collect();
    assert_eq!(csr.edge_weights, expected_weights);
    assert_eq!(csr.edge_weights, vec![693147181, -693147181, -405465108]);
}

#[test]
fn rebuild_merges_pending_updates_correctly() {
    let mut csr = GraphCSR::from_edges(3, &mut [(0, 1, w(1.0)), (1, 2, w(1.5))], 2);

    csr.pending_updates = vec![(2, 0, w(2.0))];
    csr.rebuild();

    assert_eq!(csr.edge_targets.len(), 3);
    assert_eq!(csr.edge_targets.iter().sum::<usize>(), 0 + 1 + 2);

    assert!(csr.pending_updates.is_empty());
}

#[test]
fn rebuild_deduplicates_by_keeping_latest() {
    let mut csr = GraphCSR::from_edges(2, &mut [(0, 1, w(1.0))], 2);
    csr.pending_updates = vec![(0, 1, w(2.0))];
    csr.rebuild();

    assert_eq!(csr.edge_targets, vec![1]);
    assert_eq!(csr.edge_weights, vec![w(2.0)]);

    assert!(csr.pending_updates.is_empty());
}

#[test]
fn rebuild_is_idempotent_when_empty() {
    let csr_original = GraphCSR::from_edges(2, &mut [(0, 1, w(1.0))], 2);
    let mut csr = csr_original.clone();

    csr.rebuild();
    assert_eq!(csr.node_pointers, csr_original.node_pointers);
    assert_eq!(csr.edge_targets, csr_original.edge_targets);
    assert_eq!(csr.edge_weights, csr_original.edge_weights);
}

#[test]
fn rebuild_on_empty_graph() {
    let mut csr = GraphCSR::from_edges(0, &mut [], 1);
    csr.pending_updates = vec![(0, 1, w(1.0))];
    csr.rebuild();

    assert_eq!(csr.num_nodes, 2);
    assert_eq!(csr.edge_targets, vec![1]);
    assert_eq!(csr.node_pointers, vec![0, 1, 1]);
}

#[test]
fn rebuild_handles_large_graphs() {
    let mut edges: Vec<Edge> = (0..1000).map(|i| (i, (i + 1) % 1000, w(1.1))).collect();
    let mut csr = GraphCSR::from_edges(1000, &mut edges, 1000);

    csr.pending_updates = (0..1000).map(|i| (i, (i + 2) % 1000, w(1.2))).collect();
    csr.rebuild();

    assert_eq!(csr.num_nodes, 1000);
    assert_eq!(csr.edge_targets.len(), 2000);
}

#[test]
fn add_edges_does_not_trigger_rebuild_when_below_limit() {
    let mut edges: Vec<Edge> = vec![(0, 1, w(1.0))];
    let mut csr = GraphCSR::from_edges(2, &mut edges, 3);

    csr.add_edges(vec![(1, 0, w(2.0))]);

    assert_eq!(csr.pending_updates.len(), 1);
    assert_eq!(csr.edge_targets.len(), 1);
}

#[test]
fn add_edges_triggers_rebuild_when_limit_exceeded() {
    let mut edges: Vec<Edge> = vec![(0, 1, w(1.0))];
    let mut csr = GraphCSR::from_edges(2, &mut edges, 1);

    csr.add_edges(vec![(1, 0, w(2.0))]);

    assert!(csr.pending_updates.is_empty());
    assert_eq!(csr.edge_targets.len(), 2);
}

#[test]
fn rebuild_with_edges_does_not_touch_pending_buffer() {
    let mut csr = GraphCSR::from_edges(2, &mut [(0, 1, w(1.0))], 2);

    csr.pending_updates = vec![(1, 0, w(0.5))];
    let pending_len_before = csr.pending_updates.len();

    let rebuild_data = vec![(0, 1, w(2.0))];

    csr.rebuild_with_edges(rebuild_data);

    assert_eq!(csr.edge_weights.len(), 1);
    assert_eq!(csr.edge_weights[0], w(2.0));

    assert_eq!(csr.pending_updates.len(), pending_len_before);
    assert_eq!(csr.pending_updates, vec![(1, 0, w(0.5))]);
}

#[test]
fn extract_data_and_rebuild_leaves_buffer_empty() {
    let mut csr = GraphCSR::from_edges(2, &mut [(0, 1, w(1.0))], 1);
    let updates = vec![(1, 0, w(2.0))];

    let result = csr.add_edges_and_extract_data(updates);

    assert!(csr.pending_updates.is_empty());

    let extracted_edges = match result {
        AddEdgeResult::RebuildNeeded(edges) => edges,
        _ => panic!("Expected RebuildNeeded result"),
    };

    csr.rebuild_with_edges(extracted_edges);

    assert_eq!(csr.edge_targets.len(), 2);
}

#[test]
fn add_edges_and_extract_below_limit_keeps_buffer() {
    let mut csr = GraphCSR::from_edges(2, &mut [(0, 1, w(1.0))], 3);
    let result = csr.add_edges_and_extract_data(vec![(1, 0, 5)]);
    assert!(matches!(result, AddEdgeResult::Success));
    let result = csr.add_edges_and_extract_data(vec![(0, 1, 6)]);
    assert!(matches!(result, AddEdgeResult::Success));
    assert_eq!(csr.pending_updates, vec![(1, 0, 5), (0, 1, 6)]);
    let result = csr.add_edges_and_extract_data(vec![(1, 1, 7)]);
    match result {
        AddEdgeResult::RebuildNeeded(edges) => assert_eq!(edges, vec![(1, 0, 5), (0, 1, 6), (1, 1, 7)]),
        AddEdgeResult::Success => panic!("the buffer reached its limit"),
    }
    assert!(csr.pending_updates.is_empty());
    assert_eq!(csr.edge_targets, vec![1]);
}

#[test]
fn from_edges_keeps_last_upsert_of_duplicates() {
    let mut edges: Vec<Edge> = vec![(1, 0, 10), (0, 1, 20), (1, 0, 30), (0, 2, 40), (0, 1, 50)];
    let csr = GraphCSR::from_edges(3, &mut edges, 4);
    assert_eq!(edges, vec![(0, 1, 20), (0, 2, 40), (0, 1, 50), (1, 0, 10), (1, 0, 30)]);
    assert_eq!(csr.node_pointers, vec![0, 2, 3, 3]);
    assert_eq!(csr.edge_targets, vec![2, 1, 0]);
    assert_eq!(csr.edge_weights, vec![40, 50, 30]);
    assert_eq!(csr.edge_source_by_index, vec![0, 0, 1]);
}

#[test]
fn rebuild_orders_blocks_and_applies_later_upserts() {
    let mut csr = GraphCSR::from_edges(4, &mut [(0, 1, 1), (0, 3, 2), (2, 0, 3)], 10);
    csr.rebuild_with_edges(vec![(0, 2, 4), (2, 0, 5), (0, 1, 6), (2, 0, 7), (5, 4, 8)]);
    assert_eq!(csr.num_nodes, 6);
    assert_eq!(csr.node_pointers, vec![0, 3, 3, 4, 4, 4, 5]);
    assert_eq!(csr.edge_targets, vec![3, 2, 1, 0, 4]);
    assert_eq!(csr.edge_weights, vec![2, 4, 6, 7, 8]);
    assert_eq!(csr.edge_source_by_index, vec![0, 0, 0, 2, 5]);
}

#[test]
fn rebuild_shrinks_node_count_to_named_nodes() {
    let mut csr = GraphCSR::from_edges(10, &mut [(0, 1, 1)], 10);
    csr.rebuild();
    assert_eq!(csr.num_nodes, 2);
    assert_eq!(csr.node_pointers, vec![0, 1, 1]);
}

#[test]
fn edge_source_lookup() {
    let csr = GraphCSR::from_edges(3, &mut [(2, 0, 1), (0, 1, 2)], 2);
    assert_eq!(csr.get_edge_source_node(0).unwrap(), 0);
    assert_eq!(csr.get_edge_source_node(1).unwrap(), 2);
    assert!(matches!(csr.get_edge_source_node(2), Err(Error::InvalidGraph)));
}

#[test]
fn every_index_lies_in_its_source_block() {
    let mut edges: Vec<Edge> = vec![(3, 1, 1), (1, 2, 2), (3, 0, 3), (0, 3, 4), (1, 0, 5)];
    let csr = GraphCSR::from_edges(4, &mut edges, 5);
    for i in 0..csr.edge_targets.len() {
        for u in 0..csr.num_nodes {
            let in_block = csr.node_pointers[u] <= i && i < csr.node_pointers[u + 1];
            assert_eq!(csr.edge_source_by_index[i] == u, in_block);
        }
    }
}
