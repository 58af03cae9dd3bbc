use arb_solver::csr::GraphCSR;
use arb_solver::error::Error;
use arb_solver::pipeline::{search_snapshot, SearchOutcome};
use arb_solver::solver::SPFASolver;
use arb_solver::traits::GraphSolver;
use arb_solver::types::{Edge, WeightedCycle, WEIGHT_SCALE};

fn w(rate: f64) -> i64 {
    (-rate.ln() * WEIGHT_SCALE as f64).round() as i64
}

fn build_graph(edges: &mut [Edge], num_nodes: usize) -> GraphCSR {
    let limit = edges.len();
    GraphCSR::from_edges(num_nodes, edges, limit)
}

fn assert_closed_walk(cycle: &WeightedCycle) {
    let p = &cycle.path;
    assert!(!p.is_empty());
    for j in 0..p.len() - 1 {
        assert_eq!(p[j].1, p[j + 1].0);
    }
    assert_eq!(p[p.len() - 1].1, p[0].0);
    let sum: i128 = p.iter().map(|e| e.2 as i128).sum();
    assert_eq!(sum, cycle.log_rate_sum);
    for a in 0..p.len() {
        for b in a + 1..p.len() {
            assert_ne!(p[a], p[b]);
        }
    }
}

#[test]
fn reconstruct_cycle_small_graph() {
    let mut edges: Vec<Edge> = vec![(0, 1, w(1.0)), (1, 2, w(0.5)), (2, 0, w(0.5))];
    let graph = build_graph(&mut edges, 3);

    let pred_edge_idx = vec![Some(2), Some(0), Some(1)];
    let solver = SPFASolver;
    let cycle = solver.reconstruct_cycle(0, &pred_edge_idx, &graph).unwrap();

    assert_eq!(cycle.path.len(), 3);
    assert_eq!(cycle.path[0], (0, 1, w(1.0)));
}

#[test]
fn reconstruct_cycle_errors() {
    let mut edges: Vec<Edge> = vec![(0, 1, w(1.0)), (1, 2, w(0.5)), (2, 0, w(0.5))];
    let graph = build_graph(&mut edges, 3);
    let solver = SPFASolver;

    let broken = vec![Some(2), None, Some(1)];
    assert!(matches!(solver.reconstruct_cycle(0, &broken, &graph), Err(Error::CycleReconstructionFailed)));

    let out_of_range = vec![Some(7), Some(0), Some(1)];
    assert!(matches!(solver.reconstruct_cycle(0, &out_of_range, &graph), Err(Error::InvalidGraph)));

    let preds = vec![Some(2), Some(0), Some(1)];
    assert!(matches!(solver.reconstruct_cycle(3, &preds, &graph), Err(Error::InvalidGraph)));
}

#[test]
fn reconstruct_cycle_from_a_node_leading_into_the_cycle() {
    // 3 -> 0 feeds the cycle 0 -> 1 -> 0; node 3's predecessor chain enters the cycle.
    let mut edges: Vec<Edge> = vec![(0, 1, -5), (1, 0, -7), (3, 0, 2), (0, 3, 1)];
    let graph = build_graph(&mut edges, 4);
    // Edge indices: 0: (0,1), 1: (0,3), 2: (1,0), 3: (3,0).
    let preds = vec![Some(2), Some(0), None, Some(1)];
    let cycle = SPFASolver.reconstruct_cycle(3, &preds, &graph).unwrap();
    assert_closed_walk(&cycle);
    assert_eq!(cycle.path.len(), 2);
    assert_eq!(cycle.log_rate_sum, -12);
}

#[test]
fn spfa_detects_simple_negative_cycle() {
    let mut edges: Vec<Edge> = vec![(1, 0, w(2.0)), (0, 1, w(2.0))];
    let graph = build_graph(&mut edges, 2);

    let solver = SPFASolver;

    let cycle = solver.find_profitable_cycle(&graph, 0, 2).unwrap();
    assert!(cycle.is_some());

    let cycle = cycle.unwrap();
    assert_eq!(cycle.path, vec![(1, 0, w(2.0)), (0, 1, w(2.0))]);
    assert!(cycle.log_rate_sum < 0);
    assert_eq!(cycle.log_rate_sum, 2 * w(2.0) as i128);
}

#[test]
fn spfa_no_negative_cycle_returns_none() {
    let mut edges: Vec<Edge> = vec![(0, 1, w(1.0)), (1, 2, w(1.2)), (2, 3, w(1.2))];
    let graph = build_graph(&mut edges, 4);
    let solver = SPFASolver;

    let cycle = solver.find_profitable_cycle(&graph, 0, 4).unwrap();
    assert!(cycle.is_none());
}

#[test]
fn spfa_single_node_graph() {
    let graph = build_graph(&mut [], 1);
    let solver = SPFASolver;

    let cycle = solver.find_profitable_cycle(&graph, 0, 1).unwrap();
    assert!(cycle.is_none());
}

#[test]
fn spfa_empty_graph_returns_error() {
    let graph = build_graph(&mut [], 0);
    let solver = SPFASolver;

    let result = solver.find_profitable_cycle(&graph, 0, 1);
    assert!(result.is_err());
    assert!(matches!(result, Err(Error::NodeIndexOutOfBounds(0))));
}

#[test]
fn spfa_large_linear_graph_no_cycle() {
    let n = 1000;
    let mut edges: Vec<Edge> = (0..n - 1).map(|i| (i, i + 1, w(1.0))).collect();
    let graph = build_graph(&mut edges, n);
    let solver = SPFASolver;

    let cycle = solver.find_profitable_cycle(&graph, 0, n).unwrap();
    assert!(cycle.is_none());
}

#[test]
fn spfa_large_circular_graph_negative_cycle() {
    let n = 1000;
    let mut edges: Vec<Edge> = (0..n)
        .map(|i| {
            let next = (i + 1) % n;
            let rate = 1.001;
            (i, next, w(rate))
        })
        .collect();

    let graph = build_graph(&mut edges, n);

    let solver = SPFASolver;
    let cycle = solver.find_profitable_cycle(&graph, 0, n + 1).unwrap();
    assert!(cycle.is_some());
    let cycle = cycle.unwrap();
    assert!(cycle.log_rate_sum < 0);
    assert!(cycle.path.len() <= n);
    assert_eq!(cycle.path.len(), n);
    assert!(cycle.path.iter().all(|e| e.2 == w(1.001)));
    assert_closed_walk(&cycle);
}

#[test]
fn spfa_detects_arbitrage_in_disconnected_component() {
    let mut edges: Vec<Edge> = vec![
        (0, 1, w(1.0)),
        (1, 2, w(0.5)),
        (2, 0, w(0.5)),
        (3, 4, w(1.0)),
        (4, 3, w(1.1)),
    ];
    let graph = build_graph(&mut edges, 5);

    let solver = SPFASolver;

    let cycle_option = solver
        .find_profitable_cycle(&graph, 0, 5)
        .expect("SPFA execution returned an unexpected error.");

    assert!(
        cycle_option.is_some(),
        "SPFA failed to detect the guaranteed arbitrage cycle (nodes 3-4-3)."
    );

    let cycle = cycle_option.unwrap();

    assert!(
        cycle.is_profitable(),
        "The found cycle must be financially profitable (Product > 1.0)."
    );
    assert!(
        cycle.log_rate_sum < 0,
        "The log sum must be negative (Negative Cycle proof)."
    );

    let nodes_in_cycle: Vec<usize> = cycle.path.iter().map(|(u, _, _)| *u).collect();

    assert!(
        nodes_in_cycle.contains(&3),
        "The cycle path must originate from node 3 (part of the profitable cycle)."
    );
    assert!(
        nodes_in_cycle.contains(&4),
        "The cycle path must originate from node 4 (part of the profitable cycle)."
    );
}

#[test]
fn spfa_disconnected_graph_detects_cycle_only_in_component() {
    let mut edges: Vec<Edge> = vec![
        (0, 1, w(1.0)),
        (1, 0, w(1.0)),
        (2, 3, w(0.5)),
        (3, 2, w(2.1)),
    ];
    let graph = build_graph(&mut edges, 4);
    let solver = SPFASolver;

    let cycle_option = solver.find_profitable_cycle(&graph, 0, 4).unwrap();

    assert!(
        cycle_option.is_some(),
        "SPFA failed to detect the guaranteed arbitrage cycle (nodes 2-3-2)."
    );

    let cycle = cycle_option.unwrap();

    assert_eq!(cycle.path.len(), 2, "The profitable cycle must be 2 edges long.");
    assert!(cycle.is_profitable(), "The detected cycle must be financially profitable.");

    let nodes: Vec<usize> = cycle.path.iter().map(|(u, _, _)| *u).collect();
    assert!(
        nodes.contains(&2) && nodes.contains(&3),
        "The cycle path must include nodes 2 and 3."
    );
}

#[test]
fn spfa_random_negative_cycle_large_graph() {
    let n = 50;
    let mut edges: Vec<Edge> = (0..n - 1).map(|i| (i, i + 1, w(1.0))).collect();

    edges.push((n - 1, n - 2, w(0.5)));
    edges.push((n - 2, n - 1, w(2.1)));

    let graph = build_graph(&mut edges, n);
    let solver = SPFASolver;

    let cycle_option = solver.find_profitable_cycle(&graph, n - 1, n).unwrap();

    assert!(cycle_option.is_some(), "SPFA failed to find the guaranteed profitable cycle.");

    let cycle = cycle_option.unwrap();

    assert!(cycle.log_rate_sum < 0, "The detected cycle must have a negative weight sum.");
}

#[test]
fn spfa_chain_with_multiple_negative_cycles() {
    let mut edges: Vec<Edge> = vec![
        (0, 1, w(0.5)),
        (1, 0, w(2.1)),
        (1, 2, w(1.0)),
        (2, 3, w(0.8)),
        (3, 2, w(0.7)),
    ];

    let graph = build_graph(&mut edges, 4);
    let solver = SPFASolver;

    let cycle_result = solver
        .find_profitable_cycle(&graph, 0, 4)
        .expect("SPFA execution returned an error.");

    assert!(
        cycle_result.is_some(),
        "SPFA failed to detect the guaranteed arbitrage cycle (0-1-0)."
    );

    let cycle = cycle_result.unwrap();

    assert_eq!(cycle.path.len(), 2, "The cycle length should be 2 edges.");

    assert!(cycle.log_rate_sum < 0, "The detected cycle must have a negative weight sum.");
}

#[test]
fn triangle_without_profit_has_no_cycle() {
    let mut edges: Vec<Edge> = vec![(0, 1, w(2.0)), (1, 2, w(0.5)), (2, 0, w(0.5))];
    let graph = build_graph(&mut edges, 3);
    assert!(SPFASolver.find_profitable_cycle(&graph, 0, 4).unwrap().is_none());
}

#[test]
fn all_unit_rates_give_no_cycle_from_any_source() {
    let mut edges: Vec<Edge> = vec![(0, 1, w(1.0)), (1, 2, w(1.0)), (2, 0, w(1.0)), (2, 1, w(1.0))];
    let graph = build_graph(&mut edges, 3);
    for source in 0..3 {
        assert!(SPFASolver.find_profitable_cycle(&graph, source, 4).unwrap().is_none());
    }
    assert!(matches!(
        SPFASolver.find_profitable_cycle(&graph, 3, 4),
        Err(Error::NodeIndexOutOfBounds(3))
    ));
}

#[test]
fn cycle_in_other_component_found_from_every_source() {
    let mut edges: Vec<Edge> = vec![(0, 1, w(1.0)), (1, 2, w(0.5)), (2, 0, w(0.5)), (3, 4, w(1.0)), (4, 3, w(1.1))];
    let graph = build_graph(&mut edges, 5);
    for source in 0..5 {
        let cycle = SPFASolver.find_profitable_cycle(&graph, source, 6).unwrap().unwrap();
        assert_closed_walk(&cycle);
        assert!(cycle.log_rate_sum < 0);
    }
}

#[test]
fn low_relaxation_cap_does_not_fail() {
    // A single profitable edge is relaxed once; no cycle exists whatever the cap.
    let mut edges: Vec<Edge> = vec![(0, 1, w(2.0))];
    let graph = build_graph(&mut edges, 2);
    for cap in 0..4 {
        assert!(SPFASolver.find_profitable_cycle(&graph, 0, cap).unwrap().is_none());
    }
}

#[test]
fn repeated_improvements_without_a_cycle_give_none() {
    // Node 3 improves more often than the node count; its predecessor chain
    // still ends at node 2, and the graph has no cycle at all.
    let mut edges: Vec<Edge> = vec![(0, 3, -1), (1, 0, -10), (1, 3, -2), (2, 1, -100), (2, 3, -3)];
    let graph = build_graph(&mut edges, 4);
    for source in 0..4 {
        assert!(SPFASolver.find_profitable_cycle(&graph, source, 5).unwrap().is_none());
    }
}

#[test]
fn returned_cycles_are_simple() {
    let mut edges: Vec<Edge> = vec![
        (0, 1, -5),
        (1, 2, 1),
        (2, 0, 1),
        (2, 3, -4),
        (3, 1, 2),
        (3, 4, 0),
        (4, 0, -1),
    ];
    let graph = build_graph(&mut edges, 5);
    let cycle = SPFASolver.find_profitable_cycle(&graph, 2, 6).unwrap().unwrap();
    assert_closed_walk(&cycle);
    assert!(cycle.log_rate_sum < 0);
}

#[test]
fn search_snapshot_outcomes() {
    let small = build_graph(&mut [], 1);
    assert!(matches!(search_snapshot(&SPFASolver, &small), SearchOutcome::GraphTooSmall));

    let mut flip: Vec<Edge> = vec![(0, 1, w(2.0)), (1, 0, w(2.0))];
    let graph = build_graph(&mut flip, 2);
    match search_snapshot(&SPFASolver, &graph) {
        SearchOutcome::Found(cycle) => {
            assert_eq!(cycle.path.len(), 2);
            assert_closed_walk(&cycle);
            assert_eq!(cycle.log_rate_sum, 2 * w(2.0) as i128);
        }
        _ => panic!("expected a profitable cycle"),
    }

    let mut triangle: Vec<Edge> = vec![(0, 1, w(2.0)), (1, 2, w(0.5)), (2, 0, w(0.5))];
    let graph = build_graph(&mut triangle, 3);
    assert!(matches!(search_snapshot(&SPFASolver, &graph), SearchOutcome::NoCycle));

    let mut chain: Vec<Edge> = vec![(0, 3, -1), (1, 0, -10), (1, 3, -2), (2, 1, -100), (2, 3, -3)];
    let graph = build_graph(&mut chain, 4);
    assert!(matches!(search_snapshot(&SPFASolver, &graph), SearchOutcome::NoCycle));
}

#[test]
fn profitability_follows_the_weight_sum() {
    let gain = WeightedCycle { path: vec![(0, 1, -3), (1, 0, 1)], log_rate_sum: -2 };
    let even = WeightedCycle { path: vec![(0, 1, -3), (1, 0, 3)], log_rate_sum: 0 };
    assert!(gain.is_profitable());
    assert!(!even.is_profitable());
}
