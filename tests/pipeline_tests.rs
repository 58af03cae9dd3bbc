use arb_solver::config::SearcherConfig;
use arb_solver::error::Error;
use arb_solver::pipeline::BatchBuffer;
use arb_solver::streams::{CsvStreamer, DataSource, SimulatorStreamer};
use arb_solver::types::Edge;

#[test]
fn test_simulator_creation() {
    let sim = SimulatorStreamer {
        total_nodes: 10,
        batch_size: 5,
    };
    assert_eq!(sim.total_nodes, 10);
    assert_eq!(sim.batch_size, 5);
}

#[test]
fn csv_streamer_batches_in_order() {
    let streamer = CsvStreamer::new("edges.csv".to_string(), 2);
    assert_eq!(streamer.path(), "edges.csv");
    assert_eq!(streamer.batch_size(), 2);
    let edges: Vec<Edge> = vec![(0, 1, 1), (1, 2, 2), (2, 0, 3), (5, 6, 4), (6, 5, 5)];
    let batches = streamer.into_batches(edges);
    assert_eq!(batches, vec![vec![(0, 1, 1), (1, 2, 2)], vec![(2, 0, 3), (5, 6, 4)], vec![(6, 5, 5)]]);
    let exact = streamer.into_batches(vec![(0, 1, 1), (1, 0, 2)]);
    assert_eq!(exact, vec![vec![(0, 1, 1), (1, 0, 2)]]);
    assert!(streamer.into_batches(Vec::new()).is_empty());
}

#[test]
fn batch_buffer_signals_flush_at_capacity() {
    let mut buffer = BatchBuffer::new(3);
    assert!(buffer.is_empty());
    assert!(!buffer.push_batch(vec![(0, 1, 1), (1, 0, 2)]));
    assert!(buffer.push_batch(vec![(1, 2, 3), (2, 1, 4)]));
    assert_eq!(buffer.take(), vec![(0, 1, 1), (1, 0, 2), (1, 2, 3), (2, 1, 4)]);
    assert!(buffer.is_empty());
    assert!(buffer.push_batch(vec![(0, 1, 1), (1, 0, 2), (0, 2, 3)]));
}

#[test]
fn data_sources_and_settings() {
    let source = DataSource::CSV("rates.csv".to_string());
    match source {
        DataSource::CSV(path) => assert_eq!(path, "rates.csv"),
        DataSource::SIM => panic!("expected the CSV source"),
    }
    let config = SearcherConfig { interval_seconds: 5 };
    assert_eq!(config.interval_seconds, 5);
}

#[test]
fn error_messages() {
    assert_eq!(Error::InvalidGraph.message(), "Graph structure is invalid or inconsistent.");
    assert_eq!(Error::NodeIndexOutOfBounds(4).message(), "Node index is out of bounds.");
    assert_eq!(
        Error::CycleReconstructionFailed.message(),
        "Cycle path reconstruction failed due to broken predecessor chain."
    );
}
