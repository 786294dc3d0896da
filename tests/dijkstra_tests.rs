use bmssp_core::csr::CsrGraph;
use bmssp_core::dijkstra::{dijkstra_sssp, dijkstra_sssp_with_preds};
use bmssp_core::{BmsspError, INFINITY, NO_PREDECESSOR};

#[test]
fn test_single_edge() {
    let indptr = vec![0, 1, 1];
    let indices = vec![1];
    let graph = CsrGraph::new(2, indptr, indices).unwrap();
    let weights = vec![1u64];
    let dist = dijkstra_sssp(&graph, &weights, 0, None).unwrap();
    assert_eq!(dist[0], 0);
    assert_eq!(dist[1], 1);
}

#[test]
fn test_chain() {
    let indptr = vec![0, 1, 2, 2];
    let indices = vec![1, 2];
    let graph = CsrGraph::new(3, indptr, indices).unwrap();
    let weights = vec![1u64, 2];
    let dist = dijkstra_sssp(&graph, &weights, 0, None).unwrap();
    assert_eq!(dist[0], 0);
    assert_eq!(dist[1], 1);
    assert_eq!(dist[2], 3);
}

#[test]
fn test_small_grid() {
    let indptr = vec![0, 2, 3, 4, 4];
    let indices = vec![1, 2, 3, 3];
    let graph = CsrGraph::new(4, indptr, indices).unwrap();
    let weights = vec![1u64, 1, 1, 1];
    let dist = dijkstra_sssp(&graph, &weights, 0, None).unwrap();
    assert_eq!(dist[0], 0);
    assert_eq!(dist[1], 1);
    assert_eq!(dist[2], 1);
    assert_eq!(dist[3], 2);
}

#[test]
fn test_disconnected() {
    let indptr = vec![0, 1, 1, 1];
    let indices = vec![1];
    let graph = CsrGraph::new(3, indptr, indices).unwrap();
    let weights = vec![1u64];
    let dist = dijkstra_sssp(&graph, &weights, 0, None).unwrap();
    assert_eq!(dist[0], 0);
    assert_eq!(dist[1], 1);
    assert_eq!(dist[2], INFINITY);
}

#[test]
fn test_enabled_mask() {
    let indptr = vec![0, 1, 2, 2];
    let indices = vec![1, 2];
    let graph = CsrGraph::new(3, indptr, indices).unwrap();
    let weights = vec![1u64, 2];
    let enabled = vec![false, true];
    let dist = dijkstra_sssp(&graph, &weights, 0, Some(&enabled)).unwrap();
    assert_eq!(dist[0], 0);
    assert_eq!(dist[1], INFINITY);
    assert_eq!(dist[2], INFINITY);
}

#[test]
fn test_dijkstra_simple() {
    let indptr = vec![0, 1, 1];
    let indices = vec![1];
    let graph = CsrGraph::new(2, indptr, indices).unwrap();
    let weights = vec![1u64];
    let dist = dijkstra_sssp(&graph, &weights, 0, None).unwrap();
    assert_eq!(dist[0], 0);
    assert_eq!(dist[1], 1);
}

#[test]
fn test_dijkstra_chain() {
    let indptr = vec![0, 1, 2, 2];
    let indices = vec![1, 2];
    let graph = CsrGraph::new(3, indptr, indices).unwrap();
    let weights = vec![1u64, 2];
    let dist = dijkstra_sssp(&graph, &weights, 0, None).unwrap();
    assert_eq!(dist[0], 0);
    assert_eq!(dist[1], 1);
    assert_eq!(dist[2], 3);
}

#[test]
fn test_dijkstra_disconnected() {
    let indptr = vec![0, 1, 1, 1];
    let indices = vec![1];
    let graph = CsrGraph::new(3, indptr, indices).unwrap();
    let weights = vec![1u64];
    let dist = dijkstra_sssp(&graph, &weights, 0, None).unwrap();
    assert_eq!(dist[0], 0);
    assert_eq!(dist[1], 1);
    assert_eq!(dist[2], INFINITY);
}

#[test]
fn dijkstra_predecessors_on_two_equal_paths() {
    let graph = CsrGraph::new(3, vec![0, 2, 3, 3], vec![1, 2, 2]).unwrap();
    let (dist, pred) = dijkstra_sssp_with_preds(&graph, &[1, 2, 1], 0, None).unwrap();
    assert_eq!(dist, vec![0, 1, 2]);
    assert_eq!(pred[0], 0);
    assert_eq!(pred[1], 0);
    assert!(pred[2] == 0 || pred[2] == 1);
}

#[test]
fn dijkstra_zero_weight_cycle_terminates() {
    let graph = CsrGraph::new(3, vec![0, 1, 2, 3], vec![1, 2, 0]).unwrap();
    let (dist, pred) = dijkstra_sssp_with_preds(&graph, &[0, 0, 0], 1, None).unwrap();
    assert_eq!(dist, vec![0, 0, 0]);
    assert_eq!(pred, vec![2, 1, 1]);
}

#[test]
fn dijkstra_refuses_bad_arguments() {
    let graph = CsrGraph::new(2, vec![0, 1, 1], vec![1]).unwrap();
    assert!(matches!(dijkstra_sssp(&graph, &[1, 2], 0, None), Err(BmsspError::InvalidWeights(_))));
    assert!(matches!(
        dijkstra_sssp(&graph, &[1], 2, None),
        Err(BmsspError::InvalidSource { source: 2, num_vertices: 2 })
    ));
    assert!(matches!(
        dijkstra_sssp(&graph, &[1], 0, Some(&[true, false])),
        Err(BmsspError::InvalidEnabledMask { expected: 1, actual: 2 })
    ));
    let (_, pred) = dijkstra_sssp_with_preds(&graph, &[1], 1, None).unwrap();
    assert_eq!(pred, vec![NO_PREDECESSOR, 1]);
}
