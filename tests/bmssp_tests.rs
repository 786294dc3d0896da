use bmssp_core::csr::CsrGraph;
use bmssp_core::{
    bmssp_sssp, bmssp_sssp_with_preds, bmssp_sssp_with_preds_and_state, bmssp_sssp_with_state,
    BmsspError, BmsspState, INFINITY, NO_PREDECESSOR,
};

#[test]
fn bmssp_tests_test_bmssp_simple() {
    let indptr = vec![0, 1, 1];
    let indices = vec![1];
    let graph = CsrGraph::new(2, indptr, indices).unwrap();
    let weights = vec![1u64];
    let dist = bmssp_sssp(&graph, &weights, 0, None).unwrap();
    assert_eq!(dist[0], 0);
    assert_eq!(dist[1], 1);
}

#[test]
fn bmssp_tests_test_bmssp_with_preds() {
    let indptr = vec![0, 2, 3, 3];
    let indices = vec![1, 2, 2];
    let graph = CsrGraph::new(3, indptr, indices).unwrap();
    let weights = vec![1u64, 2, 1];
    let (dist, pred) = bmssp_sssp_with_preds(&graph, &weights, 0, None).unwrap();

    assert_eq!(dist[0], 0);
    assert_eq!(dist[1], 1);
    assert_eq!(dist[2], 2);

    assert_eq!(pred[0], 0);
    assert_eq!(pred[1], 0);
    assert!(pred[2] == 0 || pred[2] == 1);
}

#[test]
fn test_bmssp_chain() {
    let indptr = vec![0, 1, 2, 3, 3];
    let indices = vec![1, 2, 3];
    let graph = CsrGraph::new(4, indptr, indices).unwrap();
    let weights = vec![1u64, 2, 3];
    let dist = bmssp_sssp(&graph, &weights, 0, None).unwrap();

    assert_eq!(dist[0], 0);
    assert_eq!(dist[1], 1);
    assert_eq!(dist[2], 3);
    assert_eq!(dist[3], 6);
}

#[test]
fn test_bmssp_grid_2x2() {
    let indptr = vec![0, 2, 3, 4, 4];
    let indices = vec![1, 2, 3, 3];
    let graph = CsrGraph::new(4, indptr, indices).unwrap();
    let weights = vec![1u64, 1, 1, 1];
    let dist = bmssp_sssp(&graph, &weights, 0, None).unwrap();

    assert_eq!(dist[0], 0);
    assert_eq!(dist[1], 1);
    assert_eq!(dist[2], 1);
    assert_eq!(dist[3], 2);
}

#[test]
fn test_bmssp_disconnected() {
    let indptr = vec![0, 1, 1, 1];
    let indices = vec![1];
    let graph = CsrGraph::new(3, indptr, indices).unwrap();
    let weights = vec![1u64];
    let dist = bmssp_sssp(&graph, &weights, 0, None).unwrap();

    assert_eq!(dist[0], 0);
    assert_eq!(dist[1], 1);
    assert_eq!(dist[2], INFINITY);
}

#[test]
fn test_bmssp_enabled_mask() {
    let indptr = vec![0, 1, 2, 2];
    let indices = vec![1, 2];
    let graph = CsrGraph::new(3, indptr, indices).unwrap();
    let weights = vec![1u64, 2];
    let enabled = vec![false, true];
    let dist = bmssp_sssp(&graph, &weights, 0, Some(&enabled)).unwrap();

    assert_eq!(dist[0], 0);
    assert_eq!(dist[1], INFINITY);
    assert_eq!(dist[2], INFINITY);
}

#[test]
fn test_bmssp_cycle() {
    let indptr = vec![0, 1, 2, 3];
    let indices = vec![1, 2, 0];
    let graph = CsrGraph::new(3, indptr, indices).unwrap();
    let weights = vec![1u64, 1, 1];
    let dist = bmssp_sssp(&graph, &weights, 0, None).unwrap();

    assert_eq!(dist[0], 0);
    assert_eq!(dist[1], 1);
    assert_eq!(dist[2], 2);
}

#[test]
fn test_bmssp_multiple_paths() {
    let indptr = vec![0, 2, 3, 4, 4];
    let indices = vec![1, 2, 3, 3];
    let graph = CsrGraph::new(4, indptr, indices).unwrap();
    let weights = vec![1u64, 2, 2, 2];
    let dist = bmssp_sssp(&graph, &weights, 0, None).unwrap();

    assert_eq!(dist[0], 0);
    assert_eq!(dist[1], 1);
    assert_eq!(dist[2], 2);
    assert_eq!(dist[3], 3);
}

#[test]
fn test_bmssp_predecessor_path_reconstruction() {
    let indptr = vec![0, 1, 2, 3, 3];
    let indices = vec![1, 2, 3];
    let graph = CsrGraph::new(4, indptr, indices).unwrap();
    let weights = vec![1u64, 2, 3];
    let (dist, pred) = bmssp_sssp_with_preds(&graph, &weights, 0, None).unwrap();

    assert_eq!(dist[3], 6);

    let mut path = Vec::new();
    let mut current = 3;
    while current != 0 {
        path.push(current);
        current = pred[current];
        if current == usize::MAX {
            break;
        }
    }
    path.push(0);
    path.reverse();

    assert_eq!(path, vec![0, 1, 2, 3]);

    let path_cost: u64 = path
        .windows(2)
        .map(|w| {
            let u = w[0];
            let v = w[1];
            let (start, _) = graph.edge_range(u);
            let edge_idx = start + graph.neighbors(u).iter().position(|&x| x == v).unwrap();
            weights[edge_idx]
        })
        .sum();
    assert_eq!(path_cost, dist[3]);
}

#[test]
fn test_bmssp_predecessor_source() {
    let indptr = vec![0, 1, 1];
    let indices = vec![1];
    let graph = CsrGraph::new(2, indptr, indices).unwrap();
    let weights = vec![1u64];
    let (_, pred) = bmssp_sssp_with_preds(&graph, &weights, 0, None).unwrap();

    assert_eq!(pred[0], 0);
}

#[test]
fn test_bmssp_predecessor_unreachable() {
    let indptr = vec![0, 1, 1, 1];
    let indices = vec![1];
    let graph = CsrGraph::new(3, indptr, indices).unwrap();
    let weights = vec![1u64];
    let (_, pred) = bmssp_sssp_with_preds(&graph, &weights, 0, None).unwrap();

    assert_eq!(pred[2], usize::MAX);
}

#[test]
fn bmssp_test_bmssp_simple() {
    let indptr = vec![0, 1, 1];
    let indices = vec![1];
    let graph = CsrGraph::new(2, indptr, indices).unwrap();
    let weights = vec![1u64];
    let dist = bmssp_sssp(&graph, &weights, 0, None).unwrap();
    assert_eq!(dist[0], 0);
    assert_eq!(dist[1], 1);
}

#[test]
fn bmssp_test_bmssp_with_preds() {
    let indptr = vec![0, 2, 3, 3];
    let indices = vec![1, 2, 2];
    let graph = CsrGraph::new(3, indptr, indices).unwrap();
    let weights = vec![1u64, 2, 1];
    let (dist, pred) = bmssp_sssp_with_preds(&graph, &weights, 0, None).unwrap();

    assert_eq!(dist[0], 0);
    assert_eq!(dist[1], 1);
    assert_eq!(dist[2], 2);

    assert_eq!(pred[0], 0);
    assert_eq!(pred[1], 0);
    assert!(pred[2] == 0 || pred[2] == 1);
}

#[test]
fn test_bmssp_state() {
    let indptr = vec![0, 1, 1];
    let indices = vec![1];
    let graph = CsrGraph::new(2, indptr, indices).unwrap();
    let weights = vec![1u64];

    let mut state = BmsspState::new(2);
    let dist = bmssp_sssp_with_state(&mut state, &graph, &weights, 0, None).unwrap();

    assert_eq!(dist[0], 0);
    assert_eq!(dist[1], 1);
}

#[test]
fn test_bmssp_state_with_preds() {
    let indptr = vec![0, 2, 3, 3];
    let indices = vec![1, 2, 2];
    let graph = CsrGraph::new(3, indptr, indices).unwrap();
    let weights = vec![1u64, 2, 1];

    let mut state = BmsspState::new(3);
    let (dist, pred) =
        bmssp_sssp_with_preds_and_state(&mut state, &graph, &weights, 0, None).unwrap();

    assert_eq!(dist[0], 0);
    assert_eq!(dist[1], 1);
    assert_eq!(dist[2], 2);

    assert_eq!(pred[0], 0);
    assert_eq!(pred[1], 0);
    assert!(pred[2] == 0 || pred[2] == 1);
}

#[test]
fn test_bmssp_state_reuse() {
    let indptr = vec![0, 1, 1];
    let indices = vec![1];
    let graph = CsrGraph::new(2, indptr, indices).unwrap();
    let weights = vec![1u64];

    let mut state = BmsspState::new(2);

    let dist1 = bmssp_sssp_with_state(&mut state, &graph, &weights, 0, None).unwrap();
    assert_eq!(dist1[1], 1);

    let dist2 = bmssp_sssp_with_state(&mut state, &graph, &weights, 0, None).unwrap();
    assert_eq!(dist2[1], 1);
}

#[test]
fn test_bmssp_state_reset() {
    let indptr = vec![0, 1, 1];
    let indices = vec![1];
    let graph = CsrGraph::new(2, indptr, indices).unwrap();
    let weights = vec![1u64];

    let mut state = BmsspState::new(2);

    let dist1 = bmssp_sssp_with_state(&mut state, &graph, &weights, 0, None).unwrap();
    assert_eq!(dist1[1], 1);

    state.reset(2);
    assert_eq!(state.distances()[0], INFINITY);
    assert_eq!(state.distances()[1], INFINITY);
    assert!(state.heap().is_empty());

    let dist2 = bmssp_sssp_with_state(&mut state, &graph, &weights, 0, None).unwrap();
    assert_eq!(dist2[1], 1);
}

#[test]
fn test_bmssp_state_resize() {
    let mut state = BmsspState::new(2);

    let indptr = vec![0, 1, 2, 3, 3];
    let indices = vec![1, 2, 3];
    let graph = CsrGraph::new(4, indptr, indices).unwrap();
    let weights = vec![1u64, 1, 1];

    let dist = bmssp_sssp_with_state(&mut state, &graph, &weights, 0, None).unwrap();
    assert_eq!(dist[0], 0);
    assert_eq!(dist[1], 1);
    assert_eq!(dist[2], 2);
    assert_eq!(dist[3], 3);

    assert!(state.distances().len() >= 4);
}

#[test]
fn test_bmssp_state_multiple_sources() {
    let indptr = vec![0, 1, 2, 2];
    let indices = vec![1, 2];
    let graph = CsrGraph::new(3, indptr, indices).unwrap();
    let weights = vec![1u64, 1];

    let mut state = BmsspState::new(3);

    let dist1 = bmssp_sssp_with_state(&mut state, &graph, &weights, 0, None).unwrap();
    assert_eq!(dist1[1], 1);
    assert_eq!(dist1[2], 2);

    let dist2 = bmssp_sssp_with_state(&mut state, &graph, &weights, 1, None).unwrap();
    assert_eq!(dist2[0], INFINITY);
    assert_eq!(dist2[1], 0);
    assert_eq!(dist2[2], 1);
}

#[test]
fn test_bmssp_state_with_enabled_mask() {
    let indptr = vec![0, 1, 2, 2];
    let indices = vec![1, 2];
    let graph = CsrGraph::new(3, indptr, indices).unwrap();
    let weights = vec![1u64, 2];
    let enabled = vec![false, true];

    let mut state = BmsspState::new(3);
    let dist = bmssp_sssp_with_state(&mut state, &graph, &weights, 0, Some(&enabled)).unwrap();

    assert_eq!(dist[0], 0);
    assert_eq!(dist[1], INFINITY);
    assert_eq!(dist[2], INFINITY);
}

#[test]
fn test_bmssp_state_vs_regular_api() {
    let indptr = vec![0, 2, 3, 3];
    let indices = vec![1, 2, 2];
    let graph = CsrGraph::new(3, indptr, indices).unwrap();
    let weights = vec![1u64, 2, 1];

    let (dist_regular, pred_regular) = bmssp_sssp_with_preds(&graph, &weights, 0, None).unwrap();

    let mut state = BmsspState::new(3);
    let (dist_state, pred_state) =
        bmssp_sssp_with_preds_and_state(&mut state, &graph, &weights, 0, None).unwrap();

    assert_eq!(dist_regular.len(), dist_state.len());
    for i in 0..dist_regular.len() {
        assert_eq!(dist_regular[i], dist_state[i]);
    }

    assert_eq!(pred_regular.len(), pred_state.len());
    for i in 0..pred_regular.len() {
        assert_eq!(pred_regular[i], pred_state[i]);
    }
}

#[test]
fn test_bmssp_state_lifetime() {
    let indptr = vec![0, 1, 1];
    let indices = vec![1];
    let graph = CsrGraph::new(2, indptr, indices).unwrap();
    let weights = vec![1u64];

    let mut state = BmsspState::new(2);

    for _ in 0..5 {
        let dist = bmssp_sssp_with_state(&mut state, &graph, &weights, 0, None).unwrap();
        assert_eq!(dist[1], 1);
    }

    assert!(state.distances().len() >= 2);
}

#[test]
fn test_bmssp_simd_relaxation() {
    let indptr = vec![0, 4, 4, 4, 4, 4];
    let indices = vec![1, 2, 3, 4];
    let graph = CsrGraph::new(5, indptr, indices).unwrap();
    let weights = vec![1u64, 2, 3, 4];

    let dist = bmssp_sssp(&graph, &weights, 0, None).unwrap();
    assert_eq!(dist[0], 0);
    assert_eq!(dist[1], 1);
    assert_eq!(dist[2], 2);
    assert_eq!(dist[3], 3);
    assert_eq!(dist[4], 4);
}

#[test]
fn test_bmssp_parallel_relaxation() {
    let indptr = vec![0, 2, 4, 6, 6];
    let indices = vec![1, 2, 2, 3, 3, 0];
    let graph = CsrGraph::new(4, indptr, indices).unwrap();
    let weights = vec![1u64, 5, 1, 1, 1, 10];

    let dist = bmssp_sssp(&graph, &weights, 0, None).unwrap();
    assert_eq!(dist[0], 0);
    assert_eq!(dist[1], 1);
    assert_eq!(dist[2], 2);
    assert_eq!(dist[3], 2);
}

#[test]
fn single_edge_distances_and_predecessors() {
    let graph = CsrGraph::new(2, vec![0, 1, 1], vec![1]).unwrap();
    let (dist, pred) = bmssp_sssp_with_preds(&graph, &[1], 0, None).unwrap();
    assert_eq!(dist, vec![0, 1]);
    assert_eq!(pred, vec![0, 0]);
}

#[test]
fn chain_predecessors_follow_the_chain() {
    let graph = CsrGraph::new(4, vec![0, 1, 2, 3, 3], vec![1, 2, 3]).unwrap();
    let (dist, pred) = bmssp_sssp_with_preds(&graph, &[1, 2, 3], 0, None).unwrap();
    assert_eq!(dist, vec![0, 1, 3, 6]);
    assert_eq!(pred, vec![0, 0, 1, 2]);
}

#[test]
fn disconnected_vertex_has_no_predecessor() {
    let graph = CsrGraph::new(3, vec![0, 1, 1, 1], vec![1]).unwrap();
    let (dist, pred) = bmssp_sssp_with_preds(&graph, &[1], 0, None).unwrap();
    assert_eq!(dist, vec![0, 1, INFINITY]);
    assert_eq!(pred[2], NO_PREDECESSOR);
}

#[test]
fn mask_cuts_every_path() {
    let graph = CsrGraph::new(3, vec![0, 1, 2, 2], vec![1, 2]).unwrap();
    let (dist, pred) = bmssp_sssp_with_preds(&graph, &[1, 2], 0, Some(&[false, true])).unwrap();
    assert_eq!(dist, vec![0, INFINITY, INFINITY]);
    assert_eq!(pred, vec![0, NO_PREDECESSOR, NO_PREDECESSOR]);
}

#[test]
fn larger_graph_uses_blocks_and_zero_weights() {
    // 8 vertices, so the block path with block size 3 is taken.
    let graph = CsrGraph::new(
        8,
        vec![0, 2, 4, 5, 6, 7, 8, 9, 9],
        vec![1, 2, 3, 4, 5, 5, 6, 7, 7],
    )
    .unwrap();
    let weights = vec![0, 4, 0, 7, 1, 0, 3, 2, 1];
    let (dist, pred) = bmssp_sssp_with_preds(&graph, &weights, 0, None).unwrap();
    assert_eq!(dist, vec![0, 0, 4, 0, 7, 0, 10, 2]);
    assert_eq!(pred, vec![0, 0, 0, 1, 1, 3, 4, 5]);
}

#[test]
fn search_errors_follow_the_check_order() {
    let graph = CsrGraph::new(2, vec![0, 1, 1], vec![1]).unwrap();
    assert!(matches!(bmssp_sssp(&graph, &[], 9, None), Err(BmsspError::InvalidWeights(_))));
    assert!(matches!(
        bmssp_sssp(&graph, &[3], 9, Some(&[])),
        Err(BmsspError::InvalidSource { source: 9, num_vertices: 2 })
    ));
    assert!(matches!(
        bmssp_sssp(&graph, &[3], 1, Some(&[])),
        Err(BmsspError::InvalidEnabledMask { expected: 1, actual: 0 })
    ));
    let mut state = BmsspState::new(0);
    assert!(matches!(
        bmssp_sssp_with_state(&mut state, &graph, &[3], 5, None),
        Err(BmsspError::InvalidSource { source: 5, num_vertices: 2 })
    ));
}

#[test]
fn error_messages_describe_the_problem() {
    let e = BmsspError::InvalidSource { source: 7, num_vertices: 3 };
    assert_eq!(e.message(), "Invalid source vertex 7 (graph has 3 vertices)");
    let e = BmsspError::InvalidEnabledMask { expected: 4, actual: 2 };
    assert_eq!(e.message(), "Invalid enabled mask length: expected 4, got 2");
    assert_eq!(BmsspError::NonFiniteWeight.message(), "Non-finite weight encountered");
    assert_eq!(BmsspError::NegativeWeight.message(), "Negative weight encountered");
    let graph = CsrGraph::new(2, vec![0, 1, 1], vec![1]).unwrap();
    let e = bmssp_sssp(&graph, &[1, 1], 0, None).unwrap_err();
    assert_eq!(e.message(), "Invalid weights: expected 1 weights (one per edge), got 2");
}

#[test]
fn state_reset_grows_only_and_restores_the_prefix() {
    let graph = CsrGraph::new(3, vec![0, 1, 2, 2], vec![1, 2]).unwrap();
    let mut state = BmsspState::new(5);
    let (dist, pred) = bmssp_sssp_with_preds_and_state(&mut state, &graph, &[2, 3], 0, None).unwrap();
    assert_eq!(dist, &[0, 2, 5]);
    assert_eq!(pred, &[0, 0, 1]);
    assert_eq!(state.distances(), &[0, 2, 5, INFINITY, INFINITY]);
    assert_eq!(state.predecessors(), &[0, 0, 1, NO_PREDECESSOR, NO_PREDECESSOR]);
    state.reset(2);
    assert_eq!(state.distances(), &[INFINITY, INFINITY, 5, INFINITY, INFINITY]);
    assert_eq!(state.predecessors(), &[NO_PREDECESSOR, NO_PREDECESSOR, 1, NO_PREDECESSOR, NO_PREDECESSOR]);
    state.reset(7);
    assert_eq!(state.distances(), &[INFINITY; 7]);
    assert_eq!(state.predecessors(), &[NO_PREDECESSOR; 7]);
    assert!(state.heap().is_empty());
}

#[test]
fn reset_after_search_grows_to_clean_buffers() {
    let graph = CsrGraph::new(2, vec![0, 1, 1], vec![1]).unwrap();
    let mut state = BmsspState::new(2);
    let dist = bmssp_sssp_with_state(&mut state, &graph, &[1], 0, None).unwrap();
    assert_eq!(dist, &[0, 1]);
    state.reset(4);
    assert_eq!(state.distances(), &[INFINITY; 4]);
    assert_eq!(state.predecessors(), &[NO_PREDECESSOR; 4]);
    assert!(state.heap().is_empty());
}
