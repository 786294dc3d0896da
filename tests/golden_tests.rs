use bmssp_core::csr::CsrGraph;
use std::collections::HashSet;
use bmssp_core::{
    bmssp_sssp, bmssp_sssp_with_preds, dijkstra_sssp, dijkstra_sssp_with_preds, INFINITY,
};

/// Distances agree exactly: integer weights leave no rounding.
fn distances_match(a: &[u64], b: &[u64]) -> bool {
    a == b
}

/// Simple RNG for testing
struct SimpleRng {
    state: u64,
}

impl SimpleRng {
    fn new(seed: u64) -> Self {
        Self { state: seed }
    }

    fn next(&mut self) -> u64 {
        self.state = self.state.wrapping_mul(1103515245).wrapping_add(12345);
        self.state
    }
}

/// Generate a random directed graph with weights in 1..=100
fn random_graph(n: usize, num_edges: usize, seed: u64) -> (CsrGraph, Vec<u64>) {
    let mut rng = SimpleRng::new(seed);
    let mut edges = HashSet::new();

    while edges.len() < num_edges {
        let u = (rng.next() as usize) % n;
        let v = (rng.next() as usize) % n;
        if u != v {
            edges.insert((u, v));
        }
    }

    let mut edge_list: Vec<(usize, usize, u64)> = edges
        .into_iter()
        .map(|(u, v)| (u, v, (rng.next() as usize % 100) as u64 + 1))
        .collect();
    edge_list.sort_by_key(|(u, _, _)| *u);

    let mut indptr = vec![0; n + 1];
    let mut indices = Vec::new();
    let mut weights = Vec::new();

    for (u, v, w) in edge_list {
        indices.push(v);
        weights.push(w);
        for i in (u + 1)..=n {
            indptr[i] += 1;
        }
    }

    let graph = CsrGraph::new(n, indptr, indices).unwrap();
    (graph, weights)
}

fn grid(rows: usize, cols: usize) -> (CsrGraph, Vec<u64>) {
    let n = rows * cols;
    let mut indptr = vec![0; n + 1];
    let mut indices = Vec::new();
    let mut weights = Vec::new();

    for i in 0..rows {
        for j in 0..cols {
            let u = i * cols + j;
            if j < cols - 1 {
                indices.push(u + 1);
                weights.push(1u64);
                indptr[u + 1] += 1;
            }
            if i < rows - 1 {
                indices.push(u + cols);
                weights.push(1u64);
                indptr[u + 1] += 1;
            }
        }
    }
    for i in 1..=n {
        indptr[i] += indptr[i - 1];
    }
    (CsrGraph::new(n, indptr, indices).unwrap(), weights)
}

#[test]
fn test_golden_small() {
    let n = 10;
    let num_edges = 20;
    let (graph, weights) = random_graph(n, num_edges, 42);

    let dist_dijkstra = dijkstra_sssp(&graph, &weights, 0, None).unwrap();
    let dist_bmssp = bmssp_sssp(&graph, &weights, 0, None).unwrap();

    assert!(distances_match(&dist_dijkstra, &dist_bmssp), "Distances don't match for small graph");
}

#[test]
fn test_golden_grid() {
    let (graph, weights) = grid(4, 4);

    let dist_dijkstra = dijkstra_sssp(&graph, &weights, 0, None).unwrap();
    let dist_bmssp = bmssp_sssp(&graph, &weights, 0, None).unwrap();

    assert!(distances_match(&dist_dijkstra, &dist_bmssp), "Distances don't match for grid graph");
    assert_eq!(dist_bmssp[15], 6);
}

#[test]
fn test_parity_random_graphs() {
    let test_cases = vec![(10, 15, 1), (20, 30, 2), (50, 75, 3), (100, 150, 4), (200, 300, 5)];

    for (n, num_edges, seed) in test_cases {
        let (graph, weights) = random_graph(n, num_edges, seed);
        let dist_dijkstra = dijkstra_sssp(&graph, &weights, 0, None).unwrap();
        let dist_bmssp = bmssp_sssp(&graph, &weights, 0, None).unwrap();

        assert!(
            distances_match(&dist_dijkstra, &dist_bmssp),
            "Distances don't match for random graph: n={}, edges={}",
            n,
            num_edges
        );
    }
}

#[test]
fn test_parity_multiple_sources() {
    let n = 20;
    let num_edges = 40;
    let (graph, weights) = random_graph(n, num_edges, 42);

    let sources = vec![0, 5, 10, 15];
    for source in sources {
        let dist_dijkstra = dijkstra_sssp(&graph, &weights, source, None).unwrap();
        let dist_bmssp = bmssp_sssp(&graph, &weights, source, None).unwrap();

        assert!(distances_match(&dist_dijkstra, &dist_bmssp), "Distances don't match for source {}", source);
    }
}

#[test]
fn test_parity_grid_graphs() {
    let grid_sizes = vec![(2, 2), (3, 3), (4, 4), (5, 5)];

    for (rows, cols) in grid_sizes {
        let (graph, weights) = grid(rows, cols);
        let dist_dijkstra = dijkstra_sssp(&graph, &weights, 0, None).unwrap();
        let dist_bmssp = bmssp_sssp(&graph, &weights, 0, None).unwrap();

        assert!(distances_match(&dist_dijkstra, &dist_bmssp), "Distances don't match for {}x{} grid", rows, cols);
    }
}

#[test]
fn test_parity_pipeline_like() {
    // Chain graph with sparse bypass links; every weight is doubled so that
    // the bypass weight of two and a half chain steps is whole.
    let n = 20;
    let mut indptr = vec![0; n + 1];
    let mut indices = Vec::new();
    let mut weights = Vec::new();

    for i in 0..(n - 1) {
        indices.push(i + 1);
        weights.push(2u64);
        indptr[i + 1] += 1;
    }

    for i in 0..(n - 3) {
        indices.push(i + 3);
        weights.push(5u64);
        indptr[i + 1] += 1;
    }

    for i in 1..=n {
        indptr[i] += indptr[i - 1];
    }

    let graph = CsrGraph::new(n, indptr, indices).unwrap();
    let dist_dijkstra = dijkstra_sssp(&graph, &weights, 0, None).unwrap();
    let dist_bmssp = bmssp_sssp(&graph, &weights, 0, None).unwrap();

    assert!(distances_match(&dist_dijkstra, &dist_bmssp), "Distances don't match for pipeline-like graph");
}

#[test]
fn test_parity_with_enabled_mask() {
    let n = 20;
    let num_edges = 40;
    let (graph, weights) = random_graph(n, num_edges, 42);

    let mut enabled = vec![true; weights.len()];
    for i in 0..weights.len() {
        if i % 5 == 0 {
            enabled[i] = false;
        }
    }

    let dist_dijkstra = dijkstra_sssp(&graph, &weights, 0, Some(&enabled)).unwrap();
    let dist_bmssp = bmssp_sssp(&graph, &weights, 0, Some(&enabled)).unwrap();

    assert!(distances_match(&dist_dijkstra, &dist_bmssp), "Distances don't match with enabled mask");
}

#[test]
fn test_parity_predecessors() {
    let n = 30;
    let num_edges = 60;
    let (graph, weights) = random_graph(n, num_edges, 42);

    let (dist_dijkstra, pred_dijkstra) = dijkstra_sssp_with_preds(&graph, &weights, 0, None).unwrap();
    let (dist_bmssp, pred_bmssp) = bmssp_sssp_with_preds(&graph, &weights, 0, None).unwrap();

    assert!(distances_match(&dist_dijkstra, &dist_bmssp), "Distances don't match with predecessors");

    for v in 0..n {
        if dist_dijkstra[v] == INFINITY {
            assert_eq!(pred_dijkstra[v], usize::MAX);
            assert_eq!(pred_bmssp[v], usize::MAX);
        } else if v == 0 {
            assert_eq!(pred_dijkstra[v], 0);
            assert_eq!(pred_bmssp[v], 0);
        } else {
            assert!(pred_dijkstra[v] < n);
            assert!(pred_bmssp[v] < n);

            let mut path_cost_bmssp = 0u64;
            let mut current = v;
            let mut visited = std::collections::HashSet::new();
            while current != 0 && pred_bmssp[current] != usize::MAX {
                if visited.contains(&current) {
                    break;
                }
                visited.insert(current);

                let prev = pred_bmssp[current];
                if prev == current {
                    break;
                }

                let (start, _) = graph.edge_range(prev);
                if let Some(pos) = graph.neighbors(prev).iter().position(|&x| x == current) {
                    path_cost_bmssp += weights[start + pos];
                }
                current = prev;
            }

            assert!(
                path_cost_bmssp == dist_bmssp[v],
                "Path cost {} doesn't match distance {} for vertex {}",
                path_cost_bmssp,
                dist_bmssp[v],
                v
            );
        }
    }
}

#[test]
fn test_parity_sparse_graph() {
    let n = 50;
    let num_edges = 100;
    let (graph, weights) = random_graph(n, num_edges, 100);

    let dist_dijkstra = dijkstra_sssp(&graph, &weights, 0, None).unwrap();
    let dist_bmssp = bmssp_sssp(&graph, &weights, 0, None).unwrap();

    assert!(distances_match(&dist_dijkstra, &dist_bmssp), "Distances don't match for sparse graph");
}

#[test]
fn test_parity_dense_graph() {
    let n = 30;
    let num_edges = 150;
    let (graph, weights) = random_graph(n, num_edges, 200);

    let dist_dijkstra = dijkstra_sssp(&graph, &weights, 0, None).unwrap();
    let dist_bmssp = bmssp_sssp(&graph, &weights, 0, None).unwrap();

    assert!(distances_match(&dist_dijkstra, &dist_bmssp), "Distances don't match for dense graph");
}

#[test]
fn test_parity_weight_variations() {
    let n = 20;
    let num_edges = 40;
    let (graph, _) = random_graph(n, num_edges, 42);

    // Weights in hundredths where the distribution is fractional.
    let weight_sets = vec![
        // Uniform weights
        (0..num_edges).map(|_| 1u64).collect::<Vec<_>>(),
        // Powers of 2
        (0..num_edges).map(|i| 2u64.pow((i % 5) as u32)).collect::<Vec<_>>(),
        // Small weights
        (0..num_edges).map(|i| 10u64 + (i % 10) as u64).collect::<Vec<_>>(),
        // Large weights
        (0..num_edges).map(|i| 100u64 + (i % 50) as u64).collect::<Vec<_>>(),
    ];

    for weights in weight_sets {
        let dist_dijkstra = dijkstra_sssp(&graph, &weights, 0, None).unwrap();
        let dist_bmssp = bmssp_sssp(&graph, &weights, 0, None).unwrap();

        assert!(distances_match(&dist_dijkstra, &dist_bmssp), "Distances don't match for weight variation");
    }
}

/// Checks a search result against a brute-force relaxation to a fixpoint,
/// and its predecessors against the tree rules.
fn check_against_fixpoint(graph: &CsrGraph, weights: &[u64], source: usize, dist: &[u64], pred: &[usize]) {
    let n = graph.num_vertices();
    let mut best = vec![INFINITY; n];
    best[source] = 0;
    loop {
        let mut changed = false;
        for u in 0..n {
            if best[u] == INFINITY {
                continue;
            }
            let (start, end) = graph.edge_range(u);
            for e in start..end {
                let v = graph.indices()[e];
                if best[u] + weights[e] < best[v] {
                    best[v] = best[u] + weights[e];
                    changed = true;
                }
            }
        }
        if !changed {
            break;
        }
    }
    assert_eq!(dist, &best[..]);
    assert_eq!(pred[source], source);
    for v in 0..n {
        if v == source {
            continue;
        }
        if dist[v] == INFINITY {
            assert_eq!(pred[v], usize::MAX);
            continue;
        }
        let u = pred[v];
        let (start, end) = graph.edge_range(u);
        assert!((start..end).any(|e| graph.indices()[e] == v && dist[u] + weights[e] == dist[v]));
        let mut cur = v;
        let mut steps = 0;
        while cur != source {
            cur = pred[cur];
            steps += 1;
            assert!(steps <= n);
        }
    }
}

/// A random graph whose endpoints come from the high bits of the generator,
/// with weights in 1..=100.
fn spread_graph(n: usize, num_edges: usize, seed: u64) -> (CsrGraph, Vec<u64>) {
    let mut rng = SimpleRng::new(seed);
    let mut edges = HashSet::new();
    while edges.len() < num_edges {
        let u = (rng.next() >> 33) as usize % n;
        let v = (rng.next() >> 33) as usize % n;
        if u != v {
            edges.insert((u, v));
        }
    }
    let mut edge_list: Vec<(usize, usize)> = edges.into_iter().collect();
    edge_list.sort();
    let mut indptr = vec![0; n + 1];
    let mut indices = Vec::new();
    let mut weights = Vec::new();
    for (u, v) in edge_list {
        indices.push(v);
        weights.push((rng.next() >> 33) % 100 + 1);
        indptr[u + 1] += 1;
    }
    for i in 1..=n {
        indptr[i] += indptr[i - 1];
    }
    (CsrGraph::new(n, indptr, indices).unwrap(), weights)
}

fn random_batch(first_seed: u64, count: u64) {
    for seed in first_seed..first_seed + count {
        let mut rng = SimpleRng::new(seed * 7919 + 1);
        let n = 10 + (rng.next() >> 16) as usize % 491;
        let m = n + (rng.next() >> 16) as usize % (4 * n + 1);
        let max_edges = n * (n - 1);
        let (graph, weights) = spread_graph(n, m.min(max_edges), seed);
        for k in 0..3 {
            let source = (rng.next() >> 16) as usize % n;
            let dist_dijkstra = dijkstra_sssp(&graph, &weights, source, None).unwrap();
            let (dist_bmssp, pred_bmssp) = bmssp_sssp_with_preds(&graph, &weights, source, None).unwrap();
            assert!(distances_match(&dist_dijkstra, &dist_bmssp), "seed {} source {}", seed, source);
            if k == 0 {
                check_against_fixpoint(&graph, &weights, source, &dist_bmssp, &pred_bmssp);
            }
        }
    }
}

#[test]
fn random_graphs_agree_first_tenth() {
    random_batch(0, 10);
}

#[test]
fn random_graphs_agree_second_tenth() {
    random_batch(10, 10);
}

#[test]
fn random_graphs_agree_third_tenth() {
    random_batch(20, 10);
}

#[test]
fn random_graphs_agree_fourth_tenth() {
    random_batch(30, 10);
}

#[test]
fn random_graphs_agree_fifth_tenth() {
    random_batch(40, 10);
}

#[test]
fn random_graphs_agree_sixth_tenth() {
    random_batch(50, 10);
}

#[test]
fn random_graphs_agree_seventh_tenth() {
    random_batch(60, 10);
}

#[test]
fn random_graphs_agree_eighth_tenth() {
    random_batch(70, 10);
}

#[test]
fn random_graphs_agree_ninth_tenth() {
    random_batch(80, 10);
}

#[test]
fn random_graphs_agree_tenth_tenth() {
    random_batch(90, 10);
}
