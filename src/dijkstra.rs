//! The label-setting search with one frontier entry settled at a time: the
//! reference that the block-frontier search is held against.

use crate::block_heap::{block_has, BlockHeap};
use crate::bmssp::{covered, frontier_ok, lemma_frontier_lowered, relax_edges};
use crate::csr::CsrGraph;
use crate::error::BmsspError;
use crate::paths::{
    edge_enabled, labels_inv, lemma_search_done, lemma_sum_monotone, seq_sum, settled,
    shortest_distances, valid_predecessors, valid_search, INFINITY, NO_PREDECESSOR,
};
use crate::validation::{mask_view, refusal, validate_search};
use vstd::prelude::*;

verus! {

/// Label-setting shortest paths from `source`, with the predecessor of each
/// vertex on a shortest path. Edges masked off by `enabled` take no part.
/// Unreached vertices get `INFINITY` and `NO_PREDECESSOR`.
pub fn dijkstra_sssp_with_preds(
    graph: &CsrGraph,
    weights: &[u64],
    source: usize,
    enabled: Option<&[bool]>,
) -> (r: Result<(Vec<u64>, Vec<usize>), BmsspError>)
    requires
        graph.wf(),
    ensures
        match r {
            Ok((dist, pred)) => {
                &&& valid_search(*graph, weights@, source as int, mask_view(enabled))
                &&& shortest_distances(*graph, weights@, mask_view(enabled), source as int, dist@)
                &&& valid_predecessors(*graph, weights@, mask_view(enabled), source as int, dist@, pred@)
            },
            Err(e) => refusal(*graph, weights@.len(), source, mask_view(enabled), e),
        },
{
    match validate_search(graph, weights, source, enabled) {
        Ok(()) => {},
        Err(e) => {
            return Err(e);
        },
    }
    let ghost g = *graph;
    let ghost w = weights@;
    let ghost en = mask_view(enabled);
    let ghost s = source as int;
    let n = graph.num_vertices();
    let mut dist: Vec<u64> = vec![INFINITY; n];
    let mut pred: Vec<usize> = vec![NO_PREDECESSOR; n];
    dist.set(source, 0);
    pred.set(source, source);
    let mut heap = BlockHeap::new();
    heap.push(source, 0);
    let ghost mut pe: Seq<int> = Seq::new(n as nat, |i: int| 0int);
    let ghost mut st: Seq<nat> = Seq::new(n as nat, |i: int| 0nat);
    let ghost mut tm: nat = 1;
    proof {
        assert(labels_inv(g, w, en, s, dist@, pred@, pe, st, tm));
        assert forall|u: int| 0 <= u < g.spec_n() implies #[trigger] covered(g, w, en, dist@, heap@, Seq::empty(), u) by {
            if u != s {
                assert(dist@[u] == INFINITY);
                assert forall|e: int|
                    g.spec_indptr()[u] <= e < g.spec_indptr()[u + 1] && edge_enabled(en, e) implies #[trigger] dist@[g.spec_indices()[e] as int]
                    <= dist@[u] + w[e] by {
                    g.lemma_row_bounds(u + 1);
                    assert(g.spec_indptr()[u] <= g.spec_indptr()[u + 1]);
                }
            } else {
                assert(heap@.contains_key(source));
            }
        }
    }
    while !heap.is_empty()
        invariant
            g == *graph,
            w == weights@,
            en == mask_view(enabled),
            s == source as int,
            labels_inv(g, w, en, s, dist@, pred@, pe, st, tm),
            dist@.len() == n,
            heap.wf(),
            frontier_ok(g, w, en, dist@, heap@, Seq::empty()),
        decreases seq_sum(dist@), heap@.len(),
    {
        let ghost d0 = dist@;
        let ghost h0 = heap@;
        proof {
            heap.lemma_finite();
        }
        let (block, _next) = heap.pop_block(1);
        let ghost h1 = heap@;
        let (u, d) = block[0];
        proof {
            assert(block_has(block@, u));
            assert(h1.dom().subset_of(h0.dom().remove(u)));
            vstd::set_lib::lemma_len_subset(h1.dom(), h0.dom().remove(u));
            assert(h0.contains_key(u) && h0[u] == d);
            assert forall|x: int| 0 <= x < g.spec_n() implies #[trigger] covered(g, w, en, dist@, h1, block@, x) by {
                assert(covered(g, w, en, dist@, h0, Seq::empty(), x));
                if h0.contains_key(x as usize) && !h1.contains_key(x as usize) {
                    let i = choose|i: int| 0 <= i < block@.len() && (#[trigger] block@[i]).0 == x as usize;
                    assert(block@[i] == (x as usize, dist@[x]));
                }
            }
        }
        if d <= dist[u] {
            let ghost dm = dist@;
            let (_lowered, out) = relax_edges(
                graph,
                weights,
                enabled,
                u,
                &mut dist,
                &mut pred,
                &mut heap,
                Ghost(s),
                Ghost(pe),
                Ghost(st),
                Ghost(tm),
            );
            proof {
                pe = out@.0;
                st = out@.1;
                tm = out@.2;
                lemma_frontier_lowered(g, w, en, dm, dist@, h1, heap@, block@);
            }
        }
        proof {
            assert forall|x: int| 0 <= x < g.spec_n() implies #[trigger] covered(g, w, en, dist@, heap@, Seq::empty(), x) by {
                assert(covered(g, w, en, dist@, heap@, block@, x));
                if block@.contains((x as usize, dist@[x])) && !heap@.contains_key(x as usize) && !settled(g, w, en, dist@, x) {
                    let i = choose|i: int| 0 <= i < block@.len() && block@[i] == (x as usize, dist@[x]);
                    assert(i == 0);
                }
            }
            if dist@ == d0 {
                assert(heap@ == h1);
            } else {
                lemma_sum_monotone(dist@, d0);
            }
        }
    }
    proof {
        assert forall|u: int| 0 <= u < g.spec_n() implies #[trigger] settled(g, w, en, dist@, u) by {
            assert(covered(g, w, en, dist@, heap@, Seq::empty(), u));
        }
        lemma_search_done(g, w, en, s, dist@, pred@, pe, st, tm);
    }
    proof {
        assert(dist@.subrange(0, n as int) =~= dist@);
        assert(pred@.subrange(0, n as int) =~= pred@);
    }
    Ok((dist, pred))
}

/// Label-setting shortest distances from `source`.
pub fn dijkstra_sssp(graph: &CsrGraph, weights: &[u64], source: usize, enabled: Option<&[bool]>) -> (r: Result<
    Vec<u64>,
    BmsspError,
>)
    requires
        graph.wf(),
    ensures
        match r {
            Ok(dist) => {
                &&& valid_search(*graph, weights@, source as int, mask_view(enabled))
                &&& shortest_distances(*graph, weights@, mask_view(enabled), source as int, dist@)
            },
            Err(e) => refusal(*graph, weights@.len(), source, mask_view(enabled), e),
        },
{
    match dijkstra_sssp_with_preds(graph, weights, source, enabled) {
        Ok((dist, _pred)) => Ok(dist),
        Err(e) => Err(e),
    }
}

} // verus!
