//! The block-frontier search: the frontier is advanced a block of up to `k`
//! smallest labels at a time, each block settling the out-edges of its
//! vertices.

use crate::block_heap::{
    block_has, entry_before, is_min_block, lemma_min_block_unique, FastBlockHeap, Frontier,
};
use crate::csr::CsrGraph;
use crate::error::BmsspError;
use crate::params::{lemma_block_size_bounds, spec_block_size, BmsspParams};
use crate::paths::{
    edge_enabled, is_step, labels_inv, lemma_search_done, lemma_sum_monotone, pred_link, seq_sum,
    settled, shortest_distances, valid_predecessors, valid_search, INFINITY, NO_PREDECESSOR,
};
use crate::validation::{mask_view, refusal, validate_search};
use vstd::prelude::*;
use vstd::slice::slice_subrange;

verus! {

/// From labels `d0` and frontier `h0` to `d1` and `h1`, labels only went
/// down, every lowered vertex is in the frontier at its new label, nothing
/// left the frontier, and nothing changed at all unless some label did.
pub open spec fn lowered(d0: Seq<u64>, d1: Seq<u64>, h0: Map<usize, u64>, h1: Map<usize, u64>) -> bool {
    &&& d1.len() == d0.len()
    &&& forall|i: int| 0 <= i < d0.len() ==> #[trigger] d1[i] <= d0[i]
    &&& forall|v: usize| #[trigger] h0.contains_key(v) ==> h1.contains_key(v)
    &&& forall|v: usize| #[trigger] h1.contains_key(v) ==> (v as int) < d1.len() && h1[v] == d1[v as int]
    &&& forall|i: int| 0 <= i < d0.len() && #[trigger] d1[i] < d0[i] ==> h1.contains_key(i as usize)
    &&& d1 == d0 ==> h1 == h0
}

/// Every vertex in the frontier `h` is a vertex of the graph waiting at its
/// current label.
pub open spec fn frontier_current(n: nat, dist: Seq<u64>, h: Map<usize, u64>) -> bool {
    forall|v: usize| #[trigger] h.contains_key(v) ==> (v as int) < n && h[v] == dist[v as int]
}

/// Vertex `u` is accounted for: it waits in the frontier `h`, or waits in
/// the block being processed at its current label, or is settled.
pub open spec fn covered(
    g: CsrGraph,
    weights: Seq<u64>,
    enabled: Option<Seq<bool>>,
    dist: Seq<u64>,
    h: Map<usize, u64>,
    pending: Seq<(usize, u64)>,
    u: int,
) -> bool {
    ||| h.contains_key(u as usize)
    ||| pending.contains((u as usize, dist[u]))
    ||| settled(g, weights, enabled, dist, u)
}

/// The frontier `h` holds current labels, the block remainder `pending`
/// holds labels no lower than current ones, and every vertex is accounted
/// for.
pub open spec fn frontier_ok(
    g: CsrGraph,
    weights: Seq<u64>,
    enabled: Option<Seq<bool>>,
    dist: Seq<u64>,
    h: Map<usize, u64>,
    pending: Seq<(usize, u64)>,
) -> bool {
    &&& forall|v: usize| #[trigger] h.contains_key(v) ==> (v as int) < g.spec_n() && h[v] == dist[v as int]
    &&& forall|i: int|
        0 <= i < pending.len() ==> ((#[trigger] pending[i]).0 as int) < g.spec_n() && dist[pending[i].0 as int]
            <= pending[i].1
    &&& forall|u: int| 0 <= u < g.spec_n() ==> #[trigger] covered(g, weights, enabled, dist, h, pending, u)
}

/// Lowering is transitive.
pub proof fn lemma_lowered_trans(
    d0: Seq<u64>,
    d1: Seq<u64>,
    d2: Seq<u64>,
    h0: Map<usize, u64>,
    h1: Map<usize, u64>,
    h2: Map<usize, u64>,
)
    requires
        lowered(d0, d1, h0, h1),
        lowered(d1, d2, h1, h2),
    ensures
        lowered(d0, d2, h0, h2),
{
    assert forall|i: int| 0 <= i < d0.len() && #[trigger] d2[i] < d0[i] implies h2.contains_key(i as usize) by {
        assert(d1[i] <= d0[i]);
        if d1[i] < d0[i] {
            assert(h1.contains_key(i as usize));
        } else {
            assert(d2[i] < d1[i]);
        }
    }
    if d2 == d0 {
        assert forall|i: int| 0 <= i < d0.len() implies d1[i] == d0[i] by {
            assert(d1[i] <= d0[i]);
            assert(d2[i] <= d1[i]);
        }
        assert(d1 =~= d0);
    }
}

/// Lowering labels keeps every vertex accounted for.
pub proof fn lemma_frontier_lowered(
    g: CsrGraph,
    weights: Seq<u64>,
    enabled: Option<Seq<bool>>,
    d0: Seq<u64>,
    d1: Seq<u64>,
    h0: Map<usize, u64>,
    h1: Map<usize, u64>,
    pending: Seq<(usize, u64)>,
)
    requires
        g.wf(),
        d0.len() >= g.spec_n(),
        frontier_ok(g, weights, enabled, d0, h0, pending),
        lowered(d0, d1, h0, h1),
        forall|v: usize| #[trigger] h1.contains_key(v) ==> (v as int) < g.spec_n(),
    ensures
        frontier_ok(g, weights, enabled, d1, h1, pending),
{
    assert forall|i: int| 0 <= i < pending.len() implies ((#[trigger] pending[i]).0 as int) < g.spec_n()
        && d1[pending[i].0 as int] <= pending[i].1 by {
        assert(d1[pending[i].0 as int] <= d0[pending[i].0 as int]);
    }
    assert forall|u: int| 0 <= u < g.spec_n() implies #[trigger] covered(g, weights, enabled, d1, h1, pending, u) by {
        assert(covered(g, weights, enabled, d0, h0, pending, u));
        assert(d1[u] <= d0[u]);
        if d1[u] == d0[u] && !h0.contains_key(u as usize) && !pending.contains((u as usize, d0[u])) {
            assert forall|e: int|
                g.spec_indptr()[u] <= e < g.spec_indptr()[u + 1] && edge_enabled(enabled, e) implies #[trigger] d1[g.spec_indices()[e] as int]
                <= d1[u] + weights[e] by {
                g.lemma_row_bounds(u + 1);
                assert(g.spec_indptr()[u] <= g.spec_indptr()[u + 1]);
                let t = g.spec_indices()[e] as int;
                assert(d0[t] <= d0[u] + weights[e]);
                assert(d1[t] <= d0[t]);
            }
        }
    }
}

/// The label of `x` once the out-edges of a vertex labelled `du` with ids in
/// `[start, e)` have been relaxed, starting from label `d`: the smallest of
/// `d` and of `du + weights[f]` over the enabled edges `f` among them that
/// lead to `x`.
pub open spec fn relaxed_label(
    g: CsrGraph,
    weights: Seq<u64>,
    enabled: Option<Seq<bool>>,
    du: int,
    start: int,
    e: int,
    x: int,
    d: int,
) -> int
    decreases e - start,
{
    if e <= start {
        d
    } else {
        let prev = relaxed_label(g, weights, enabled, du, start, e - 1, x, d);
        if edge_enabled(enabled, e - 1) && g.spec_indices()[e - 1] == x && du + weights[e - 1] < prev {
            du + weights[e - 1]
        } else {
            prev
        }
    }
}

/// One relaxation step of the model search, whose state holds the labels
/// and predecessors of the graph's vertices and the frontier: the enabled
/// out-edges of `u` are relaxed, each lowered vertex takes `u` as its
/// predecessor and enters the frontier at its new label.
pub open spec fn relax_step(
    g: CsrGraph,
    w: Seq<u64>,
    en: Option<Seq<bool>>,
    st: (Seq<u64>, Seq<usize>, Map<usize, u64>),
    u: int,
) -> (Seq<u64>, Seq<usize>, Map<usize, u64>) {
    let d = st.0;
    let p = st.1;
    let h = st.2;
    let n = g.spec_n() as int;
    let d2 = Seq::new(
        n as nat,
        |x: int|
            relaxed_label(
                g,
                w,
                en,
                d[u] as int,
                g.spec_indptr()[u] as int,
                g.spec_indptr()[u + 1] as int,
                x,
                d[x] as int,
            ) as u64,
    );
    let p2 = Seq::new(
        n as nat,
        |x: int|
            if d2[x] < d[x] {
                u as usize
            } else {
                p[x]
            },
    );
    let h2 = Map::new(
        |v: usize| h.contains_key(v) || ((v as int) < n && d2[v as int] < d[v as int]),
        |v: usize|
            if (v as int) < n && d2[v as int] < d[v as int] {
                d2[v as int]
            } else {
                h[v]
            },
    );
    (d2, p2, h2)
}

/// The model state after the entries of `block` from position `j` on are
/// handled in order: an entry whose label has not dropped has its vertex's
/// out-edges relaxed.
pub open spec fn process_block(
    g: CsrGraph,
    w: Seq<u64>,
    en: Option<Seq<bool>>,
    st: (Seq<u64>, Seq<usize>, Map<usize, u64>),
    block: Seq<(usize, u64)>,
    j: nat,
) -> (Seq<u64>, Seq<usize>, Map<usize, u64>)
    decreases block.len() - j,
{
    if j >= block.len() {
        st
    } else {
        let u = block[j as int].0 as int;
        let next = if block[j as int].1 <= st.0[u] {
            relax_step(g, w, en, st, u)
        } else {
            st
        };
        process_block(g, w, en, next, block, j + 1)
    }
}

/// One round of the block-frontier search in the model: take the block of
/// up to `k` first frontier entries, then handle it.
pub open spec fn block_step(
    g: CsrGraph,
    w: Seq<u64>,
    en: Option<Seq<bool>>,
    k: usize,
    st: (Seq<u64>, Seq<usize>, Map<usize, u64>),
) -> (Seq<u64>, Seq<usize>, Map<usize, u64>) {
    let (b, r) = choose|b: Seq<(usize, u64)>, r: Map<usize, u64>| #[trigger] is_min_block(st.2, k, b, r);
    process_block(g, w, en, (st.0, st.1, r), b, 0)
}

/// The model after at most `fuel` rounds, stopping once the frontier is
/// empty.
pub open spec fn run_blocks(
    g: CsrGraph,
    w: Seq<u64>,
    en: Option<Seq<bool>>,
    k: usize,
    st: (Seq<u64>, Seq<usize>, Map<usize, u64>),
    fuel: nat,
) -> (Seq<u64>, Seq<usize>, Map<usize, u64>)
    decreases fuel,
{
    if fuel == 0 || st.2.dom().is_empty() {
        st
    } else {
        run_blocks(g, w, en, k, block_step(g, w, en, k, st), (fuel - 1) as nat)
    }
}

/// One pass of full relaxation in the model, from vertex `u` on: every
/// reached vertex has its out-edges relaxed in turn.
pub open spec fn pass_from(
    g: CsrGraph,
    w: Seq<u64>,
    en: Option<Seq<bool>>,
    st: (Seq<u64>, Seq<usize>, Map<usize, u64>),
    u: nat,
) -> (Seq<u64>, Seq<usize>, Map<usize, u64>)
    decreases g.spec_n() - u,
{
    if u >= g.spec_n() {
        st
    } else {
        let next = if st.0[u as int] != INFINITY {
            relax_step(g, w, en, st, u as int)
        } else {
            st
        };
        pass_from(g, w, en, next, u + 1)
    }
}

/// The model after at most `fuel` passes, stopping after a pass that
/// lowers no label.
pub open spec fn run_passes(
    g: CsrGraph,
    w: Seq<u64>,
    en: Option<Seq<bool>>,
    st: (Seq<u64>, Seq<usize>, Map<usize, u64>),
    fuel: nat,
) -> (Seq<u64>, Seq<usize>, Map<usize, u64>)
    decreases fuel,
{
    if fuel == 0 {
        st
    } else {
        let next = pass_from(g, w, en, st, 0);
        if next.0 == st.0 {
            next
        } else {
            run_passes(g, w, en, next, (fuel - 1) as nat)
        }
    }
}

/// The model's starting state: only the source is labelled, at zero, and
/// it waits in the frontier.
pub open spec fn start_state(g: CsrGraph, s: int) -> (Seq<u64>, Seq<usize>, Map<usize, u64>) {
    (
        Seq::new(g.spec_n(), |x: int| if x == s { 0u64 } else { INFINITY }),
        Seq::new(g.spec_n(), |x: int| if x == s { s as usize } else { NO_PREDECESSOR }),
        Map::empty().insert(s as usize, 0u64),
    )
}

/// The labels and predecessors of the model search after `fuel` rounds:
/// full passes for graphs of at most four vertices, block rounds otherwise.
pub open spec fn search_model(
    g: CsrGraph,
    w: Seq<u64>,
    en: Option<Seq<bool>>,
    s: int,
    fuel: nat,
) -> (Seq<u64>, Seq<usize>) {
    let r = if g.spec_n() <= 4 {
        run_passes(g, w, en, start_state(g, s), fuel)
    } else {
        run_blocks(g, w, en, spec_block_size(g.spec_n()) as usize, start_state(g, s), fuel)
    };
    (r.0, r.1)
}

/// From round `it` on, the model search stays at `dist` and `pred`.
pub open spec fn model_settles_at(
    g: CsrGraph,
    w: Seq<u64>,
    en: Option<Seq<bool>>,
    s: int,
    dist: Seq<u64>,
    pred: Seq<usize>,
    it: nat,
) -> bool {
    forall|f: nat| f >= it ==> #[trigger] search_model(g, w, en, s, f) == (dist, pred)
}

/// `dist` and `pred` are what the model search settles on: from some
/// round on, every further round leaves it there.
pub open spec fn search_result(
    g: CsrGraph,
    w: Seq<u64>,
    en: Option<Seq<bool>>,
    s: int,
    dist: Seq<u64>,
    pred: Seq<usize>,
) -> bool {
    exists|it: nat| #[trigger] model_settles_at(g, w, en, s, dist, pred, it)
}

/// The block-frontier search is a function of its arguments: any two runs
/// on the same graph, weights, mask and source, in fresh or in reused
/// buffers, return the same labels and the same predecessors.
pub proof fn lemma_search_deterministic(
    g: CsrGraph,
    w: Seq<u64>,
    en: Option<Seq<bool>>,
    s: int,
    d1: Seq<u64>,
    p1: Seq<usize>,
    d2: Seq<u64>,
    p2: Seq<usize>,
)
    requires
        search_result(g, w, en, s, d1, p1),
        search_result(g, w, en, s, d2, p2),
    ensures
        d1 == d2,
        p1 == p2,
{
    let i1 = choose|it: nat| #[trigger] model_settles_at(g, w, en, s, d1, p1, it);
    let i2 = choose|it: nat| #[trigger] model_settles_at(g, w, en, s, d2, p2, it);
    let f = i1 + i2;
    assert(search_model(g, w, en, s, f) == (d1, p1));
    assert(search_model(g, w, en, s, f) == (d2, p2));
}

/// The model state of buffers: their first `n` entries and the frontier.
pub open spec fn model_of(
    n: nat,
    dist: Seq<u64>,
    pred: Seq<usize>,
    h: Map<usize, u64>,
) -> (Seq<u64>, Seq<usize>, Map<usize, u64>) {
    (dist.subrange(0, n as int), pred.subrange(0, n as int), h)
}

/// Buffers relaxed along the out-edges of `u` hold, in their first `n`
/// entries, the labels and predecessors of one relaxation step of the model.
proof fn lemma_relax_labels(
    g: CsrGraph,
    w: Seq<u64>,
    en: Option<Seq<bool>>,
    u: int,
    d0: Seq<u64>,
    p0: Seq<usize>,
    h0: Map<usize, u64>,
    d1: Seq<u64>,
    p1: Seq<usize>,
)
    requires
        0 <= u < g.spec_n(),
        d0.len() >= g.spec_n(),
        p0.len() == d0.len(),
        d1.len() == d0.len(),
        p1.len() == d0.len(),
        forall|x: int|
            0 <= x < d0.len() ==> #[trigger] d1[x] == relaxed_label(
                g,
                w,
                en,
                d0[u] as int,
                g.spec_indptr()[u] as int,
                g.spec_indptr()[u + 1] as int,
                x,
                d0[x] as int,
            ),
        forall|x: int| 0 <= x < d0.len() ==> #[trigger] p1[x] == if d1[x] < d0[x] { u as usize } else { p0[x] },
    ensures
        relax_step(g, w, en, model_of(g.spec_n(), d0, p0, h0), u).0 == d1.subrange(0, g.spec_n() as int),
        relax_step(g, w, en, model_of(g.spec_n(), d0, p0, h0), u).1 == p1.subrange(0, g.spec_n() as int),
{
    let n = g.spec_n();
    let m0 = model_of(n, d0, p0, h0);
    let r = relax_step(g, w, en, m0, u);
    assert(m0.0[u] == d0[u]);
    assert forall|x: int| 0 <= x < n implies #[trigger] r.0[x] == d1[x] by {
        assert(m0.0[x] == d0[x]);
    }
    assert(r.0 =~= d1.subrange(0, n as int));
    assert forall|x: int| 0 <= x < n implies #[trigger] r.1[x] == p1[x] by {
        assert(m0.0[x] == d0[x]);
        assert(m0.1[x] == p0[x]);
        assert(r.0[x] == d1[x]);
    }
    assert(r.1 =~= p1.subrange(0, n as int));
}

/// What `relax_edges` does to the buffers is one relaxation step of the
/// model.
proof fn lemma_relax_is_step(
    g: CsrGraph,
    w: Seq<u64>,
    en: Option<Seq<bool>>,
    u: int,
    d0: Seq<u64>,
    p0: Seq<usize>,
    h0: Map<usize, u64>,
    d1: Seq<u64>,
    p1: Seq<usize>,
    h1: Map<usize, u64>,
)
    requires
        0 <= u < g.spec_n(),
        d0.len() >= g.spec_n(),
        p0.len() == d0.len(),
        d1.len() == d0.len(),
        p1.len() == d0.len(),
        forall|v: usize| #[trigger] h0.contains_key(v) ==> (v as int) < g.spec_n(),
        forall|v: usize| #[trigger] h1.contains_key(v) ==> (v as int) < g.spec_n(),
        forall|x: int|
            0 <= x < d0.len() ==> #[trigger] d1[x] == relaxed_label(
                g,
                w,
                en,
                d0[u] as int,
                g.spec_indptr()[u] as int,
                g.spec_indptr()[u + 1] as int,
                x,
                d0[x] as int,
            ),
        forall|x: int| 0 <= x < d0.len() ==> #[trigger] p1[x] == if d1[x] < d0[x] { u as usize } else { p0[x] },
        forall|v: usize|
            #[trigger] h1.contains_key(v) <==> h0.contains_key(v) || ((v as int) < d0.len() && d1[v as int]
                < d0[v as int]),
        forall|v: usize| #[trigger]
            h1.contains_key(v) ==> h1[v] == if (v as int) < d0.len() && d1[v as int] < d0[v as int] {
                d1[v as int]
            } else {
                h0[v]
            },
    ensures
        model_of(g.spec_n(), d1, p1, h1) == relax_step(g, w, en, model_of(g.spec_n(), d0, p0, h0), u),
{
    let n = g.spec_n();
    let m0 = model_of(n, d0, p0, h0);
    let r = relax_step(g, w, en, m0, u);
    assert(m0.0[u] == d0[u]);
    assert forall|x: int| 0 <= x < n implies #[trigger] r.0[x] == d1[x] by {
        assert(m0.0[x] == d0[x]);
    }
    assert(r.0 =~= d1.subrange(0, n as int));
    assert forall|x: int| 0 <= x < n implies #[trigger] r.1[x] == p1[x] by {
        assert(m0.0[x] == d0[x]);
        assert(m0.1[x] == p0[x]);
        assert(r.0[x] == d1[x]);
    }
    assert(r.1 =~= p1.subrange(0, n as int));
    assert forall|v: usize| #[trigger] r.2.contains_key(v) <==> h1.contains_key(v) by {
        if (v as int) < n {
            assert(r.0[v as int] == d1[v as int]);
            assert(m0.0[v as int] == d0[v as int]);
        }
    }
    assert forall|v: usize| #[trigger] r.2.contains_key(v) implies r.2[v] == h1[v] by {
        if (v as int) < n {
            assert(r.0[v as int] == d1[v as int]);
            assert(m0.0[v as int] == d0[v as int]);
        }
    }
    assert(r.2 =~= h1);
}

/// Relaxes every enabled out-edge of `u`: where the edge offers a shorter
/// distance to its target, the target takes it, records `u` as its
/// predecessor, and enters the frontier.
pub(crate) fn relax_edges<H: Frontier>(
    graph: &CsrGraph,
    weights: &[u64],
    enabled: Option<&[bool]>,
    u: usize,
    dist: &mut Vec<u64>,
    pred: &mut Vec<usize>,
    heap: &mut H,
    Ghost(s): Ghost<int>,
    Ghost(pedge): Ghost<Seq<int>>,
    Ghost(stamp): Ghost<Seq<nat>>,
    Ghost(time): Ghost<nat>,
) -> (r: (bool, Ghost<(Seq<int>, Seq<nat>, nat)>))
    requires
        graph.wf(),
        (u as int) < graph.spec_n(),
        weights@.len() == graph.spec_indices().len(),
        enabled matches Some(mask) ==> mask@.len() == weights@.len(),
        old(dist)@.len() >= graph.spec_n(),
        old(pred)@.len() == old(dist)@.len(),
        old(heap).frontier_wf(),
    ensures
        labels_inv(*graph, weights@, mask_view(enabled), s, old(dist)@, old(pred)@, pedge, stamp, time)
            ==> labels_inv(*graph, weights@, mask_view(enabled), s, final(dist)@, final(pred)@, r.1@.0, r.1@.1, r.1@.2),
        final(heap).frontier_wf(),
        settled(*graph, weights@, mask_view(enabled), final(dist)@, u as int),
        final(dist)@[u as int] == old(dist)@[u as int],
        frontier_current(graph.spec_n(), old(dist)@, old(heap).contents()) ==> {
            &&& lowered(old(dist)@, final(dist)@, old(heap).contents(), final(heap).contents())
            &&& frontier_current(graph.spec_n(), final(dist)@, final(heap).contents())
        },
        final(pred)@.len() == old(pred)@.len(),
        final(dist)@.len() == old(dist)@.len(),
        r.0 <==> final(dist)@ != old(dist)@,
        forall|x: int|
            graph.spec_n() <= x < old(dist)@.len() ==> #[trigger] final(dist)@[x] == old(dist)@[x],
        forall|x: int|
            0 <= x < old(dist)@.len() ==> #[trigger] final(dist)@[x] == relaxed_label(
                *graph,
                weights@,
                mask_view(enabled),
                old(dist)@[u as int] as int,
                graph.spec_indptr()[u as int] as int,
                graph.spec_indptr()[u as int + 1] as int,
                x,
                old(dist)@[x] as int,
            ),
        forall|x: int|
            0 <= x < old(dist)@.len() ==> #[trigger] final(pred)@[x] == if final(dist)@[x] < old(dist)@[x] {
                u
            } else {
                old(pred)@[x]
            },
        forall|v: usize|
            #[trigger] final(heap).contents().contains_key(v) <==> old(heap).contents().contains_key(v) || ((v as int) < old(
                dist,
            )@.len() && final(dist)@[v as int] < old(dist)@[v as int]),
        forall|v: usize| #[trigger]
            final(heap).contents().contains_key(v) ==> final(heap).contents()[v] == if (v as int) < old(dist)@.len()
                && final(dist)@[v as int] < old(dist)@[v as int] {
                final(dist)@[v as int]
            } else {
                old(heap).contents()[v]
            },
{
    let ghost g = *graph;
    let ghost w = weights@;
    let ghost en = mask_view(enabled);
    let ghost d0 = dist@;
    let ghost p0 = pred@;
    let ghost h0 = heap.contents();
    let ghost mut pe = pedge;
    let ghost mut st = stamp;
    let ghost mut tm = time;
    let (start, end) = graph.edge_range(u);
    let du = dist[u];
    let indices = graph.indices();
    let mut any = false;
    let mut e: usize = start;
    while e < end
        invariant
            dist@.len() == d0.len(),
            pred@.len() == p0.len(),
            p0.len() == d0.len(),
            d0.len() >= g.spec_n(),
            g.wf(),
            w.len() == g.spec_indices().len(),
            enabled matches Some(mask) ==> mask@.len() == w.len(),
            forall|i: int| 0 <= i < d0.len() ==> #[trigger] dist@[i] <= d0[i],
            any ==> seq_sum(dist@) < seq_sum(d0),
            !any ==> dist@ == d0,
            forall|x: int| g.spec_n() <= x < d0.len() ==> #[trigger] dist@[x] == d0[x],
            forall|x: int|
                0 <= x < d0.len() ==> #[trigger] dist@[x] == relaxed_label(
                    g,
                    w,
                    en,
                    du as int,
                    start as int,
                    e as int,
                    x,
                    d0[x] as int,
                ),
            forall|x: int|
                0 <= x < d0.len() ==> #[trigger] pred@[x] == if dist@[x] < d0[x] {
                    u
                } else {
                    p0[x]
                },
            forall|v: usize|
                #[trigger] heap.contents().contains_key(v) <==> h0.contains_key(v) || ((v as int) < d0.len()
                    && dist@[v as int] < d0[v as int]),
            forall|v: usize| #[trigger]
                heap.contents().contains_key(v) ==> heap.contents()[v] == if (v as int) < d0.len() && dist@[v as int]
                    < d0[v as int] {
                    dist@[v as int]
                } else {
                    h0[v]
                },
            start <= e <= end,
            start == g.spec_indptr()[u as int],
            end == g.spec_indptr()[u as int + 1],
            end <= g.spec_indices().len(),
            indices@ == g.spec_indices(),
            g == *graph,
            w == weights@,
            en == mask_view(enabled),
            (u as int) < g.spec_n(),
            labels_inv(g, w, en, s, d0, p0, pedge, stamp, time) ==> labels_inv(g, w, en, s, dist@, pred@, pe, st, tm),
            heap.frontier_wf(),
            du == dist@[u as int],
            du == d0[u as int],
            forall|f: int|
                start <= f < e && edge_enabled(en, f) ==> #[trigger] dist@[g.spec_indices()[f] as int] <= du
                    + w[f],
        decreases end - e,
    {
        let on = match enabled {
            Some(mask) => mask[e],
            None => true,
        };
        if on {
            let v = indices[e];
            let wt = weights[e];
            let dv = dist[v];
            if du < dv && wt < dv - du {
                let nd = du + wt;
                let ghost d1 = dist@;
                let ghost p1 = pred@;
                dist.set(v, nd);
                pred.set(v, u);
                heap.push_label(v, nd);
                any = true;
                proof {
                    let vi = v as int;
                    assert(vi != u as int);
                    let pe1 = pe;
                    let st1 = st;
                    pe = pe.update(vi, e as int);
                    st = st.update(vi, tm);
                    tm = tm + 1;
                    if labels_inv(g, w, en, s, d0, p0, pedge, stamp, time) {
                    assert(labels_inv(g, w, en, s, d1, p1, pe1, st1, (tm - 1) as nat));
                    assert(vi != s);
                    assert(is_step(g, en, u as int, e as int, vi));
                    assert forall|x: int|
                        0 <= x < g.spec_n() && x != s && #[trigger] dist@[x] < INFINITY implies pred_link(
                        g,
                        w,
                        en,
                        dist@,
                        pred@,
                        pe,
                        st,
                        x,
                    ) by {
                        if x != vi {
                            assert(d1[x] == dist@[x]);
                            assert(pred_link(g, w, en, d1, p1, pe1, st1, x));
                        }
                    }
                    }
                    assert forall|f: int|
                        start <= f < e + 1 && edge_enabled(en, f) implies #[trigger] dist@[g.spec_indices()[f] as int]
                        <= du + w[f] by {
                        let t = g.spec_indices()[f] as int;
                        if f < e {
                            assert(d1[t] <= du + w[f]);
                        }
                    }
                    assert(dist@ != d1) by {
                        assert(dist@[vi] != d1[vi]);
                    }
                    let dd = dist@;
                    assert forall|i: int| 0 <= i < d0.len() implies #[trigger] dd[i] <= d0[i] by {
                        assert(d1[i] <= d0[i]);
                    }
                    lemma_sum_monotone(dd, d1);
                    lemma_sum_monotone(d1, d0);
                }
            }
        }
        e = e + 1;
    }
    proof {
        if any {
            assert(dist@ != d0);
        }
        if frontier_current(g.spec_n(), d0, h0) {
            let h1 = heap.contents();
            assert forall|v: usize| #[trigger] h1.contains_key(v) implies (v as int) < dist@.len() && h1[v]
                == dist@[v as int] by {
                if !((v as int) < d0.len() && dist@[v as int] < d0[v as int]) {
                    assert(h0.contains_key(v));
                    assert(dist@[v as int] <= d0[v as int]);
                }
            }
            if dist@ == d0 {
                assert(h1 =~= h0);
            }
            assert(lowered(d0, dist@, h0, h1));
            assert forall|v: usize| #[trigger] h1.contains_key(v) implies (v as int) < g.spec_n() && h1[v]
                == dist@[v as int] by {
                if !h0.contains_key(v) {
                    assert(dist@[v as int] < d0[v as int]);
                }
            }
        }
    }
    (any, Ghost((pe, st, tm)))
}

/// Once the first entry of the block remainder has been handled (its vertex
/// is settled, or its label has dropped below the entry's), the rest of the
/// remainder still accounts for every vertex.
proof fn lemma_pending_advance(
    g: CsrGraph,
    w: Seq<u64>,
    en: Option<Seq<bool>>,
    dist: Seq<u64>,
    h: Map<usize, u64>,
    rest: Seq<(usize, u64)>,
    d: u64,
)
    requires
        g.wf(),
        rest.len() > 0,
        rest[0].1 == d,
        frontier_ok(g, w, en, dist, h, rest),
        d <= dist[rest[0].0 as int] ==> settled(g, w, en, dist, rest[0].0 as int),
        forall|a: int, b: int| 0 <= a < b < rest.len() ==> (#[trigger] rest[a]).0 != (#[trigger] rest[b]).0,
    ensures
        frontier_ok(g, w, en, dist, h, rest.subrange(1, rest.len() as int)),
{
    let next = rest.subrange(1, rest.len() as int);
    let u = rest[0].0;
    assert forall|i: int| 0 <= i < next.len() implies ((#[trigger] next[i]).0 as int) < g.spec_n()
        && dist[next[i].0 as int] <= next[i].1 by {
        assert(next[i] == rest[i + 1]);
    }
    assert forall|x: int| 0 <= x < g.spec_n() implies #[trigger] covered(g, w, en, dist, h, next, x) by {
        assert(covered(g, w, en, dist, h, rest, x));
        if rest.contains((x as usize, dist[x])) && !h.contains_key(x as usize) && !settled(g, w, en, dist, x) {
            let i = choose|i: int| 0 <= i < rest.len() && rest[i] == (x as usize, dist[x]);
            if i == 0 {
                assert(x == u as int);
            } else {
                assert(next[i - 1] == rest[i]);
            }
        }
    }
}

/// At the start of a search every vertex but the source is unreached, hence
/// settled, and the source waits in the frontier.
proof fn lemma_start_covered(
    g: CsrGraph,
    w: Seq<u64>,
    en: Option<Seq<bool>>,
    s: usize,
    dist: Seq<u64>,
    h: Map<usize, u64>,
)
    requires
        g.wf(),
        (s as int) < g.spec_n(),
        dist.len() >= g.spec_n(),
        forall|u: int| 0 <= u < g.spec_n() && u != s as int ==> #[trigger] dist[u] == INFINITY,
        dist[s as int] == 0,
        h == Map::<usize, u64>::empty().insert(s, 0),
    ensures
        frontier_ok(g, w, en, dist, h, Seq::empty()),
{
    assert forall|u: int| 0 <= u < g.spec_n() implies #[trigger] covered(g, w, en, dist, h, Seq::empty(), u) by {
        if u != s as int {
            assert(dist[u] == INFINITY);
            assert forall|e: int|
                g.spec_indptr()[u] <= e < g.spec_indptr()[u + 1] && edge_enabled(en, e) implies #[trigger] dist[g.spec_indices()[e] as int]
                <= dist[u] + w[e] by {
                g.lemma_row_bounds(u + 1);
                assert(g.spec_indptr()[u] <= g.spec_indptr()[u + 1]);
            }
        } else {
            assert(h.contains_key(s));
        }
    }
}

/// A frontier that keeps no entries: full relaxation passes revisit every
/// vertex, so they need no queue. What it is handed is recorded in ghost
/// state only.
struct PassFrontier {
    pushed: Ghost<Map<usize, u64>>,
}

impl Frontier for PassFrontier {
    closed spec fn contents(&self) -> Map<usize, u64> {
        self.pushed@
    }

    closed spec fn frontier_wf(&self) -> bool {
        true
    }

    fn push_label(&mut self, vertex: usize, distance: u64) {
        self.pushed = Ghost(self.pushed@.insert(vertex, distance));
    }
}

/// Runs passes of full edge relaxation over every reached vertex until a
/// pass lowers no label.
#[verifier::rlimit(100)]
fn relax_until_stable(
    graph: &CsrGraph,
    weights: &[u64],
    enabled: Option<&[bool]>,
    dist: &mut Vec<u64>,
    pred: &mut Vec<usize>,
    Ghost(s): Ghost<int>,
    Ghost(pedge): Ghost<Seq<int>>,
    Ghost(stamp): Ghost<Seq<nat>>,
    Ghost(time): Ghost<nat>,
    Ghost(hm): Ghost<Map<usize, u64>>,
) -> (r: Ghost<(Seq<int>, Seq<nat>, nat, nat)>)
    requires
        labels_inv(*graph, weights@, mask_view(enabled), s, old(dist)@, old(pred)@, pedge, stamp, time),
    ensures
        labels_inv(*graph, weights@, mask_view(enabled), s, final(dist)@, final(pred)@, r@.0, r@.1, r@.2),
        final(dist)@.len() == old(dist)@.len(),
        forall|u: int|
            0 <= u < graph.spec_n() ==> #[trigger] settled(*graph, weights@, mask_view(enabled), final(dist)@, u),
        forall|f: nat|
            f >= r@.3 ==> {
                let m = #[trigger] run_passes(
                    *graph,
                    weights@,
                    mask_view(enabled),
                    model_of(graph.spec_n(), old(dist)@, old(pred)@, hm),
                    f,
                );
                &&& m.0 == final(dist)@.subrange(0, graph.spec_n() as int)
                &&& m.1 == final(pred)@.subrange(0, graph.spec_n() as int)
            },
{
    let ghost g = *graph;
    let ghost w = weights@;
    let ghost en = mask_view(enabled);
    let ghost mut pe = pedge;
    let ghost mut st = stamp;
    let ghost mut tm = time;
    let ghost len0 = dist@.len();
    let n = graph.num_vertices();
    let ghost m_in = model_of(n as nat, dist@, pred@, hm);
    let ghost mut gh = hm;
    let ghost mut it: nat = 0;
    let mut changed = true;
    while changed
        invariant
            g == *graph,
            w == weights@,
            en == mask_view(enabled),
            n == g.spec_n(),
            labels_inv(g, w, en, s, dist@, pred@, pe, st, tm),
            dist@.len() == len0,
            !changed ==> forall|u: int| 0 <= u < g.spec_n() ==> #[trigger] settled(g, w, en, dist@, u),
            changed ==> forall|f: nat|
                f >= it ==> #[trigger] run_passes(g, w, en, m_in, f) == run_passes(
                    g,
                    w,
                    en,
                    model_of(n as nat, dist@, pred@, gh),
                    (f - it) as nat,
                ),
            !changed ==> forall|f: nat|
                f >= it ==> {
                    let m = #[trigger] run_passes(g, w, en, m_in, f);
                    &&& m.0 == dist@.subrange(0, n as int)
                    &&& m.1 == pred@.subrange(0, n as int)
                },
        decreases seq_sum(dist@) + if changed { 1int } else { 0int },
    {
        let ghost d0 = dist@;
        let ghost mp = model_of(n as nat, dist@, pred@, gh);
        assert(forall|f: nat|
            f >= it ==> #[trigger] run_passes(g, w, en, m_in, f) == run_passes(g, w, en, mp, (f - it) as nat));
        changed = false;
        let mut u: usize = 0;
        while u < n
            invariant
                u <= n,
                g == *graph,
                w == weights@,
                en == mask_view(enabled),
                n == g.spec_n(),
                labels_inv(g, w, en, s, dist@, pred@, pe, st, tm),
                dist@.len() == d0.len(),
                forall|i: int| 0 <= i < d0.len() ==> #[trigger] dist@[i] <= d0[i],
                forall|x: int| n <= x < d0.len() ==> #[trigger] dist@[x] == d0[x],
                changed ==> seq_sum(dist@) < seq_sum(d0),
                !changed ==> dist@ == d0,
                !changed ==> forall|x: int| 0 <= x < u ==> #[trigger] settled(g, w, en, dist@, x),
                pass_from(g, w, en, model_of(n as nat, dist@, pred@, gh), u as nat) == pass_from(g, w, en, mp, 0),
            decreases n - u,
        {
            let ghost mcur = model_of(n as nat, dist@, pred@, gh);
            let ghost d1 = dist@;
            let ghost p1 = pred@;
            assert(mcur.0[u as int] == dist@[u as int]);
            if dist[u] != INFINITY {
                let mut frontier = PassFrontier { pushed: Ghost(Map::empty()) };
                let (lowered_any, out) = relax_edges(
                    graph,
                    weights,
                    enabled,
                    u,
                    dist,
                    pred,
                    &mut frontier,
                    Ghost(s),
                    Ghost(pe),
                    Ghost(st),
                    Ghost(tm),
                );
                if lowered_any {
                    changed = true;
                }
                proof {
                    pe = out@.0;
                    st = out@.1;
                    tm = out@.2;
                    lemma_relax_labels(g, w, en, u as int, d1, p1, gh, dist@, pred@);
                    gh = relax_step(g, w, en, mcur, u as int).2;
                    assert(model_of(n as nat, dist@, pred@, gh) == relax_step(g, w, en, mcur, u as int));
                    assert forall|i: int| 0 <= i < d0.len() implies #[trigger] dist@[i] <= d0[i] by {
                        assert(dist@[i] <= d1[i]);
                    }
                    if lowered_any {
                        lemma_sum_monotone(dist@, d1);
                        lemma_sum_monotone(d1, d0);
                    }
                    assert forall|x: int| 0 <= x < u + 1 && !changed implies #[trigger] settled(g, w, en, dist@, x) by {
                        if x < u {
                            assert(settled(g, w, en, d1, x));
                        }
                    }
                }
            } else {
                proof {
                    assert forall|f: int|
                        g.spec_indptr()[u as int] <= f < g.spec_indptr()[u as int + 1] && edge_enabled(en, f) implies #[trigger] dist@[g.spec_indices()[f] as int]
                        <= dist@[u as int] + w[f] by {
                        g.lemma_row_bounds(u as int + 1);
                        assert(g.spec_indptr()[u as int] <= g.spec_indptr()[u as int + 1]);
                    }
                }
            }
            proof {
                assert(settled(g, w, en, dist@, u as int));
                assert(pass_from(g, w, en, mcur, u as nat) == pass_from(
                    g,
                    w,
                    en,
                    model_of(n as nat, dist@, pred@, gh),
                    (u + 1) as nat,
                ));
            }
            u = u + 1;
        }
        proof {
            let mend = model_of(n as nat, dist@, pred@, gh);
            assert(mend == pass_from(g, w, en, mp, 0));
            if changed {
                if mend.0 == mp.0 {
                    assert forall|x: int| 0 <= x < d0.len() implies dist@[x] == d0[x] by {
                        if x < n {
                            assert(mend.0[x] == mp.0[x]);
                        }
                    }
                    assert(dist@ =~= d0);
                }
            }
            assert forall|f: nat| f >= it + 1 && changed implies #[trigger] run_passes(g, w, en, m_in, f)
                == run_passes(g, w, en, mend, (f - (it + 1)) as nat) by {
                assert(run_passes(g, w, en, m_in, f) == run_passes(g, w, en, mp, (f - it) as nat));
            }
            assert forall|f: nat| f >= it + 1 && !changed implies {
                let m = #[trigger] run_passes(g, w, en, m_in, f);
                &&& m.0 == dist@.subrange(0, n as int)
                &&& m.1 == pred@.subrange(0, n as int)
            } by {
                assert(run_passes(g, w, en, m_in, f) == run_passes(g, w, en, mp, (f - it) as nat));
            }
            it = it + 1;
        }
    }
    Ghost((pe, st, tm, it))
}

/// Advances the frontier a block of up to `k` entries at a time until it
/// is empty; an entry whose label has dropped since it was queued is
/// skipped, the others have their out-edges relaxed.
#[verifier::rlimit(100)]
fn settle_blocks(
    graph: &CsrGraph,
    weights: &[u64],
    enabled: Option<&[bool]>,
    k: usize,
    dist: &mut Vec<u64>,
    pred: &mut Vec<usize>,
    heap: &mut FastBlockHeap,
    Ghost(s): Ghost<int>,
    Ghost(pedge): Ghost<Seq<int>>,
    Ghost(stamp): Ghost<Seq<nat>>,
    Ghost(time): Ghost<nat>,
) -> (r: Ghost<(Seq<int>, Seq<nat>, nat, nat)>)
    requires
        k >= 1,
        labels_inv(*graph, weights@, mask_view(enabled), s, old(dist)@, old(pred)@, pedge, stamp, time),
        old(heap).wf(),
        frontier_ok(*graph, weights@, mask_view(enabled), old(dist)@, old(heap)@, Seq::empty()),
    ensures
        labels_inv(*graph, weights@, mask_view(enabled), s, final(dist)@, final(pred)@, r@.0, r@.1, r@.2),
        final(heap).wf(),
        final(dist)@.len() == old(dist)@.len(),
        forall|u: int|
            0 <= u < graph.spec_n() ==> #[trigger] settled(*graph, weights@, mask_view(enabled), final(dist)@, u),
        forall|f: nat|
            f >= r@.3 ==> #[trigger] run_blocks(
                *graph,
                weights@,
                mask_view(enabled),
                k,
                model_of(graph.spec_n(), old(dist)@, old(pred)@, old(heap)@),
                f,
            ) == model_of(graph.spec_n(), final(dist)@, final(pred)@, final(heap)@),
{
    let ghost g = *graph;
    let ghost w = weights@;
    let ghost en = mask_view(enabled);
    let ghost mut pe = pedge;
    let ghost mut st = stamp;
    let ghost mut tm = time;
    let ghost len0 = dist@.len();
    let ghost n = g.spec_n();
    let ghost m_in = model_of(n, dist@, pred@, heap@);
    let ghost mut it: nat = 0;
    while !heap.is_empty()
        invariant
            dist@.len() == len0,
            n == g.spec_n(),
            forall|f: nat|
                f >= it ==> #[trigger] run_blocks(g, w, en, k, m_in, f) == run_blocks(
                    g,
                    w,
                    en,
                    k,
                    model_of(n, dist@, pred@, heap@),
                    (f - it) as nat,
                ),
            k >= 1,
            g == *graph,
            w == weights@,
            en == mask_view(enabled),
            labels_inv(g, w, en, s, dist@, pred@, pe, st, tm),
            heap.wf(),
            frontier_ok(g, w, en, dist@, heap@, Seq::empty()),
        decreases seq_sum(dist@), heap@.len(),
    {
        let ghost d0 = dist@;
        let ghost p0 = pred@;
        let ghost h0 = heap@;
        let ghost m0 = model_of(n, d0, p0, h0);
        proof {
            heap.lemma_finite();
        }
        let (block, _next) = heap.pop_block(k);
        let ghost h1 = heap@;
        proof {
            assert(block@.len() >= 1);
            let x = block@[0].0;
            assert(block_has(block@, x));
            assert(h1.dom().subset_of(h0.dom().remove(x)));
            vstd::set_lib::lemma_len_subset(h1.dom(), h0.dom().remove(x));
            assert(h1.len() < h0.len());
            assert forall|u: int| 0 <= u < g.spec_n() implies #[trigger] covered(g, w, en, dist@, h1, block@, u) by {
                assert(covered(g, w, en, dist@, h0, Seq::empty(), u));
                if h0.contains_key(u as usize) && !h1.contains_key(u as usize) {
                    let i = choose|i: int| 0 <= i < block@.len() && (#[trigger] block@[i]).0 == u as usize;
                    assert(h0.contains_key(block@[i].0) && h0[block@[i].0] == block@[i].1);
                    assert(h0[u as usize] == dist@[u]);
                    assert(block@[i] == (u as usize, dist@[u]));
                }
            }
            assert(lowered(d0, dist@, h1, heap@));
            assert forall|i: int| 0 <= i < block@.len() implies ((#[trigger] block@[i]).0 as int) < g.spec_n()
                && dist@[block@[i].0 as int] <= block@[i].1 by {
                assert(h0.contains_key(block@[i].0) && h0[block@[i].0] == block@[i].1);
            }
            assert forall|a: int, b: int| 0 <= a < b < block@.len() implies (#[trigger] block@[a]).0
                != (#[trigger] block@[b]).0 by {
                assert(entry_before(block@[a], block@[b]));
                assert(h0[block@[a].0] == block@[a].1);
            }
            assert(block@.subrange(0, block@.len() as int) =~= block@);
        }
        let mut j: usize = 0;
        while j < block.len()
            invariant
                j <= block@.len(),
                g == *graph,
                w == weights@,
                en == mask_view(enabled),
                labels_inv(g, w, en, s, dist@, pred@, pe, st, tm),
                heap.wf(),
                frontier_ok(g, w, en, dist@, heap@, block@.subrange(j as int, block@.len() as int)),
                forall|a: int, b: int|
                    0 <= a < b < block@.len() ==> (#[trigger] block@[a]).0 != (#[trigger] block@[b]).0,
                lowered(d0, dist@, h1, heap@),
                d0.len() == len0,
                n == g.spec_n(),
                process_block(g, w, en, model_of(n, dist@, pred@, heap@), block@, j as nat) == process_block(
                    g,
                    w,
                    en,
                    (m0.0, m0.1, h1),
                    block@,
                    0,
                ),
            decreases block@.len() - j,
        {
            let ghost rest = block@.subrange(j as int, block@.len() as int);
            let ghost next_rest = block@.subrange(j as int + 1, block@.len() as int);
            let (u, d) = block[j];
            assert(rest[0] == (u, d));
            assert forall|a: int, b: int| 0 <= a < b < rest.len() implies (#[trigger] rest[a]).0
                != (#[trigger] rest[b]).0 by {
                assert(rest[a] == block@[a + j] && rest[b] == block@[b + j]);
            }
            let ghost mcur = model_of(n, dist@, pred@, heap@);
            assert(mcur.0[u as int] == dist@[u as int]);
            if d <= dist[u] {
                let ghost d1 = dist@;
                let ghost pp = pred@;
                let ghost hh = heap@;
                let (_lowered, out) = relax_edges(
                    graph,
                    weights,
                    enabled,
                    u,
                    dist,
                    pred,
                    heap,
                    Ghost(s),
                    Ghost(pe),
                    Ghost(st),
                    Ghost(tm),
                );
                proof {
                    pe = out@.0;
                    st = out@.1;
                    tm = out@.2;
                    lemma_frontier_lowered(g, w, en, d1, dist@, hh, heap@, rest);
                    lemma_lowered_trans(d0, d1, dist@, h1, hh, heap@);
                    lemma_relax_is_step(g, w, en, u as int, d1, pp, hh, dist@, pred@, heap@);
                }
            }
            assert(process_block(g, w, en, mcur, block@, j as nat) == process_block(
                g,
                w,
                en,
                model_of(n, dist@, pred@, heap@),
                block@,
                (j + 1) as nat,
            ));
            proof {
                lemma_pending_advance(g, w, en, dist@, heap@, rest, d);
                assert(next_rest =~= rest.subrange(1, rest.len() as int));
            }
            j = j + 1;
        }
        proof {
            if dist@ == d0 {
                assert(heap@ == h1);
            } else {
                lemma_sum_monotone(dist@, d0);
            }
            assert(block@.subrange(block@.len() as int, block@.len() as int) =~= Seq::<(usize, u64)>::empty());
            let mend = model_of(n, dist@, pred@, heap@);
            assert(mend == process_block(g, w, en, (m0.0, m0.1, h1), block@, 0));
            let (bb, rr) = choose|bb: Seq<(usize, u64)>, rr: Map<usize, u64>| #[trigger] is_min_block(h0, k, bb, rr);
            lemma_min_block_unique(h0, k, block@, h1, bb, rr);
            assert(mend == block_step(g, w, en, k, m0));
            assert(!h0.dom().is_empty());
            assert forall|f: nat| f >= it + 1 implies #[trigger] run_blocks(g, w, en, k, m_in, f) == run_blocks(
                g,
                w,
                en,
                k,
                mend,
                (f - (it + 1)) as nat,
            ) by {
                assert(run_blocks(g, w, en, k, m_in, f) == run_blocks(g, w, en, k, m0, (f - it) as nat));
                assert(run_blocks(g, w, en, k, m0, (f - it) as nat) == run_blocks(
                    g,
                    w,
                    en,
                    k,
                    block_step(g, w, en, k, m0),
                    (f - it - 1) as nat,
                ));
            }
            it = it + 1;
        }
    }
    proof {
        assert forall|u: int| 0 <= u < g.spec_n() implies #[trigger] settled(g, w, en, dist@, u) by {
            assert(covered(g, w, en, dist@, heap@, Seq::empty(), u));
        }
    }
    proof {
        let mend = model_of(n, dist@, pred@, heap@);
        assert forall|f: nat| f >= it implies #[trigger] run_blocks(g, w, en, k, m_in, f) == mend by {
            assert(run_blocks(g, w, en, k, m_in, f) == run_blocks(g, w, en, k, mend, (f - it) as nat));
        }
    }
    Ghost((pe, st, tm, it))
}

/// Buffers set up for a search from `s` are, in the model, its starting
/// state.
proof fn lemma_model_start(g: CsrGraph, s: int, di: Seq<u64>, pi: Seq<usize>)
    requires
        0 <= s < g.spec_n(),
        di.len() >= g.spec_n(),
        pi.len() == di.len(),
        forall|x: int| 0 <= x < g.spec_n() && x != s ==> #[trigger] di[x] == INFINITY,
        forall|x: int| 0 <= x < g.spec_n() && x != s ==> #[trigger] pi[x] == NO_PREDECESSOR,
        di[s] == 0,
        pi[s] == s,
    ensures
        model_of(g.spec_n(), di, pi, Map::empty().insert(s as usize, 0u64)) == start_state(g, s),
{
    let n = g.spec_n() as int;
    let st0 = start_state(g, s);
    assert(di.subrange(0, n) =~= st0.0);
    assert(pi.subrange(0, n) =~= st0.1);
}

/// Block-frontier shortest paths from `source`, with the predecessor of
/// each vertex on a shortest path. Edges masked off by `enabled` take no
/// part. Unreached vertices get `INFINITY` and `NO_PREDECESSOR`. Graphs of
/// at most four vertices skip the frontier: full relaxation passes run
/// until one lowers no label.
pub fn bmssp_sssp_with_preds(
    graph: &CsrGraph,
    weights: &[u64],
    source: usize,
    enabled: Option<&[bool]>,
) -> (r: Result<(Vec<u64>, Vec<usize>), BmsspError>)
    requires
        graph.wf(),
    ensures
        match r {
            Ok((dist, pred)) => {
                &&& valid_search(*graph, weights@, source as int, mask_view(enabled))
                &&& shortest_distances(*graph, weights@, mask_view(enabled), source as int, dist@)
                &&& valid_predecessors(*graph, weights@, mask_view(enabled), source as int, dist@, pred@)
                &&& search_result(*graph, weights@, mask_view(enabled), source as int, dist@, pred@)
            },
            Err(e) => refusal(*graph, weights@.len(), source, mask_view(enabled), e),
        },
{
    match validate_search(graph, weights, source, enabled) {
        Ok(()) => {},
        Err(e) => {
            return Err(e);
        },
    }
    let n = graph.num_vertices();
    let mut dist: Vec<u64> = vec![INFINITY; n];
    let mut pred: Vec<usize> = vec![NO_PREDECESSOR; n];
    dist.set(source, 0);
    pred.set(source, source);
    let ghost pe: Seq<int> = Seq::new(n as nat, |i: int| 0int);
    let ghost st: Seq<nat> = Seq::new(n as nat, |i: int| 0nat);
    assert(labels_inv(*graph, weights@, mask_view(enabled), source as int, dist@, pred@, pe, st, 1));
    let ghost g = *graph;
    let ghost w = weights@;
    let ghost en = mask_view(enabled);
    let ghost di = dist@;
    let ghost pi = pred@;
    let ghost hm = Map::<usize, u64>::empty().insert(source, 0u64);
    proof {
        lemma_model_start(g, source as int, di, pi);
    }
    let out = if n <= 4 {
        let r = relax_until_stable(
            graph,
            weights,
            enabled,
            &mut dist,
            &mut pred,
            Ghost(source as int),
            Ghost(pe),
            Ghost(st),
            Ghost(1nat),
            Ghost(hm),
        );
        proof {
            assert forall|f: nat| f >= r@.3 implies #[trigger] search_model(g, w, en, source as int, f) == (
                dist@.subrange(0, n as int),
                pred@.subrange(0, n as int),
            ) by {
                let m = run_passes(g, w, en, model_of(n as nat, di, pi, hm), f);
            }
            assert(model_settles_at(
                g,
                w,
                en,
                source as int,
                dist@.subrange(0, n as int),
                pred@.subrange(0, n as int),
                r@.3,
            ));
        }
        r
    } else {
        let params = BmsspParams::from_n(n);
        let mut heap = FastBlockHeap::new();
        heap.push(source, 0);
        proof {
            lemma_block_size_bounds(n as nat);
            lemma_start_covered(*graph, weights@, mask_view(enabled), source, dist@, heap@);
        }
        let r = settle_blocks(
            graph,
            weights,
            enabled,
            params.k,
            &mut dist,
            &mut pred,
            &mut heap,
            Ghost(source as int),
            Ghost(pe),
            Ghost(st),
            Ghost(1nat),
        );
        proof {
            assert(params.k == spec_block_size(n as nat) as usize);
            assert forall|f: nat| f >= r@.3 implies #[trigger] search_model(g, w, en, source as int, f) == (
                dist@.subrange(0, n as int),
                pred@.subrange(0, n as int),
            ) by {
                let m = run_blocks(g, w, en, params.k, model_of(n as nat, di, pi, hm), f);
            }
            assert(model_settles_at(
                g,
                w,
                en,
                source as int,
                dist@.subrange(0, n as int),
                pred@.subrange(0, n as int),
                r@.3,
            ));
        }
        r
    };
    assert(search_result(g, w, en, source as int, dist@.subrange(0, n as int), pred@.subrange(0, n as int)));
    proof {
        lemma_search_done(
            *graph,
            weights@,
            mask_view(enabled),
            source as int,
            dist@,
            pred@,
            out@.0,
            out@.1,
            out@.2,
        );
    }
    proof {
        assert(dist@.subrange(0, n as int) =~= dist@);
        assert(pred@.subrange(0, n as int) =~= pred@);
    }
    Ok((dist, pred))
}

/// Block-frontier shortest distances from `source`.
pub fn bmssp_sssp(graph: &CsrGraph, weights: &[u64], source: usize, enabled: Option<&[bool]>) -> (r: Result<
    Vec<u64>,
    BmsspError,
>)
    requires
        graph.wf(),
    ensures
        match r {
            Ok(dist) => {
                &&& valid_search(*graph, weights@, source as int, mask_view(enabled))
                &&& shortest_distances(*graph, weights@, mask_view(enabled), source as int, dist@)
            },
            Err(e) => refusal(*graph, weights@.len(), source, mask_view(enabled), e),
        },
{
    match bmssp_sssp_with_preds(graph, weights, source, enabled) {
        Ok((dist, _pred)) => Ok(dist),
        Err(e) => Err(e),
    }
}

/// Buffers kept between searches: labels, predecessors and the frontier.
pub struct BmsspState {
    distances: Vec<u64>,
    predecessors: Vec<usize>,
    heap: FastBlockHeap,
}

impl BmsspState {
    pub closed spec fn spec_distances(&self) -> Seq<u64> {
        self.distances@
    }

    pub closed spec fn spec_predecessors(&self) -> Seq<usize> {
        self.predecessors@
    }

    pub closed spec fn spec_frontier(&self) -> Map<usize, u64> {
        self.heap@
    }

    /// The buffers are of one length and the frontier is well formed.
    pub closed spec fn wf(&self) -> bool {
        &&& self.heap.wf()
        &&& self.distances@.len() == self.predecessors@.len()
    }

    /// Buffers for graphs of `n` vertices, at their initial values.
    pub fn new(n: usize) -> (r: BmsspState)
        ensures
            r.wf(),
            r.spec_distances() == Seq::new(n as nat, |i: int| INFINITY),
            r.spec_predecessors() == Seq::new(n as nat, |i: int| NO_PREDECESSOR),
            r.spec_frontier() == Map::<usize, u64>::empty(),
    {
        let distances: Vec<u64> = vec![INFINITY; n];
        let predecessors: Vec<usize> = vec![NO_PREDECESSOR; n];
        assert(distances@ =~= Seq::new(n as nat, |i: int| INFINITY));
        assert(predecessors@ =~= Seq::new(n as nat, |i: int| NO_PREDECESSOR));
        BmsspState { distances, predecessors, heap: FastBlockHeap::new() }
    }

    /// Restores the first `n` entries of the buffers to their initial
    /// values (every label `INFINITY`, every predecessor `NO_PREDECESSOR`),
    /// growing the buffers to length `n` first if they are shorter, and
    /// empties the frontier. Entries beyond `n` are left as they are.
    pub fn reset(&mut self, n: usize)
        requires
            old(self).wf(),
        ensures
            final(self).wf(),
            final(self).spec_distances().len() == if old(self).spec_distances().len() < n {
                n as nat
            } else {
                old(self).spec_distances().len()
            },
            final(self).spec_predecessors().len() == final(self).spec_distances().len(),
            forall|i: int| 0 <= i < n ==> #[trigger] final(self).spec_distances()[i] == INFINITY,
            forall|i: int| 0 <= i < n ==> #[trigger] final(self).spec_predecessors()[i] == NO_PREDECESSOR,
            forall|i: int|
                n <= i < final(self).spec_distances().len() ==> #[trigger] final(self).spec_distances()[i]
                    == old(self).spec_distances()[i] && final(self).spec_predecessors()[i]
                    == old(self).spec_predecessors()[i],
            final(self).spec_frontier() == Map::<usize, u64>::empty(),
    {
        let ghost d0 = self.distances@;
        let ghost p0 = self.predecessors@;
        if self.distances.len() < n {
            self.distances.resize(n, INFINITY);
            self.predecessors.resize(n, NO_PREDECESSOR);
        }
        let mut i: usize = 0;
        while i < n
            invariant
                i <= n,
                n <= self.distances@.len(),
                self.distances@.len() == self.predecessors@.len(),
                p0.len() == d0.len(),
                self.distances@.len() == if d0.len() < n { n as nat } else { d0.len() },
                forall|j: int| 0 <= j < i ==> #[trigger] self.distances@[j] == INFINITY,
                forall|j: int| 0 <= j < i ==> #[trigger] self.predecessors@[j] == NO_PREDECESSOR,
                forall|j: int| n <= j < self.distances@.len() ==> #[trigger] self.distances@[j] == d0[j],
                forall|j: int| n <= j < self.distances@.len() ==> #[trigger] self.predecessors@[j] == p0[j],
            decreases n - i,
        {
            self.distances.set(i, INFINITY);
            self.predecessors.set(i, NO_PREDECESSOR);
            i = i + 1;
        }
        self.heap = FastBlockHeap::new();
    }

    /// The label buffer.
    pub fn distances(&self) -> (r: &[u64])
        ensures
            r@ == self.spec_distances(),
    {
        self.distances.as_slice()
    }

    /// The predecessor buffer.
    pub fn predecessors(&self) -> (r: &[usize])
        ensures
            r@ == self.spec_predecessors(),
    {
        self.predecessors.as_slice()
    }

    /// The frontier buffer.
    pub fn heap(&self) -> (r: &FastBlockHeap)
        ensures
            r@ == self.spec_frontier(),
    {
        &self.heap
    }
}

/// Block-frontier shortest paths from `source` in the buffers of `state`,
/// which are reset first: the same results as `bmssp_sssp_with_preds`,
/// without fresh buffers.
pub fn bmssp_sssp_with_preds_and_state<'a>(
    state: &'a mut BmsspState,
    graph: &CsrGraph,
    weights: &[u64],
    source: usize,
    enabled: Option<&[bool]>,
) -> (r: Result<(&'a [u64], &'a [usize]), BmsspError>)
    requires
        graph.wf(),
        old(state).wf(),
    ensures
        final(state).wf(),
        match r {
            Ok((dist, pred)) => {
                &&& valid_search(*graph, weights@, source as int, mask_view(enabled))
                &&& shortest_distances(*graph, weights@, mask_view(enabled), source as int, dist@)
                &&& valid_predecessors(*graph, weights@, mask_view(enabled), source as int, dist@, pred@)
                &&& search_result(*graph, weights@, mask_view(enabled), source as int, dist@, pred@)
                &&& dist@ == final(state).spec_distances().subrange(0, graph.spec_n() as int)
                &&& pred@ == final(state).spec_predecessors().subrange(0, graph.spec_n() as int)
                &&& final(state).spec_distances().len() == if old(state).spec_distances().len()
                    < graph.spec_n() {
                    graph.spec_n()
                } else {
                    old(state).spec_distances().len()
                }
                &&& final(state).spec_predecessors().len() == final(state).spec_distances().len()
            },
            Err(e) => refusal(*graph, weights@.len(), source, mask_view(enabled), e),
        },
{
    match validate_search(graph, weights, source, enabled) {
        Ok(()) => {},
        Err(e) => {
            return Err(e);
        },
    }
    let n = graph.num_vertices();
    state.reset(n);
    let ghost dr = state.spec_distances();
    let ghost pr = state.spec_predecessors();
    state.distances.set(source, 0);
    state.predecessors.set(source, source);
    proof {
        assert forall|v: int| 0 <= v < n && v != source as int implies #[trigger] state.distances@[v]
            == INFINITY && state.predecessors@[v] == NO_PREDECESSOR by {
            assert(dr[v] == INFINITY);
            assert(pr[v] == NO_PREDECESSOR);
        }
    }
    let ghost pe: Seq<int> = Seq::new(n as nat, |i: int| 0int);
    let ghost st: Seq<nat> = Seq::new(n as nat, |i: int| 0nat);
    assert(labels_inv(
        *graph,
        weights@,
        mask_view(enabled),
        source as int,
        state.distances@,
        state.predecessors@,
        pe,
        st,
        1,
    ));
    let ghost g = *graph;
    let ghost w = weights@;
    let ghost en = mask_view(enabled);
    let ghost di = state.distances@;
    let ghost pi = state.predecessors@;
    let ghost hm = Map::<usize, u64>::empty().insert(source, 0u64);
    proof {
        lemma_model_start(g, source as int, di, pi);
    }
    let out = if n <= 4 {
        let r = relax_until_stable(
            graph,
            weights,
            enabled,
            &mut state.distances,
            &mut state.predecessors,
            Ghost(source as int),
            Ghost(pe),
            Ghost(st),
            Ghost(1nat),
            Ghost(hm),
        );
        proof {
            assert forall|f: nat| f >= r@.3 implies #[trigger] search_model(g, w, en, source as int, f) == (
                state.distances@.subrange(0, n as int),
                state.predecessors@.subrange(0, n as int),
            ) by {
                let m = run_passes(g, w, en, model_of(n as nat, di, pi, hm), f);
            }
            assert(model_settles_at(
                g,
                w,
                en,
                source as int,
                state.distances@.subrange(0, n as int),
                state.predecessors@.subrange(0, n as int),
                r@.3,
            ));
        }
        r
    } else {
        let params = BmsspParams::from_n(n);
        state.heap.push(source, 0);
        proof {
            lemma_block_size_bounds(n as nat);
            lemma_start_covered(*graph, weights@, mask_view(enabled), source, state.distances@, state.heap@);
        }
        let r = settle_blocks(
            graph,
            weights,
            enabled,
            params.k,
            &mut state.distances,
            &mut state.predecessors,
            &mut state.heap,
            Ghost(source as int),
            Ghost(pe),
            Ghost(st),
            Ghost(1nat),
        );
        proof {
            assert(params.k == spec_block_size(n as nat) as usize);
            assert forall|f: nat| f >= r@.3 implies #[trigger] search_model(g, w, en, source as int, f) == (
                state.distances@.subrange(0, n as int),
                state.predecessors@.subrange(0, n as int),
            ) by {
                let m = run_blocks(g, w, en, params.k, model_of(n as nat, di, pi, hm), f);
            }
            assert(model_settles_at(
                g,
                w,
                en,
                source as int,
                state.distances@.subrange(0, n as int),
                state.predecessors@.subrange(0, n as int),
                r@.3,
            ));
        }
        r
    };
    assert(search_result(g, w, en, source as int, state.distances@.subrange(0, n as int), state.predecessors@.subrange(0, n as int)));
    proof {
        lemma_search_done(
            *graph,
            weights@,
            mask_view(enabled),
            source as int,
            state.distances@,
            state.predecessors@,
            out@.0,
            out@.1,
            out@.2,
        );
    }
    Ok((
        slice_subrange(state.distances.as_slice(), 0, n),
        slice_subrange(state.predecessors.as_slice(), 0, n),
    ))
}

/// Block-frontier shortest distances from `source` in the buffers of
/// `state`.
pub fn bmssp_sssp_with_state<'a>(
    state: &'a mut BmsspState,
    graph: &CsrGraph,
    weights: &[u64],
    source: usize,
    enabled: Option<&[bool]>,
) -> (r: Result<&'a [u64], BmsspError>)
    requires
        graph.wf(),
        old(state).wf(),
    ensures
        final(state).wf(),
        match r {
            Ok(dist) => {
                &&& valid_search(*graph, weights@, source as int, mask_view(enabled))
                &&& shortest_distances(*graph, weights@, mask_view(enabled), source as int, dist@)
                &&& dist@ == final(state).spec_distances().subrange(0, graph.spec_n() as int)
                &&& final(state).spec_distances().len() == if old(state).spec_distances().len()
                    < graph.spec_n() {
                    graph.spec_n()
                } else {
                    old(state).spec_distances().len()
                }
                &&& final(state).spec_predecessors().len() == final(state).spec_distances().len()
            },
            Err(e) => refusal(*graph, weights@.len(), source, mask_view(enabled), e),
        },
{
    match bmssp_sssp_with_preds_and_state(state, graph, weights, source, enabled) {
        Ok((dist, _pred)) => Ok(dist),
        Err(e) => Err(e),
    }
}

} // verus!
