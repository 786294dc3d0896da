//! The model that the search algorithms are proved against: enabled edges,
//! walks and their lengths, shortest distances and predecessor trees.

use crate::csr::CsrGraph;
use vstd::prelude::*;

verus! {

/// The distance of a vertex that no walk from the source reaches.
pub const INFINITY: u64 = u64::MAX;

/// The predecessor of a vertex that no walk from the source reaches.
pub const NO_PREDECESSOR: usize = usize::MAX;

/// Edge `e` takes part in the search: there is no mask, or the mask keeps it.
pub open spec fn edge_enabled(enabled: Option<Seq<bool>>, e: int) -> bool {
    match enabled {
        Some(mask) => mask[e],
        None => true,
    }
}

/// Edge `e` is an enabled out-edge of `u` that leads to `v`.
pub open spec fn is_step(g: CsrGraph, enabled: Option<Seq<bool>>, u: int, e: int, v: int) -> bool {
    &&& 0 <= u < g.spec_n()
    &&& g.spec_indptr()[u] <= e < g.spec_indptr()[u + 1]
    &&& g.spec_indices()[e] == v
    &&& edge_enabled(enabled, e)
}

/// `vs` and `es` form a walk from `s` to `t`: vertex `vs[i + 1]` is reached
/// from `vs[i]` through edge `es[i]`.
pub open spec fn is_walk(
    g: CsrGraph,
    enabled: Option<Seq<bool>>,
    s: int,
    t: int,
    vs: Seq<int>,
    es: Seq<int>,
) -> bool {
    &&& vs.len() == es.len() + 1
    &&& vs[0] == s
    &&& vs[es.len() as int] == t
    &&& forall|i: int| 0 <= i < es.len() ==> #[trigger] is_step(g, enabled, vs[i], es[i], vs[i + 1])
}

/// The sum of the weights of the edges `es`.
pub open spec fn walk_len(weights: Seq<u64>, es: Seq<int>) -> int
    decreases es.len(),
{
    if es.len() == 0 {
        0
    } else {
        walk_len(weights, es.drop_last()) + weights[es.last()]
    }
}

/// Some walk leads from `s` to `v`.
pub open spec fn reachable(g: CsrGraph, enabled: Option<Seq<bool>>, s: int, v: int) -> bool {
    exists|vs: Seq<int>, es: Seq<int>| is_walk(g, enabled, s, v, vs, es)
}

/// `d` is the length of a shortest walk from `s` to `v`: no walk is shorter,
/// and unless `d` is `INFINITY` some walk has exactly that length.
pub open spec fn is_shortest(
    g: CsrGraph,
    weights: Seq<u64>,
    enabled: Option<Seq<bool>>,
    s: int,
    v: int,
    d: u64,
) -> bool {
    &&& d < INFINITY ==> exists|vs: Seq<int>, es: Seq<int>|
        is_walk(g, enabled, s, v, vs, es) && walk_len(weights, es) == d
    &&& forall|vs: Seq<int>, es: Seq<int>|
        is_walk(g, enabled, s, v, vs, es) ==> d <= walk_len(weights, es)
}

/// `dist` gives every vertex its shortest distance from `s`.
pub open spec fn shortest_distances(
    g: CsrGraph,
    weights: Seq<u64>,
    enabled: Option<Seq<bool>>,
    s: int,
    dist: Seq<u64>,
) -> bool {
    &&& dist.len() == g.spec_n()
    &&& forall|v: int| 0 <= v < dist.len() ==> is_shortest(g, weights, enabled, s, v, #[trigger] dist[v])
}

/// Following predecessors `k` times from `v`.
pub open spec fn pred_iter(pred: Seq<usize>, v: int, k: nat) -> int
    decreases k,
{
    if k == 0 {
        v
    } else {
        pred_iter(pred, pred[v] as int, (k - 1) as nat)
    }
}

/// `pred` is a shortest-path tree for `dist` rooted at `s`: the source is
/// its own predecessor; every other reached vertex names an enabled edge
/// from its predecessor that is tight for `dist`, and its predecessors lead
/// back to the source; an unreached vertex has no predecessor.
pub open spec fn valid_predecessors(
    g: CsrGraph,
    weights: Seq<u64>,
    enabled: Option<Seq<bool>>,
    s: int,
    dist: Seq<u64>,
    pred: Seq<usize>,
) -> bool {
    &&& pred.len() == g.spec_n()
    &&& pred[s] == s
    &&& forall|v: int|
        0 <= v < pred.len() && v != s && #[trigger] dist[v] < INFINITY ==> exists|e: int|
            is_step(g, enabled, pred[v] as int, e, v) && dist[pred[v] as int] + weights[e] == dist[v]
    &&& forall|v: int|
        0 <= v < pred.len() && v != s && #[trigger] dist[v] == INFINITY ==> pred[v] == NO_PREDECESSOR
    &&& forall|v: int|
        0 <= v < pred.len() && #[trigger] dist[v] < INFINITY ==> exists|k: nat| pred_iter(pred, v, k) == s
}

/// The arguments of a search are consistent: one weight per edge, a source
/// among the vertices, one mask flag per edge.
pub open spec fn valid_search(g: CsrGraph, weights: Seq<u64>, s: int, enabled: Option<Seq<bool>>) -> bool {
    &&& g.wf()
    &&& weights.len() == g.spec_indices().len()
    &&& 0 <= s < g.spec_n()
    &&& enabled matches Some(mask) ==> mask.len() == weights.len()
}

/// Every enabled out-edge of `u` is relaxed in `dist`: it offers no shorter
/// distance to its target.
pub open spec fn settled(
    g: CsrGraph,
    weights: Seq<u64>,
    enabled: Option<Seq<bool>>,
    dist: Seq<u64>,
    u: int,
) -> bool {
    forall|e: int|
        g.spec_indptr()[u] <= e < g.spec_indptr()[u + 1] && edge_enabled(enabled, e) ==> #[trigger] dist[g.spec_indices()[e] as int]
            <= dist[u] + weights[e]
}

/// Vertex `v` hangs from its predecessor by its recorded edge, with a
/// distance no smaller than the predecessor's plus the edge weight, and
/// where the two are equal the predecessor was labelled earlier.
pub open spec fn pred_link(
    g: CsrGraph,
    weights: Seq<u64>,
    enabled: Option<Seq<bool>>,
    dist: Seq<u64>,
    pred: Seq<usize>,
    pedge: Seq<int>,
    stamp: Seq<nat>,
    v: int,
) -> bool {
    let u = pred[v] as int;
    &&& 0 <= u < g.spec_n()
    &&& is_step(g, enabled, u, pedge[v], v)
    &&& dist[v] >= dist[u] + weights[pedge[v]]
    &&& dist[v] == dist[u] + weights[pedge[v]] ==> stamp[u] < stamp[v]
}

/// What holds of the labels at every step of a label-correcting search
/// from `s`; `pedge` records the edge each label came through and `stamp`
/// when it was set, both before `time`. The label and predecessor buffers
/// may be longer than the graph; the search uses their first `n` entries.
pub open spec fn labels_inv(
    g: CsrGraph,
    weights: Seq<u64>,
    enabled: Option<Seq<bool>>,
    s: int,
    dist: Seq<u64>,
    pred: Seq<usize>,
    pedge: Seq<int>,
    stamp: Seq<nat>,
    time: nat,
) -> bool {
    &&& valid_search(g, weights, s, enabled)
    &&& dist.len() >= g.spec_n()
    &&& pred.len() == dist.len()
    &&& pedge.len() == g.spec_n()
    &&& stamp.len() == g.spec_n()
    &&& dist[s] == 0
    &&& pred[s] == s
    &&& forall|v: int| 0 <= v < stamp.len() ==> #[trigger] stamp[v] < time
    &&& forall|v: int|
        0 <= v < g.spec_n() && v != s && #[trigger] dist[v] == INFINITY ==> pred[v] == NO_PREDECESSOR
    &&& forall|v: int|
        0 <= v < g.spec_n() && v != s && #[trigger] dist[v] < INFINITY ==> pred_link(
            g,
            weights,
            enabled,
            dist,
            pred,
            pedge,
            stamp,
            v,
        )
}

/// The sum of a sequence of distances.
pub open spec fn seq_sum(s: Seq<u64>) -> nat
    decreases s.len(),
{
    if s.len() == 0 {
        0
    } else {
        seq_sum(s.drop_last()) + s.last() as nat
    }
}

/// Lowering entries lowers the sum, strictly when any entry changes.
pub proof fn lemma_sum_monotone(a: Seq<u64>, b: Seq<u64>)
    requires
        a.len() == b.len(),
        forall|i: int| 0 <= i < a.len() ==> #[trigger] a[i] <= b[i],
    ensures
        seq_sum(a) <= seq_sum(b),
        a != b ==> seq_sum(a) < seq_sum(b),
    decreases a.len(),
{
    if a.len() == 0 {
        assert(a =~= b);
    } else {
        let a2 = a.drop_last();
        let b2 = b.drop_last();
        assert forall|i: int| 0 <= i < a2.len() implies #[trigger] a2[i] <= b2[i] by {
            assert(a[i] <= b[i]);
        }
        lemma_sum_monotone(a2, b2);
        assert(a[a.len() - 1] <= b[b.len() - 1]);
        assert(a =~= a2.push(a.last()));
        assert(b =~= b2.push(b.last()));
    }
}

/// A walk extended by one step is a walk, one edge weight longer.
pub proof fn lemma_walk_push(
    g: CsrGraph,
    weights: Seq<u64>,
    enabled: Option<Seq<bool>>,
    s: int,
    u: int,
    vs: Seq<int>,
    es: Seq<int>,
    e: int,
    v: int,
)
    requires
        is_walk(g, enabled, s, u, vs, es),
        is_step(g, enabled, u, e, v),
    ensures
        is_walk(g, enabled, s, v, vs.push(v), es.push(e)),
        walk_len(weights, es.push(e)) == walk_len(weights, es) + weights[e],
{
    let vs2 = vs.push(v);
    let es2 = es.push(e);
    assert(es2.drop_last() =~= es);
    assert forall|i: int| 0 <= i < es2.len() implies #[trigger] is_step(g, enabled, vs2[i], es2[i], vs2[i + 1]) by {
        if i < es.len() {
            assert(is_step(g, enabled, vs[i], es[i], vs[i + 1]));
        }
    }
}

/// When every vertex is settled and the source sits at zero, no walk from
/// the source is shorter than the label of its end.
pub proof fn lemma_labels_below_walks(
    g: CsrGraph,
    weights: Seq<u64>,
    enabled: Option<Seq<bool>>,
    s: int,
    dist: Seq<u64>,
    v: int,
    vs: Seq<int>,
    es: Seq<int>,
)
    requires
        g.wf(),
        dist.len() >= g.spec_n(),
        dist[s] == 0,
        forall|u: int| 0 <= u < g.spec_n() ==> #[trigger] settled(g, weights, enabled, dist, u),
        is_walk(g, enabled, s, v, vs, es),
    ensures
        dist[v] <= walk_len(weights, es),
    decreases es.len(),
{
    if es.len() > 0 {
        let k = es.len() - 1;
        let u = vs[k];
        let e = es[k];
        assert(is_step(g, enabled, vs[k], es[k], vs[k + 1]));
        let vs2 = vs.drop_last();
        let es2 = es.drop_last();
        assert forall|i: int| 0 <= i < es2.len() implies #[trigger] is_step(g, enabled, vs2[i], es2[i], vs2[i + 1]) by {
            assert(is_step(g, enabled, vs[i], es[i], vs[i + 1]));
        }
        lemma_labels_below_walks(g, weights, enabled, s, dist, u, vs2, es2);
        assert(settled(g, weights, enabled, dist, u));
        assert(dist[g.spec_indices()[e] as int] <= dist[u] + weights[e]);
    }
}

/// Under the search invariant with every vertex settled, each finite label
/// is the length of a walk from the source, and the predecessors of its
/// vertex lead back to the source.
pub proof fn lemma_labels_are_walks(
    g: CsrGraph,
    weights: Seq<u64>,
    enabled: Option<Seq<bool>>,
    s: int,
    dist: Seq<u64>,
    pred: Seq<usize>,
    pedge: Seq<int>,
    stamp: Seq<nat>,
    time: nat,
    v: int,
)
    requires
        labels_inv(g, weights, enabled, s, dist, pred, pedge, stamp, time),
        forall|u: int| 0 <= u < g.spec_n() ==> #[trigger] settled(g, weights, enabled, dist, u),
        0 <= v < g.spec_n(),
        dist[v] < INFINITY,
    ensures
        exists|vs: Seq<int>, es: Seq<int>|
            is_walk(g, enabled, s, v, vs, es) && walk_len(weights, es) == dist[v],
        exists|k: nat| pred_iter(pred.subrange(0, g.spec_n() as int), v, k) == s,
    decreases stamp[v],
{
    if v == s {
        let vs = seq![s];
        let es = Seq::<int>::empty();
        assert(is_walk(g, enabled, s, v, vs, es));
        assert(pred_iter(pred.subrange(0, g.spec_n() as int), v, 0) == s);
    } else {
        assert(pred_link(g, weights, enabled, dist, pred, pedge, stamp, v));
        let u = pred[v] as int;
        let e = pedge[v];
        assert(settled(g, weights, enabled, dist, u));
        assert(dist[g.spec_indices()[e] as int] <= dist[u] + weights[e]);
        assert(stamp[u] < stamp[v]);
        lemma_labels_are_walks(g, weights, enabled, s, dist, pred, pedge, stamp, time, u);
        let (vs, es) = choose|vs: Seq<int>, es: Seq<int>|
            is_walk(g, enabled, s, u, vs, es) && walk_len(weights, es) == dist[u];
        lemma_walk_push(g, weights, enabled, s, u, vs, es, e, v);
        let p = pred.subrange(0, g.spec_n() as int);
        let k = choose|k: nat| pred_iter(p, u, k) == s;
        assert(p[v] == pred[v]);
        assert(pred_iter(p, v, k + 1) == pred_iter(p, u, k));
    }
}

/// Once every vertex is settled, the labels of a label-correcting search
/// are the shortest distances and its predecessors form a shortest-path
/// tree.
pub proof fn lemma_search_done(
    g: CsrGraph,
    weights: Seq<u64>,
    enabled: Option<Seq<bool>>,
    s: int,
    dist: Seq<u64>,
    pred: Seq<usize>,
    pedge: Seq<int>,
    stamp: Seq<nat>,
    time: nat,
)
    requires
        labels_inv(g, weights, enabled, s, dist, pred, pedge, stamp, time),
        forall|u: int| 0 <= u < g.spec_n() ==> #[trigger] settled(g, weights, enabled, dist, u),
    ensures
        shortest_distances(g, weights, enabled, s, dist.subrange(0, g.spec_n() as int)),
        valid_predecessors(
            g,
            weights,
            enabled,
            s,
            dist.subrange(0, g.spec_n() as int),
            pred.subrange(0, g.spec_n() as int),
        ),
{
    let n = g.spec_n() as int;
    let d = dist.subrange(0, n);
    let p = pred.subrange(0, n);
    assert forall|v: int| 0 <= v < d.len() implies is_shortest(g, weights, enabled, s, v, #[trigger] d[v]) by {
        assert(d[v] == dist[v]);
        if dist[v] < INFINITY {
            lemma_labels_are_walks(g, weights, enabled, s, dist, pred, pedge, stamp, time, v);
        }
        assert forall|vs: Seq<int>, es: Seq<int>| is_walk(g, enabled, s, v, vs, es) implies dist[v] <= walk_len(weights, es) by {
            lemma_labels_below_walks(g, weights, enabled, s, dist, v, vs, es);
        }
    }
    assert forall|v: int| 0 <= v < p.len() && v != s && #[trigger] d[v] < INFINITY implies exists|e: int|
        is_step(g, enabled, p[v] as int, e, v) && d[p[v] as int] + weights[e] == d[v] by {
        assert(d[v] == dist[v] && p[v] == pred[v]);
        assert(pred_link(g, weights, enabled, dist, pred, pedge, stamp, v));
        let u = pred[v] as int;
        let e = pedge[v];
        assert(d[u] == dist[u]);
        assert(settled(g, weights, enabled, dist, u));
        assert(dist[g.spec_indices()[e] as int] <= dist[u] + weights[e]);
    }
    assert forall|v: int| 0 <= v < p.len() && v != s && #[trigger] d[v] == INFINITY implies p[v] == NO_PREDECESSOR by {
        assert(d[v] == dist[v] && p[v] == pred[v]);
    }
    assert forall|v: int| 0 <= v < p.len() && #[trigger] d[v] < INFINITY implies exists|k: nat| pred_iter(p, v, k) == s by {
        assert(d[v] == dist[v]);
        lemma_labels_are_walks(g, weights, enabled, s, dist, pred, pedge, stamp, time, v);
    }
}

/// A vertex that no walk from the source reaches has distance `INFINITY`.
pub proof fn lemma_unreachable_is_infinite(
    g: CsrGraph,
    weights: Seq<u64>,
    enabled: Option<Seq<bool>>,
    s: int,
    dist: Seq<u64>,
    v: int,
)
    requires
        shortest_distances(g, weights, enabled, s, dist),
        0 <= v < dist.len(),
        !reachable(g, enabled, s, v),
    ensures
        dist[v] == INFINITY,
{
    assert(is_shortest(g, weights, enabled, s, v, dist[v]));
    if dist[v] < INFINITY {
        let (vs, es) = choose|vs: Seq<int>, es: Seq<int>|
            is_walk(g, enabled, s, v, vs, es) && walk_len(weights, es) == dist[v];
        assert(reachable(g, enabled, s, v));
    }
}

/// Two searches that both produce shortest distances for the same graph,
/// weights, mask and source produce the same distances: the block-frontier
/// search agrees with the label-setting one, and a search in reused buffers
/// agrees with a fresh one.
pub proof fn lemma_searches_agree(
    g: CsrGraph,
    weights: Seq<u64>,
    enabled: Option<Seq<bool>>,
    s: int,
    d1: Seq<u64>,
    d2: Seq<u64>,
)
    requires
        shortest_distances(g, weights, enabled, s, d1),
        shortest_distances(g, weights, enabled, s, d2),
    ensures
        d1 == d2,
{
    assert forall|v: int| 0 <= v < d1.len() implies d1[v] == d2[v] by {
        assert(is_shortest(g, weights, enabled, s, v, d1[v]));
        assert(is_shortest(g, weights, enabled, s, v, d2[v]));
        if d1[v] < INFINITY {
            let (vs, es) = choose|vs: Seq<int>, es: Seq<int>|
                is_walk(g, enabled, s, v, vs, es) && walk_len(weights, es) == d1[v];
            assert(d2[v] <= walk_len(weights, es));
        }
        if d2[v] < INFINITY {
            let (vs, es) = choose|vs: Seq<int>, es: Seq<int>|
                is_walk(g, enabled, s, v, vs, es) && walk_len(weights, es) == d2[v];
            assert(d1[v] <= walk_len(weights, es));
        }
    }
    assert(d1 =~= d2);
}

/// Following predecessors `a` steps and then `b` more is following them
/// `a + b` steps.
pub proof fn lemma_pred_iter_add(pred: Seq<usize>, v: int, a: nat, b: nat)
    ensures
        pred_iter(pred, v, a + b) == pred_iter(pred, pred_iter(pred, v, a), b),
    decreases a,
{
    if a > 0 {
        lemma_pred_iter_add(pred, pred[v] as int, (a - 1) as nat, b);
        assert((a + b - 1) as nat == (a - 1) as nat + b);
    }
}

/// A step count at which the chain from `v` meets `s`, with no earlier one.
proof fn lemma_first_arrival(pred: Seq<usize>, v: int, s: int, k: nat) -> (m: nat)
    requires
        pred_iter(pred, v, k) == s,
    ensures
        m <= k,
        pred_iter(pred, v, m) == s,
        forall|j: nat| j < m ==> pred_iter(pred, v, j) != s,
    decreases k,
{
    if exists|j: nat| j < k && pred_iter(pred, v, j) == s {
        let j = choose|j: nat| j < k && pred_iter(pred, v, j) == s;
        lemma_first_arrival(pred, v, s, j)
    } else {
        k
    }
}

/// Before it meets the source, the chain of predecessors from a reached
/// vertex stays on reached vertices.
proof fn lemma_chain_reached(
    g: CsrGraph,
    weights: Seq<u64>,
    enabled: Option<Seq<bool>>,
    s: int,
    dist: Seq<u64>,
    pred: Seq<usize>,
    v: int,
    k: nat,
    i: nat,
)
    requires
        shortest_distances(g, weights, enabled, s, dist),
        valid_predecessors(g, weights, enabled, s, dist, pred),
        0 <= v < g.spec_n(),
        dist[v] < INFINITY,
        forall|j: nat| j < k ==> pred_iter(pred, v, j) != s,
        i <= k,
    ensures
        0 <= pred_iter(pred, v, i) < g.spec_n(),
        dist[pred_iter(pred, v, i)] < INFINITY,
    decreases i,
{
    if i > 0 {
        let t = (i - 1) as nat;
        lemma_chain_reached(g, weights, enabled, s, dist, pred, v, k, t);
        let x = pred_iter(pred, v, t);
        assert(x != s);
        let e = choose|e: int|
            is_step(g, enabled, pred[x] as int, e, x) && dist[pred[x] as int] + weights[e] == dist[x];
        lemma_pred_iter_add(pred, v, t, 1);
        assert(pred_iter(pred, x, 1) == pred_iter(pred, pred[x] as int, 0));
        assert(t + 1 == i);
    }
}

/// The predecessors of a search form a tree rooted at the source that spans
/// the reached vertices: from every reached vertex the chain of
/// predecessors reaches the source in fewer than `n` steps and visits no
/// vertex twice on the way.
pub proof fn lemma_predecessor_tree(
    g: CsrGraph,
    weights: Seq<u64>,
    enabled: Option<Seq<bool>>,
    s: int,
    dist: Seq<u64>,
    pred: Seq<usize>,
    v: int,
)
    requires
        shortest_distances(g, weights, enabled, s, dist),
        valid_predecessors(g, weights, enabled, s, dist, pred),
        0 <= s < g.spec_n(),
        0 <= v < g.spec_n(),
        dist[v] < INFINITY,
    ensures
        exists|k: nat|
            k < g.spec_n() && pred_iter(pred, v, k) == s && forall|i: nat, j: nat|
                i < j <= k ==> pred_iter(pred, v, i) != pred_iter(pred, v, j),
{
    let n = g.spec_n() as int;
    let k0 = choose|k: nat| pred_iter(pred, v, k) == s;
    let k = lemma_first_arrival(pred, v, s, k0);
    // Every vertex on the chain before the source is reached and in range.
    assert forall|i: nat| i <= k implies 0 <= #[trigger] pred_iter(pred, v, i) < n && dist[pred_iter(
        pred,
        v,
        i,
    )] < INFINITY by {
        lemma_chain_reached(g, weights, enabled, s, dist, pred, v, k, i);
    }
    assert forall|i: nat, j: nat| i < j <= k implies pred_iter(pred, v, i) != pred_iter(pred, v, j) by {
        if pred_iter(pred, v, i) == pred_iter(pred, v, j) {
            let r = (k - j) as nat;
            lemma_pred_iter_add(pred, v, i, r);
            lemma_pred_iter_add(pred, v, j, r);
            assert(j + r == k);
            assert(pred_iter(pred, v, i + r) == s);
        }
    }
    let c = Seq::new((k + 1) as nat, |i: int| pred_iter(pred, v, i as nat));
    assert(c.no_duplicates()) by {
        assert forall|a: int, b: int| 0 <= a < c.len() && 0 <= b < c.len() && a != b implies c[a] != c[b] by {
            if a < b {
                assert(pred_iter(pred, v, a as nat) != pred_iter(pred, v, b as nat));
            } else {
                assert(pred_iter(pred, v, b as nat) != pred_iter(pred, v, a as nat));
            }
        }
    }
    c.unique_seq_to_set();
    vstd::set_lib::lemma_int_range(0, n);
    assert(c.to_set().subset_of(vstd::set_lib::set_int_range(0, n))) by {
        assert forall|x: int| c.to_set().contains(x) implies vstd::set_lib::set_int_range(0, n).contains(x) by {
            let i = choose|i: int| 0 <= i < c.len() && c[i] == x;
            assert(0 <= pred_iter(pred, v, i as nat) < n);
        }
    }
    vstd::set_lib::lemma_len_subset(c.to_set(), vstd::set_lib::set_int_range(0, n));
}

/// Where some walk from the source to `v` is shorter than `INFINITY`, the
/// distance of `v` is the length of a shortest walk (finite, no longer than
/// that walk, and the length of some walk), and unless `v` is the source
/// its predecessor edge is enabled and tight.
pub proof fn lemma_short_walk_exact(
    g: CsrGraph,
    weights: Seq<u64>,
    enabled: Option<Seq<bool>>,
    s: int,
    dist: Seq<u64>,
    pred: Seq<usize>,
    v: int,
    vs: Seq<int>,
    es: Seq<int>,
)
    requires
        shortest_distances(g, weights, enabled, s, dist),
        valid_predecessors(g, weights, enabled, s, dist, pred),
        0 <= v < g.spec_n(),
        is_walk(g, enabled, s, v, vs, es),
        walk_len(weights, es) < INFINITY,
    ensures
        dist[v] < INFINITY,
        dist[v] <= walk_len(weights, es),
        exists|vs2: Seq<int>, es2: Seq<int>|
            is_walk(g, enabled, s, v, vs2, es2) && walk_len(weights, es2) == dist[v],
        v != s ==> exists|e: int|
            is_step(g, enabled, pred[v] as int, e, v) && dist[pred[v] as int] + weights[e] == dist[v],
{
    assert(is_shortest(g, weights, enabled, s, v, dist[v]));
}

} // verus!
