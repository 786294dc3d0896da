use std::collections::HashMap;
use vstd::prelude::*;

verus! {

broadcast use vstd::std_specs::hash::group_hash_axioms;

/// Entry `a` comes before entry `b` in a frontier: a smaller distance first,
/// and on equal distances the smaller vertex first. Entries are
/// `(vertex, distance)` pairs.
pub open spec fn entry_before(a: (usize, u64), b: (usize, u64)) -> bool {
    a.1 < b.1 || (a.1 == b.1 && a.0 < b.0)
}

/// Vertex `v` occurs in `block`.
pub open spec fn block_has(block: Seq<(usize, u64)>, v: usize) -> bool {
    exists|i: int| 0 <= i < block.len() && (#[trigger] block[i]).0 == v
}

/// `block` lists, in frontier order, the `min(max, |m|)` first entries of the
/// frontier `m` (vertex to current distance), and `rest` is what is left.
pub open spec fn is_min_block(
    m: Map<usize, u64>,
    max: usize,
    block: Seq<(usize, u64)>,
    rest: Map<usize, u64>,
) -> bool {
    &&& block.len() == if max < m.len() { max as nat } else { m.len() }
    &&& forall|i: int|
        0 <= i < block.len() ==> m.contains_key((#[trigger] block[i]).0) && m[block[i].0]
            == block[i].1
    &&& forall|i: int, j: int|
        0 <= i < j < block.len() ==> entry_before(#[trigger] block[i], #[trigger] block[j])
    &&& forall|v: usize| #[trigger]
        rest.contains_key(v) ==> m.contains_key(v) && rest[v] == m[v]
    &&& forall|v: usize| #[trigger]
        m.contains_key(v) ==> (rest.contains_key(v) <==> !block_has(block, v))
    &&& forall|i: int, v: usize|
        0 <= i < block.len() && #[trigger] rest.contains_key(v) ==> entry_before(
            #[trigger] block[i],
            (v, rest[v]),
        )
}

/// `r` is the smallest distance in the frontier `m`, or `None` when `m` is empty.
pub open spec fn is_min_distance(m: Map<usize, u64>, r: Option<u64>) -> bool {
    match r {
        None => m.dom().is_empty(),
        Some(d) => (exists|v: usize| #[trigger] m.contains_key(v) && m[v] == d) && (forall|v: usize|
            #[trigger] m.contains_key(v) ==> d <= m[v]),
    }
}

/// The frontier after `decrease_key(v, d)`.
pub open spec fn decreased(m: Map<usize, u64>, v: usize, d: u64) -> Map<usize, u64> {
    if !m.contains_key(v) || d < m[v] {
        m.insert(v, d)
    } else {
        m
    }
}

/// Entry `a` comes before entry `b` in the ordered set, whose entries are
/// `(distance, vertex)` pairs: the order of `entry_before`.
pub open spec fn key_lt(a: (u64, usize), b: (u64, usize)) -> bool {
    a.0 < b.0 || (a.0 == b.0 && a.1 < b.1)
}

/// The parent of position `i` in a binary heap laid out in a vector.
pub open spec fn parent(i: int) -> int {
    (i - 1) / 2
}

/// No entry comes before its parent: the binary min-heap order.
pub open spec fn heap_ordered(s: Seq<(u64, usize)>) -> bool {
    forall|i: int| 0 < i < s.len() ==> !key_lt(#[trigger] s[i], s[parent(i)])
}

/// In a binary min-heap no entry comes before the root.
proof fn lemma_root_is_least(s: Seq<(u64, usize)>, i: int)
    requires
        heap_ordered(s),
        0 <= i < s.len(),
    ensures
        !key_lt(s[i], s[0]),
    decreases i,
{
    if i > 0 {
        lemma_root_is_least(s, parent(i));
        assert(!key_lt(s[i], s[parent(i)]));
    }
}

/// Moves the entry at `i` up until no entry comes before its parent; the
/// order may be broken only between `i` and its parent on entry.
fn sift_up(h: &mut Vec<(u64, usize)>, i: usize)
    requires
        i < old(h)@.len(),
        forall|j: int| 0 < j < old(h)@.len() && j != i ==> !key_lt(#[trigger] old(h)@[j], old(h)@[parent(j)]),
        forall|c: int|
            0 < i && 0 < c < old(h)@.len() && parent(c) == i ==> !key_lt(#[trigger] old(h)@[c], old(h)@[parent(i as int)]),
    ensures
        heap_ordered(final(h)@),
        final(h)@.len() == old(h)@.len(),
        forall|x: (u64, usize)| old(h)@.contains(x) ==> #[trigger] final(h)@.contains(x),
{
    let mut i = i;
    while i > 0
        invariant
            i < h@.len(),
            h@.len() == old(h)@.len(),
            forall|j: int| 0 < j < h@.len() && j != i ==> !key_lt(#[trigger] h@[j], h@[parent(j)]),
            forall|c: int|
                0 < i && 0 < c < h@.len() && parent(c) == i ==> !key_lt(#[trigger] h@[c], h@[parent(i as int)]),
            forall|x: (u64, usize)| old(h)@.contains(x) ==> #[trigger] h@.contains(x),
        ensures
            heap_ordered(h@),
            h@.len() == old(h)@.len(),
            forall|x: (u64, usize)| old(h)@.contains(x) ==> #[trigger] h@.contains(x),
        decreases i,
    {
        let p = (i - 1) / 2;
        let a = h[i];
        let b = h[p];
        if !key_before(a, b) {
            break;
        }
        let ghost before = h@;
        h.set(i, b);
        h.set(p, a);
        proof {
            assert forall|x: (u64, usize)| old(h)@.contains(x) implies #[trigger] h@.contains(x) by {
                assert(before.contains(x));
                let k = choose|k: int| 0 <= k < before.len() && before[k] == x;
                if k == i {
                    assert(h@[p as int] == x);
                } else if k == p {
                    assert(h@[i as int] == x);
                } else {
                    assert(h@[k] == x);
                }
            }
            assert forall|j: int| 0 < j < h@.len() && j != p implies !key_lt(#[trigger] h@[j], h@[parent(j)]) by {
                if j == i {
                } else if parent(j) == i {
                    assert(!key_lt(before[j], before[p as int]));
                } else if parent(j) == p {
                    assert(!key_lt(before[j], before[p as int]));
                } else {
                    assert(!key_lt(before[j], before[parent(j)]));
                }
            }
            assert forall|c: int|
                0 < p && 0 < c < h@.len() && parent(c) == p implies !key_lt(#[trigger] h@[c], h@[parent(p as int)]) by {
                assert(!key_lt(before[p as int], before[parent(p as int)]));
                if c != i {
                    assert(!key_lt(before[c], before[p as int]));
                }
            }
        }
        i = p;
    }
}

/// Moves the entry at `i` down until no child comes before it; the order
/// may be broken only between `i` and its children on entry.
fn sift_down(h: &mut Vec<(u64, usize)>, i: usize)
    requires
        i < old(h)@.len(),
        forall|j: int| 0 < j < old(h)@.len() && parent(j) != i ==> !key_lt(#[trigger] old(h)@[j], old(h)@[parent(j)]),
        forall|c: int|
            0 < i && 0 < c < old(h)@.len() && parent(c) == i ==> !key_lt(#[trigger] old(h)@[c], old(h)@[parent(i as int)]),
    ensures
        heap_ordered(final(h)@),
        final(h)@.len() == old(h)@.len(),
        forall|x: (u64, usize)| old(h)@.contains(x) ==> #[trigger] final(h)@.contains(x),
{
    let len = h.len();
    let mut i = i;
    loop
        invariant
            i < h@.len(),
            h@.len() == len,
            forall|j: int| 0 < j < h@.len() && parent(j) != i ==> !key_lt(#[trigger] h@[j], h@[parent(j)]),
            forall|c: int|
                0 < i && 0 < c < h@.len() && parent(c) == i ==> !key_lt(#[trigger] h@[c], h@[parent(i as int)]),
            forall|x: (u64, usize)| old(h)@.contains(x) ==> #[trigger] h@.contains(x),
        ensures
            heap_ordered(h@),
            h@.len() == len,
            forall|x: (u64, usize)| old(h)@.contains(x) ==> #[trigger] h@.contains(x),
        decreases len - i,
    {
        if i >= len / 2 {
            proof {
                assert forall|j: int| 0 < j < h@.len() implies !key_lt(#[trigger] h@[j], h@[parent(j)]) by {
                    if parent(j) == i {
                        assert(false);
                    }
                }
            }
            break;
        }
        let l = 2 * i + 1;
        let r = l + 1;
        let mut m = i;
        if key_before(h[l], h[m]) {
            m = l;
        }
        if r < len && key_before(h[r], h[m]) {
            m = r;
        }
        if m == i {
            proof {
                assert forall|j: int| 0 < j < h@.len() implies !key_lt(#[trigger] h@[j], h@[parent(j)]) by {
                    if parent(j) == i {
                        assert(j == l || j == r);
                    }
                }
            }
            break;
        }
        let ghost before = h@;
        let a = h[i];
        let b = h[m];
        h.set(i, b);
        h.set(m, a);
        proof {
            assert(key_lt(before[m as int], before[i as int]));
            if m == l && r < len {
                assert(!key_lt(before[r as int], before[l as int]));
            }
            if m == r {
                assert(!key_lt(before[l as int], before[r as int]) || key_lt(before[r as int], before[l as int]));
            }
            assert forall|x: (u64, usize)| old(h)@.contains(x) implies #[trigger] h@.contains(x) by {
                assert(before.contains(x));
                let k = choose|k: int| 0 <= k < before.len() && before[k] == x;
                if k == i {
                    assert(h@[m as int] == x);
                } else if k == m {
                    assert(h@[i as int] == x);
                } else {
                    assert(h@[k] == x);
                }
            }
            assert forall|j: int| 0 < j < h@.len() && parent(j) != m implies !key_lt(#[trigger] h@[j], h@[parent(j)]) by {
                if j == m {
                } else if j == i {
                    assert(!key_lt(before[m as int], before[parent(i as int)]));
                } else if parent(j) == i {
                    assert(j == l || j == r);
                } else {
                    assert(!key_lt(before[j], before[parent(j)]));
                }
            }
            assert forall|c: int|
                0 < m && 0 < c < h@.len() && parent(c) == m implies !key_lt(#[trigger] h@[c], h@[parent(m as int)]) by {
                assert(!key_lt(before[c], before[m as int]));
            }
        }
        i = m;
    }
}

/// Whether entry `a` comes before entry `b`.
fn key_before(a: (u64, usize), b: (u64, usize)) -> (r: bool)
    ensures
        r == key_lt(a, b),
{
    a.0 < b.0 || (a.0 == b.0 && a.1 < b.1)
}

/// Takes the root out of a binary min-heap.
fn pop_min(h: &mut Vec<(u64, usize)>) -> (r: (u64, usize))
    requires
        heap_ordered(old(h)@),
        old(h)@.len() > 0,
    ensures
        r == old(h)@[0],
        heap_ordered(final(h)@),
        final(h)@.len() == old(h)@.len() - 1,
        forall|k: int| 0 < k < old(h)@.len() ==> final(h)@.contains(#[trigger] old(h)@[k]),
{
    let ghost h0 = h@;
    let top = h[0];
    let last = h.len() - 1;
    let x = h[last];
    h.set(0, x);
    h.pop();
    if h.len() > 0 {
        proof {
            assert forall|k: int| 0 < k < h@.len() implies #[trigger] h@[k] == h0[k] by {}
            assert forall|j: int| 0 < j < h@.len() && parent(j) != 0 implies !key_lt(#[trigger] h@[j], h@[parent(j)]) by {
                assert(!key_lt(h0[j], h0[parent(j)]));
            }
        }
        let ghost h1 = h@;
        sift_down(h, 0);
        proof {
            assert forall|k: int| 0 < k < h0.len() implies h@.contains(#[trigger] h0[k]) by {
                if k == last {
                    assert(h1[0] == h0[k]);
                    assert(h1.contains(h0[k]));
                } else {
                    assert(h1[k] == h0[k]);
                    assert(h1.contains(h0[k]));
                }
            }
        }
    }
    top
}

/// The lazy form of the frontier: a binary min-heap of `(distance, vertex)`
/// entries that may be stale, and a map from each vertex to its current
/// distance. An entry `(d, v)` is live when `d` is the current distance of
/// `v`; a new distance is pushed as a new entry, and stale entries are
/// dropped as they reach the top.
pub struct FastBlockHeap {
    heap: Vec<(u64, usize)>,
    distances: HashMap<usize, u64>,
}

impl View for FastBlockHeap {
    type V = Map<usize, u64>;

    closed spec fn view(&self) -> Map<usize, u64> {
        self.distances@
    }
}

impl FastBlockHeap {
    /// Every vertex of the frontier has a live entry in the list.
    pub closed spec fn wf(&self) -> bool {
        &&& heap_ordered(self.heap@)
        &&& self.distances@.dom().finite()
        &&& forall|v: usize| #[trigger]
            self.distances@.contains_key(v) ==> self.heap@.contains((self.distances@[v], v))
    }

    closed spec fn live(&self, e: (u64, usize)) -> bool {
        self.distances@.contains_key(e.1) && self.distances@[e.1] == e.0
    }

    /// An empty frontier.
    pub fn new() -> (r: FastBlockHeap)
        ensures
            r.wf(),
            r@ == Map::<usize, u64>::empty(),
    {
        FastBlockHeap { heap: Vec::new(), distances: HashMap::new() }
    }

    /// A well-formed frontier holds finitely many vertices, at most
    /// `usize::MAX`: each has a live entry of its own in the heap.
    pub proof fn lemma_finite(&self)
        requires
            self.wf(),
        ensures
            self@.dom().finite(),
            self@.len() <= usize::MAX,
    {
        let len = self.heap@.len() as int;
        assert(self.heap.len() == len);
        let x = Set::new(|k: int| 0 <= k < len && self.live(self.heap@[k]));
        let f = |k: int| self.heap@[k].1;
        assert(x.map(f) =~= self@.dom()) by {
            assert forall|v: usize| self@.dom().contains(v) implies x.map(f).contains(v) by {
                let k = choose|k: int| 0 <= k < len && self.heap@[k] == (self.distances@[v], v);
                assert(x.contains(k));
            }
            assert forall|v: usize| x.map(f).contains(v) implies self@.dom().contains(v) by {
                let k = choose|k: int| x.contains(k) && f(k) == v;
            }
        }
        vstd::set_lib::lemma_int_range(0, len);
        assert(x.subset_of(vstd::set_lib::set_int_range(0, len)));
        vstd::set_lib::lemma_len_subset(x, vstd::set_lib::set_int_range(0, len));
        vstd::set_lib::lemma_map_size_bound(x, self@.dom(), f);
    }

    /// Sets the current distance of `vertex` to `distance`, whatever it was.
    pub fn push(&mut self, vertex: usize, distance: u64)
        requires
            old(self).wf(),
        ensures
            final(self).wf(),
            final(self)@ == old(self)@.insert(vertex, distance),
    {
        let ghost h0 = self.heap@;
        self.heap.push((distance, vertex));
        proof {
            assert forall|x: (u64, usize)| h0.contains(x) implies #[trigger] self.heap@.contains(x) by {
                let k = choose|k: int| 0 <= k < h0.len() && h0[k] == x;
                assert(self.heap@[k] == x);
            }
            assert(self.heap@.contains((distance, vertex))) by {
                assert(self.heap@[h0.len() as int] == (distance, vertex));
            }
            assert forall|j: int| 0 < j < self.heap@.len() && j != h0.len() implies !key_lt(
                #[trigger] self.heap@[j],
                self.heap@[parent(j)],
            ) by {
                assert(!key_lt(h0[j], h0[parent(j)]));
            }
        }
        let last = self.heap.len() - 1;
        let ghost h1 = self.heap@;
        sift_up(&mut self.heap, last);
        self.distances.insert(vertex, distance);
        proof {
            assert forall|v: usize| #[trigger] self.distances@.contains_key(v) implies self.heap@.contains(
                (self.distances@[v], v),
            ) by {
                if v == vertex {
                    assert(h1.contains((distance, vertex)));
                } else {
                    assert(h0.contains((old(self).distances@[v], v)));
                    assert(h1.contains((old(self).distances@[v], v)));
                }
            }
        }
    }

    /// Lowers the distance of `vertex` to `new_distance`, or adds the vertex
    /// when absent; leaves the frontier as it is when the vertex already has
    /// a distance no greater.
    pub fn decrease_key(&mut self, vertex: usize, new_distance: u64)
        requires
            old(self).wf(),
        ensures
            final(self).wf(),
            final(self)@ == decreased(old(self)@, vertex, new_distance),
    {
        let cur = match self.distances.get(&vertex) {
            Some(d) => Some(*d),
            None => None,
        };
        match cur {
            Some(old_distance) => {
                if new_distance < old_distance {
                    self.push(vertex, new_distance);
                }
            },
            None => {
                self.push(vertex, new_distance);
            },
        }
    }

    /// Takes the `min(max_size, size)` first entries of the frontier, in
    /// frontier order, and returns them with the smallest distance left
    /// behind (`None` when nothing is left). Stale entries that reach the top
    /// of the heap on the way are dropped.
    pub fn pop_block(&mut self, max_size: usize) -> (r: (Vec<(usize, u64)>, Option<u64>))
        requires
            old(self).wf(),
        ensures
            final(self).wf(),
            is_min_block(old(self)@, max_size, r.0@, final(self)@),
            is_min_distance(final(self)@, r.1),
    {
        let ghost m0 = self@;
        let mut block: Vec<(usize, u64)> = Vec::new();
        while block.len() < max_size && self.heap.len() > 0
            invariant
                self.wf(),
                self@.len() + block@.len() == m0.len(),
                block@.len() <= max_size,
                forall|i: int|
                    0 <= i < block@.len() ==> m0.contains_key((#[trigger] block@[i]).0) && m0[block@[i].0]
                        == block@[i].1,
                forall|i: int, j: int|
                    0 <= i < j < block@.len() ==> entry_before(#[trigger] block@[i], #[trigger] block@[j]),
                forall|v: usize| #[trigger]
                    self@.contains_key(v) ==> m0.contains_key(v) && self@[v] == m0[v],
                forall|v: usize| #[trigger]
                    m0.contains_key(v) ==> (self@.contains_key(v) <==> !block_has(block@, v)),
                forall|i: int, v: usize|
                    0 <= i < block@.len() && #[trigger] self@.contains_key(v) ==> entry_before(
                        #[trigger] block@[i],
                        (v, self@[v]),
                    ),
            decreases self.heap@.len(),
        {
            let ghost h0 = self.heap@;
            let ghost before = self@;
            let ghost old_block = block@;
            proof {
                assert forall|u: usize| #[trigger] before.contains_key(u) implies !key_lt((before[u], u), h0[0]) by {
                    let k = choose|k: int| 0 <= k < h0.len() && h0[k] == (before[u], u);
                    lemma_root_is_least(h0, k);
                }
            }
            let (d, v) = pop_min(&mut self.heap);
            let is_live = match self.distances.get(&v) {
                Some(cur) => *cur == d,
                None => false,
            };
            if is_live {
                self.distances.remove(&v);
                block.push((v, d));
                proof {
                    before.lemma_remove_key_len(v);
                    assert(block@[block@.len() - 1] == (v, d));
                    assert forall|u: usize| #[trigger] m0.contains_key(u) implies (self@.contains_key(u)
                        <==> !block_has(block@, u)) by {
                        if block_has(old_block, u) {
                            let i = choose|i: int| 0 <= i < old_block.len() && (#[trigger] old_block[i]).0 == u;
                            assert(block@[i] == old_block[i]);
                        }
                        if u == v {
                            assert(block@[block@.len() - 1].0 == u);
                        }
                        if block_has(block@, u) && u != v {
                            let i = choose|i: int| 0 <= i < block@.len() && (#[trigger] block@[i]).0 == u;
                            assert(i < old_block.len());
                            assert(old_block[i] == block@[i]);
                        }
                    }
                    assert forall|i: int, u: usize|
                        0 <= i < block@.len() && #[trigger] self@.contains_key(u) implies entry_before(
                        #[trigger] block@[i],
                        (u, self@[u]),
                    ) by {
                        if i < old_block.len() {
                            assert(block@[i] == old_block[i]);
                        } else {
                            assert(before.contains_key(u) && u != v);
                        }
                    }
                    assert forall|u: usize| #[trigger] self.distances@.contains_key(u) implies self.heap@.contains(
                        (self.distances@[u], u),
                    ) by {
                        let k = choose|k: int| 0 <= k < h0.len() && h0[k] == (before[u], u);
                        assert(k != 0);
                    }
                }
            } else {
                proof {
                    assert forall|u: usize| #[trigger] self.distances@.contains_key(u) implies self.heap@.contains(
                        (self.distances@[u], u),
                    ) by {
                        let k = choose|k: int| 0 <= k < h0.len() && h0[k] == (before[u], u);
                        assert(k != 0);
                    }
                }
            }
        }
        proof {
            if block@.len() < max_size {
                if !self@.dom().is_empty() {
                    let u = self@.dom().choose();
                    assert(self@.contains_key(u));
                    assert(self.heap@.contains((self@[u], u)));
                }
                assert(self@.len() == 0);
            }
            assert(is_min_block(m0, max_size, block@, self@));
        }
        let ghost m1 = self@;
        let mut next: Option<u64> = None;
        while self.heap.len() > 0
            invariant_except_break
                next is None,
            invariant
                self.wf(),
                self@ == m1,
            ensures
                self.wf(),
                self@ == m1,
                is_min_distance(self@, next),
            decreases self.heap@.len(),
        {
            let (d, v) = self.heap[0];
            let is_live = match self.distances.get(&v) {
                Some(cur) => *cur == d,
                None => false,
            };
            if is_live {
                proof {
                    assert(self@.contains_key(v));
                    assert forall|u: usize| #[trigger] self@.contains_key(u) implies d <= self@[u] by {
                        let k = choose|k: int| 0 <= k < self.heap@.len() && self.heap@[k] == (self@[u], u);
                        lemma_root_is_least(self.heap@, k);
                    }
                }
                next = Some(d);
                break;
            }
            let ghost h0 = self.heap@;
            pop_min(&mut self.heap);
            proof {
                assert forall|u: usize| #[trigger] self.distances@.contains_key(u) implies self.heap@.contains(
                    (self.distances@[u], u),
                ) by {
                    let k = choose|k: int| 0 <= k < h0.len() && h0[k] == (self.distances@[u], u);
                    assert(k != 0);
                }
            }
        }
        proof {
            if next is None && !self@.dom().is_empty() {
                let u = self@.dom().choose();
                assert(self@.contains_key(u));
                assert(self.heap@.contains((self@[u], u)));
            }
        }
        (block, next)
    }

    /// Whether the frontier holds no vertex.
    pub fn is_empty(&self) -> (r: bool)
        ensures
            r <==> self@.dom().is_empty(),
    {
        self.distances.is_empty()
    }

    /// The smallest current distance, or `None` when the frontier is empty.
    pub fn min_distance(&self) -> (r: Option<u64>)
        requires
            self.wf(),
        ensures
            is_min_distance(self@, r),
    {
        let mut best: Option<u64> = None;
        let mut i: usize = 0;
        while i < self.heap.len()
            invariant
                i <= self.heap.len(),
                match best {
                    None => forall|j: int| 0 <= j < i ==> !self.live(#[trigger] self.heap@[j]),
                    Some(d) => (exists|j: int| 0 <= j < i && self.live(#[trigger] self.heap@[j]) && self.heap@[j].0 == d)
                        && forall|j: int| 0 <= j < i && self.live(#[trigger] self.heap@[j]) ==> d <= self.heap@[j].0,
                },
            decreases self.heap.len() - i,
        {
            let (d, v) = self.heap[i];
            let is_live = match self.distances.get(&v) {
                Some(cur) => *cur == d,
                None => false,
            };
            if is_live {
                match best {
                    None => { best = Some(d); },
                    Some(b) => { if d < b { best = Some(d); } },
                }
            }
            i = i + 1;
        }
        proof {
            match best {
                None => {
                    if !self@.dom().is_empty() {
                        let v = self@.dom().choose();
                        assert(self@.contains_key(v));
                        let j = choose|j: int| 0 <= j < self.heap@.len() && self.heap@[j] == (self.distances@[v], v);
                        assert(self.live(self.heap@[j]));
                    }
                },
                Some(d) => {
                    let j = choose|j: int| 0 <= j < i && self.live(#[trigger] self.heap@[j]) && self.heap@[j].0 == d;
                    assert(self@.contains_key(self.heap@[j].1));
                    assert forall|v: usize| #[trigger] self@.contains_key(v) implies d <= self@[v] by {
                        let k = choose|k: int| 0 <= k < self.heap@.len() && self.heap@[k] == (self.distances@[v], v);
                        assert(self.live(self.heap@[k]));
                    }
                },
            }
        }
        best
    }
}

/// The entries are in strictly increasing order.
pub open spec fn strictly_sorted(s: Seq<(u64, usize)>) -> bool {
    forall|i: int, j: int| 0 <= i < j < s.len() ==> key_lt(#[trigger] s[i], #[trigger] s[j])
}

/// The first position whose entry does not come before `key`.
fn lower_bound(entries: &Vec<(u64, usize)>, key: (u64, usize)) -> (r: usize)
    requires
        strictly_sorted(entries@),
    ensures
        r <= entries@.len(),
        forall|i: int| 0 <= i < r ==> key_lt(#[trigger] entries@[i], key),
        forall|i: int| r <= i < entries@.len() ==> !key_lt(#[trigger] entries@[i], key),
{
    let mut lo: usize = 0;
    let mut hi: usize = entries.len();
    while lo < hi
        invariant
            lo <= hi <= entries@.len(),
            strictly_sorted(entries@),
            forall|i: int| 0 <= i < lo ==> key_lt(#[trigger] entries@[i], key),
            forall|i: int| hi <= i < entries@.len() ==> !key_lt(#[trigger] entries@[i], key),
        decreases hi - lo,
    {
        let mid = lo + (hi - lo) / 2;
        let (d, v) = entries[mid];
        if d < key.0 || (d == key.0 && v < key.1) {
            proof {
                assert forall|i: int| 0 <= i < mid + 1 implies key_lt(#[trigger] entries@[i], key) by {
                    if i < mid {
                        assert(key_lt(entries@[i], entries@[mid as int]));
                    }
                }
            }
            lo = mid + 1;
        } else {
            proof {
                assert forall|i: int| mid <= i < entries@.len() implies !key_lt(#[trigger] entries@[i], key) by {
                    if i > mid {
                        assert(key_lt(entries@[mid as int], entries@[i]));
                    }
                }
            }
            hi = mid;
        }
    }
    lo
}

/// The ordered-set form of the frontier: the `(distance, vertex)` entries in
/// increasing order, and a map from each vertex to its distance.
pub struct BlockHeap {
    entries: Vec<(u64, usize)>,
    locations: HashMap<usize, u64>,
}

impl View for BlockHeap {
    type V = Map<usize, u64>;

    closed spec fn view(&self) -> Map<usize, u64> {
        self.locations@
    }
}

impl BlockHeap {
    /// The entries are sorted, and they and the map describe the same
    /// vertices with the same distances.
    pub closed spec fn wf(&self) -> bool {
        &&& strictly_sorted(self.entries@)
        &&& self.locations@.dom().finite()
        &&& self.entries@.len() == self.locations@.len()
        &&& forall|i: int|
            0 <= i < self.entries@.len() ==> self.locations@.contains_key((#[trigger] self.entries@[i]).1)
                && self.locations@[self.entries@[i].1] == self.entries@[i].0
        &&& forall|v: usize| #[trigger]
            self.locations@.contains_key(v) ==> self.entries@.contains((self.locations@[v], v))
    }

    /// A well-formed frontier holds finitely many vertices, at most
    /// `usize::MAX`.
    pub proof fn lemma_finite(&self)
        requires
            self.wf(),
        ensures
            self@.dom().finite(),
            self@.len() <= usize::MAX,
    {
        assert(self.entries.len() == self.entries@.len());
    }

    /// An empty frontier.
    pub fn new() -> (r: BlockHeap)
        ensures
            r.wf(),
            r@ == Map::<usize, u64>::empty(),
    {
        BlockHeap { entries: Vec::new(), locations: HashMap::new() }
    }

    /// Takes `vertex` out of the frontier, if it is there.
    fn remove_vertex(&mut self, vertex: usize)
        requires
            old(self).wf(),
        ensures
            final(self).wf(),
            final(self)@ == old(self)@.remove(vertex),
    {
        let ghost m0 = self@;
        let ghost e0 = self.entries@;
        match self.locations.remove(&vertex) {
            None => {
                assert(self@ =~= m0.remove(vertex));
            },
            Some(d) => {
                proof {
                    m0.lemma_remove_key_len(vertex);
                }
                let idx = lower_bound(&self.entries, (d, vertex));
                proof {
                    assert(e0.contains((d, vertex)));
                    let k = choose|k: int| 0 <= k < e0.len() && e0[k] == (d, vertex);
                    assert(!key_lt(e0[k], (d, vertex)));
                    assert(k >= idx);
                    if k > idx {
                        assert(key_lt(e0[idx as int], e0[k]));
                    }
                    assert(e0[idx as int] == (d, vertex));
                }
                self.entries.remove(idx);
                proof {
                    let e1 = self.entries@;
                    assert forall|i: int, j: int| 0 <= i < j < e1.len() implies key_lt(#[trigger] e1[i], #[trigger] e1[j]) by {
                        let a = if i < idx { i } else { i + 1 };
                        let b = if j < idx { j } else { j + 1 };
                        assert(key_lt(e0[a], e0[b]));
                    }
                    assert forall|i: int| 0 <= i < e1.len() implies self.locations@.contains_key((#[trigger] e1[i]).1)
                        && self.locations@[e1[i].1] == e1[i].0 by {
                        let a = if i < idx { i } else { i + 1 };
                        assert(e1[i] == e0[a]);
                        assert(m0.contains_key(e0[a].1));
                        if e0[a].1 == vertex {
                            assert(e0[a] == (d, vertex));
                            if a < idx {
                                assert(key_lt(e0[a], e0[idx as int]));
                            } else {
                                assert(key_lt(e0[idx as int], e0[a]));
                            }
                        }
                    }
                    assert forall|v: usize| #[trigger] self.locations@.contains_key(v) implies e1.contains(
                        (self.locations@[v], v),
                    ) by {
                        assert(m0.contains_key(v));
                        let k = choose|k: int| 0 <= k < e0.len() && e0[k] == (m0[v], v);
                        assert(k != idx);
                        let kk = if k < idx { k } else { k - 1 };
                        assert(e1[kk] == (m0[v], v));
                    }
                }
            },
        }
    }

    /// Adds `vertex`, which is absent, at `distance`.
    fn insert_vertex(&mut self, vertex: usize, distance: u64)
        requires
            old(self).wf(),
            !old(self)@.contains_key(vertex),
        ensures
            final(self).wf(),
            final(self)@ == old(self)@.insert(vertex, distance),
    {
        let ghost m0 = self@;
        let ghost e0 = self.entries@;
        let idx = lower_bound(&self.entries, (distance, vertex));
        self.entries.insert(idx, (distance, vertex));
        self.locations.insert(vertex, distance);
        proof {
            let e1 = self.entries@;
            let key = (distance, vertex);
            if idx < e0.len() {
                assert(!key_lt(e0[idx as int], key));
                assert(e0[idx as int] != key) by {
                    assert(m0.contains_key(e0[idx as int].1));
                }
            }
            assert forall|i: int, j: int| 0 <= i < j < e1.len() implies key_lt(#[trigger] e1[i], #[trigger] e1[j]) by {
                if i < idx && j < idx {
                    assert(key_lt(e0[i], e0[j]));
                } else if i < idx && j == idx {
                    assert(key_lt(e0[i], key));
                } else if i < idx {
                    assert(key_lt(e0[i], e0[j - 1]));
                } else if i == idx {
                    assert(!key_lt(e0[j - 1], key));
                    if j - 1 > idx {
                        assert(key_lt(e0[idx as int], e0[j - 1]));
                    }
                    assert(e0[j - 1] != key) by {
                        assert(m0.contains_key(e0[j - 1].1));
                    }
                } else {
                    assert(key_lt(e0[i - 1], e0[j - 1]));
                }
            }
            assert forall|i: int| 0 <= i < e1.len() implies self.locations@.contains_key((#[trigger] e1[i]).1)
                && self.locations@[e1[i].1] == e1[i].0 by {
                if i != idx {
                    let a = if i < idx { i } else { i - 1 };
                    assert(e1[i] == e0[a]);
                    assert(m0.contains_key(e0[a].1));
                }
            }
            assert forall|v: usize| #[trigger] self.locations@.contains_key(v) implies e1.contains(
                (self.locations@[v], v),
            ) by {
                if v == vertex {
                    assert(e1[idx as int] == key);
                } else {
                    let k = choose|k: int| 0 <= k < e0.len() && e0[k] == (m0[v], v);
                    let kk = if k < idx { k } else { k + 1 };
                    assert(e1[kk] == (m0[v], v));
                }
            }
        }
    }

    /// Sets the current distance of `vertex` to `distance`, whatever it was.
    pub fn push(&mut self, vertex: usize, distance: u64)
        requires
            old(self).wf(),
        ensures
            final(self).wf(),
            final(self)@ == old(self)@.insert(vertex, distance),
    {
        self.remove_vertex(vertex);
        self.insert_vertex(vertex, distance);
        proof {
            assert(self@ =~= old(self)@.insert(vertex, distance));
        }
    }

    /// Lowers the distance of `vertex` to `new_distance`, or adds the vertex
    /// when absent; leaves the frontier as it is when the vertex already has
    /// a distance no greater.
    pub fn decrease_key(&mut self, vertex: usize, new_distance: u64)
        requires
            old(self).wf(),
        ensures
            final(self).wf(),
            final(self)@ == decreased(old(self)@, vertex, new_distance),
    {
        let cur = match self.locations.get(&vertex) {
            Some(d) => Some(*d),
            None => None,
        };
        match cur {
            Some(d) => {
                if new_distance < d {
                    self.push(vertex, new_distance);
                }
            },
            None => {
                self.push(vertex, new_distance);
            },
        }
    }

    /// Takes the `min(max_size, size)` first entries of the frontier, in
    /// frontier order, and returns them with the smallest distance left
    /// behind (`None` when nothing is left).
    pub fn pop_block(&mut self, max_size: usize) -> (r: (Vec<(usize, u64)>, Option<u64>))
        requires
            old(self).wf(),
        ensures
            final(self).wf(),
            is_min_block(old(self)@, max_size, r.0@, final(self)@),
            is_min_distance(final(self)@, r.1),
    {
        let ghost m0 = self@;
        let ghost e0 = self.entries@;
        let take = if max_size < self.entries.len() {
            max_size
        } else {
            self.entries.len()
        };
        let tail = self.entries.split_off(take);
        let mut block: Vec<(usize, u64)> = Vec::new();
        let mut i: usize = 0;
        while i < take
            invariant
                i <= take <= e0.len(),
                self.entries@ == e0.subrange(0, take as int),
                tail@ == e0.subrange(take as int, e0.len() as int),
                strictly_sorted(e0),
                self.locations@.dom().finite(),
                self.locations@.len() + i == m0.len(),
                block@.len() == i,
                forall|j: int| 0 <= j < i ==> #[trigger] block@[j] == (e0[j].1, e0[j].0),
                forall|j: int| 0 <= j < e0.len() ==> m0.contains_key((#[trigger] e0[j]).1) && m0[e0[j].1] == e0[j].0,
                forall|v: usize| #[trigger] m0.contains_key(v) ==> e0.contains((m0[v], v)),
                forall|v: usize| #[trigger]
                    self.locations@.contains_key(v) <==> (m0.contains_key(v) && !block_has(block@, v)),
                forall|v: usize| #[trigger] self.locations@.contains_key(v) ==> self.locations@[v] == m0[v],
            decreases take - i,
        {
            let (d, v) = self.entries[i];
            let ghost before = self.locations@;
            let ghost old_block = block@;
            proof {
                assert(e0[i as int] == (d, v));
                assert(!block_has(old_block, v)) by {
                    if block_has(old_block, v) {
                        let j = choose|j: int| 0 <= j < old_block.len() && (#[trigger] old_block[j]).0 == v;
                        assert(key_lt(e0[j], e0[i as int]));
                        assert(m0[e0[j].1] == e0[j].0);
                    }
                }
                before.lemma_remove_key_len(v);
            }
            self.locations.remove(&v);
            block.push((v, d));
            proof {
                assert forall|u: usize| #[trigger] self.locations@.contains_key(u) <==> (m0.contains_key(u)
                    && !block_has(block@, u)) by {
                    if block_has(block@, u) && u != v {
                        let j = choose|j: int| 0 <= j < block@.len() && (#[trigger] block@[j]).0 == u;
                        assert(j < old_block.len());
                        assert(old_block[j] == block@[j]);
                    }
                    if block_has(old_block, u) {
                        let j = choose|j: int| 0 <= j < old_block.len() && (#[trigger] old_block[j]).0 == u;
                        assert(block@[j] == old_block[j]);
                    }
                    if u == v {
                        assert(block@[i as int].0 == v);
                    }
                }
            }
            i = i + 1;
        }
        self.entries = tail;
        proof {
            let e1 = self.entries@;
            let m1 = self@;
            assert forall|a: int, b: int| 0 <= a < b < e1.len() implies key_lt(#[trigger] e1[a], #[trigger] e1[b]) by {
                assert(key_lt(e0[a + take], e0[b + take]));
            }
            assert forall|j: int| 0 <= j < e1.len() implies m1.contains_key((#[trigger] e1[j]).1)
                && m1[e1[j].1] == e1[j].0 by {
                assert(e1[j] == e0[j + take]);
                assert(m0.contains_key(e0[j + take].1));
                if block_has(block@, e0[j + take].1) {
                    let k = choose|k: int| 0 <= k < block@.len() && (#[trigger] block@[k]).0 == e0[j + take].1;
                    assert(key_lt(e0[k], e0[j + take]));
                }
            }
            assert forall|v: usize| #[trigger] m1.contains_key(v) implies e1.contains((m1[v], v)) by {
                let k = choose|k: int| 0 <= k < e0.len() && e0[k] == (m0[v], v);
                if k < take {
                    assert(block@[k].0 == v);
                }
                assert(e1[k - take] == e0[k]);
            }
            assert forall|a: int, b: int| 0 <= a < b < block@.len() implies entry_before(
                #[trigger] block@[a],
                #[trigger] block@[b],
            ) by {
                assert(key_lt(e0[a], e0[b]));
            }
            assert forall|a: int, v: usize| 0 <= a < block@.len() && #[trigger] m1.contains_key(v) implies entry_before(
                #[trigger] block@[a],
                (v, m1[v]),
            ) by {
                let k = choose|k: int| 0 <= k < e0.len() && e0[k] == (m0[v], v);
                if k < take {
                    assert(block@[k].0 == v);
                }
                assert(key_lt(e0[a], e0[k]));
            }
            assert forall|a: int| 0 <= a < block@.len() implies m0.contains_key((#[trigger] block@[a]).0)
                && m0[block@[a].0] == block@[a].1 by {
                assert(m0.contains_key(e0[a].1));
            }
        }
        let next = self.min_distance();
        (block, next)
    }

    /// Whether the frontier holds no vertex.
    pub fn is_empty(&self) -> (r: bool)
        requires
            self.wf(),
        ensures
            r <==> self@.dom().is_empty(),
    {
        proof {
            if self.entries@.len() == 0 && !self@.dom().is_empty() {
                let v = self@.dom().choose();
                assert(self@.contains_key(v));
                assert(self.entries@.contains((self@[v], v)));
            }
            if self.entries@.len() > 0 {
                assert(self@.contains_key(self.entries@[0].1));
            }
        }
        self.entries.len() == 0
    }

    /// The smallest current distance, or `None` when the frontier is empty.
    pub fn min_distance(&self) -> (r: Option<u64>)
        requires
            self.wf(),
        ensures
            is_min_distance(self@, r),
    {
        if self.entries.len() == 0 {
            proof {
                if !self@.dom().is_empty() {
                    let v = self@.dom().choose();
                    assert(self@.contains_key(v));
                    assert(self.entries@.contains((self@[v], v)));
                }
            }
            None
        } else {
            let (d, v) = self.entries[0];
            proof {
                assert(self@.contains_key(v));
                assert forall|u: usize| #[trigger] self@.contains_key(u) implies d <= self@[u] by {
                    let k = choose|k: int| 0 <= k < self.entries@.len() && self.entries@[k] == (self@[u], u);
                    if k > 0 {
                        assert(key_lt(self.entries@[0], self.entries@[k]));
                    }
                }
            }
            Some(d)
        }
    }
}

/// A block taken with a size bound no smaller than the frontier holds every
/// vertex of the frontier exactly once, in order of distance, each at its
/// current distance, and leaves nothing behind. With the frontier being the
/// map of the distances most recently set by `push` and `decrease_key`,
/// this is what taking everything yields.
pub proof fn lemma_full_block_drains(
    m: Map<usize, u64>,
    max: usize,
    block: Seq<(usize, u64)>,
    rest: Map<usize, u64>,
)
    requires
        m.dom().finite(),
        max >= m.len(),
        is_min_block(m, max, block, rest),
    ensures
        rest == Map::<usize, u64>::empty(),
        forall|v: usize| m.contains_key(v) <==> #[trigger] block_has(block, v),
        forall|i: int, j: int| 0 <= i < j < block.len() ==> (#[trigger] block[i]).0 != (#[trigger] block[j]).0,
        forall|i: int, j: int| 0 <= i < j < block.len() ==> (#[trigger] block[i]).1 <= (#[trigger] block[j]).1,
        forall|i: int| 0 <= i < block.len() ==> (#[trigger] block[i]).1 == m[block[i].0],
{
    assert(block.len() == m.len());
    assert forall|i: int, j: int| 0 <= i < j < block.len() implies (#[trigger] block[i]).0 != (#[trigger] block[j]).0 by {
        assert(entry_before(block[i], block[j]));
    }
    assert forall|v: usize| m.contains_key(v) implies #[trigger] block_has(block, v) by {
        if !block_has(block, v) {
            assert(rest.contains_key(v));
            lemma_distinct_seq_set(block, m.dom().remove(v));
            vstd::set::axiom_set_remove_len(m.dom(), v);
        }
    }
    assert forall|v: usize| !rest.contains_key(v) by {
        if rest.contains_key(v) {
            assert(m.contains_key(v));
            assert(block_has(block, v));
        }
    }
    assert(rest =~= Map::<usize, u64>::empty());
}

/// Taking a block of at most `usize::MAX` entries from a well-formed
/// frontier of either form takes all of it, each vertex once, in order of
/// distance, each at its current distance.
pub proof fn lemma_take_all_fast(h: FastBlockHeap, block: Seq<(usize, u64)>, rest: Map<usize, u64>)
    requires
        h.wf(),
        is_min_block(h@, usize::MAX, block, rest),
    ensures
        rest == Map::<usize, u64>::empty(),
        forall|v: usize| h@.contains_key(v) <==> #[trigger] block_has(block, v),
        forall|i: int, j: int| 0 <= i < j < block.len() ==> (#[trigger] block[i]).0 != (#[trigger] block[j]).0,
        forall|i: int, j: int| 0 <= i < j < block.len() ==> (#[trigger] block[i]).1 <= (#[trigger] block[j]).1,
        forall|i: int| 0 <= i < block.len() ==> (#[trigger] block[i]).1 == h@[block[i].0],
{
    h.lemma_finite();
    lemma_full_block_drains(h@, usize::MAX, block, rest);
}

/// The same for the ordered-set form.
pub proof fn lemma_take_all_ordered(h: BlockHeap, block: Seq<(usize, u64)>, rest: Map<usize, u64>)
    requires
        h.wf(),
        is_min_block(h@, usize::MAX, block, rest),
    ensures
        rest == Map::<usize, u64>::empty(),
        forall|v: usize| h@.contains_key(v) <==> #[trigger] block_has(block, v),
        forall|i: int, j: int| 0 <= i < j < block.len() ==> (#[trigger] block[i]).0 != (#[trigger] block[j]).0,
        forall|i: int, j: int| 0 <= i < j < block.len() ==> (#[trigger] block[i]).1 <= (#[trigger] block[j]).1,
        forall|i: int| 0 <= i < block.len() ==> (#[trigger] block[i]).1 == h@[block[i].0],
{
    h.lemma_finite();
    lemma_full_block_drains(h@, usize::MAX, block, rest);
}

/// A block of distinct vertices, all inside `s`, is no longer than `s`.
proof fn lemma_distinct_seq_set(block: Seq<(usize, u64)>, s: Set<usize>)
    requires
        s.finite(),
        forall|i: int| 0 <= i < block.len() ==> s.contains((#[trigger] block[i]).0),
        forall|i: int, j: int| 0 <= i < j < block.len() ==> (#[trigger] block[i]).0 != (#[trigger] block[j]).0,
    ensures
        block.len() <= s.len(),
    decreases block.len(),
{
    if block.len() > 0 {
        let last = block.last().0;
        let b2 = block.drop_last();
        assert forall|i: int| 0 <= i < b2.len() implies s.remove(last).contains((#[trigger] b2[i]).0) by {
            assert(block[i] == b2[i]);
            assert(block[i].0 != block[block.len() - 1].0);
        }
        assert forall|i: int, j: int| 0 <= i < j < b2.len() implies (#[trigger] b2[i]).0 != (#[trigger] b2[j]).0 by {
            assert(block[i] == b2[i] && block[j] == b2[j]);
        }
        lemma_distinct_seq_set(b2, s.remove(last));
        assert(s.contains(block[block.len() - 1].0));
        vstd::set::axiom_set_remove_len(s, last);
    }
}

proof fn lemma_blocks_agree_upto(
    m: Map<usize, u64>,
    max: usize,
    b1: Seq<(usize, u64)>,
    r1: Map<usize, u64>,
    b2: Seq<(usize, u64)>,
    r2: Map<usize, u64>,
    k: int,
)
    requires
        is_min_block(m, max, b1, r1),
        is_min_block(m, max, b2, r2),
        0 <= k <= b1.len(),
    ensures
        forall|j: int| 0 <= j < k ==> b1[j] == b2[j],
    decreases k,
{
    if k > 0 {
        lemma_blocks_agree_upto(m, max, b1, r1, b2, r2, k - 1);
        let i = k - 1;
        assert(b1.len() == b2.len());
        lemma_block_entry_first(m, max, b1, r1, b2, r2, i);
        lemma_block_entry_first(m, max, b2, r2, b1, r1, i);
        if b1[i] != b2[i] {
            assert(entry_before(b1[i], b2[i]));
            assert(entry_before(b2[i], b1[i]));
        }
    }
}

/// Where two blocks agree before position `i`, the entry of the first at
/// `i` equals or comes before the entry of the second there.
proof fn lemma_block_entry_first(
    m: Map<usize, u64>,
    max: usize,
    b1: Seq<(usize, u64)>,
    r1: Map<usize, u64>,
    b2: Seq<(usize, u64)>,
    r2: Map<usize, u64>,
    i: int,
)
    requires
        is_min_block(m, max, b1, r1),
        is_min_block(m, max, b2, r2),
        0 <= i < b1.len(),
        forall|j: int| 0 <= j < i ==> b1[j] == b2[j],
    ensures
        b1[i] == b2[i] || entry_before(b1[i], b2[i]),
{
    assert(b1.len() == b2.len());
    let v2 = b2[i].0;
    assert(m.contains_key(v2) && m[v2] == b2[i].1);
    if r1.contains_key(v2) {
        assert(entry_before(b1[i], (v2, r1[v2])));
    } else {
        assert(block_has(b1, v2));
        let j = choose|j: int| 0 <= j < b1.len() && (#[trigger] b1[j]).0 == v2;
        assert(m[b1[j].0] == b1[j].1);
        if j < i {
            assert(b1[j] == b2[j]);
            assert(entry_before(b2[j], b2[i]));
        } else if j > i {
            assert(entry_before(b1[i], b1[j]));
        }
    }
}

/// Taking a block is determined by the frontier and the size bound alone:
/// two blocks taken from the same frontier with the same bound are equal
/// and leave the same frontier behind, whichever form of the frontier took
/// them.
pub proof fn lemma_min_block_unique(
    m: Map<usize, u64>,
    max: usize,
    b1: Seq<(usize, u64)>,
    r1: Map<usize, u64>,
    b2: Seq<(usize, u64)>,
    r2: Map<usize, u64>,
)
    requires
        is_min_block(m, max, b1, r1),
        is_min_block(m, max, b2, r2),
    ensures
        b1 == b2,
        r1 == r2,
{
    lemma_blocks_agree_upto(m, max, b1, r1, b2, r2, b1.len() as int);
    assert(b1 =~= b2);
    assert forall|v: usize| r1.contains_key(v) <==> r2.contains_key(v) by {
        if r1.contains_key(v) {
            assert(m.contains_key(v));
        }
        if r2.contains_key(v) {
            assert(m.contains_key(v));
        }
    }
    assert(r1 =~= r2);
}

/// The smallest distance of a frontier is determined by the frontier.
pub proof fn lemma_min_distance_unique(m: Map<usize, u64>, a: Option<u64>, b: Option<u64>)
    requires
        is_min_distance(m, a),
        is_min_distance(m, b),
    ensures
        a == b,
{
    if a is Some && b is Some {
        let x = a->Some_0;
        let y = b->Some_0;
        let u = choose|u: usize| #[trigger] m.contains_key(u) && m[u] == x;
        let v = choose|v: usize| #[trigger] m.contains_key(v) && m[v] == y;
    } else if a is Some {
        let x = a->Some_0;
        let u = choose|u: usize| #[trigger] m.contains_key(u) && m[u] == x;
        assert(m.dom().contains(u));
    } else if b is Some {
        let y = b->Some_0;
        let v = choose|v: usize| #[trigger] m.contains_key(v) && m[v] == y;
        assert(m.dom().contains(v));
    }
}

impl Default for FastBlockHeap {
    /// An empty frontier.
    fn default() -> (r: FastBlockHeap)
        ensures
            r.wf(),
            r@ == Map::<usize, u64>::empty(),
    {
        FastBlockHeap::new()
    }
}

impl Default for BlockHeap {
    /// An empty frontier.
    fn default() -> (r: BlockHeap)
        ensures
            r.wf(),
            r@ == Map::<usize, u64>::empty(),
    {
        BlockHeap::new()
    }
}

/// A frontier that a relaxation can push improved labels into.
pub trait Frontier {
    /// The vertices in the frontier with their current distances.
    spec fn contents(&self) -> Map<usize, u64>;

    /// The frontier is well formed.
    spec fn frontier_wf(&self) -> bool;

    /// Sets the current distance of `vertex` to `distance`.
    fn push_label(&mut self, vertex: usize, distance: u64)
        requires
            old(self).frontier_wf(),
        ensures
            final(self).frontier_wf(),
            final(self).contents() == old(self).contents().insert(vertex, distance),
    ;
}

impl Frontier for FastBlockHeap {
    open spec fn contents(&self) -> Map<usize, u64> {
        self@
    }

    open spec fn frontier_wf(&self) -> bool {
        self.wf()
    }

    fn push_label(&mut self, vertex: usize, distance: u64) {
        self.push(vertex, distance);
    }
}

impl Frontier for BlockHeap {
    open spec fn contents(&self) -> Map<usize, u64> {
        self@
    }

    open spec fn frontier_wf(&self) -> bool {
        self.wf()
    }

    fn push_label(&mut self, vertex: usize, distance: u64) {
        self.push(vertex, distance);
    }
}

/// The frontier after one logged operation `(is_push, vertex, distance)`:
/// `push` when the flag is set, `decrease_key` otherwise.
pub open spec fn apply_op(m: Map<usize, u64>, op: (bool, usize, u64)) -> Map<usize, u64> {
    if op.0 {
        m.insert(op.1, op.2)
    } else {
        decreased(m, op.1, op.2)
    }
}

/// The frontier that a log of operations builds from an empty one.
pub open spec fn apply_ops(ops: Seq<(bool, usize, u64)>) -> Map<usize, u64>
    decreases ops.len(),
{
    if ops.len() == 0 {
        Map::empty()
    } else {
        apply_op(apply_ops(ops.drop_last()), ops.last())
    }
}

/// A log of operations leaves exactly the vertices it names in the
/// frontier; each carries a distance that some operation on it set, and a
/// `push` that is the last operation on its vertex sets the final distance.
pub proof fn lemma_ops_frontier(ops: Seq<(bool, usize, u64)>)
    ensures
        apply_ops(ops).dom().finite(),
        forall|v: usize|
            #[trigger] apply_ops(ops).contains_key(v) <==> exists|i: int| 0 <= i < ops.len() && ops[i].1 == v,
        forall|v: usize|
            #[trigger] apply_ops(ops).contains_key(v) ==> exists|i: int|
                0 <= i < ops.len() && ops[i].1 == v && ops[i].2 == apply_ops(ops)[v],
        forall|i: int|
            0 <= i < ops.len() && (#[trigger] ops[i]).0 && (forall|j: int| i < j < ops.len() ==> ops[j].1 != ops[i].1)
                ==> apply_ops(ops)[ops[i].1] == ops[i].2,
    decreases ops.len(),
{
    if ops.len() > 0 {
        let prev = ops.drop_last();
        lemma_ops_frontier(prev);
        let last = ops.last();
        let k = ops.len() - 1;
        assert(ops[k] == last);
        assert forall|v: usize| #[trigger] apply_ops(ops).contains_key(v) <==> exists|i: int|
            0 <= i < ops.len() && ops[i].1 == v by {
            if exists|i: int| 0 <= i < ops.len() && ops[i].1 == v {
                let i = choose|i: int| 0 <= i < ops.len() && ops[i].1 == v;
                if i < k {
                    assert(prev[i] == ops[i]);
                }
            }
            if apply_ops(prev).contains_key(v) {
                let i = choose|i: int| 0 <= i < prev.len() && prev[i].1 == v;
                assert(ops[i] == prev[i]);
            }
        }
        assert forall|v: usize| #[trigger] apply_ops(ops).contains_key(v) implies exists|i: int|
            0 <= i < ops.len() && ops[i].1 == v && ops[i].2 == apply_ops(ops)[v] by {
            if apply_ops(ops)[v] == last.2 && v == last.1 {
                assert(ops[k].1 == v && ops[k].2 == apply_ops(ops)[v]);
            } else {
                assert(apply_ops(prev).contains_key(v) && apply_ops(prev)[v] == apply_ops(ops)[v]);
                let i = choose|i: int|
                    0 <= i < prev.len() && prev[i].1 == v && prev[i].2 == apply_ops(prev)[v];
                assert(ops[i] == prev[i]);
            }
        }
        assert forall|i: int|
            0 <= i < ops.len() && (#[trigger] ops[i]).0 && (forall|j: int| i < j < ops.len() ==> ops[j].1 != ops[i].1)
            implies apply_ops(ops)[ops[i].1] == ops[i].2 by {
            if i < k {
                assert(prev[i] == ops[i]);
                assert(ops[k].1 != ops[i].1);
                assert forall|j: int| i < j < prev.len() implies prev[j].1 != prev[i].1 by {
                    assert(prev[j] == ops[j]);
                }
            }
        }
    }
}

/// After any log of `push` and `decrease_key` operations, taking a block
/// with a bound no smaller than the frontier yields every vertex the log
/// names exactly once, in order of distance, each at the distance the log
/// left it with.
pub proof fn lemma_drain_after_ops(
    ops: Seq<(bool, usize, u64)>,
    max: usize,
    block: Seq<(usize, u64)>,
    rest: Map<usize, u64>,
)
    requires
        max >= apply_ops(ops).len(),
        is_min_block(apply_ops(ops), max, block, rest),
    ensures
        forall|v: usize| #[trigger] block_has(block, v) <==> exists|i: int| 0 <= i < ops.len() && ops[i].1 == v,
        forall|i: int, j: int| 0 <= i < j < block.len() ==> (#[trigger] block[i]).0 != (#[trigger] block[j]).0,
        forall|i: int, j: int| 0 <= i < j < block.len() ==> (#[trigger] block[i]).1 <= (#[trigger] block[j]).1,
        forall|i: int| 0 <= i < block.len() ==> (#[trigger] block[i]).1 == apply_ops(ops)[block[i].0],
        rest == Map::<usize, u64>::empty(),
{
    lemma_ops_frontier(ops);
    lemma_full_block_drains(apply_ops(ops), max, block, rest);
    assert forall|v: usize| #[trigger] block_has(block, v) <==> exists|i: int| 0 <= i < ops.len() && ops[i].1 == v by {
        assert(apply_ops(ops).contains_key(v) <==> block_has(block, v));
    }
}

} // verus!
