use vstd::prelude::*;
use crate::error::{decimal_text, BmsspError};
use vstd::slice::slice_subrange;

verus! {

/// A directed graph in compressed-sparse-row form.
///
/// The out-edges of vertex `u` are the edge ids `indptr[u] .. indptr[u + 1]`;
/// edge `e` leads to vertex `indices[e]`.
#[derive(Debug, Clone)]
pub struct CsrGraph {
    n: usize,
    indptr: Vec<usize>,
    indices: Vec<usize>,
}

/// The four structural rules of a CSR graph with `n` vertices.
pub open spec fn csr_rules(n: nat, indptr: Seq<usize>, indices: Seq<usize>) -> bool {
    &&& indptr.len() == n + 1
    &&& forall|i: int| 0 <= i < n ==> #[trigger] indptr[i] <= indptr[i + 1]
    &&& forall|e: int| 0 <= e < indices.len() ==> (#[trigger] indices[e] as nat) < n
    &&& indptr[n as int] == indices.len()
}

impl CsrGraph {
    pub closed spec fn spec_n(&self) -> nat {
        self.n as nat
    }

    pub closed spec fn spec_indptr(&self) -> Seq<usize> {
        self.indptr@
    }

    pub closed spec fn spec_indices(&self) -> Seq<usize> {
        self.indices@
    }

    /// The graph satisfies the CSR rules.
    pub open spec fn wf(&self) -> bool {
        &&& self.spec_n() < usize::MAX
        &&& csr_rules(self.spec_n(), self.spec_indptr(), self.spec_indices())
    }

    /// Builds a graph, refusing arrays that break a CSR rule.
    pub fn new(n: usize, indptr: Vec<usize>, indices: Vec<usize>) -> (r: Result<CsrGraph, BmsspError>)
        ensures
            r.is_ok() <==> csr_rules(n as nat, indptr@, indices@),
            r matches Ok(g) ==> g.wf() && g.spec_n() == n && g.spec_indptr() == indptr@ && g.spec_indices() == indices@,
            r matches Err(e) ==> e is InvalidGraph,
    {
        let rows = indptr.len();
        assert(rows == indptr@.len());
        let graph = CsrGraph { n, indptr, indices };
        match graph.validate() {
            Ok(()) => Ok(graph),
            Err(e) => Err(e),
        }
    }

    /// Checks the CSR rules: the length of `indptr`, its monotonicity, the
    /// range of every target, and that `indptr` ends at the edge count.
    pub fn validate(&self) -> (r: Result<(), BmsspError>)
        ensures
            r.is_ok() <==> self.wf(),
            r matches Err(e) ==> e is InvalidGraph,
    {
        if self.n == usize::MAX || self.indptr.len() != self.n + 1 {
            let mut s = String::from_str("indptr length ");
            s.append(decimal_text(self.indptr.len()).as_str());
            s.append(" does not equal n + 1 for n = ");
            s.append(decimal_text(self.n).as_str());
            return Err(BmsspError::InvalidGraph(s));
        }
        let mut i: usize = 0;
        while i < self.n
            invariant
                i <= self.n,
                self.indptr.len() == self.n + 1,
                forall|j: int| 0 <= j < i ==> #[trigger] self.indptr@[j] <= self.indptr@[j + 1],
            decreases self.n - i,
        {
            if self.indptr[i] > self.indptr[i + 1] {
                let mut s = String::from_str("indptr not monotonic at index ");
                s.append(decimal_text(i).as_str());
                return Err(BmsspError::InvalidGraph(s));
            }
            i = i + 1;
        }
        let mut e: usize = 0;
        while e < self.indices.len()
            invariant
                e <= self.indices.len(),
                forall|j: int| 0 <= j < e ==> (#[trigger] self.indices@[j] as nat) < self.n,
            decreases self.indices.len() - e,
        {
            if self.indices[e] >= self.n {
                let mut s = String::from_str("index ");
                s.append(decimal_text(self.indices[e]).as_str());
                s.append(" out of range for n = ");
                s.append(decimal_text(self.n).as_str());
                return Err(BmsspError::InvalidGraph(s));
            }
            e = e + 1;
        }
        if self.indptr[self.n] != self.indices.len() {
            let mut s = String::from_str("last indptr entry ");
            s.append(decimal_text(self.indptr[self.n]).as_str());
            s.append(" does not equal the edge count ");
            s.append(decimal_text(self.indices.len()).as_str());
            return Err(BmsspError::InvalidGraph(s));
        }
        Ok(())
    }

    /// Number of vertices.
    pub fn num_vertices(&self) -> (r: usize)
        ensures
            r == self.spec_n(),
    {
        self.n
    }

    /// Number of edges.
    pub fn num_edges(&self) -> (r: usize)
        ensures
            r == self.spec_indices().len(),
    {
        self.indices.len()
    }

    /// The row-pointer array.
    pub fn indptr(&self) -> (r: &[usize])
        ensures
            r@ == self.spec_indptr(),
    {
        self.indptr.as_slice()
    }

    /// The edge-target array.
    pub fn indices(&self) -> (r: &[usize])
        ensures
            r@ == self.spec_indices(),
    {
        self.indices.as_slice()
    }

    /// The edge ids of the out-edges of `u`, as a half-open range.
    pub fn edge_range(&self, u: usize) -> (r: (usize, usize))
        requires
            self.wf(),
            u < self.spec_n(),
        ensures
            r.0 == self.spec_indptr()[u as int],
            r.1 == self.spec_indptr()[u as int + 1],
            r.0 <= r.1 <= self.spec_indices().len(),
    {
        proof {
            self.lemma_row_bounds(u as int + 1);
            assert(self.spec_indptr()[u as int] <= self.spec_indptr()[u as int + 1]);
        }
        (self.indptr[u], self.indptr[u + 1])
    }

    /// The targets of the out-edges of `u`, in edge-id order.
    pub fn neighbors(&self, u: usize) -> (r: &[usize])
        requires
            self.wf(),
            u < self.spec_n(),
        ensures
            r@ == self.spec_indices().subrange(
                self.spec_indptr()[u as int] as int,
                self.spec_indptr()[u as int + 1] as int,
            ),
    {
        proof {
            self.lemma_row_bounds(u as int + 1);
            assert(self.spec_indptr()[u as int] <= self.spec_indptr()[u as int + 1]);
        }
        let start = self.indptr[u];
        let end = self.indptr[u + 1];
        slice_subrange(self.indices.as_slice(), start, end)
    }

    /// Every row pointer lies within the edge array.
    pub proof fn lemma_row_bounds(&self, u: int)
        requires
            self.wf(),
            0 <= u <= self.spec_n(),
        ensures
            self.spec_indptr()[u] <= self.spec_indices().len(),
        decreases self.spec_n() - u,
    {
        if u < self.spec_n() {
            self.lemma_row_bounds(u + 1);
            assert(self.spec_indptr()[u] <= self.spec_indptr()[u + 1]);
        }
    }
}

} // verus!
