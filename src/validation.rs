use crate::csr::CsrGraph;
use crate::error::{decimal_text, BmsspError};
use vstd::prelude::*;

verus! {

/// The weight array holds one weight per edge.
pub fn validate_weights_len(graph: &CsrGraph, weights_len: usize) -> (r: Result<(), BmsspError>)
    ensures
        r.is_ok() <==> weights_len == graph.spec_indices().len(),
        r matches Err(e) ==> e is InvalidWeights,
{
    let num_edges = graph.num_edges();
    if weights_len != num_edges {
        let mut s = String::from_str("expected ");
        s.append(decimal_text(num_edges).as_str());
        s.append(" weights (one per edge), got ");
        s.append(decimal_text(weights_len).as_str());
        return Err(BmsspError::InvalidWeights(s));
    }
    Ok(())
}

/// The source is a vertex of the graph.
pub fn validate_source(graph: &CsrGraph, source: usize) -> (r: Result<(), BmsspError>)
    ensures
        r.is_ok() <==> source < graph.spec_n(),
        r matches Err(e) ==> e == (BmsspError::InvalidSource {
            source,
            num_vertices: graph.spec_n() as usize,
        }),
{
    if source >= graph.num_vertices() {
        return Err(BmsspError::InvalidSource { source, num_vertices: graph.num_vertices() });
    }
    Ok(())
}

/// The enabled mask holds one flag per edge.
pub fn validate_enabled_mask(num_edges: usize, enabled: &[bool]) -> (r: Result<(), BmsspError>)
    ensures
        r.is_ok() <==> enabled@.len() == num_edges,
        r matches Err(e) ==> e == (BmsspError::InvalidEnabledMask {
            expected: num_edges,
            actual: enabled@.len() as usize,
        }),
{
    if enabled.len() != num_edges {
        return Err(BmsspError::InvalidEnabledMask { expected: num_edges, actual: enabled.len() });
    }
    Ok(())
}

/// The error that a search refuses its arguments with, checked in this
/// order: the weight count, the source, the mask length.
pub open spec fn refusal(
    g: CsrGraph,
    weights_len: nat,
    source: usize,
    enabled: Option<Seq<bool>>,
    e: BmsspError,
) -> bool {
    if weights_len != g.spec_indices().len() {
        e is InvalidWeights
    } else if source >= g.spec_n() {
        e == (BmsspError::InvalidSource { source, num_vertices: g.spec_n() as usize })
    } else if enabled matches Some(mask) && mask.len() != weights_len {
        e == (BmsspError::InvalidEnabledMask {
            expected: weights_len as usize,
            actual: enabled->Some_0.len() as usize,
        })
    } else {
        false
    }
}

/// The view of an optional mask.
pub open spec fn mask_view(enabled: Option<&[bool]>) -> Option<Seq<bool>> {
    match enabled {
        Some(m) => Some(m@),
        None => None,
    }
}

/// Runs the three checks that every search makes before it starts.
pub fn validate_search(
    graph: &CsrGraph,
    weights: &[u64],
    source: usize,
    enabled: Option<&[bool]>,
) -> (r: Result<(), BmsspError>)
    ensures
        r.is_ok() <==> (weights@.len() == graph.spec_indices().len() && source < graph.spec_n() && (
        enabled matches Some(m) ==> m@.len() == weights@.len())),
        r matches Err(e) ==> refusal(*graph, weights@.len(), source, mask_view(enabled), e),
{
    match validate_weights_len(graph, weights.len()) {
        Ok(()) => {},
        Err(e) => {
            return Err(e);
        },
    }
    match validate_source(graph, source) {
        Ok(()) => {},
        Err(e) => {
            return Err(e);
        },
    }
    match enabled {
        Some(mask) => validate_enabled_mask(graph.num_edges(), mask),
        None => Ok(()),
    }
}

} // verus!
