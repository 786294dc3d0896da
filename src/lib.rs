//! Single-source shortest paths on compressed-sparse-row graphs with
//! non-negative integer edge weights: a block-frontier engine, its block
//! heaps, and a label-setting reference algorithm, all checked against a
//! path-based model of shortest distances.

pub mod block_heap;
pub mod bmssp;
pub mod csr;
pub mod dijkstra;
pub mod error;
pub mod ordered_float;
pub mod params;
pub mod paths;
pub mod validation;

pub use block_heap::{BlockHeap, FastBlockHeap};
pub use bmssp::{
    bmssp_sssp, bmssp_sssp_with_preds, bmssp_sssp_with_preds_and_state, bmssp_sssp_with_state,
    BmsspState,
};
pub use csr::CsrGraph;
pub use dijkstra::{dijkstra_sssp, dijkstra_sssp_with_preds};
pub use error::BmsspError;
pub use ordered_float::OrderedFloat;
pub use params::BmsspParams;
pub use paths::{INFINITY, NO_PREDECESSOR};
