//! In-memory analytics over a category/article corpus: a compact graph of
//! categories and articles keyed by dense ids, day-indexed page-view vectors,
//! and the aggregate queries (trends, top-N rankings, deltas) built on them.

pub mod bitmap;
pub mod csr_adjacency;
pub mod date;
pub mod delta;
pub mod direct_map;
pub mod graphbuilder;
pub mod models;
pub mod pageview_engine;
pub mod viewfile;
pub mod wikigraph;

pub use csr_adjacency::CsrAdjacency;
pub use direct_map::DirectMap;
pub use graphbuilder::GraphBuilder;
pub use pageview_engine::PageViewEngine;
pub use wikigraph::WikiGraph;
