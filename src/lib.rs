//! Approximate nearest-neighbour vector index built on a hierarchical
//! navigable small-world graph.
//!
//! Vector components are carried as the raw IEEE-754 bit patterns of 32-bit
//! floats; all arithmetic on them happens behind [`metric::DistanceKernel`],
//! so the graph logic here is proved correct for every distance function.

pub mod db;
pub mod hnsw;
pub mod idtable;
pub mod level;
pub mod metric;
pub mod model;
pub mod persist;
pub mod queue;

pub use db::{DbError, DbState, Metadata, SearchResult, VectorDB, VectorRecord};
pub use hnsw::HNSWIndex;
pub use metric::{DistanceKernel, DistanceMetric};
pub use persist::{IndexParts, NodeParts};
