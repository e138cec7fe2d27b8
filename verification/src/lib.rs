//! Graph queries over AEO Protocol crawls.
//!
//! A crawl arrives as JSON Lines, one AEO document per line. The library
//! frames the lines, builds a typed graph of the documents (edges inferred
//! from `peers` and `authority.primary_sources`), and answers the queries
//! the explorer serves: neighbourhoods, shortest citation chains, and
//! claims that match a predicate or value.
pub mod digraph;
pub mod error;
pub mod graph;
pub mod json;
pub mod jsonl;
pub mod laws;
pub mod model;
pub mod query;

pub use error::GraphError;
pub use graph::{AeoGraph, DecodedLine, EdgeKind};
pub use json::{JsonNumber, JsonValue};
pub use model::{AeoClaim, AeoEntity, AeoNode};
pub use query::{
    ClaimMatch, NeighborEdge, NeighborView, PathHop, PathResult, ValueQuery, find_by_claim, neighbors,
    shortest_path,
};
