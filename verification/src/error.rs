//! Crate-wide error type.
use vstd::prelude::*;

verus! {

/// Anything that can go wrong inside the crate.
#[derive(Debug)]
pub enum GraphError {
    /// A JSONL line was not a valid document.
    JsonLine {
        /// 1-based line number.
        line: usize,
        /// Why the line could not be read.
        message: String,
    },
    /// A node referenced by an edge was not present in the input.
    UnknownNode(String),
    /// A request asked about a node that isn't in the loaded graph.
    NotFound(String),
    /// A claim search needs at least one of `predicate` or `value`.
    EmptyQuery,
}

} // verus!
