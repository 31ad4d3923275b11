//! Uninformed graph search: depth-first, breadth-first and uniform-cost
//! search over a small labeled directed graph, with parent-pointer search
//! trees and path reconstruction.

pub mod engine;
pub mod graph;
pub mod laws;
pub mod tree;
pub mod ucs;
pub mod vid;

use vstd::prelude::*;
use vstd::string::StringExecFns;

verus! {

/// The ways a search run can fail. All are ordinary result values that the
/// caller handles; the engine never panics.
#[derive(Clone, Copy, Debug, PartialEq, Eq, Structural)]
pub enum SearchError {
    /// The graph has no vertex tagged `Start`.
    NoStartNode,
    /// The frontier was exhausted without reaching a goal (depth-first and
    /// breadth-first search).
    NoPathFound,
    /// The frontier was exhausted without reaching a goal (uniform-cost
    /// search).
    NoGoalFound,
}

impl SearchError {
    /// The human-readable description of this error.
    pub open spec fn message_spec(self) -> Seq<char> {
        match self {
            SearchError::NoStartNode => "No start node found"@,
            SearchError::NoPathFound => "No path found"@,
            SearchError::NoGoalFound => "No goal found"@,
        }
    }

    /// Renders the error as text.
    pub fn message(&self) -> (r: String)
        ensures
            r@ == self.message_spec(),
    {
        match self {
            SearchError::NoStartNode => String::from_str("No start node found"),
            SearchError::NoPathFound => String::from_str("No path found"),
            SearchError::NoGoalFound => String::from_str("No goal found"),
        }
    }
}

} // verus!
