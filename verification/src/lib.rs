//! An in-memory engine for a personal collection of task records that may
//! depend on one another. Tasks form a directed acyclic graph: a task can have
//! several parent projects and several children. The engine owns entity
//! identity, dependency-link maintenance with cycle prevention, transitive
//! ancestor and descendant computation, weighted progress aggregation, an
//! integrity-repair pass, and a filter engine that expands matches into
//! dependency-complete result sets.

pub mod cache;
pub mod date;
pub mod filter;
pub mod instance;
pub mod laws;
pub mod scanner;
pub mod text;
pub mod todo;
pub mod util;
pub mod view;

use vstd::prelude::*;

verus! {

/// The engine's version string.
pub fn version() -> (r: String)
    ensures
        r@ == "0.1"@,
{
    "0.1".to_owned()
}

/// The version string under the name the original binary exposes.
pub fn get_version() -> (r: String)
    ensures
        r@ == "0.1"@,
{
    "0.1".to_owned()
}

} // verus!
