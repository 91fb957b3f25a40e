//! Structural queries over an indexed project.
use vstd::prelude::*;

pub mod args;
pub mod chars;
pub mod cursor;
pub mod dates;
pub mod explore;
pub mod fx;
pub mod git;
pub mod graph;
pub mod hints;
pub mod keys;
pub mod limits;
pub mod numbers;
pub mod order;
pub mod rank;
pub mod recency;
pub mod render;
pub mod resolution;
pub mod risk;
pub mod server;
pub mod symbols;
pub mod text;
pub mod tools;
pub mod winnow;

verus! {

} // verus!
