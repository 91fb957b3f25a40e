//! One module per tool family: the work behind each tool.
//!
//! Every function here takes what was read from the graph and returns the text an agent
//! reads. None of them know about the store, the protocol or the runtime.
pub mod answers;
pub mod changed;
pub mod feature;
pub mod flows;
pub mod history;
pub mod impact;
pub mod meaning;
pub mod project;
pub mod search;
pub mod status;
pub mod symbol;
pub mod winnow;
