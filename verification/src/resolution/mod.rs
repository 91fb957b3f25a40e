//! Reference resolution: the references that extraction leaves pending are turned into edges by
//! matching each to the node it names. Framework-aware resolvers plug in to handle patterns that
//! static parsing cannot see on its own.
pub mod bindings;
pub mod context;
pub mod framework;
pub mod frameworks;
pub mod paths;
pub mod refs;
pub mod resolver;
