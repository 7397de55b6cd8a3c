//! A dependency-graph resolver: units register their identity together with
//! the identities they require, the identities they suggest, and the aliases
//! they provide; resolution builds a directed acyclic graph and returns a
//! linear execution order that honours every declared relationship.

mod keymap;
mod graph;
mod order;
mod resolver;

pub use graph::DepEdge;
pub use graph::Edge;
pub use resolver::DepError;
pub use resolver::Dependency;
pub use resolver::Dependy;
pub use resolver::InternalDependency;
