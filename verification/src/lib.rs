//! Validated dependency graphs.
//!
//! A [`DepTreeBuilder`] collects `unit -> dependencies` declarations and, on
//! [`DepTreeBuilder::build`], either rejects them (a unit depends on itself, or
//! a chain of dependencies returns to a unit it started from) or hands out a
//! [`DepTree`] that answers traversal and ranking queries.
//!
//! Every executable function carries a contract over the mathematical edge map
//! [`graph::Edges`], and every contract is proved.
pub mod builder;
pub mod degree;
pub mod graph;
pub mod ident;
pub mod keys;
pub mod laws;
pub mod rank;
pub mod search;
pub mod sorted;
pub mod text;
pub mod tree;
pub mod walk;

pub use builder::{DepTreeBuilder, DepTreeBuilderError, DepTreeBuilderResult};
pub use ident::DepId;
pub use tree::DepTree;
