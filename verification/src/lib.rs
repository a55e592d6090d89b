//! Resolves the construction order of interdependent singletons and builds each
//! of them exactly once.
//!
//! A family of components is described by an implementation of [`Init`]: every
//! component has an identity, an ordered list of direct dependencies, a display
//! name and a constructor that receives exclusive handles to the instances of
//! its direct dependencies. An [`InitTree`] collects the components to build,
//! together with everything they depend on, and [`InitTree::init`] constructs
//! them so that a dependency always exists before its dependents. The result is
//! an [`InitializedTree`], which hands each instance out exactly once.
pub mod cache;
pub mod collector;
pub mod component;
pub mod dedup;
pub mod engine;
pub mod error;
pub mod initialized;
pub mod internal;
pub mod laws;
pub mod resolution;
pub mod schedule;
pub mod tree;

pub use cache::{Cache, CACHE_VERSION};
pub use collector::{deep_deps_list, deps_list};
pub use component::Init;
pub use error::InitError;
pub use initialized::InitializedTree;
pub use internal::{get_type_names, TypeInitDef, MAX_TREE_DEPTH};
pub use tree::InitTree;
