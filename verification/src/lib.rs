//! Core of a package manager for a compiled-language ecosystem: a dependency
//! graph query engine and a cache-aware installation planner.
//!
//! The library models the package set, answers graph queries over it (direct
//! and transitive dependencies, reverse dependents, cycle detection), keeps
//! the machine-wide package cache index, and plans installation, pruning and
//! cleanup.  Everything that touches the network or the filesystem stays
//! outside; this crate computes the decisions and is verified.

pub mod cache;
pub mod compiler;
pub mod config;
pub mod cycles;
pub mod errors;
pub mod graph;
pub mod imports;
pub mod install;
pub mod modules;
pub mod name;
pub mod package;
pub mod paths;
pub mod query;
pub mod search;
pub mod sources;
pub mod templates;
pub mod textutil;
pub mod validate;
pub mod workspace;

pub use name::PackageName;
pub use package::{
    LocalPackage, Package, PackageInSet, PackageSet, PackageSetPackage, RegistryIndex,
    RegistryPackage,
};
pub use query::PackageQuery;
