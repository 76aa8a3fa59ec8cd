//! Dependency analysis of a Cargo workspace: module paths, use resolution,
//! the dependency graph and its layout order.

pub mod strings;
pub mod model;
pub mod use_parser;
pub mod order;
pub mod graph;
pub mod layout;
pub mod filtering;
pub mod js_registry;
pub mod workspace;
pub mod cli;
pub mod externals;
pub mod module_walk;
