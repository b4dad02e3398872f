//! Dependency-ordered assembly of pluggable service units.
//!
//! The crate is organised around three pieces: a directed graph over
//! string-identified vertices with cycle detection and topological
//! ordering (`dag`), a shared, key-addressed service registry (`registry`),
//! and an orchestrator that drives registered assemblies through their
//! lifecycle phases in dependency order (`assembly`).

pub mod assembly;
pub mod dag;
pub mod registry;
pub mod text;
