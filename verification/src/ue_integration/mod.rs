//! Analyses over a UE5 project: the module dependency graph, asset
//! references and Blueprint references.

pub mod asset_tracker;
pub mod blueprint_refs;
pub mod module_graph;

pub use asset_tracker::{AssetKind, AssetReference, AssetStatistics, AssetTracker};
pub use blueprint_refs::{BlueprintRefKind, BlueprintRefTracker, BlueprintReference};
pub use module_graph::{DependencyKind, ModuleDependency, ModuleDependencyGraph};
