//! Cherry-Sight: C++ code intelligence for Unreal Engine 5.
//!
//! This crate holds the verified core of the code-intelligence engine:
//! source locations, dependency graphs, UE project structure, asset and
//! Blueprint cross references, caches and work queues, and refactoring edits.

pub mod index;
pub mod languages;
pub mod lsp;
pub mod parser;
pub mod performance;
pub mod project_analysis;
pub mod project_panel;
pub mod refactoring;
pub mod semantic;
pub mod types;
pub mod ubt;
pub mod ue;
pub mod ue_integration;
pub mod util;
