//! Project-wide analyses: complexity, dead code and file dependencies.

pub mod complexity;
pub mod dead_code;
pub mod dependencies;

pub use complexity::{
    ComplexityAnalyzer, ComplexityMetrics, ComplexityRating, MaintainabilityIndex,
    MaintainabilityRating,
};
pub use dead_code::{CodeLocation, DeadCodeResult, DeadCodeStats};
pub use dependencies::{
    CouplingMetrics, DependencyAnalyzer, DependencyGraph, DependencyViolation, ViolationKind,
};
