//! The project panel's solution view: the solution tree it shows, its
//! entries, and the state of expansion and selection.

pub mod solution_tree;
pub mod solution_view;

pub use solution_tree::{
    DirectoryItem, ProjectFileItem, SlnItem, SolutionEntry, SolutionModel,
};
pub use solution_view::{ProjectPanelViewMode, SolutionEntryId, SolutionViewState};
