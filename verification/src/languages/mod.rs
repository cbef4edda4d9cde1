//! Editor support for the languages Cherry-Sight serves.

pub mod c;

pub use c::{
    completion_label, symbol_label, CompletionLabel, HighlightName, LabelHighlight, SymbolLabel,
};
