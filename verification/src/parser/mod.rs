//! Parsing support: incremental re-parsing of C++ with tree-sitter, the
//! edits it applies, and source ranges of syntax nodes.

pub mod incremental;
pub mod text_range;

pub use incremental::{Edit, IncrementalParser, ParserError, Position};
pub use text_range::TextRangeExt;
