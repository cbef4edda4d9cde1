//! Utility modules: source locations and text helpers.

pub mod assoc;
pub mod graph;
pub mod grouped;
pub mod interning;
pub mod named_graph;
pub mod order;
pub mod path;
pub mod pattern;
pub mod relation;
pub mod scan;
pub mod seqs;
pub mod span;
pub mod text;

pub use interning::{InternedString, Interner};
pub use span::{FileId, Position, Span, TextRange};
