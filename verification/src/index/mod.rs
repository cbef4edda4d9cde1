//! The symbol index: identifiers of the symbols that analyses refer to.

pub mod symbol;

pub use symbol::SymbolId;
