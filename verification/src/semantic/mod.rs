//! Semantic analysis: lexical scopes and name lookup.

pub mod scope;

pub use scope::{Scope, ScopeId, ScopeKind, ScopeManager};
