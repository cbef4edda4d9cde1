//! Type inference for `auto` declarations.

use vstd::prelude::*;
use crate::types::TypeDef;

verus! {

/// Infers the types of expressions.  No expression has an inferred type
/// yet.
#[derive(Debug)]
pub struct TypeInference {}

impl TypeInference {
    /// A type inference engine.
    pub fn new() -> (res: Self) {
        Self::default()
    }

    /// The type an `auto` declaration initialised with `expr` gets: none is
    /// inferred.
    pub fn infer_auto(&self, _expr: &str) -> (res: Option<TypeDef>)
        ensures
            res is None,
    {
        None
    }
}

impl Default for TypeInference {
    /// A type inference engine.
    fn default() -> (res: Self) {
        TypeInference {  }
    }
}

} // verus!
