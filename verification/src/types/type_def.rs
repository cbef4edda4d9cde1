//! Type definitions.

use vstd::prelude::*;
use crate::util::InternedString;

verus! {

/// A type, known by its interned name.
#[derive(Debug, Clone, PartialEq, Eq, Structural)]
pub struct TypeDef {
    pub name: InternedString,
}

impl TypeDef {
    /// The type named `name`.
    pub fn new(name: InternedString) -> (res: Self)
        ensures
            res.name == name,
    {
        TypeDef { name }
    }
}

} // verus!
