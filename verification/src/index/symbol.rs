//! Symbol identifiers.

use vstd::prelude::*;

verus! {

/// Identifier of a symbol in the index.
#[derive(Debug, Clone, Copy, PartialEq, Eq, Structural, Hash, PartialOrd, Ord)]
pub struct SymbolId(pub u32);

impl SymbolId {
    /// The identifier with the raw value `id`.
    pub fn new(id: u32) -> (res: Self)
        ensures
            res.0 == id,
    {
        SymbolId(id)
    }

    /// The raw value of this identifier.
    pub fn as_u32(self) -> (res: u32)
        ensures
            res == self.0,
    {
        self.0
    }
}

} // verus!
