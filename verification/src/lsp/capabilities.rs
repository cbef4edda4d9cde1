//! The capabilities a language server announces.

use vstd::prelude::*;

verus! {

/// Which language features the server offers.
#[derive(Debug)]
pub struct ServerCapabilities {
    pub text_document_sync: bool,
    pub completion: bool,
    pub hover: bool,
    pub definition: bool,
    pub references: bool,
}

impl ServerCapabilities {
    /// No capability.
    pub fn new() -> (res: Self)
        ensures
            !res.text_document_sync && !res.completion && !res.hover && !res.definition
                && !res.references,
    {
        Self::default()
    }

    /// Every capability.
    pub fn full() -> (res: Self)
        ensures
            res.text_document_sync && res.completion && res.hover && res.definition
                && res.references,
    {
        ServerCapabilities {
            text_document_sync: true,
            completion: true,
            hover: true,
            definition: true,
            references: true,
        }
    }
}

impl Default for ServerCapabilities {
    /// No capability.
    fn default() -> (res: Self)
        ensures
            !res.text_document_sync && !res.completion && !res.hover && !res.definition
                && !res.references,
    {
        ServerCapabilities {
            text_document_sync: false,
            completion: false,
            hover: false,
            definition: false,
            references: false,
        }
    }
}

} // verus!
