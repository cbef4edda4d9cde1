//! Errors of UE project and plugin loading.

use vstd::prelude::*;

verus! {

/// Why a UE descriptor could not be loaded.
#[derive(Debug, Clone, PartialEq, Eq, Structural)]
pub enum UeError {
    /// The descriptor file could not be read.
    Read,
    /// The descriptor text is not valid descriptor JSON.
    Parse,
}

} // verus!
