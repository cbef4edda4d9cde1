//! Dead code results and their statistics.

use vstd::prelude::*;
use crate::index::symbol::SymbolId;
use crate::util::span::FileId;

verus! {

/// The dead code found in a project.
#[derive(Debug, Clone)]
pub struct DeadCodeResult {
    pub unused_functions: Vec<SymbolId>,
    pub unused_classes: Vec<SymbolId>,
    pub unused_variables: Vec<SymbolId>,
    pub unreachable_code: Vec<CodeLocation>,
}

/// A location in a source file.
#[derive(Debug, Clone, Copy)]
pub struct CodeLocation {
    pub file_id: FileId,
    pub line: usize,
    pub column: usize,
}

/// The number of dead code issues in a result.
pub open spec fn issue_count(r: DeadCodeResult) -> nat {
    r.unused_functions@.len() + r.unused_classes@.len() + r.unused_variables@.len()
        + r.unreachable_code@.len()
}

impl DeadCodeResult {
    /// A result without issues.
    pub fn new() -> (res: Self)
        ensures
            res.unused_functions@.len() == 0,
            res.unused_classes@.len() == 0,
            res.unused_variables@.len() == 0,
            res.unreachable_code@.len() == 0,
    {
        DeadCodeResult {
            unused_functions: Vec::new(),
            unused_classes: Vec::new(),
            unused_variables: Vec::new(),
            unreachable_code: Vec::new(),
        }
    }

    /// The total number of issues.
    pub fn total_issues(&self) -> (res: usize)
        requires
            issue_count(*self) <= usize::MAX,
        ensures
            res == issue_count(*self),
    {
        self.unused_functions.len() + self.unused_classes.len() + self.unused_variables.len()
            + self.unreachable_code.len()
    }

    /// Whether any issue was found.
    pub fn has_issues(&self) -> (res: bool)
        requires
            issue_count(*self) <= usize::MAX,
        ensures
            res == (issue_count(*self) > 0),
    {
        self.total_issues() > 0
    }
}

impl Default for DeadCodeResult {
    /// A result without issues.
    fn default() -> (res: Self)
        ensures
            issue_count(res) == 0,
    {
        Self::new()
    }
}

/// Counts of dead code issues, beside the number of symbols examined.
#[derive(Debug, Clone, Copy)]
pub struct DeadCodeStats {
    pub total_symbols: usize,
    pub unused_functions: usize,
    pub unused_classes: usize,
    pub unused_variables: usize,
    pub unreachable_code_count: usize,
}

impl DeadCodeStats {
    /// The counts of a result, out of `total_symbols` symbols.
    pub fn from_result(result: &DeadCodeResult, total_symbols: usize) -> (res: Self)
        ensures
            res.total_symbols == total_symbols,
            res.unused_functions == result.unused_functions@.len(),
            res.unused_classes == result.unused_classes@.len(),
            res.unused_variables == result.unused_variables@.len(),
            res.unreachable_code_count == result.unreachable_code@.len(),
    {
        DeadCodeStats {
            total_symbols,
            unused_functions: result.unused_functions.len(),
            unused_classes: result.unused_classes.len(),
            unused_variables: result.unused_variables.len(),
            unreachable_code_count: result.unreachable_code.len(),
        }
    }
}

} // verus!
