//! Code complexity metrics.

use vstd::prelude::*;
use crate::index::symbol::SymbolId;

verus! {

/// Complexity metrics of one function.
#[derive(Debug, Clone)]
pub struct ComplexityMetrics {
    pub cyclomatic_complexity: usize,
    pub cognitive_complexity: usize,
    pub lines_of_code: usize,
    pub nesting_depth: usize,
}

/// Complexity rating.
#[derive(Debug, Clone, Copy, PartialEq, Eq, Structural)]
pub enum ComplexityRating {
    Low,
    Medium,
    High,
    VeryHigh,
}

/// Whether metrics count as high complexity: cyclomatic above 10 or
/// cognitive above 15.
pub open spec fn high_complexity(m: ComplexityMetrics) -> bool {
    m.cyclomatic_complexity > 10 || m.cognitive_complexity > 15
}

/// The rating of a cyclomatic complexity: up to 5 low, up to 10 medium,
/// up to 20 high, above that very high.
pub open spec fn rating_of(cyclomatic: usize) -> ComplexityRating {
    if cyclomatic <= 5 {
        ComplexityRating::Low
    } else if cyclomatic <= 10 {
        ComplexityRating::Medium
    } else if cyclomatic <= 20 {
        ComplexityRating::High
    } else {
        ComplexityRating::VeryHigh
    }
}

impl ComplexityMetrics {
    /// The metrics of the simplest function: cyclomatic complexity 1, the
    /// rest 0.
    pub fn new() -> (res: Self)
        ensures
            res.cyclomatic_complexity == 1,
            res.cognitive_complexity == 0,
            res.lines_of_code == 0,
            res.nesting_depth == 0,
    {
        ComplexityMetrics {
            cyclomatic_complexity: 1,
            cognitive_complexity: 0,
            lines_of_code: 0,
            nesting_depth: 0,
        }
    }

    /// Whether the complexity is high.
    pub fn is_high_complexity(&self) -> (res: bool)
        ensures
            res == high_complexity(*self),
    {
        self.cyclomatic_complexity > 10 || self.cognitive_complexity > 15
    }

    /// The rating of the cyclomatic complexity.
    pub fn get_rating(&self) -> (res: ComplexityRating)
        ensures
            res == rating_of(self.cyclomatic_complexity),
    {
        if self.cyclomatic_complexity <= 5 {
            ComplexityRating::Low
        } else if self.cyclomatic_complexity <= 10 {
            ComplexityRating::Medium
        } else if self.cyclomatic_complexity <= 20 {
            ComplexityRating::High
        } else {
            ComplexityRating::VeryHigh
        }
    }
}

impl Default for ComplexityMetrics {
    /// The metrics of the simplest function.
    fn default() -> (res: Self)
        ensures
            res.cyclomatic_complexity == 1,
            res.cognitive_complexity == 0,
            res.lines_of_code == 0,
            res.nesting_depth == 0,
    {
        Self::new()
    }
}

/// Computes complexity metrics of functions.  No syntax trees are attached
/// yet, so every function measures as the simplest one.
pub struct ComplexityAnalyzer {}

impl ComplexityAnalyzer {
    /// An analyzer.
    pub fn new() -> (res: Self) {
        ComplexityAnalyzer {  }
    }

    /// The cyclomatic complexity of a function: 1, its minimum, until
    /// control flow is analysed.
    pub fn calculate_cyclomatic(&self, _symbol_id: SymbolId) -> (res: usize)
        ensures
            res == 1,
    {
        1
    }

    /// The cognitive complexity of a function: 0 until control flow is
    /// analysed.
    pub fn calculate_cognitive(&self, _symbol_id: SymbolId) -> (res: usize)
        ensures
            res == 0,
    {
        0
    }

    /// The number of source lines of a function: 0 until sources are read.
    fn count_lines(&self, _symbol_id: SymbolId) -> (res: usize)
        ensures
            res == 0,
    {
        0
    }

    /// The deepest nesting in a function: 0 until syntax trees are read.
    fn calculate_nesting_depth(&self, _symbol_id: SymbolId) -> (res: usize)
        ensures
            res == 0,
    {
        0
    }

    /// All metrics of a function.
    pub fn analyze_function(&self, symbol_id: SymbolId) -> (res: ComplexityMetrics)
        ensures
            res.cyclomatic_complexity == 1,
            res.cognitive_complexity == 0,
            res.lines_of_code == 0,
            res.nesting_depth == 0,
    {
        ComplexityMetrics {
            cyclomatic_complexity: self.calculate_cyclomatic(symbol_id),
            cognitive_complexity: self.calculate_cognitive(symbol_id),
            lines_of_code: self.count_lines(symbol_id),
            nesting_depth: self.calculate_nesting_depth(symbol_id),
        }
    }

    /// The functions among `symbols` whose complexity is high, with their
    /// metrics.  As every function measures as the simplest one, there are
    /// none.
    pub fn find_high_complexity_functions(&self, _symbols: &[SymbolId]) -> (res: Vec<
        (SymbolId, ComplexityMetrics),
    >)
        ensures
            res@.len() == 0,
    {
        Vec::new()
    }
}

impl Default for ComplexityAnalyzer {
    /// An analyzer.
    fn default() -> (res: Self) {
        Self::new()
    }
}

/// Computes the maintainability index of functions.
pub struct MaintainabilityIndex {}

impl MaintainabilityIndex {
    /// A maintainability calculator.
    pub fn new() -> (res: Self) {
        MaintainabilityIndex {  }
    }
}

impl Default for MaintainabilityIndex {
    /// A maintainability calculator.
    fn default() -> (res: Self) {
        Self::new()
    }
}

/// Maintainability rating.
#[derive(Debug, Clone, Copy, PartialEq, Eq, Structural)]
pub enum MaintainabilityRating {
    Excellent,
    Good,
    Fair,
    Poor,
}

} // verus!
