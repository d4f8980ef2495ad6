//! The deduction strategies' shared result type: which strategy fired and
//! which cell-level deduction it proposes.
use vstd::prelude::*;

verus! {

/// Which deduction strategy produced a solution step.
#[derive(Clone, Copy, Debug, PartialEq, Eq, Structural)]
pub enum Strategy {
    HiddenSingle,
    Guess,
}

/// One deduction: the cells with their proposed new candidate masks, the
/// strategy that found it, and the cells that guided it.
#[derive(Debug, PartialEq)]
pub struct Solution {
    /// A list of cells and their updated guesses.
    pub values: Vec<(usize, u16)>,
    /// Which strategy was used to derive the solution.
    pub strategy: Strategy,
    /// Which cells guided the solution.
    pub guide_cells: Vec<usize>,
}

} // verus!
