//! The failure taxonomy of the solver.

use vstd::prelude::*;

verus! {

/// What can go wrong when the solver or one of its components is called.
#[derive(Clone, Copy, Debug, PartialEq, Eq, Structural)]
pub enum Error {
    /// The input describes no valid problem: a non-square matrix or one
    /// with fewer than two cities.
    InputValidation,
    /// A city index lies outside the matrix.
    Index,
    /// A component was invoked with out-of-contract arguments, such as a
    /// mutation probability above one or a selection count larger than
    /// the population.
    InvalidArgument,
}

} // verus!
