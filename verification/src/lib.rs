//! Dense matrices over exact integer entries, with verified linear-algebra
//! derivations: construction helpers, 1-based element access, trace,
//! transpose, elementwise and matrix arithmetic, and a determinant engine
//! that computes determinants and cofactors by recursive Laplace expansion
//! along the first column, feeding the adjugate. Every public operation
//! carries a contract that pins its result down to the mathematical model,
//! and the classical grid laws are proved in `laws`.

use vstd::prelude::*;

pub mod arith;
pub mod determinants;
pub mod laws;
pub mod matrices;

pub use crate::determinants::Determinant;
pub use crate::matrices::Matrix;

verus! {

/// The recoverable failures of this library.
///
/// * `InappropriateNumberOfItems` - the item count does not fit the requested shape
/// * `TraceExistsOnlyForSquareMatrices` - a trace was asked of a non-square matrix
/// * `IncorrectOrdersForOperation` - the operands' orders do not fit the operation
/// * `IndexOutOfRange` - a 1-based coordinate lies outside the matrix
#[derive(Clone, Copy, Debug, PartialEq, Eq)]
pub enum Errors {
    InappropriateNumberOfItems,
    TraceExistsOnlyForSquareMatrices,
    IncorrectOrdersForOperation,
    IndexOutOfRange,
}

impl Errors {
    /// A human-readable description of the failure.
    pub fn message(&self) -> (r: &'static str)
        ensures
            *self == Errors::InappropriateNumberOfItems ==> r@ == "Inappropriate number of items"@,
            *self == Errors::TraceExistsOnlyForSquareMatrices ==> r@
                == "Traces exists only for square matrices"@,
            *self == Errors::IncorrectOrdersForOperation ==> r@
                == "Incorrect orders of matrices for algebric operations"@,
            *self == Errors::IndexOutOfRange ==> r@ == "Index out of range"@,
    {
        match self {
            Errors::InappropriateNumberOfItems => "Inappropriate number of items",
            Errors::TraceExistsOnlyForSquareMatrices => "Traces exists only for square matrices",
            Errors::IncorrectOrdersForOperation => {
                "Incorrect orders of matrices for algebric operations"
            },
            Errors::IndexOutOfRange => "Index out of range",
        }
    }
}

} // verus!
