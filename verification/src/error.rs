//! Errors that the library reports.

use vstd::prelude::*;

verus! {

/// A matrix was given dimensions that do not fit its contents.
#[derive(Debug, PartialEq, Eq, Clone, Copy, Structural)]
pub enum ShapeError {
    /// Zero rows or zero columns were asked for.
    Empty,
    /// The number of rows supplied differs from the number declared.
    RowCount,
    /// Some row's length differs from the number of columns declared.
    RowLength,
    /// A column's length differs from the number of rows of the matrix.
    ColumnLength,
}

/// An enumeration was refused because the system has more free variables
/// than the caller allows for.
#[derive(Debug, PartialEq, Eq, Clone, Copy, Structural)]
pub struct ResourceLimitError {
    /// The number of free variables of the system.
    pub free_variables: usize,
    /// The greatest number of free variables that the caller allows for.
    pub limit: usize,
}

} // verus!
