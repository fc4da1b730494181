use vstd::prelude::*;

verus! {

/// The failures a construction or a solve can report.
#[derive(Clone, Copy, Debug, PartialEq, Eq, Structural)]
pub enum MatrixError {
    /// A numeric token could not be parsed as a binary64 value.
    Parse,
    /// The row groups of a raw grid produced unequal (or empty) rows.
    MalformedGrid,
    /// The equations produced unequal (or empty) coefficient rows.
    MalformedEquation,
    /// A pivot was exactly zero and no later row offered a non-zero entry
    /// in the pivot column.
    Singular,
}

} // verus!
