//! Why the library rejects a request.

use vstd::prelude::*;

verus! {

/// An input the caller handed in cannot be worked with.
#[derive(Clone, Copy, Debug, PartialEq, Eq, Structural)]
pub enum RecError {
    /// The query text is empty or holds only whitespace.
    EmptyQuery,
    /// Two inputs that must agree in length do not.
    DimensionMismatch,
    /// The combined vocabulary passed the dimension bound.
    TooLarge,
}

} // verus!
