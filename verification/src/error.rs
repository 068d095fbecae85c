//! Errors reported by the retrieval side of the library.

use vstd::prelude::*;

verus! {

/// An error from decoding a digest.
#[derive(Debug, Clone, Copy, PartialEq, Eq, Structural)]
pub enum OmrError {
    /// The linear system handed to the payload solver has no pivot in some
    /// column: too few combinations were used, or the draw was singular.
    InvertibleMatrix,
    /// No index digest recovered exactly the pertinent count of distinct
    /// indices, or a recovered index lies outside the board.
    RetrievalFailed,
}

} // verus!
