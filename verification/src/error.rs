//! Errors reported by board construction and kernel parsing.

use vstd::prelude::*;

verus! {

/// Why a board or an adjacency kernel could not be built.
#[derive(Debug, PartialEq, Eq)]
pub enum Error {
    /// The board text holds a character outside the charset.
    InvalidCharacter(char),
    /// The grid has more cells than the coordinate width can address.
    CapacityExceeded,
    /// The cell count is not a perfect square.
    NotSquare,
    /// A kernel offset pair holds this malformed or out-of-range token.
    InvalidKernelNumber(String),
}

} // verus!
