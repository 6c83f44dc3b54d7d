use vstd::prelude::*;

verus! {

/// Why a tree operation failed.
#[derive(Debug, PartialEq, Eq)]
pub enum MerkleError {
    /// `new` was given no leaves.
    InvalidInput,
    /// A leaf index that is not below the number of leaves.
    IndexOutOfRange(usize),
    /// The combining function failed; its own error is kept.
    HashError(String),
}

} // verus!
