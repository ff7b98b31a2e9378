//! The errors of building and loading an index.

use vstd::prelude::*;

verus! {

/// Error type for the builder.
#[derive(Debug)]
pub enum BuildError {
    /// The number of distinct symbols exceeds the capacity of the chosen
    /// block type: the maximum of the block type, then the given number.
    SymbolCountOver(u32, u32),
    /// The length of the provided text does not match the length declared
    /// when the builder was made: the declared length, then the given one.
    UnmatchedTextLength(usize, usize),
    /// The provided blob slice has an incorrect size: the expected size,
    /// then the given one.
    InvalidBlobSize(usize, usize),
    /// The provided blob slice is not properly aligned: the required
    /// alignment, then the offset of the blob from it.
    NotAlignedBlob(usize, usize),
    /// An invalid build configuration was provided.
    InvalidConfig(String),
}

/// Error type for loading an index from a blob.
#[derive(Debug, Clone, Copy, PartialEq, Eq)]
pub enum LoadError {
    /// The provided data does not appear to be a valid index blob.
    InvalidFormat,
    /// The size of the provided blob does not match the size that its
    /// headers call for: the expected size, then the given one.
    MismatchedBlobSize(usize, usize),
}

} // verus!
