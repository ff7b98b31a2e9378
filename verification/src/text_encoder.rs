//! Encoders from the bytes of a text to symbol indices.

use vstd::prelude::*;
use crate::header::Header;

verus! {

/// A total map from input bytes to symbol indices. The encoder is stored in
/// the blob as a header, so that a loaded index encodes patterns as the
/// builder encoded the text.
pub trait TextEncoder: Header {
    /// The index of the given symbol.
    spec fn spec_idx_of(&self, sym: u8) -> u8;

    /// The index of the given symbol.
    fn idx_of(&self, sym: u8) -> (idx: u8)
        ensures
            idx == self.spec_idx_of(sym),
    ;
}

} // verus!
