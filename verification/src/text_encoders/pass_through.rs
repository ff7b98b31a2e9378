//! The encoder for a text that is already a sequence of symbol indices.

use vstd::prelude::*;
use crate::endian::overlay;
use crate::header::Header;
use crate::text_encoder::TextEncoder;

verus! {

/// Takes every byte as its own symbol index. It takes no room in a blob.
#[derive(Debug, Clone, Copy)]
pub struct PassThrough;

impl TextEncoder for PassThrough {
    open spec fn spec_idx_of(&self, sym: u8) -> u8 {
        sym
    }

    fn idx_of(&self, sym: u8) -> (idx: u8) {
        sym
    }
}

impl Header for PassThrough {
    open spec fn spec_raw_size() -> nat {
        0
    }

    open spec fn spec_bytes(&self) -> Seq<u8> {
        Seq::empty()
    }

    open spec fn spec_parse(bytes: Seq<u8>) -> Self {
        PassThrough
    }

    proof fn lemma_header(&self) {
        broadcast use vstd::seq::group_seq_axioms;
        assert(self.spec_bytes() =~= Seq::<u8>::empty());
        assert(self.spec_bytes().len() == 0);
        assert(Self::spec_raw_size() == 0);
    }

    fn raw_size() -> (size: usize) {
        0
    }

    fn write_to_blob(&self, blob: &mut [u8], off: usize) {
        assert(blob@ =~= overlay(old(blob)@, off as int, self.spec_bytes()));
    }

    fn read_from_blob(blob: &[u8], off: usize) -> (header: Self) {
        PassThrough
    }
}

} // verus!
