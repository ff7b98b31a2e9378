//! Fixed-size descriptors at the front of a blob.

use vstd::prelude::*;
use crate::aligned::{align_up, Aligned};
use crate::endian::overlay;

verus! {

/// A fixed-size value that is stored in a blob as a run of bytes.
pub trait Header: Sized {
    /// The number of bytes of the serialized header, without padding.
    spec fn spec_raw_size() -> nat;

    /// The serialized header.
    spec fn spec_bytes(&self) -> Seq<u8>;

    /// The header that a run of `spec_raw_size()` bytes holds.
    spec fn spec_parse(bytes: Seq<u8>) -> Self;

    /// A serialized header has the fixed size and parses back to the header.
    proof fn lemma_header(&self)
        ensures
            Self::spec_raw_size() <= 256,
            self.spec_bytes().len() == Self::spec_raw_size(),
            Self::spec_parse(self.spec_bytes()) == *self,
    ;

    fn raw_size() -> (size: usize)
        ensures
            size == Self::spec_raw_size(),
    ;

    /// The size of the header with the padding that follows it.
    fn aligned_size<A: Aligned>(&self) -> (size: usize)
        ensures
            size == align_up(Self::spec_raw_size(), A::ALIGN_SIZE as nat),
    {
        proof {
            self.lemma_header();
            A::lemma_align_size();
        }
        A::aligned_size(Self::raw_size())
    }

    /// Writes the header at byte `off` of `blob` and leaves the other bytes as they are.
    fn write_to_blob(&self, blob: &mut [u8], off: usize)
        requires
            off + Self::spec_raw_size() <= old(blob)@.len(),
        ensures
            final(blob)@ == overlay(old(blob)@, off as int, self.spec_bytes()),
    ;

    /// Reads the header that starts at byte `off` of `blob`.
    fn read_from_blob(blob: &[u8], off: usize) -> (header: Self)
        requires
            off + Self::spec_raw_size() <= blob@.len(),
        ensures
            header == Self::spec_parse(blob@.subrange(off as int, off + Self::spec_raw_size())),
    ;
}

/// Two arrays with the same elements are the same array.
pub proof fn lemma_array_ext8(a: [u8; 8], b: [u8; 8])
    requires
        a@ == b@,
    ensures
        a == b,
{
    assert(a =~= b);
}

/// Two arrays with the same elements are the same array.
pub proof fn lemma_array_ext256(a: [u8; 256], b: [u8; 256])
    requires
        a@ == b@,
    ensures
        a == b,
{
    assert(a =~= b);
}

} // verus!
