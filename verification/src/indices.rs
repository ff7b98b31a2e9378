//! Counting and locating with a pattern of symbol indices: the pattern is
//! taken as it is, and the text encoder of the index is not asked.

use vstd::prelude::*;
use vstd::std_specs::iter::IteratorSpec;
use crate::block::Block;
use crate::count_array::{encode_pattern, lemma_encode_pass_through};
use crate::fm_index::FmIndex;
use crate::position::Position;
use crate::text_encoder::TextEncoder;
use crate::text_encoders::pass_through::PassThrough;

verus! {

impl<'a, P: Position, B: Block, E: TextEncoder> FmIndex<'a, P, B, E> {
    /// Count the number of occurrences with the indices.
    pub fn count_indices(&self, indices: &[u8]) -> (count: P)
        requires
            self.wf(),
        ensures
            count.value() == self.spec_count(indices@),
    {
        proof {
            lemma_encode_pass_through(indices@);
        }
        let pos_range: (u64, u64) = self.get_pos_range_with(indices, &PassThrough);
        self.count_of(pos_range)
    }

    /// Locate all occurrences with the indices.
    pub fn locate_indices(&self, indices: &[u8]) -> (locations: Vec<P>)
        requires
            self.wf(),
        ensures
            self.appended(Seq::empty(), locations@, self.spec_locations(indices@)),
    {
        proof {
            lemma_encode_pass_through(indices@);
        }
        let pos_range: (u64, u64) = self.get_pos_range_with(indices, &PassThrough);
        self.get_locations(pos_range)
    }

    /// Locate all occurrences with the indices and append them to the buffer.
    pub fn locate_indices_to_buffer(&self, indices: &[u8], buffer: &mut Vec<P>)
        requires
            self.wf(),
        ensures
            self.appended(old(buffer)@, final(buffer)@, self.spec_locations(indices@)),
    {
        proof {
            lemma_encode_pass_through(indices@);
        }
        let pos_range: (u64, u64) = self.get_pos_range_with(indices, &PassThrough);
        self.write_locations_to_buffer(pos_range, buffer);
    }

    /// Count the number of occurrences with the reverse iterator of indices.
    pub fn count_indices_rev_iter<I: Iterator<Item = u8>>(&self, indices_rev_iter: I) -> (count: P)
        requires
            self.wf(),
        ensures
            indices_rev_iter.obeys_prophetic_iter_laws() ==> count.value() == self.spec_count(
                indices_rev_iter.remaining().reverse(),
            ),
    {
        proof {
            lemma_encode_pass_through(indices_rev_iter.remaining().reverse());
        }
        let pos_range: (u64, u64) = self.get_pos_range_from_rev_iter_with(
            indices_rev_iter,
            &PassThrough,
        );
        self.count_of(pos_range)
    }

    /// Locate all occurrences with the reverse iterator of indices.
    pub fn locate_indices_rev_iter<I: Iterator<Item = u8>>(&self, indices_rev_iter: I) -> (locations:
        Vec<P>)
        requires
            self.wf(),
        ensures
            indices_rev_iter.obeys_prophetic_iter_laws() ==> self.appended(
                Seq::empty(),
                locations@,
                self.spec_locations(indices_rev_iter.remaining().reverse()),
            ),
    {
        proof {
            lemma_encode_pass_through(indices_rev_iter.remaining().reverse());
        }
        let pos_range: (u64, u64) = self.get_pos_range_from_rev_iter_with(
            indices_rev_iter,
            &PassThrough,
        );
        self.get_locations(pos_range)
    }

    /// Locate all occurrences with the reverse iterator of indices and
    /// append them to the buffer.
    pub fn locate_indices_rev_iter_to_buffer<I: Iterator<Item = u8>>(
        &self,
        indices_rev_iter: I,
        buffer: &mut Vec<P>,
    )
        requires
            self.wf(),
        ensures
            indices_rev_iter.obeys_prophetic_iter_laws() ==> self.appended(
                old(buffer)@,
                final(buffer)@,
                self.spec_locations(indices_rev_iter.remaining().reverse()),
            ),
    {
        proof {
            lemma_encode_pass_through(indices_rev_iter.remaining().reverse());
        }
        let pos_range: (u64, u64) = self.get_pos_range_from_rev_iter_with(
            indices_rev_iter,
            &PassThrough,
        );
        self.write_locations_to_buffer(pos_range, buffer);
    }
}

} // verus!
