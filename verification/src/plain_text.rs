//! Counting and locating under longer names: `count_pattern` and
//! `count_text` are `count`, and so on for the other queries with a pattern
//! of bytes.

use vstd::prelude::*;
use vstd::std_specs::iter::IteratorSpec;
use crate::block::Block;
use crate::count_array::encode_pattern;
use crate::fm_index::FmIndex;
use crate::position::Position;
use crate::text_encoder::TextEncoder;
use crate::text_encoders::encoding_table::EncodingTable;

verus! {

impl<'a, P: Position, B: Block, E: TextEncoder> FmIndex<'a, P, B, E> {
    /// Count the number of occurrences of the pattern: the same as `count`.
    pub fn count_pattern(&self, pattern: &[u8]) -> (count: P)
        requires
            self.wf(),
        ensures
            count.value() == self.spec_count(encode_pattern(pattern@, &self.text_encoder)),
    {
        self.count(pattern)
    }

    /// Locate all occurrences of the pattern: the same as `locate`.
    pub fn locate_pattern(&self, pattern: &[u8]) -> (locations: Vec<P>)
        requires
            self.wf(),
        ensures
            self.appended(
                Seq::empty(),
                locations@,
                self.spec_locations(encode_pattern(pattern@, &self.text_encoder)),
            ),
    {
        self.locate(pattern)
    }

    /// Count the number of occurrences with the reverse iterator of
    /// pattern: the same as `count_rev_iter`.
    pub fn count_pattern_rev_iter<I: Iterator<Item = u8>>(&self, pattern_rev_iter: I) -> (count: P)
        requires
            self.wf(),
        ensures
            pattern_rev_iter.obeys_prophetic_iter_laws() ==> count.value() == self.spec_count(
                encode_pattern(pattern_rev_iter.remaining().reverse(), &self.text_encoder),
            ),
    {
        self.count_rev_iter(pattern_rev_iter)
    }

    /// Locate all occurrences with the reverse iterator of pattern: the
    /// same as `locate_rev_iter`.
    pub fn locate_pattern_rev_iter<I: Iterator<Item = u8>>(&self, pattern_rev_iter: I) -> (locations: Vec<
        P,
    >)
        requires
            self.wf(),
        ensures
            pattern_rev_iter.obeys_prophetic_iter_laws() ==> self.appended(
                Seq::empty(),
                locations@,
                self.spec_locations(
                    encode_pattern(pattern_rev_iter.remaining().reverse(), &self.text_encoder),
                ),
            ),
    {
        self.locate_rev_iter(pattern_rev_iter)
    }

    /// Count the number of occurrences of the pattern: the same as `count`.
    pub fn count_text(&self, text: &[u8]) -> (count: P)
        requires
            self.wf(),
        ensures
            count.value() == self.spec_count(encode_pattern(text@, &self.text_encoder)),
    {
        self.count(text)
    }

    /// Locate all occurrences of the pattern: the same as `locate`.
    pub fn locate_text(&self, text: &[u8]) -> (locations: Vec<P>)
        requires
            self.wf(),
        ensures
            self.appended(
                Seq::empty(),
                locations@,
                self.spec_locations(encode_pattern(text@, &self.text_encoder)),
            ),
    {
        self.locate(text)
    }

    /// Count the number of occurrences with the reverse iterator of
    /// pattern: the same as `count_rev_iter`.
    pub fn count_text_rev_iter<I: Iterator<Item = u8>>(&self, text_rev_iter: I) -> (count: P)
        requires
            self.wf(),
        ensures
            text_rev_iter.obeys_prophetic_iter_laws() ==> count.value() == self.spec_count(
                encode_pattern(text_rev_iter.remaining().reverse(), &self.text_encoder),
            ),
    {
        self.count_rev_iter(text_rev_iter)
    }

    /// Locate all occurrences with the reverse iterator of pattern: the
    /// same as `locate_rev_iter`.
    pub fn locate_text_rev_iter<I: Iterator<Item = u8>>(&self, text_rev_iter: I) -> (locations: Vec<
        P,
    >)
        requires
            self.wf(),
        ensures
            text_rev_iter.obeys_prophetic_iter_laws() ==> self.appended(
                Seq::empty(),
                locations@,
                self.spec_locations(
                    encode_pattern(text_rev_iter.remaining().reverse(), &self.text_encoder),
                ),
            ),
    {
        self.locate_rev_iter(text_rev_iter)
    }
}

impl<'a, P: Position, B: Block> FmIndex<'a, P, B, EncodingTable> {
    /// The table of the text encoder: the symbol index of every byte.
    pub fn get_encoding_table(&self) -> (table: &[u8])
        ensures
            table@ == self.text_encoder.0@,
    {
        self.text_encoder.get_encoding_table()
    }
}

} // verus!
