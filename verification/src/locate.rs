//! Counting and locating the occurrences of a pattern.
//!
//! A pattern is searched from its end: the lookup table gives the range of
//! rows of the suffix array for the last symbols of the pattern, and each
//! symbol before them narrows the range. The rows of the last range are then
//! walked back through the text until a sampled row is met.

use vstd::prelude::*;
use vstd::std_specs::iter::IteratorSpec;
use crate::block::Block;
use crate::bwm::min_nat;
use crate::count_array::{encode_pattern, spec_initial_range};
use crate::endian::{lemma_pow256_values, pow256};
use crate::fm_index::FmIndex;
use crate::position::Position;
use crate::text_encoder::TextEncoder;
use crate::text_encoders::pass_through::PassThrough;

verus! {

impl<'a, P: Position, B: Block, E: TextEncoder> FmIndex<'a, P, B, E> {
    /// The number of symbols of the text that are smaller than the symbol
    /// `symidx`, and zero for what is no symbol.
    pub open spec fn spec_precount(&self, symidx: nat) -> nat {
        if symidx < self.symbol_count() {
            self.count_array_view.counts()[symidx as int]
        } else {
            0
        }
    }

    /// The row that the row `pos` goes to when the symbol `symidx` is put
    /// before its suffix; no row is behind the last one.
    pub open spec fn spec_lf(&self, pos: nat, symidx: nat) -> nat {
        min_nat(self.spec_precount(symidx) + self.bwm_view.spec_rank(pos, symidx), self.text_len())
    }

    /// The range of rows for a pattern with the symbol `symidx` before it,
    /// from the range of the pattern. What is no symbol gives the empty range.
    pub open spec fn spec_next_pos_range(&self, range: (nat, nat), symidx: u8) -> (nat, nat) {
        if symidx as nat >= self.symbol_count() {
            (0, 0)
        } else {
            (self.spec_lf(range.0, symidx as nat), self.spec_lf(range.1, symidx as nat))
        }
    }

    /// The range of rows after the first `cursor` symbols of `syms` were put
    /// before the pattern of `range`, last symbol first. An empty range stays.
    pub open spec fn spec_search(&self, range: (nat, nat), syms: Seq<u8>, cursor: nat) -> (nat, nat)
        decreases cursor,
    {
        if range.0 >= range.1 || cursor == 0 {
            range
        } else {
            self.spec_search(
                self.spec_next_pos_range(range, syms[cursor - 1]),
                syms,
                (cursor - 1) as nat,
            )
        }
    }

    /// The range of rows of the suffix array whose suffixes start with the
    /// pattern of the symbol indices `syms`. A pattern that is longer than
    /// the text has the empty range.
    pub open spec fn spec_pos_range(&self, syms: Seq<u8>) -> (nat, nat) {
        if syms.len() > self.text_len() {
            (0, 0)
        } else {
            let first = spec_initial_range(
                self.count_array_view.table(),
                self.count_array_view.base(),
                self.count_array_view.kmer_size(),
                syms,
            );
            self.spec_search(
                (min_nat(first.0.0, self.text_len()), min_nat(first.0.1, self.text_len())),
                syms,
                first.1,
            )
        }
    }

    /// The number of rows of a range.
    pub open spec fn range_len(range: (nat, nat)) -> nat {
        if range.1 > range.0 {
            (range.1 - range.0) as nat
        } else {
            0
        }
    }

    /// The number of occurrences of the pattern of the symbol indices `syms`.
    pub open spec fn spec_count(&self, syms: Seq<u8>) -> nat {
        Self::range_len(self.spec_pos_range(syms))
    }

    /// The position in the text of the suffix of row `pos`, `offset` steps
    /// after the walk began: a sampled row gives its sample and the offset;
    /// another row is left for the row of the suffix that is one symbol
    /// longer. The walk ends after `fuel` steps at the latest.
    pub open spec fn spec_walk(&self, pos: nat, offset: nat, fuel: nat) -> nat
        decreases fuel,
    {
        if pos % (self.suffix_array_view.sampling_ratio as nat) == 0 {
            min_nat(
                self.suffix_array_view.spec_location_of(pos) + offset,
                (pow256(P::spec_size()) - 1) as nat,
            )
        } else if fuel == 0 {
            offset
        } else {
            match self.bwm_view.spec_step(pos) {
                None => offset,
                Some(step) => self.spec_walk(
                    min_nat(self.spec_precount(step.1 as nat) + step.0, self.text_len()),
                    offset + 1,
                    (fuel - 1) as nat,
                ),
            }
        }
    }

    /// The positions in the text of the suffixes of the rows of a range, row by row.
    pub open spec fn spec_locations_of(&self, range: (nat, nat)) -> Seq<nat> {
        Seq::new(
            Self::range_len(range),
            |i: int| self.spec_walk((range.0 + i) as nat, 0, self.text_len()),
        )
    }

    /// The positions of the occurrences of the pattern of the symbol indices
    /// `syms`, in the order of the rows of the suffix array.
    pub open spec fn spec_locations(&self, syms: Seq<u8>) -> Seq<nat> {
        self.spec_locations_of(self.spec_pos_range(syms))
    }

    /// The row that the row `pos` goes to when the symbol `symidx` is put
    /// before its suffix.
    fn lf(&self, pos: u64, symidx: u8) -> (next: u64)
        requires
            self.wf(),
            (symidx as nat) < self.symbol_count(),
        ensures
            next as nat == self.spec_lf(pos as nat, symidx as nat),
            next <= self.text_len(),
    {
        let precount: u64 = self.count_array_view.count_array[symidx as usize];
        let rank: u128 = self.bwm_view.next_rank(pos, symidx);
        proof {
            P::lemma_position();
            lemma_pow256_values();
            assert(self.count_array_view.counts()[symidx as int] == precount as nat);
            self.bwm_view.lemma_rank_bound(pos as nat, symidx as nat);
        }
        let sum: u128 = precount as u128 + rank;
        let text_len: u64 = self.suffix_array_header.text_len;
        if sum > text_len as u128 {
            text_len
        } else {
            sum as u64
        }
    }

    /// The range of rows for a pattern with the symbol `sym` before it.
    fn next_pos_range_of_indices(&self, pos_range: (u64, u64), symidx: u8) -> (next: (u64, u64))
        requires
            self.wf(),
        ensures
            (next.0 as nat, next.1 as nat) == self.spec_next_pos_range(
                (pos_range.0 as nat, pos_range.1 as nat),
                symidx,
            ),
            next.0 <= self.text_len(),
            next.1 <= self.text_len(),
    {
        if symidx as usize >= self.bwm_view.symbol_count {
            (0, 0)
        } else {
            (self.lf(pos_range.0, symidx), self.lf(pos_range.1, symidx))
        }
    }

    /// The range of rows of the suffix array whose suffixes start with the pattern.
    pub(crate) fn get_pos_range_with<F: TextEncoder>(&self, pattern: &[u8], encoder: &F) -> (range: (u64, u64))
        requires
            self.wf(),
        ensures
            (range.0 as nat, range.1 as nat) == self.spec_pos_range(
                encode_pattern(pattern@, encoder),
            ),
            range.0 <= self.text_len(),
            range.1 <= self.text_len(),
    {
        let text_len: u64 = self.suffix_array_header.text_len;
        let ghost syms = encode_pattern(pattern@, encoder);
        if pattern.len() as u64 > text_len {
            return (0, 0);
        }
        let (first, cursor) = self.count_array_view.get_initial_pos_range_and_idx_of_pattern(
            pattern,
            encoder,
        );
        let lo: u64 = first.0.as_u64();
        let hi: u64 = first.1.as_u64();
        let mut pos_range: (u64, u64) = (
            if lo > text_len {
                text_len
            } else {
                lo
            },
            if hi > text_len {
                text_len
            } else {
                hi
            },
        );
        let mut idx: usize = cursor;
        let ghost wanted = self.spec_pos_range(syms);
        proof {
            let spec = spec_initial_range(
                self.count_array_view.table(),
                self.count_array_view.base(),
                self.count_array_view.kmer_size(),
                syms,
            );
            assert(spec.1 <= syms.len());
        }
        // LF mapping
        while pos_range.0 < pos_range.1 && idx > 0
            invariant
                self.wf(),
                idx <= pattern@.len(),
                syms == encode_pattern(pattern@, encoder),
                pos_range.0 <= self.text_len(),
                pos_range.1 <= self.text_len(),
                wanted == self.spec_search(
                    (pos_range.0 as nat, pos_range.1 as nat),
                    syms,
                    idx as nat,
                ),
            decreases idx,
        {
            idx -= 1;
            let symidx: u8 = encoder.idx_of(pattern[idx]);
            pos_range = self.next_pos_range_of_indices(pos_range, symidx);
        }
        pos_range
    }

    /// The number of rows of a range, as a position.
    pub(crate) fn count_of(&self, pos_range: (u64, u64)) -> (count: P)
        requires
            self.wf(),
            pos_range.0 <= self.text_len(),
            pos_range.1 <= self.text_len(),
        ensures
            count.value() == Self::range_len((pos_range.0 as nat, pos_range.1 as nat)),
    {
        let count: u64 = if pos_range.1 > pos_range.0 {
            pos_range.1 - pos_range.0
        } else {
            0
        };
        proof {
            vstd::arithmetic::div_mod::lemma_small_mod(count as nat, pow256(P::spec_size()));
        }
        P::from_u64(count)
    }

    /// The position in the text of the suffix of row `pos`.
    fn walk(&self, row: u64) -> (location: P)
        requires
            self.wf(),
            row <= self.text_len(),
        ensures
            location.value() == self.spec_walk(row as nat, 0, self.text_len()),
    {
        proof {
            P::lemma_position();
            lemma_pow256_values();
        }
        let text_len: u64 = self.suffix_array_header.text_len;
        let ratio: u64 = self.suffix_array_view.sampling_ratio;
        let mut pos: u64 = row;
        let mut offset: u64 = 0;
        let ghost wanted = self.spec_walk(row as nat, 0, self.text_len());
        while pos % ratio != 0 && offset < text_len
            invariant
                self.wf(),
                wanted == self.spec_walk(row as nat, 0, self.text_len()),
                pow256(P::spec_size()) <= 0x1_0000_0000_0000_0000,
                text_len == self.text_len(),
                ratio == self.suffix_array_view.sampling_ratio,
                pos <= text_len,
                offset <= text_len,
                text_len < pow256(P::spec_size()),
                wanted == self.spec_walk(pos as nat, offset as nat, (text_len - offset) as nat),
            decreases text_len - offset,
        {
            match self.bwm_view.pre_rank_and_symidx(pos) {
                Some((rank, symidx)) => {
                    let precount: u64 = if (symidx as usize) < self.bwm_view.symbol_count {
                        self.count_array_view.count_array[symidx as usize]
                    } else {
                        0
                    };
                    proof {
                        if (symidx as nat) < self.symbol_count() {
                            assert(self.count_array_view.counts()[symidx as int] == precount as nat);
                        }
                        self.bwm_view.lemma_rank_bound(pos as nat, symidx as nat);
                        assert(self.bwm_view.spec_step(pos as nat) == Some((rank as nat, symidx)));
                        assert(rank as nat == self.bwm_view.spec_rank(pos as nat, symidx as nat));
                    }
                    let sum: u128 = precount as u128 + rank;
                    let ghost here = pos;
                    pos = if sum > text_len as u128 {
                        text_len
                    } else {
                        sum as u64
                    };
                    proof {
                        assert(self.spec_walk(
                            here as nat,
                            offset as nat,
                            (text_len - offset) as nat,
                        ) == self.spec_walk(
                            pos as nat,
                            (offset + 1) as nat,
                            (text_len - offset - 1) as nat,
                        ));
                    }
                },
                None => {
                    // The suffix of the row is the whole text.
                    proof {
                        assert(self.bwm_view.spec_step(pos as nat) is None);
                        assert(self.spec_walk(
                            pos as nat,
                            offset as nat,
                            (text_len - offset) as nat,
                        ) == offset);
                        vstd::arithmetic::div_mod::lemma_small_mod(
                            offset as nat,
                            pow256(P::spec_size()),
                        );
                    }
                    return P::from_u64(offset);
                },
            }
            offset += 1;
        }
        if pos % ratio != 0 {
            proof {
                vstd::arithmetic::div_mod::lemma_small_mod(offset as nat, pow256(P::spec_size()));
            }
            return P::from_u64(offset);
        }
        proof {
            // A row of the text is a row of the suffix array.
            let r = ratio as int;
            vstd::arithmetic::div_mod::lemma_fundamental_div_mod(text_len as int, r);
            vstd::arithmetic::div_mod::lemma_fundamental_div_mod(pos as int, r);
            assert(pos as int / r <= text_len as int / r) by (nonlinear_arith)
                requires
                    pos <= text_len,
                    r > 0,
                    text_len as int == r * (text_len as int / r) + text_len as int % r,
                    pos as int == r * (pos as int / r) + pos as int % r,
                    0 <= text_len as int % r < r,
                    0 <= pos as int % r < r,
            ;
        }
        let sample: u64 = self.suffix_array_view.location_of(pos);
        let max: u64 = if P::size() == 4 {
            0xffff_ffff
        } else {
            0xffff_ffff_ffff_ffff
        };
        let sum: u128 = sample as u128 + offset as u128;
        let location: u64 = if sum > max as u128 {
            max
        } else {
            sum as u64
        };
        proof {
            vstd::arithmetic::div_mod::lemma_small_mod(location as nat, pow256(P::spec_size()));
        }
        P::from_u64(location)
    }

    /// Appends the positions in the text of the suffixes of the rows of a
    /// range to `locations`.
    #[inline]
    pub(crate) fn write_locations_to_buffer(&self, pos_range: (u64, u64), locations: &mut Vec<P>)
        requires
            self.wf(),
            pos_range.0 <= self.text_len(),
            pos_range.1 <= self.text_len(),
        ensures
            self.appended(
                old(locations)@,
                final(locations)@,
                self.spec_locations_of((pos_range.0 as nat, pos_range.1 as nat)),
            ),
    {
        let ghost wanted = self.spec_locations_of((pos_range.0 as nat, pos_range.1 as nat));
        let ghost before = locations@;
        let mut pos: u64 = pos_range.0;
        while pos < pos_range.1
            invariant
                self.wf(),
                pos_range.1 <= self.text_len(),
                pos_range.0 <= pos,
                pos_range.0 < pos_range.1 ==> pos <= pos_range.1,
                pos_range.0 >= pos_range.1 ==> pos == pos_range.0,
                wanted == self.spec_locations_of((pos_range.0 as nat, pos_range.1 as nat)),
                locations@.len() == before.len() + (pos - pos_range.0),
                forall|i: int| 0 <= i < before.len() ==> locations@[i] == before[i],
                forall|i: int|
                    0 <= i < pos - pos_range.0 ==> (#[trigger] locations@[before.len() + i]).value()
                        == wanted[i],
            decreases pos_range.1 - pos,
        {
            let location: P = self.walk(pos);
            proof {
                assert(wanted[pos - pos_range.0] == self.spec_walk(
                    (pos_range.0 + (pos - pos_range.0)) as nat,
                    0,
                    self.text_len(),
                ));
            }
            locations.push(location);
            pos += 1;
        }
        proof {
            assert(wanted.len() == Self::range_len((pos_range.0 as nat, pos_range.1 as nat)));
            assert(before == old(locations)@);
            assert(locations@.len() == before.len() + wanted.len());
            assert forall|i: int| 0 <= i < wanted.len() implies (#[trigger] locations@[before.len()
                + i]).value() == wanted[i] by {
                assert(0 <= i < pos - pos_range.0);
            }
        }
    }

    /// Whether `after` is `before` with the positions `added` behind it.
    pub open spec fn appended(&self, before: Seq<P>, after: Seq<P>, added: Seq<nat>) -> bool {
        &&& after.len() == before.len() + added.len()
        &&& forall|i: int| 0 <= i < before.len() ==> after[i] == before[i]
        &&& forall|i: int|
            0 <= i < added.len() ==> (#[trigger] after[before.len() + i]).value() == added[i]
    }

    /// The positions in the text of the suffixes of the rows of a range.
    pub(crate) fn get_locations(&self, pos_range: (u64, u64)) -> (locations: Vec<P>)
        requires
            self.wf(),
            pos_range.0 <= self.text_len(),
            pos_range.1 <= self.text_len(),
        ensures
            self.appended(
                Seq::empty(),
                locations@,
                self.spec_locations_of((pos_range.0 as nat, pos_range.1 as nat)),
            ),
    {
        let mut locations: Vec<P> = Vec::new();
        self.write_locations_to_buffer(pos_range, &mut locations);
        locations
    }

    /// Count the number of occurrences of the pattern.
    pub fn count(&self, pattern: &[u8]) -> (count: P)
        requires
            self.wf(),
        ensures
            count.value() == self.spec_count(encode_pattern(pattern@, &self.text_encoder)),
    {
        let pos_range: (u64, u64) = self.get_pos_range_with(pattern, &self.text_encoder);
        self.count_of(pos_range)
    }

    /// Locate all occurrences of the pattern.
    pub fn locate(&self, pattern: &[u8]) -> (locations: Vec<P>)
        requires
            self.wf(),
        ensures
            self.appended(
                Seq::empty(),
                locations@,
                self.spec_locations(encode_pattern(pattern@, &self.text_encoder)),
            ),
    {
        let pos_range: (u64, u64) = self.get_pos_range_with(pattern, &self.text_encoder);
        self.get_locations(pos_range)
    }

    /// Locate all occurrences of the pattern and append them to the buffer.
    pub fn locate_to_buffer(&self, pattern: &[u8], buffer: &mut Vec<P>)
        requires
            self.wf(),
        ensures
            self.appended(
                old(buffer)@,
                final(buffer)@,
                self.spec_locations(encode_pattern(pattern@, &self.text_encoder)),
            ),
    {
        let pos_range: (u64, u64) = self.get_pos_range_with(pattern, &self.text_encoder);
        self.write_locations_to_buffer(pos_range, buffer);
    }

    /// Whether two ranges are the same, or both hold no row.
    pub open spec fn same_rows(a: (nat, nat), b: (nat, nat)) -> bool {
        a == b || (Self::range_len(a) == 0 && Self::range_len(b) == 0)
    }

    /// The range of rows of the suffix array whose suffixes start with the
    /// pattern that the iterator gives, last byte first. The iterator is
    /// asked for no byte once the range holds no row, and for no more bytes
    /// than the text has, and one.
    pub(crate) fn get_pos_range_from_rev_iter_with<I: Iterator<Item = u8>, F: TextEncoder>(
        &self,
        pattern_rev_iter: I,
        encoder: &F,
    ) -> (range: (u64, u64))
        requires
            self.wf(),
        ensures
            pattern_rev_iter.obeys_prophetic_iter_laws() ==> Self::same_rows(
                (range.0 as nat, range.1 as nat),
                self.spec_pos_range(
                    encode_pattern(pattern_rev_iter.remaining().reverse(), encoder),
                ),
            ),
            range.0 <= self.text_len(),
            range.1 <= self.text_len(),
    {
        let mut iter = pattern_rev_iter;
        let text_len: u64 = self.suffix_array_header.text_len;
        let k: usize = self.count_array_view.lookup_table_kmer_size;
        let ghost obeys = pattern_rev_iter.obeys_prophetic_iter_laws();
        let ghost rev = pattern_rev_iter.remaining();
        let ghost pattern = rev.reverse();
        let ghost syms = encode_pattern(pattern, encoder);
        let ghost wanted = self.spec_pos_range(syms);
        let (first, consumed) =
            self.count_array_view.get_initial_pos_range_and_idx_of_pattern_rev_iter(
            &mut iter,
            encoder,
        );
        let mut exhausted: bool = consumed < k;
        if consumed as u64 > text_len {
            return (0, 0);
        }
        let lo: u64 = first.0.as_u64();
        let hi: u64 = first.1.as_u64();
        let mut pos_range: (u64, u64) = (
            if lo > text_len {
                text_len
            } else {
                lo
            },
            if hi > text_len {
                text_len
            } else {
                hi
            },
        );
        let mut taken: u64 = consumed as u64;
        proof {
            if obeys {
                let m = rev.len() as int;
                let tail = rev.subrange(0, consumed as int).reverse();
                assert(tail =~= pattern.subrange(m - consumed, m));
                let tail_syms = encode_pattern(tail, encoder);
                assert(tail_syms =~= syms.subrange(m - consumed, m));
                if consumed == k {
                    assert(tail_syms.subrange(0, k as int) =~= tail_syms);
                } else {
                    assert(m == consumed);
                    assert(tail_syms =~= syms);
                }
            }
        }
        // LF mapping
        while pos_range.0 < pos_range.1 && !exhausted
            invariant
                self.wf(),
                text_len == self.text_len(),
                taken <= text_len,
                pos_range.0 <= text_len,
                pos_range.1 <= text_len,
                obeys == iter.obeys_prophetic_iter_laws(),
                obeys == pattern_rev_iter.obeys_prophetic_iter_laws(),
                rev == pattern_rev_iter.remaining(),
                syms == encode_pattern(pattern, encoder),
                pattern == rev.reverse(),
                wanted == self.spec_pos_range(syms),
                obeys ==> taken <= rev.len(),
                obeys ==> iter.remaining() == rev.subrange(
                    taken as int,
                    rev.len() as int,
                ),
                obeys && exhausted ==> taken == rev.len(),
                obeys ==> Self::same_rows(
                    if rev.len() > text_len {
                        (0nat, 0nat)
                    } else {
                        self.spec_search(
                            (pos_range.0 as nat, pos_range.1 as nat),
                            syms,
                            (rev.len() - taken) as nat,
                        )
                    },
                    wanted,
                ),
            decreases text_len - taken + (if exhausted {
                0int
            } else {
                1int
            }),
        {
            let ghost before = iter.remaining();
            match iter.next() {
                Some(next_sym) => {
                    proof {
                        if obeys {
                            assert(before.len() > 0);
                            assert(next_sym == rev[taken as int]);
                            assert(before.drop_first() =~= rev.subrange(
                                taken + 1,
                                rev.len() as int,
                            ));
                            assert(pattern[rev.len() - taken - 1] == next_sym);
                        }
                    }
                    if taken >= text_len {
                        return (0, 0);
                    }
                    taken += 1;
                    let symidx: u8 = encoder.idx_of(next_sym);
                    pos_range = self.next_pos_range_of_indices(pos_range, symidx);
                },
                None => {
                    exhausted = true;
                },
            }
        }
        pos_range
    }

    /// Count the number of occurrences with the reverse iterator of pattern.
    pub fn count_rev_iter<I: Iterator<Item = u8>>(&self, pattern_rev_iter: I) -> (count: P)
        requires
            self.wf(),
        ensures
            pattern_rev_iter.obeys_prophetic_iter_laws() ==> count.value() == self.spec_count(
                encode_pattern(pattern_rev_iter.remaining().reverse(), &self.text_encoder),
            ),
    {
        let pos_range: (u64, u64) = self.get_pos_range_from_rev_iter_with(
            pattern_rev_iter,
            &self.text_encoder,
        );
        self.count_of(pos_range)
    }

    /// Locate all occurrences with the reverse iterator of pattern.
    pub fn locate_rev_iter<I: Iterator<Item = u8>>(&self, pattern_rev_iter: I) -> (locations: Vec<
        P,
    >)
        requires
            self.wf(),
        ensures
            pattern_rev_iter.obeys_prophetic_iter_laws() ==> self.appended(
                Seq::empty(),
                locations@,
                self.spec_locations(
                    encode_pattern(pattern_rev_iter.remaining().reverse(), &self.text_encoder),
                ),
            ),
    {
        let pos_range: (u64, u64) = self.get_pos_range_from_rev_iter_with(
            pattern_rev_iter,
            &self.text_encoder,
        );
        self.get_locations(pos_range)
    }

    /// Locate all occurrences with the reverse iterator of pattern and
    /// append them to the buffer.
    pub fn locate_rev_iter_to_buffer<I: Iterator<Item = u8>>(
        &self,
        pattern_rev_iter: I,
        buffer: &mut Vec<P>,
    )
        requires
            self.wf(),
        ensures
            pattern_rev_iter.obeys_prophetic_iter_laws() ==> self.appended(
                old(buffer)@,
                final(buffer)@,
                self.spec_locations(
                    encode_pattern(pattern_rev_iter.remaining().reverse(), &self.text_encoder),
                ),
            ),
    {
        let pos_range: (u64, u64) = self.get_pos_range_from_rev_iter_with(
            pattern_rev_iter,
            &self.text_encoder,
        );
        self.write_locations_to_buffer(pos_range, buffer);
    }
}

} // verus!
