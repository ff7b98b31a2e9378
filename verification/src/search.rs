//! The backward search finds the range of a pattern, and the walk from a
//! row of the range finds the position of an occurrence.

use vstd::prelude::*;
use crate::block::{chunk_symbols, Block};
use crate::blocks::vector::Vector;
use crate::bwm::{block_chunk, min_nat};
use crate::count_array::{all_symbols, digits_of, spec_initial_range};
use crate::counting::{count_pos, lemma_count_pos_bound, lemma_count_pos_none};
use crate::endian::{lemma_pow256_values, pow256};
use crate::fm_index::FmIndex;
use crate::lex::{lemma_lex_asymmetric, lemma_lex_irreflexive, lex_less, suffix};
use crate::occurrences::{
    hi_of, lemma_closed_less, lemma_none_longer, lemma_range_rows, lemma_with_front, lo_of,
    occurs_at, p_less, with_front,
};
use crate::position::Position;
use crate::ranges::{count_suffixes, lemma_rows_below, place_for};
use crate::suffix_array::{bwt_of, lemma_bwt_encoded, lemma_bwt_source, sentinel_of, spec_samples};
use crate::suffix_sort::{is_suffix_array, suffix_array};
use crate::text_encoder::TextEncoder;

verus! {

/// The number of occurrences of the pattern `d` in `enc`.
pub open spec fn occurrences(enc: Seq<u8>, d: Seq<u8>) -> nat {
    count_pos(|j: int| occurs_at(enc, d, j), enc.len())
}

/// A pattern whose end stands nowhere stands nowhere.
pub proof fn lemma_none_whole(enc: Seq<u8>, d: Seq<u8>, c: nat)
    requires
        c < d.len(),
        occurrences(enc, d.subrange(c as int, d.len() as int)) == 0,
    ensures
        occurrences(enc, d) == 0,
    decreases c,
{
    if c == 0 {
        assert(d.subrange(0, d.len() as int) =~= d);
    } else {
        let tail = d.subrange(c as int, d.len() as int);
        lemma_none_longer(enc, d[c - 1], tail);
        assert(with_front(d[c - 1], tail) =~= d.subrange(c - 1, d.len() as int));
        lemma_none_whole(enc, d, (c - 1) as nat);
    }
}

/// A pattern that holds a value that is no symbol of the text stands nowhere.
pub proof fn lemma_none_foreign(enc: Seq<u8>, d: Seq<u8>, i: int, symbol_count: nat)
    requires
        crate::kmer::is_encoded(enc, symbol_count),
        0 <= i < d.len(),
        d[i] == 0 || d[i] > symbol_count,
    ensures
        occurrences(enc, d) == 0,
{
    assert forall|j: int| 0 <= j < enc.len() implies !occurs_at(enc, d, j) by {
        if occurs_at(enc, d, j) {
            assert(enc.subrange(j, j + d.len())[i] == d[i]);
            assert(1 <= enc[j + i] <= symbol_count);
        }
    }
    lemma_count_pos_none(|j: int| occurs_at(enc, d, j), enc.len());
}

impl<'a, P: Position, B: Block, E: TextEncoder> FmIndex<'a, P, B, E> {
    /// The search gives no row once a value that is no symbol is met.
    pub proof fn lemma_search_foreign(&self, range: (nat, nat), syms: Seq<u8>, cursor: nat, i: int)
        requires
            0 <= i < cursor <= syms.len(),
            syms[i] as nat >= self.symbol_count(),
        ensures
            Self::range_len(self.spec_search(range, syms, cursor)) == 0,
        decreases cursor,
    {
        if range.0 < range.1 {
            let next = self.spec_next_pos_range(range, syms[cursor - 1]);
            if cursor - 1 == i {
                assert(next == (0nat, 0nat));
                assert(self.spec_search(next, syms, (cursor - 1) as nat) == next);
            } else {
                self.lemma_search_foreign(next, syms, (cursor - 1) as nat, i);
            }
        }
    }

    /// The search from the range of the end of a pattern gives the range of
    /// the pattern, or no row where the pattern stands nowhere.
    pub proof fn lemma_search(&self, enc: Seq<u8>, syms: Seq<u8>, range: (nat, nat), cursor: nat)
        requires
            self.indexes(enc),
            enc.len() >= 1,
            cursor < syms.len(),
            all_symbols(syms, self.symbol_count() as int),
            Self::same_rows(
                range,
                (
                    lo_of(enc, digits_of(syms).subrange(cursor as int, syms.len() as int)),
                    hi_of(enc, digits_of(syms).subrange(cursor as int, syms.len() as int)),
                ),
            ),
        ensures
            Self::same_rows(
                self.spec_search(range, syms, cursor),
                (lo_of(enc, digits_of(syms)), hi_of(enc, digits_of(syms))),
            ),
        decreases cursor,
    {
        let d = digits_of(syms);
        let m = syms.len();
        let tail = d.subrange(cursor as int, m as int);
        let sa = suffix_array(enc);
        lemma_range_rows(enc, sa, tail);
        lemma_range_rows(enc, sa, d);
        if cursor == 0 {
            assert(tail =~= d);
        } else if range.0 >= range.1 {
            assert(occurrences(enc, tail) == 0);
            lemma_none_whole(enc, d, cursor);
        } else {
            let symidx = syms[cursor - 1];
            assert(range == (lo_of(enc, tail), hi_of(enc, tail)));
            self.lemma_next_range(enc, tail, symidx);
            let next = self.spec_next_pos_range(range, symidx);
            B::lemma_block();
            crate::block::lemma_symbol_limits();
            assert(d[cursor - 1] == (symidx + 1) as u8);
            assert(with_front((symidx + 1) as u8, tail) =~= d.subrange(cursor - 1, m as int));
            self.lemma_search(enc, syms, next, (cursor - 1) as nat);
        }
    }

    /// The range of rows that the index gives for a pattern is the range of
    /// the rows whose suffixes start with the pattern, or no row where the
    /// pattern stands nowhere.
    pub proof fn lemma_pos_range(&self, enc: Seq<u8>, syms: Seq<u8>)
        requires
            self.indexes(enc),
            enc.len() >= 1,
            syms.len() >= 1,
        ensures
            Self::same_rows(
                self.spec_pos_range(syms),
                (lo_of(enc, digits_of(syms)), hi_of(enc, digits_of(syms))),
            ),
            self.spec_count(syms) == occurrences(enc, digits_of(syms)),
    {
        let n = enc.len();
        let m = syms.len();
        let d = digits_of(syms);
        let sa = suffix_array(enc);
        let sigma = self.symbol_count();
        let k = self.count_array_view.kmer_size();
        B::lemma_block();
        crate::block::lemma_symbol_limits();
        lemma_range_rows(enc, sa, d);
        if m > n {
            assert forall|j: int| 0 <= j < n implies !occurs_at(enc, d, j) by {}
            lemma_count_pos_none(|j: int| occurs_at(enc, d, j), n);
        } else if !all_symbols(syms, sigma as int) {
            let i = choose|i: int| 0 <= i < syms.len() && !((#[trigger] syms[i] as int) < sigma);
            lemma_none_foreign(enc, d, i, sigma);
            let cursor = if m >= k {
                (m - k) as nat
            } else {
                0nat
            };
            let first = spec_initial_range(
                self.count_array_view.table(),
                self.count_array_view.base(),
                k,
                syms,
            );
            let window = syms.subrange(cursor as int, m as int);
            if m < k {
                assert(window =~= syms);
            }
            if i >= cursor {
                assert(!((window[i - cursor] as int) < sigma));
                assert(first == ((0nat, 0nat), 0nat));
            } else {
                if all_symbols(window, sigma as int) {
                    assert(first.1 == cursor);
                    self.lemma_search_foreign(
                        (min_nat(first.0.0, n), min_nat(first.0.1, n)),
                        syms,
                        cursor,
                        i,
                    );
                } else {
                    assert(first == ((0nat, 0nat), 0nat));
                }
            }
        } else {
            let cursor = if m >= k {
                (m - k) as nat
            } else {
                0nat
            };
            assert(all_symbols(syms.subrange(cursor as int, m as int), sigma as int)) by {
                assert forall|x: int| 0 <= x < m - cursor implies (#[trigger] syms.subrange(
                    cursor as int,
                    m as int,
                )[x] as int) < sigma by {
                    assert((syms[cursor + x] as int) < sigma);
                }
            }
            self.lemma_initial_range(enc, syms);
            let tail = d.subrange(cursor as int, m as int);
            lemma_range_rows(enc, sa, tail);
            self.lemma_search(enc, syms, (lo_of(enc, tail), hi_of(enc, tail)), cursor);
        }
    }

    /// The row of the suffix array that holds a position is the number of
    /// the suffixes that come before the suffix at the position.
    pub proof fn lemma_row_is_count(enc: Seq<u8>, sa: Seq<usize>, row: int)
        requires
            is_suffix_array(enc, sa),
            0 <= row < enc.len(),
        ensures
            lo_of(enc, suffix(enc, sa[row] as int)) == row,
    {
        let d = suffix(enc, sa[row] as int);
        lemma_closed_less(d);
        lemma_rows_below(enc, sa, p_less(d));
        let c = lo_of(enc, d);
        lemma_lex_irreflexive(d);
        assert(p_less(d)(suffix(enc, sa[row] as int)) == (row < c));
        if c < row {
            assert(p_less(d)(suffix(enc, sa[c as int] as int)) == (c < c));
            assert(lex_less(suffix(enc, sa[c as int] as int), suffix(enc, sa[row] as int)));
        }
    }

    /// The walk from a row of the suffix array ends at the position that
    /// the row holds.
    pub proof fn lemma_walk(&self, enc: Seq<u8>, row: nat, offset: nat, fuel: nat)
        requires
            self.indexes(enc),
            row < enc.len(),
            suffix_array(enc)[row as int] <= fuel,
            suffix_array(enc)[row as int] + offset < enc.len(),
        ensures
            self.spec_walk(row, offset, fuel) == suffix_array(enc)[row as int] + offset,
        decreases fuel,
    {
        let n = enc.len();
        let sa = suffix_array(enc);
        let bwt = bwt_of(enc, sa);
        let ratio = self.suffix_array_view.sampling_ratio as nat;
        let i = sa[row as int] as int;
        let sigma = self.symbol_count();
        let width = B::BLOCK_LEN as nat;
        let blocks = self.bwm_view.blocks_len as nat;
        P::lemma_position();
        B::lemma_block();
        <B::V as Vector>::lemma_vector();
        crate::block::lemma_symbol_limits();
        if row % ratio == 0 {
            vstd::arithmetic::div_mod::lemma_fundamental_div_mod(row as int, ratio as int);
            let x = row / ratio;
            assert(x * ratio == row) by (nonlinear_arith)
                requires
                    row == ratio * x + row % ratio,
                    row % ratio == 0,
            ;
            assert(x <= n / ratio) by (nonlinear_arith)
                requires
                    x == row / ratio,
                    row <= n,
                    ratio > 0,
            ;
            assert(self.suffix_array_view.samples()[x as int] == spec_samples(sa, ratio)[x as int]);
            assert(spec_samples(sa, ratio)[x as int] == sa[(x * ratio) as int] as nat);
        } else if fuel > 0 {
            // The row of position 0 is the row before the sentinel.
            if n >= 2 {
                lemma_bwt_source(enc, sa, 1);
            } else {
                assert(row == 0);
            }
            assert(sa.contains(0usize));
            let q = sentinel_of(sa);
            if i == 0 {
                if row + 1 != q {
                    crate::suffix_sort::lemma_sorted_distinct(enc, sa, row as int, q - 1);
                }
                assert(self.bwm_view.spec_step(row) is None);
            } else {
                if row + 1 == q {
                    assert(sa[q - 1] == 0);
                }
                // The symbol before the suffix of the row, in the transformed text.
                let place = place_for(sa, row);
                assert(1 <= place < n);
                lemma_bwt_source(enc, sa, place as int);
                assert(bwt[place as int] == enc[i - 1]);
                lemma_bwt_encoded(enc, sa, sigma);
                let symidx = (enc[i - 1] - 1) as u8;
                // The place is in a block of the matrix.
                vstd::arithmetic::div_mod::lemma_fundamental_div_mod(n as int, width as int);
                assert(blocks * width > n) by (nonlinear_arith)
                    requires
                        blocks == n / width + 1,
                        n == width * (n / width) + n % width,
                        n % width < width,
                        width > 0,
                ;
                assert(self.bwm_view.place_of(row) == place);
                let b = place / width;
                let rem = place % width;
                vstd::arithmetic::div_mod::lemma_fundamental_div_mod(place as int, width as int);
                assert(b < blocks) by (nonlinear_arith)
                    requires
                        place == width * b + rem,
                        rem >= 0,
                        place < blocks * width,
                        width > 0,
                ;
                assert(place == b * width + rem) by (nonlinear_arith)
                    requires
                        place == width * b + rem,
                ;
                assert((b + 1) * width == b * width + width) by (nonlinear_arith);
                let chunk = block_chunk(bwt, b as int, width);
                assert(chunk[rem as int] == bwt[place as int]);
                assert(self.bwm_view.block_symbols(b as int) == chunk_symbols(chunk, width));
                assert(self.bwm_view.block_symbols(b as int)[rem as int] == symidx);
                assert(self.bwm_view.spec_step(row) == Some(
                    (self.bwm_view.spec_rank(row, symidx as nat), symidx),
                ));
                // The next row is the row of the position before.
                let d = suffix(enc, i);
                Self::lemma_row_is_count(enc, sa, row as int);
                lemma_closed_less(d);
                assert(d.len() > 0);
                self.lemma_index_lf(enc, p_less(d), symidx as nat);
                lemma_with_front(enc, enc[i - 1], d);
                assert(with_front(enc[i - 1], d) =~= suffix(enc, i - 1));
                let next = self.spec_lf(row, symidx as nat);
                crate::permutation::lemma_row_of(enc, sa, i - 1);
                let before = crate::permutation::row_of(sa, i - 1);
                Self::lemma_row_is_count(enc, sa, before);
                assert(next == before);
                self.lemma_walk(enc, next, offset + 1, (fuel - 1) as nat);
            }
        }
    }
}

/// A property that holds nowhere below `upto` holds there zero times, and
/// the other way round.
pub proof fn lemma_count_zero(f: spec_fn(int) -> bool, upto: nat)
    requires
        count_pos(f, upto) == 0,
    ensures
        forall|i: int| 0 <= i < upto ==> !#[trigger] f(i),
{
    assert forall|i: int| 0 <= i < upto implies !#[trigger] f(i) by {
        if f(i) {
            crate::occurrences::lemma_count_some(f, i, upto);
        }
    }
}

impl<'a, P: Position, B: Block, E: TextEncoder> FmIndex<'a, P, B, E> {
    /// The positions that the index gives for a pattern are the positions
    /// at which the pattern stands in the text, each of them once.
    pub proof fn lemma_locations(&self, enc: Seq<u8>, syms: Seq<u8>)
        requires
            self.indexes(enc),
            enc.len() >= 1,
            syms.len() >= 1,
        ensures
            self.spec_locations(syms).len() == occurrences(enc, digits_of(syms)),
            forall|i: int|
                0 <= i < self.spec_locations(syms).len() ==> occurs_at(
                    enc,
                    digits_of(syms),
                    #[trigger] self.spec_locations(syms)[i] as int,
                ),
            forall|j: int|
                occurs_at(enc, digits_of(syms), j) ==> exists|i: int|
                    0 <= i < self.spec_locations(syms).len() && #[trigger] self.spec_locations(
                        syms,
                    )[i] == j,
            forall|i: int, j: int|
                0 <= i < j < self.spec_locations(syms).len() ==> #[trigger] self.spec_locations(
                    syms,
                )[i] != #[trigger] self.spec_locations(syms)[j],
    {
        let n = enc.len();
        let d = digits_of(syms);
        let sa = suffix_array(enc);
        let range = self.spec_pos_range(syms);
        let locs = self.spec_locations(syms);
        let lo = lo_of(enc, d);
        let hi = hi_of(enc, d);
        self.lemma_pos_range(enc, syms);
        lemma_range_rows(enc, sa, d);
        if Self::range_len(range) == 0 {
            lemma_count_zero(|j: int| occurs_at(enc, d, j), n);
            assert forall|j: int| occurs_at(enc, d, j) implies false by {
                assert(0 <= j < n);
                assert((|j: int| occurs_at(enc, d, j))(j));
            }
        } else {
            assert(range == (lo, hi));
            assert forall|i: int| 0 <= i < locs.len() implies #[trigger] locs[i] == sa[lo + i] by {
                self.lemma_walk(enc, (lo + i) as nat, 0, n);
            }
            assert forall|i: int| 0 <= i < locs.len() implies occurs_at(
                enc,
                d,
                #[trigger] locs[i] as int,
            ) by {
                assert(occurs_at(enc, d, sa[lo + i] as int));
            }
            assert forall|j: int| occurs_at(enc, d, j) implies exists|i: int|
                0 <= i < locs.len() && #[trigger] locs[i] == j by {
                assert(0 <= j < n);
                crate::permutation::lemma_row_of(enc, sa, j);
                let r = crate::permutation::row_of(sa, j);
                assert(occurs_at(enc, d, sa[r] as int));
                assert(lo <= r < hi);
                assert(locs[r - lo] == j);
            }
            assert forall|i: int, j: int| 0 <= i < j < locs.len() implies #[trigger] locs[i]
                != #[trigger] locs[j] by {
                crate::suffix_sort::lemma_sorted_distinct(enc, sa, lo + i, lo + j);
            }
        }
    }
}

} // verus!
