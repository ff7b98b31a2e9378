//! Ranges of rows of the suffix array, and the step from the range of a
//! pattern to the range of the pattern with one symbol before it.
//!
//! A property of byte sequences is closed when it holds for every sequence
//! that comes before one for which it holds. The suffixes with a closed
//! property fill the first rows of the suffix array, as many as there are.

use vstd::prelude::*;
use crate::counting::{
    count_in, count_pos, lemma_count_in_as_pos, lemma_count_pos_bound, lemma_count_pos_closed,
    lemma_count_pos_ext, lemma_count_pos_or, lemma_count_pos_shift,
};
use crate::lex::{lemma_lex_transitive, lemma_suffix_step, lex_less, suffix};
use crate::permutation::lemma_count_rows;
use crate::suffix_array::{bwt_of, lemma_bwt_source, sentinel_of};
use crate::suffix_sort::is_suffix_array;

verus! {

/// Whether the property holds for every sequence that comes before one for
/// which it holds.
pub open spec fn closed(p: spec_fn(Seq<u8>) -> bool) -> bool {
    forall|a: Seq<u8>, b: Seq<u8>| lex_less(a, b) && #[trigger] p(b) ==> #[trigger] p(a)
}

/// The number of suffixes of `s` for which the property holds.
pub open spec fn count_suffixes(s: Seq<u8>, p: spec_fn(Seq<u8>) -> bool) -> nat {
    count_pos(|j: int| p(suffix(s, j)), s.len())
}

/// The property of a sequence with the symbol `digit` before it, in terms
/// of the property `p` of the sequence: the longer sequence starts with a
/// smaller symbol, or with `digit` and a rest for which `p` holds.
pub open spec fn with_symbol(p: spec_fn(Seq<u8>) -> bool, digit: int) -> spec_fn(Seq<u8>) -> bool {
    |a: Seq<u8>| a.len() > 0 && (a[0] < digit || (a[0] == digit && p(a.drop_first())))
}

/// The place in the transformed text that stands for row `pos`.
pub open spec fn place_for(sa: Seq<usize>, pos: nat) -> nat {
    if pos < sentinel_of(sa) {
        pos + 1
    } else {
        pos
    }
}

/// The suffixes with a closed property fill the first rows of the suffix array.
pub proof fn lemma_rows_below(s: Seq<u8>, sa: Seq<usize>, p: spec_fn(Seq<u8>) -> bool)
    requires
        is_suffix_array(s, sa),
        closed(p),
    ensures
        count_suffixes(s, p) <= s.len(),
        forall|r: int|
            0 <= r < s.len() ==> #[trigger] p(suffix(s, sa[r] as int)) == (r < count_suffixes(
                s,
                p,
            )),
{
    let n = s.len();
    let by_pos = |j: int| p(suffix(s, j));
    let by_row = |r: int| p(suffix(s, sa[r] as int));
    lemma_count_rows(s, sa, by_pos);
    lemma_count_pos_ext(|r: int| by_pos(sa[r] as int), by_row, n);
    assert forall|i: int, j: int| 0 <= i <= j < n && #[trigger] by_row(j) implies #[trigger] by_row(
        i,
    ) by {
        if i < j {
            assert(lex_less(suffix(s, sa[i] as int), suffix(s, sa[j] as int)));
        }
    }
    lemma_count_pos_closed(by_row, n);
    lemma_count_pos_bound(by_pos, n);
    assert forall|r: int| 0 <= r < n implies #[trigger] p(suffix(s, sa[r] as int)) == (r
        < count_suffixes(s, p)) by {
        assert(by_row(r) == (r < count_pos(by_row, n)));
    }
}

/// The symbols of the transformed text before the place of a row are the
/// last symbol of the text and the symbols before the suffixes of the rows
/// before that row.
pub proof fn lemma_bwt_count(s: Seq<u8>, sa: Seq<usize>, digit: int, pos: nat)
    requires
        is_suffix_array(s, sa),
        s.len() >= 1,
        pos <= s.len(),
    ensures
        place_for(sa, pos) <= s.len(),
        count_in(bwt_of(s, sa), digit, place_for(sa, pos)) == (if s[s.len() - 1] == digit {
            1nat
        } else {
            0nat
        }) + count_pos(|r: int| sa[r] >= 1 && s[sa[r] - 1] == digit, pos),
    decreases pos,
{
    let n = s.len();
    let bwt = bwt_of(s, sa);
    let q = sentinel_of(sa);
    let before = |r: int| sa[r] >= 1 && s[sa[r] - 1] == digit;
    if n >= 2 {
        lemma_bwt_source(s, sa, 1);
    } else {
        assert(sa.contains(0usize));
        let w = choose|w: int| 0 <= w < sa.len() && sa[w] == 0usize;
        assert(exists|r: int| 0 <= r < sa.len() && sa[r] == 0);
    }
    assert(1 <= q <= n);
    if pos == 0 {
        assert(count_in(bwt, digit, 1) == count_in(bwt, digit, 0) + if bwt[0] == digit {
            1nat
        } else {
            0nat
        });
    } else {
        let prev = (pos - 1) as nat;
        lemma_bwt_count(s, sa, digit, prev);
        if prev + 1 < q {
            lemma_bwt_source(s, sa, (prev + 1) as int);
            assert(bwt[(prev + 1) as int] == s[sa[prev as int] - 1]);
        } else if prev + 1 == q {
            if n >= 2 {
                lemma_bwt_source(s, sa, 1);
            }
            assert(sa[prev as int] == 0);
        } else {
            lemma_bwt_source(s, sa, prev as int);
            assert(bwt[prev as int] == s[sa[prev as int] - 1]);
        }
    }
}

/// Counting a property of rows up to a row is counting the rows before the
/// row with the property.
pub proof fn lemma_count_pos_cut(f: spec_fn(int) -> bool, c: nat, upto: nat)
    requires
        c <= upto,
    ensures
        count_pos(f, c) == count_pos(|r: int| r < c && f(r), upto),
    decreases upto,
{
    if upto > c {
        lemma_count_pos_cut(f, c, (upto - 1) as nat);
    } else {
        lemma_count_pos_ext(f, |r: int| r < c && f(r), c);
    }
}

/// The step of the backward search: the number of suffixes with the
/// property of a sequence that has `digit` before it is the number of
/// symbols of the text below `digit`, and the rank of `digit` in the
/// transformed text at the place of the row that the number of suffixes
/// with the property `p` names.
pub proof fn lemma_lf(s: Seq<u8>, sa: Seq<usize>, p: spec_fn(Seq<u8>) -> bool, digit: int)
    requires
        is_suffix_array(s, sa),
        s.len() >= 1,
        closed(p),
        p(Seq::<u8>::empty()),
    ensures
        count_suffixes(s, p) <= s.len(),
        count_suffixes(s, with_symbol(p, digit)) == count_pos(|j: int| s[j] < digit, s.len())
            + count_in(bwt_of(s, sa), digit, place_for(sa, count_suffixes(s, p))),
{
    let n = s.len();
    let c = count_suffixes(s, p);
    lemma_rows_below(s, sa, p);
    lemma_bwt_count(s, sa, digit, c);
    let smaller = |j: int| s[j] < digit;
    let same = |j: int| s[j] == digit && p(suffix(s, j + 1));
    let longer = |j: int| with_symbol(p, digit)(suffix(s, j));
    assert forall|j: int| 0 <= j < n implies #[trigger] longer(j) == (smaller(j) || same(j)) by {
        lemma_suffix_step(s, j);
    }
    lemma_count_pos_or(smaller, same, longer, n);
    // The rows before row `c`, by the positions that they hold.
    let before = |r: int| sa[r] >= 1 && s[sa[r] - 1] == digit;
    let source = |i: int| p(suffix(s, i)) && i >= 1 && s[i - 1] == digit;
    lemma_count_pos_cut(before, c, n);
    lemma_count_pos_ext(|r: int| r < c && before(r), |r: int| source(sa[r] as int), n);
    lemma_count_rows(s, sa, source);
    // The positions from 1 on, each with the symbol before it.
    lemma_count_pos_shift(source, same, n);
    assert(suffix(s, n as int) =~= Seq::<u8>::empty());
    assert(count_pos(source, n + 1) == count_pos(source, n) + if source(n as int) {
        1nat
    } else {
        0nat
    });
}

} // verus!
