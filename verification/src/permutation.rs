//! Counting over the rows of the suffix array is counting over the
//! positions of the text.

use vstd::prelude::*;
use crate::counting::{
    count_pos, lemma_count_pos_ext, lemma_count_pos_none, lemma_count_pos_or,
    lemma_count_pos_single,
};
use crate::suffix_sort::{is_suffix_array, lemma_sorted_distinct};

verus! {

/// The row of the suffix array that holds position `i`.
pub open spec fn row_of(sa: Seq<usize>, i: int) -> int {
    choose|r: int| 0 <= r < sa.len() && sa[r] == i
}

/// Every position of the text has one row of the suffix array.
pub proof fn lemma_row_of(s: Seq<u8>, sa: Seq<usize>, i: int)
    requires
        is_suffix_array(s, sa),
        0 <= i < s.len(),
    ensures
        0 <= row_of(sa, i) < sa.len(),
        sa[row_of(sa, i)] == i,
        forall|r: int| 0 <= r < sa.len() && sa[r] == i ==> r == row_of(sa, i),
{
    assert(sa.contains(i as usize));
    let w = choose|w: int| 0 <= w < sa.len() && sa[w] == i as usize;
    assert(sa[w] == i);
    assert forall|r: int| 0 <= r < sa.len() && sa[r] == i implies r == row_of(sa, i) by {
        if r != row_of(sa, i) {
            lemma_sorted_distinct(s, sa, r, row_of(sa, i));
        }
    }
}

/// A property of positions holds for as many rows of the suffix array as
/// for positions of the text.
pub proof fn lemma_count_rows(s: Seq<u8>, sa: Seq<usize>, f: spec_fn(int) -> bool)
    requires
        is_suffix_array(s, sa),
    ensures
        count_pos(|r: int| f(sa[r] as int), s.len()) == count_pos(f, s.len()),
{
    lemma_count_rows_below(s, sa, f, s.len());
    lemma_count_pos_ext(
        |r: int| sa[r] < s.len() && f(sa[r] as int),
        |r: int| f(sa[r] as int),
        s.len(),
    );
}

proof fn lemma_count_rows_below(s: Seq<u8>, sa: Seq<usize>, f: spec_fn(int) -> bool, j: nat)
    requires
        is_suffix_array(s, sa),
        j <= s.len(),
    ensures
        count_pos(|r: int| sa[r] < j && f(sa[r] as int), s.len()) == count_pos(f, j),
    decreases j,
{
    let n = s.len();
    if j == 0 {
        lemma_count_pos_none(|r: int| sa[r] < j && f(sa[r] as int), n);
    } else {
        let i = (j - 1) as nat;
        lemma_count_rows_below(s, sa, f, i);
        let before = |r: int| sa[r] < i && f(sa[r] as int);
        let here = |r: int| sa[r] == i && f(sa[r] as int);
        let both = |r: int| sa[r] < j && f(sa[r] as int);
        lemma_count_pos_or(before, here, both, n);
        lemma_row_of(s, sa, i as int);
        if f(i as int) {
            lemma_count_pos_single(here, row_of(sa, i as int), n);
        } else {
            lemma_count_pos_none(here, n);
        }
    }
}

} // verus!
