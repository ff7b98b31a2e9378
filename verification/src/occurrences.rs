//! The occurrences of a pattern in the text, and the range of rows of the
//! suffix array that holds them.

use vstd::prelude::*;
use crate::block::Block;
use crate::counting::{
    count_pos, lemma_count_pos_bound, lemma_count_pos_ext, lemma_count_pos_none,
    lemma_count_pos_or,
};
use crate::fm_index::FmIndex;
use crate::lex::{
    is_prefix, lemma_lex_first, lemma_lex_transitive, lemma_suffix_step, lex_less, suffix,
};
use crate::position::Position;
use crate::ranges::{closed, count_suffixes, lemma_rows_below, with_symbol};
use crate::suffix_sort::{is_suffix_array, suffix_array};
use crate::text_encoder::TextEncoder;

verus! {

/// Whether the pattern `d` stands in `enc` at position `j`.
pub open spec fn occurs_at(enc: Seq<u8>, d: Seq<u8>, j: int) -> bool {
    0 <= j && j + d.len() <= enc.len() && enc.subrange(j, j + d.len()) == d
}

/// The property of the sequences that come before `d`.
pub open spec fn p_less(d: Seq<u8>) -> spec_fn(Seq<u8>) -> bool {
    |a: Seq<u8>| lex_less(a, d)
}

/// The property of the sequences that come before `d` or start with `d`.
pub open spec fn p_upto(d: Seq<u8>) -> spec_fn(Seq<u8>) -> bool {
    |a: Seq<u8>| lex_less(a, d) || is_prefix(d, a)
}

/// The first row of the suffix array whose suffix does not come before `d`.
pub open spec fn lo_of(enc: Seq<u8>, d: Seq<u8>) -> nat {
    count_suffixes(enc, p_less(d))
}

/// The first row of the suffix array whose suffix comes behind all the
/// sequences that start with `d`.
pub open spec fn hi_of(enc: Seq<u8>, d: Seq<u8>) -> nat {
    count_suffixes(enc, p_upto(d))
}

/// The pattern `d` with the symbol-plus-one value `digit` before it.
pub open spec fn with_front(digit: u8, d: Seq<u8>) -> Seq<u8> {
    seq![digit] + d
}

pub proof fn lemma_prefix_first(d: Seq<u8>, a: Seq<u8>)
    requires
        d.len() > 0,
    ensures
        is_prefix(d, a) == (a.len() > 0 && a[0] == d[0] && is_prefix(d.drop_first(), a.drop_first())),
{
    if a.len() > 0 && a[0] == d[0] {
        if is_prefix(d.drop_first(), a.drop_first()) {
            assert(a.subrange(0, d.len() as int) =~= d) by {
                assert forall|i: int| 0 <= i < d.len() implies a.subrange(0, d.len() as int)[i]
                    == d[i] by {
                    if i > 0 {
                        assert(a.drop_first().subrange(0, d.len() - 1)[i - 1] == d.drop_first()[i
                            - 1]);
                    }
                }
            }
        }
        if is_prefix(d, a) {
            assert(a.drop_first().subrange(0, d.len() - 1) =~= d.drop_first()) by {
                assert forall|i: int| 0 <= i < d.len() - 1 implies a.drop_first().subrange(
                    0,
                    d.len() - 1,
                )[i] == d.drop_first()[i] by {
                    assert(a.subrange(0, d.len() as int)[i + 1] == d[i + 1]);
                }
            }
        }
    } else if is_prefix(d, a) {
        assert(a.subrange(0, d.len() as int)[0] == d[0]);
    }
}

/// A sequence that starts with `d` does not come before `d`.
pub proof fn lemma_prefix_not_less(d: Seq<u8>, a: Seq<u8>)
    requires
        is_prefix(d, a),
    ensures
        !lex_less(a, d),
    decreases d.len(),
{
    if d.len() > 0 {
        lemma_prefix_first(d, a);
        lemma_prefix_not_less(d.drop_first(), a.drop_first());
    }
}

/// A sequence before one that starts with `d` comes before `d` or starts with `d`.
pub proof fn lemma_less_prefix(a: Seq<u8>, b: Seq<u8>, d: Seq<u8>)
    requires
        lex_less(a, b),
        is_prefix(d, b),
    ensures
        lex_less(a, d) || is_prefix(d, a),
    decreases d.len(),
{
    if d.len() == 0 {
        assert(a.subrange(0, 0) =~= d);
    } else {
        lemma_prefix_first(d, b);
        if a.len() > 0 {
            if a[0] == b[0] {
                lemma_less_prefix(a.drop_first(), b.drop_first(), d.drop_first());
                lemma_prefix_first(d, a);
            }
        }
    }
}

pub proof fn lemma_closed_less(d: Seq<u8>)
    ensures
        closed(p_less(d)),
{
    assert forall|a: Seq<u8>, b: Seq<u8>| lex_less(a, b) && #[trigger] p_less(d)(b) implies #[trigger] p_less(
        d,
    )(a) by {
        lemma_lex_transitive(a, b, d);
    }
}

pub proof fn lemma_closed_upto(d: Seq<u8>)
    ensures
        closed(p_upto(d)),
{
    assert forall|a: Seq<u8>, b: Seq<u8>| lex_less(a, b) && #[trigger] p_upto(d)(b) implies #[trigger] p_upto(
        d,
    )(a) by {
        if lex_less(b, d) {
            lemma_lex_transitive(a, b, d);
        } else {
            lemma_less_prefix(a, b, d);
        }
    }
}

/// A pattern stands at a position exactly when the suffix there starts with it.
pub proof fn lemma_prefix_occurs(enc: Seq<u8>, d: Seq<u8>, j: int)
    requires
        0 <= j <= enc.len(),
    ensures
        is_prefix(d, suffix(enc, j)) == occurs_at(enc, d, j),
{
    if j + d.len() <= enc.len() {
        assert(suffix(enc, j).subrange(0, d.len() as int) =~= enc.subrange(j, j + d.len()));
    }
}

/// The rows of the suffix array from `lo_of` up to `hi_of` are those whose
/// suffixes start with the pattern, and they are as many as the pattern
/// has occurrences.
pub proof fn lemma_range_rows(enc: Seq<u8>, sa: Seq<usize>, d: Seq<u8>)
    requires
        is_suffix_array(enc, sa),
    ensures
        lo_of(enc, d) <= hi_of(enc, d) <= enc.len(),
        hi_of(enc, d) - lo_of(enc, d) == count_pos(|j: int| occurs_at(enc, d, j), enc.len()),
        forall|r: int|
            0 <= r < enc.len() ==> (lo_of(enc, d) <= r < hi_of(enc, d)) == occurs_at(
                enc,
                d,
                #[trigger] sa[r] as int,
            ),
{
    let n = enc.len();
    lemma_closed_less(d);
    lemma_closed_upto(d);
    lemma_rows_below(enc, sa, p_less(d));
    lemma_rows_below(enc, sa, p_upto(d));
    let less = |j: int| p_less(d)(suffix(enc, j));
    let starts = |j: int| occurs_at(enc, d, j);
    let upto = |j: int| p_upto(d)(suffix(enc, j));
    assert forall|j: int| 0 <= j < n implies !(#[trigger] less(j) && starts(j)) by {
        lemma_prefix_occurs(enc, d, j);
        if starts(j) {
            lemma_prefix_not_less(d, suffix(enc, j));
        }
    }
    assert forall|j: int| 0 <= j < n implies #[trigger] upto(j) == (less(j) || starts(j)) by {
        lemma_prefix_occurs(enc, d, j);
    }
    lemma_count_pos_or(less, starts, upto, n);
    assert forall|r: int| 0 <= r < n implies (lo_of(enc, d) <= r < hi_of(enc, d)) == occurs_at(
        enc,
        d,
        #[trigger] sa[r] as int,
    ) by {
        let j = sa[r] as int;
        lemma_prefix_occurs(enc, d, j);
        assert(p_less(d)(suffix(enc, j)) == (r < lo_of(enc, d)));
        assert(p_upto(d)(suffix(enc, j)) == (r < hi_of(enc, d)));
        if is_prefix(d, suffix(enc, j)) {
            lemma_prefix_not_less(d, suffix(enc, j));
        }
    }
}

/// The range of a pattern with a symbol before it, from the properties of
/// the pattern with the symbol put before.
pub proof fn lemma_with_front(enc: Seq<u8>, digit: u8, d: Seq<u8>)
    ensures
        count_suffixes(enc, with_symbol(p_less(d), digit as int)) == lo_of(
            enc,
            with_front(digit, d),
        ),
        count_suffixes(enc, with_symbol(p_upto(d), digit as int)) == hi_of(
            enc,
            with_front(digit, d),
        ),
{
    let n = enc.len();
    let longer = with_front(digit, d);
    assert(longer.drop_first() =~= d);
    assert forall|j: int| 0 <= j < n implies with_symbol(p_less(d), digit as int)(suffix(enc, j))
        == p_less(longer)(suffix(enc, j)) by {
        lemma_suffix_step(enc, j);
        lemma_lex_first(suffix(enc, j), longer);
    }
    lemma_count_pos_ext(
        |j: int| with_symbol(p_less(d), digit as int)(suffix(enc, j)),
        |j: int| p_less(longer)(suffix(enc, j)),
        n,
    );
    assert forall|j: int| 0 <= j < n implies with_symbol(p_upto(d), digit as int)(suffix(enc, j))
        == p_upto(longer)(suffix(enc, j)) by {
        lemma_suffix_step(enc, j);
        lemma_lex_first(suffix(enc, j), longer);
        lemma_prefix_first(longer, suffix(enc, j));
    }
    lemma_count_pos_ext(
        |j: int| with_symbol(p_upto(d), digit as int)(suffix(enc, j)),
        |j: int| p_upto(longer)(suffix(enc, j)),
        n,
    );
}

/// A pattern with a symbol before it stands one position before an
/// occurrence of the pattern.
pub proof fn lemma_occurs_longer(enc: Seq<u8>, digit: u8, d: Seq<u8>, j: int)
    requires
        occurs_at(enc, with_front(digit, d), j),
    ensures
        occurs_at(enc, d, j + 1),
        enc[j] == digit,
{
    let longer = with_front(digit, d);
    assert(enc.subrange(j + 1, j + 1 + d.len()) =~= longer.drop_first());
    assert(longer.drop_first() =~= d);
    assert(enc.subrange(j, j + longer.len())[0] == longer[0]);
}

/// A pattern that stands nowhere has no occurrence with a symbol before it.
pub proof fn lemma_none_longer(enc: Seq<u8>, digit: u8, d: Seq<u8>)
    requires
        d.len() >= 1,
        count_pos(|j: int| occurs_at(enc, d, j), enc.len()) == 0,
    ensures
        count_pos(|j: int| occurs_at(enc, with_front(digit, d), j), enc.len()) == 0,
{
    let n = enc.len();
    assert forall|j: int| 0 <= j < n implies !occurs_at(enc, with_front(digit, d), j) by {
        if occurs_at(enc, with_front(digit, d), j) {
            lemma_occurs_longer(enc, digit, d, j);
            lemma_count_some(|i: int| occurs_at(enc, d, i), j + 1, n);
        }
    }
    lemma_count_pos_none(|j: int| occurs_at(enc, with_front(digit, d), j), n);
}

/// A property that holds somewhere holds at least once.
pub proof fn lemma_count_some(f: spec_fn(int) -> bool, at: int, upto: nat)
    requires
        0 <= at < upto,
        f(at),
    ensures
        count_pos(f, upto) >= 1,
    decreases upto,
{
    if upto - 1 != at {
        lemma_count_some(f, at, (upto - 1) as nat);
    }
}

impl<'a, P: Position, B: Block, E: TextEncoder> FmIndex<'a, P, B, E> {
    /// The step of the backward search gives the range of the pattern with
    /// the symbol before it.
    pub proof fn lemma_next_range(&self, enc: Seq<u8>, d: Seq<u8>, symidx: u8)
        requires
            self.indexes(enc),
            enc.len() >= 1,
            d.len() >= 1,
            (symidx as nat) < self.symbol_count(),
        ensures
            self.spec_next_pos_range((lo_of(enc, d), hi_of(enc, d)), symidx) == (
                lo_of(enc, with_front((symidx + 1) as u8, d)),
                hi_of(enc, with_front((symidx + 1) as u8, d)),
            ),
    {
        B::lemma_block();
        crate::block::lemma_symbol_limits();
        lemma_closed_less(d);
        lemma_closed_upto(d);
        self.lemma_index_lf(enc, p_less(d), symidx as nat);
        self.lemma_index_lf(enc, p_upto(d), symidx as nat);
        lemma_with_front(enc, (symidx + 1) as u8, d);
    }
}

} // verus!
