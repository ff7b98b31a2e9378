//! The lexicographic order of byte sequences, in which a sequence comes
//! after each of its proper prefixes.

use vstd::prelude::*;

verus! {

/// Whether `a` comes before `b` in the lexicographic order.
pub open spec fn lex_less(a: Seq<u8>, b: Seq<u8>) -> bool
    decreases a.len(),
{
    if b.len() == 0 {
        false
    } else if a.len() == 0 {
        true
    } else if a[0] != b[0] {
        a[0] < b[0]
    } else {
        lex_less(a.drop_first(), b.drop_first())
    }
}

/// Whether `p` is a prefix of `a`.
pub open spec fn is_prefix(p: Seq<u8>, a: Seq<u8>) -> bool {
    p.len() <= a.len() && a.subrange(0, p.len() as int) == p
}

/// The suffix of `s` that starts at position `i`.
pub open spec fn suffix(s: Seq<u8>, i: int) -> Seq<u8> {
    s.subrange(i, s.len() as int)
}

pub proof fn lemma_lex_irreflexive(a: Seq<u8>)
    ensures
        !lex_less(a, a),
    decreases a.len(),
{
    if a.len() > 0 {
        lemma_lex_irreflexive(a.drop_first());
    }
}

pub proof fn lemma_lex_transitive(a: Seq<u8>, b: Seq<u8>, c: Seq<u8>)
    requires
        lex_less(a, b),
        lex_less(b, c),
    ensures
        lex_less(a, c),
    decreases a.len(),
{
    if a.len() > 0 && b.len() > 0 && c.len() > 0 {
        if a[0] == b[0] && b[0] == c[0] {
            lemma_lex_transitive(a.drop_first(), b.drop_first(), c.drop_first());
        }
    }
}

pub proof fn lemma_lex_total(a: Seq<u8>, b: Seq<u8>)
    ensures
        a == b || lex_less(a, b) || lex_less(b, a),
    decreases a.len(),
{
    if a.len() > 0 && b.len() > 0 {
        if a[0] == b[0] {
            lemma_lex_total(a.drop_first(), b.drop_first());
            if a.drop_first() == b.drop_first() {
                assert(a =~= seq![a[0]] + a.drop_first());
                assert(b =~= seq![b[0]] + b.drop_first());
            }
        }
    } else if a.len() == 0 && b.len() == 0 {
        assert(a =~= b);
    }
}

pub proof fn lemma_lex_asymmetric(a: Seq<u8>, b: Seq<u8>)
    requires
        lex_less(a, b),
    ensures
        !lex_less(b, a),
        a != b,
{
    if lex_less(b, a) {
        lemma_lex_transitive(a, b, a);
    }
    lemma_lex_irreflexive(a);
}

/// A suffix without its first symbol is the suffix at the next position.
pub proof fn lemma_suffix_step(s: Seq<u8>, i: int)
    requires
        0 <= i < s.len(),
    ensures
        suffix(s, i).len() == s.len() - i,
        suffix(s, i)[0] == s[i],
        suffix(s, i).drop_first() == suffix(s, i + 1),
{
    assert(suffix(s, i).drop_first() =~= suffix(s, i + 1));
}

/// The suffixes at two different positions differ.
pub proof fn lemma_suffix_distinct(s: Seq<u8>, i: int, j: int)
    requires
        0 <= i <= s.len(),
        0 <= j <= s.len(),
        i != j,
    ensures
        suffix(s, i) != suffix(s, j),
        lex_less(suffix(s, i), suffix(s, j)) || lex_less(suffix(s, j), suffix(s, i)),
{
    assert(suffix(s, i).len() != suffix(s, j).len());
    lemma_lex_total(suffix(s, i), suffix(s, j));
}

/// A sequence that starts with a smaller symbol comes first; with the same
/// first symbol, the rests decide.
pub proof fn lemma_lex_first(a: Seq<u8>, b: Seq<u8>)
    requires
        a.len() > 0,
        b.len() > 0,
    ensures
        lex_less(a, b) == (a[0] < b[0] || (a[0] == b[0] && lex_less(
            a.drop_first(),
            b.drop_first(),
        ))),
{
}

} // verus!
