//! Counting the occurrences of a symbol in a sequence.

use vstd::prelude::*;

verus! {

/// The number of indices below `upto` at which `s` holds the value `x`.
pub open spec fn count_in(s: Seq<u8>, x: int, upto: nat) -> nat
    decreases upto,
{
    if upto == 0 {
        0
    } else {
        count_in(s, x, (upto - 1) as nat) + if s[upto - 1] == x {
            1nat
        } else {
            0nat
        }
    }
}

pub proof fn lemma_count_in_bound(s: Seq<u8>, x: int, upto: nat)
    ensures
        count_in(s, x, upto) <= upto,
    decreases upto,
{
    if upto > 0 {
        lemma_count_in_bound(s, x, (upto - 1) as nat);
    }
}

pub proof fn lemma_count_in_monotone(s: Seq<u8>, x: int, a: nat, b: nat)
    requires
        a <= b,
    ensures
        count_in(s, x, a) <= count_in(s, x, b),
        count_in(s, x, b) - count_in(s, x, a) <= b - a,
    decreases b,
{
    if a < b {
        lemma_count_in_monotone(s, x, a, (b - 1) as nat);
    }
}

/// The count depends only on the elements below `upto`.
pub proof fn lemma_count_in_ext(s: Seq<u8>, t: Seq<u8>, x: int, upto: nat)
    requires
        forall|i: int| 0 <= i < upto ==> s[i] == t[i],
    ensures
        count_in(s, x, upto) == count_in(t, x, upto),
    decreases upto,
{
    if upto > 0 {
        lemma_count_in_ext(s, t, x, (upto - 1) as nat);
    }
}

/// Counting in a concatenation: first in the front part, then in the rest.
pub proof fn lemma_count_in_concat(s: Seq<u8>, t: Seq<u8>, x: int, upto: nat)
    requires
        upto <= t.len(),
    ensures
        count_in(s + t, x, s.len() + upto) == count_in(s, x, s.len()) + count_in(t, x, upto),
    decreases upto,
{
    if upto > 0 {
        lemma_count_in_concat(s, t, x, (upto - 1) as nat);
        assert((s + t)[s.len() + upto - 1] == t[upto - 1]);
    } else {
        lemma_count_in_ext(s + t, s, x, s.len());
    }
}

/// Counting up to the end of a part of a sequence: first up to the start of
/// the part, then in the part.
pub proof fn lemma_count_in_subrange(s: Seq<u8>, x: int, start: nat, end: nat)
    requires
        start <= end <= s.len(),
    ensures
        count_in(s, x, end) == count_in(s, x, start) + count_in(
            s.subrange(start as int, end as int),
            x,
            (end - start) as nat,
        ),
    decreases end - start,
{
    if start < end {
        lemma_count_in_subrange(s, x, start, (end - 1) as nat);
        let part = s.subrange(start as int, end as int);
        let shorter = s.subrange(start as int, end - 1);
        lemma_count_in_ext(part, shorter, x, (end - 1 - start) as nat);
        assert(part[end - start - 1] == s[end - 1]);
    }
}

/// The number of indices below `upto` at which `f` holds.
pub open spec fn count_pos(f: spec_fn(int) -> bool, upto: nat) -> nat
    decreases upto,
{
    if upto == 0 {
        0
    } else {
        count_pos(f, (upto - 1) as nat) + if f(upto - 1) {
            1nat
        } else {
            0nat
        }
    }
}

pub proof fn lemma_count_pos_bound(f: spec_fn(int) -> bool, upto: nat)
    ensures
        count_pos(f, upto) <= upto,
    decreases upto,
{
    if upto > 0 {
        lemma_count_pos_bound(f, (upto - 1) as nat);
    }
}

pub proof fn lemma_count_pos_monotone(f: spec_fn(int) -> bool, a: nat, b: nat)
    requires
        a <= b,
    ensures
        count_pos(f, a) <= count_pos(f, b),
        count_pos(f, b) - count_pos(f, a) <= b - a,
    decreases b,
{
    if a < b {
        lemma_count_pos_monotone(f, a, (b - 1) as nat);
    }
}

/// Two properties that agree below `upto` hold equally often there.
pub proof fn lemma_count_pos_ext(f: spec_fn(int) -> bool, g: spec_fn(int) -> bool, upto: nat)
    requires
        forall|i: int| 0 <= i < upto ==> #[trigger] f(i) == g(i),
    ensures
        count_pos(f, upto) == count_pos(g, upto),
    decreases upto,
{
    if upto > 0 {
        lemma_count_pos_ext(f, g, (upto - 1) as nat);
    }
}

/// Of two properties that exclude each other, one or the other holds as
/// often as the one and the other together.
pub proof fn lemma_count_pos_or(
    f: spec_fn(int) -> bool,
    g: spec_fn(int) -> bool,
    h: spec_fn(int) -> bool,
    upto: nat,
)
    requires
        forall|i: int| 0 <= i < upto ==> !(#[trigger] f(i) && g(i)),
        forall|i: int| 0 <= i < upto ==> #[trigger] h(i) == (f(i) || g(i)),
    ensures
        count_pos(h, upto) == count_pos(f, upto) + count_pos(g, upto),
    decreases upto,
{
    if upto > 0 {
        lemma_count_pos_or(f, g, h, (upto - 1) as nat);
    }
}

/// A property that holds exactly for the indices below `c` holds `c` times.
pub proof fn lemma_count_pos_prefix(f: spec_fn(int) -> bool, c: nat, upto: nat)
    requires
        c <= upto,
        forall|i: int| 0 <= i < upto ==> #[trigger] f(i) == (i < c),
    ensures
        count_pos(f, upto) == c,
    decreases upto,
{
    if upto > 0 {
        if c == upto {
            lemma_count_pos_prefix(f, (c - 1) as nat, (upto - 1) as nat);
        } else {
            lemma_count_pos_prefix(f, c, (upto - 1) as nat);
        }
    }
}

/// A property that holds for one index only holds once.
pub proof fn lemma_count_pos_single(f: spec_fn(int) -> bool, at: int, upto: nat)
    requires
        0 <= at < upto,
        forall|i: int| 0 <= i < upto ==> #[trigger] f(i) == (i == at),
    ensures
        count_pos(f, upto) == 1,
    decreases upto,
{
    if upto - 1 == at {
        lemma_count_pos_none(f, (upto - 1) as nat);
    } else {
        lemma_count_pos_single(f, at, (upto - 1) as nat);
    }
}

/// A property that never holds holds zero times.
pub proof fn lemma_count_pos_none(f: spec_fn(int) -> bool, upto: nat)
    requires
        forall|i: int| 0 <= i < upto ==> !#[trigger] f(i),
    ensures
        count_pos(f, upto) == 0,
    decreases upto,
{
    if upto > 0 {
        lemma_count_pos_none(f, (upto - 1) as nat);
    }
}

/// A property that is closed downwards holds exactly below the number of
/// times that it holds.
pub proof fn lemma_count_pos_closed(f: spec_fn(int) -> bool, upto: nat)
    requires
        forall|i: int, j: int| 0 <= i <= j < upto && #[trigger] f(j) ==> #[trigger] f(i),
    ensures
        forall|i: int| 0 <= i < upto ==> #[trigger] f(i) == (i < count_pos(f, upto)),
    decreases upto,
{
    if upto > 0 {
        lemma_count_pos_closed(f, (upto - 1) as nat);
        lemma_count_pos_bound(f, (upto - 1) as nat);
        let c = count_pos(f, (upto - 1) as nat);
        if f(upto - 1) {
            assert forall|i: int| 0 <= i < upto - 1 implies #[trigger] f(i) by {}
            if c < upto - 1 {
                assert(f(c as int) == (c < c));
            }
        }
    }
}

/// Counting shifted by one: `f` at the indices from 1 up to `upto` holds as
/// often as `g`, which is `f` at the next index, below `upto`.
pub proof fn lemma_count_pos_shift(f: spec_fn(int) -> bool, g: spec_fn(int) -> bool, upto: nat)
    requires
        forall|i: int| 0 <= i < upto ==> #[trigger] g(i) == f(i + 1),
    ensures
        count_pos(f, upto + 1) == count_pos(g, upto) + if f(0) {
            1nat
        } else {
            0nat
        },
    decreases upto,
{
    if upto > 0 {
        lemma_count_pos_shift(f, g, (upto - 1) as nat);
    } else {
        assert(count_pos(f, 1) == count_pos(f, 0) + if f(0) {
            1nat
        } else {
            0nat
        });
    }
}

/// The occurrences of a value in a sequence, counted as a property of indices.
pub proof fn lemma_count_in_as_pos(s: Seq<u8>, x: int, upto: nat)
    ensures
        count_in(s, x, upto) == count_pos(|i: int| s[i] == x, upto),
    decreases upto,
{
    if upto > 0 {
        lemma_count_in_as_pos(s, x, (upto - 1) as nat);
    }
}

} // verus!
