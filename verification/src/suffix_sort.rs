//! Sorting the suffixes of the encoded text.
//!
//! The suffix array lists the start positions of the suffixes of the text in
//! lexicographic order, where the end of the text comes before every symbol.

use vstd::prelude::*;
use crate::lex::{
    lemma_lex_asymmetric, lemma_lex_irreflexive, lemma_lex_transitive, lemma_suffix_distinct,
    lemma_suffix_step, lex_less, suffix,
};

verus! {

/// Whether the suffix at `i` comes before the suffix at `j`.
pub open spec fn suffix_before(s: Seq<u8>, i: int, j: int) -> bool {
    lex_less(suffix(s, i), suffix(s, j))
}

/// Whether the positions in `v` are in the order of their suffixes.
pub open spec fn sorted_suffixes(s: Seq<u8>, v: Seq<usize>) -> bool {
    forall|a: int, b: int|
        0 <= a < b < v.len() ==> suffix_before(s, #[trigger] v[a] as int, #[trigger] v[b] as int)
}

/// Whether `sa` is the suffix array of `s`: every position of `s` once, in
/// the order of the suffixes.
pub open spec fn is_suffix_array(s: Seq<u8>, sa: Seq<usize>) -> bool {
    &&& sa.len() == s.len()
    &&& s.len() <= usize::MAX
    &&& forall|r: int| 0 <= r < sa.len() ==> #[trigger] sa[r] < s.len()
    &&& forall|i: usize| i < s.len() ==> #[trigger] sa.contains(i)
    &&& sorted_suffixes(s, sa)
}

/// The suffix array of `s`.
pub open spec fn suffix_array(s: Seq<u8>) -> Seq<usize> {
    choose|sa: Seq<usize>| is_suffix_array(s, sa)
}

/// The positions of a sorted sequence are pairwise different.
pub proof fn lemma_sorted_distinct(s: Seq<u8>, v: Seq<usize>, a: int, b: int)
    requires
        sorted_suffixes(s, v),
        0 <= a < v.len(),
        0 <= b < v.len(),
        a != b,
    ensures
        v[a] != v[b],
{
    if a < b {
        lemma_lex_asymmetric(suffix(s, v[a] as int), suffix(s, v[b] as int));
    } else {
        lemma_lex_asymmetric(suffix(s, v[b] as int), suffix(s, v[a] as int));
    }
}

/// A text has one suffix array only.
pub proof fn lemma_suffix_array_unique(s: Seq<u8>, a: Seq<usize>, b: Seq<usize>)
    requires
        is_suffix_array(s, a),
        is_suffix_array(s, b),
    ensures
        a == b,
{
    assert forall|r: int| 0 <= r < a.len() implies a[r] == b[r] by {
        lemma_suffix_array_agree(s, a, b, r);
    }
    assert(a =~= b);
}

proof fn lemma_suffix_array_agree(s: Seq<u8>, a: Seq<usize>, b: Seq<usize>, r: int)
    requires
        is_suffix_array(s, a),
        is_suffix_array(s, b),
        0 <= r < a.len(),
    ensures
        a[r] == b[r],
    decreases r,
{
    assert forall|x: int| 0 <= x < r implies a[x] == b[x] by {
        lemma_suffix_array_agree(s, a, b, x);
    }
    if a[r] != b[r] {
        assert(b.contains(a[r]));
        let rb = choose|i: int| 0 <= i < b.len() && b[i] == a[r];
        assert(a.contains(b[r]));
        let ra = choose|i: int| 0 <= i < a.len() && a[i] == b[r];
        if rb < r {
            lemma_sorted_distinct(s, a, rb, r);
        }
        if ra < r {
            lemma_sorted_distinct(s, b, ra, r);
        }
        assert(rb > r && ra > r);
        let x = suffix(s, a[r] as int);
        let y = suffix(s, b[r] as int);
        assert(suffix_before(s, b[r] as int, b[rb] as int));
        assert(suffix_before(s, a[r] as int, a[ra] as int));
        lemma_lex_asymmetric(x, y);
    }
}

/// Whether the suffix at `i` comes before the suffix at `j`.
pub fn suffix_lt(s: &[u8], i: usize, j: usize) -> (less: bool)
    requires
        i <= s@.len(),
        j <= s@.len(),
    ensures
        less == suffix_before(s@, i as int, j as int),
{
    let n: usize = s.len();
    let mut d: usize = 0;
    loop
        invariant
            n == s@.len(),
            i + d <= n,
            j + d <= n,
            suffix_before(s@, i as int, j as int) == suffix_before(s@, i + d, j + d),
        decreases n - d,
    {
        if j + d >= n {
            assert(suffix(s@, j + d).len() == 0);
            return false;
        }
        if i + d >= n {
            assert(suffix(s@, i + d).len() == 0);
            assert(suffix(s@, j + d).len() > 0);
            return true;
        }
        proof {
            lemma_suffix_step(s@, i + d);
            lemma_suffix_step(s@, j + d);
        }
        if s[i + d] != s[j + d] {
            return s[i + d] < s[j + d];
        }
        d += 1;
    }
}

/// Merges two sequences of positions that are in the order of their suffixes.
fn merge(s: &[u8], a: &Vec<usize>, b: &Vec<usize>) -> (out: Vec<usize>)
    requires
        sorted_suffixes(s@, a@),
        sorted_suffixes(s@, b@),
        forall|p: int| 0 <= p < a@.len() ==> #[trigger] a@[p] < s@.len(),
        forall|q: int| 0 <= q < b@.len() ==> #[trigger] b@[q] < s@.len(),
        forall|p: int, q: int| 0 <= p < a@.len() && 0 <= q < b@.len() ==> a@[p] != b@[q],
        a@.len() + b@.len() <= usize::MAX,
    ensures
        out@.len() == a@.len() + b@.len(),
        sorted_suffixes(s@, out@),
        forall|y: usize| out@.contains(y) <==> (a@.contains(y) || b@.contains(y)),
{
    let mut out: Vec<usize> = Vec::new();
    let mut i: usize = 0;
    let mut j: usize = 0;
    while i < a.len() || j < b.len()
        invariant
            i <= a@.len(),
            j <= b@.len(),
            out@.len() == i + j,
            a@.len() + b@.len() <= usize::MAX,
            sorted_suffixes(s@, a@),
            sorted_suffixes(s@, b@),
            sorted_suffixes(s@, out@),
            forall|p: int| 0 <= p < a@.len() ==> #[trigger] a@[p] < s@.len(),
            forall|q: int| 0 <= q < b@.len() ==> #[trigger] b@[q] < s@.len(),
            forall|p: int, q: int| 0 <= p < a@.len() && 0 <= q < b@.len() ==> a@[p] != b@[q],
            forall|x: int, p: int|
                0 <= x < out@.len() && i <= p < a@.len() ==> suffix_before(
                    s@,
                    #[trigger] out@[x] as int,
                    #[trigger] a@[p] as int,
                ),
            forall|x: int, q: int|
                0 <= x < out@.len() && j <= q < b@.len() ==> suffix_before(
                    s@,
                    #[trigger] out@[x] as int,
                    #[trigger] b@[q] as int,
                ),
            forall|y: usize|
                out@.contains(y) <==> (a@.take(i as int).contains(y) || b@.take(j as int).contains(
                    y,
                )),
        decreases a@.len() - i + b@.len() - j,
    {
        let take_a: bool = if i >= a.len() {
            false
        } else if j >= b.len() {
            true
        } else {
            suffix_lt(s, a[i], b[j])
        };
        let ghost before = out@;
        if take_a {
            let x: usize = a[i];
            proof {
                assert forall|q: int| j <= q < b@.len() implies suffix_before(
                    s@,
                    x as int,
                    #[trigger] b@[q] as int,
                ) by {
                    if q > j {
                        lemma_lex_transitive(
                            suffix(s@, x as int),
                            suffix(s@, b@[j as int] as int),
                            suffix(s@, b@[q] as int),
                        );
                    }
                }
                assert(a@.take(i + 1) =~= a@.take(i as int).push(x));
            }
            out.push(x);
            i += 1;
            proof {
                lemma_push_contains(before, x);
                lemma_push_contains(a@.take(i - 1), x);
                assert(out@ == before.push(x));
                assert(a@.take(i as int) == a@.take(i - 1).push(x));
                assert forall|y: usize|
                    out@.contains(y) <==> (a@.take(i as int).contains(y) || b@.take(
                        j as int,
                    ).contains(y)) by {
                    assert(before.push(x).contains(y) <==> (before.contains(y) || y == x));
                    assert(a@.take(i - 1).push(x).contains(y) <==> (a@.take(i - 1).contains(y)
                        || y == x));
                }
            }
        } else {
            let y: usize = b[j];
            proof {
                if i < a@.len() {
                    lemma_suffix_distinct(s@, a@[i as int] as int, y as int);
                }
                assert forall|p: int| i <= p < a@.len() implies suffix_before(
                    s@,
                    y as int,
                    #[trigger] a@[p] as int,
                ) by {
                    if p > i {
                        lemma_lex_transitive(
                            suffix(s@, y as int),
                            suffix(s@, a@[i as int] as int),
                            suffix(s@, a@[p] as int),
                        );
                    }
                }
                assert(b@.take(j + 1) =~= b@.take(j as int).push(y));
            }
            out.push(y);
            j += 1;
            proof {
                lemma_push_contains(before, y);
                lemma_push_contains(b@.take(j - 1), y);
                assert(out@ == before.push(y));
                assert(b@.take(j as int) == b@.take(j - 1).push(y));
                assert forall|z: usize|
                    out@.contains(z) <==> (a@.take(i as int).contains(z) || b@.take(
                        j as int,
                    ).contains(z)) by {
                    assert(before.push(y).contains(z) <==> (before.contains(z) || z == y));
                    assert(b@.take(j - 1).push(y).contains(z) <==> (b@.take(j - 1).contains(z)
                        || z == y));
                }
            }
        }
    }
    proof {
        assert(a@.take(a@.len() as int) =~= a@);
        assert(b@.take(b@.len() as int) =~= b@);
    }
    out
}

/// What a sequence holds after a push: what it held, and the new element.
pub proof fn lemma_push_contains(v: Seq<usize>, x: usize)
    ensures
        forall|y: usize| #[trigger] v.push(x).contains(y) <==> (v.contains(y) || y == x),
{
    assert forall|y: usize| #[trigger] v.push(x).contains(y) <==> (v.contains(y) || y == x) by {
        if v.push(x).contains(y) {
            let w = choose|w: int| 0 <= w < v.push(x).len() && v.push(x)[w] == y;
            if w < v.len() {
                assert(v[w] == y);
            }
        }
        if v.contains(y) {
            let w = choose|w: int| 0 <= w < v.len() && v[w] == y;
            assert(v.push(x)[w] == y);
        }
        if y == x {
            assert(v.push(x)[v.len() as int] == x);
        }
    }
}

/// The positions from `lo` up to `hi`, `hi` excluded, in the order of their suffixes.
fn sort_range(s: &[u8], lo: usize, hi: usize) -> (out: Vec<usize>)
    requires
        lo <= hi <= s@.len(),
    ensures
        out@.len() == hi - lo,
        sorted_suffixes(s@, out@),
        forall|y: usize| out@.contains(y) <==> lo <= y < hi,
    decreases hi - lo,
{
    if hi - lo == 0 {
        let out: Vec<usize> = Vec::new();
        assert forall|y: usize| out@.contains(y) <==> lo <= y < hi by {
            if out@.contains(y) {
                let w = choose|w: int| 0 <= w < out@.len() && out@[w] == y;
            }
        }
        out
    } else if hi - lo == 1 {
        let mut out: Vec<usize> = Vec::new();
        out.push(lo);
        proof {
            assert forall|y: usize| out@.contains(y) <==> lo <= y < hi by {
                if out@.contains(y) {
                    let w = choose|w: int| 0 <= w < out@.len() && out@[w] == y;
                }
                if y == lo {
                    assert(out@[0] == lo);
                }
            }
        }
        out
    } else {
        let mid: usize = lo + (hi - lo) / 2;
        let left: Vec<usize> = sort_range(s, lo, mid);
        let right: Vec<usize> = sort_range(s, mid, hi);
        proof {
            assert forall|p: int| 0 <= p < left@.len() implies #[trigger] left@[p] < s@.len() by {
                assert(left@.contains(left@[p]));
            }
            assert forall|q: int| 0 <= q < right@.len() implies #[trigger] right@[q]
                < s@.len() by {
                assert(right@.contains(right@[q]));
            }
            assert forall|p: int, q: int|
                0 <= p < left@.len() && 0 <= q < right@.len() implies left@[p] != right@[q] by {
                assert(left@.contains(left@[p]));
                assert(right@.contains(right@[q]));
            }
        }
        let out: Vec<usize> = merge(s, &left, &right);
        proof {
            assert forall|y: usize| out@.contains(y) <==> lo <= y < hi by {
                assert(left@.contains(y) <==> lo <= y < mid);
                assert(right@.contains(y) <==> mid <= y < hi);
            }
        }
        out
    }
}

/// A sorted sequence of positions with one more position put in its place.
proof fn lemma_insert(s: Seq<u8>, v: Seq<usize>, x: usize) -> (out: Seq<usize>)
    requires
        sorted_suffixes(s, v),
        x <= s.len(),
        forall|r: int| 0 <= r < v.len() ==> #[trigger] v[r] <= s.len() && v[r] != x,
    ensures
        out.len() == v.len() + 1,
        sorted_suffixes(s, out),
        forall|y: usize| #[trigger] out.contains(y) <==> (v.contains(y) || y == x),
    decreases v.len(),
{
    if v.len() == 0 {
        let out = v.push(x);
        lemma_push_contains(v, x);
        out
    } else {
        let last = v.last();
        lemma_suffix_distinct(s, last as int, x as int);
        if suffix_before(s, last as int, x as int) {
            let out = v.push(x);
            lemma_push_contains(v, x);
            assert forall|a: int, b: int| 0 <= a < b < out.len() implies suffix_before(
                s,
                #[trigger] out[a] as int,
                #[trigger] out[b] as int,
            ) by {
                if b == v.len() && a < v.len() - 1 {
                    lemma_lex_transitive(
                        suffix(s, v[a] as int),
                        suffix(s, last as int),
                        suffix(s, x as int),
                    );
                }
            }
            out
        } else {
            let front = v.drop_last();
            assert forall|a: int, b: int| 0 <= a < b < front.len() implies suffix_before(
                s,
                #[trigger] front[a] as int,
                #[trigger] front[b] as int,
            ) by {
                assert(front[a] == v[a] && front[b] == v[b]);
            }
            assert forall|r: int| 0 <= r < front.len() implies #[trigger] front[r] <= s.len()
                && front[r] != x by {
                assert(front[r] == v[r]);
            }
            let inner = lemma_insert(s, front, x);
            let out = inner.push(last);
            lemma_push_contains(inner, last);
            lemma_push_contains(front, last);
            assert(front.push(last) =~= v);
            assert forall|a: int, b: int| 0 <= a < b < out.len() implies suffix_before(
                s,
                #[trigger] out[a] as int,
                #[trigger] out[b] as int,
            ) by {
                if b == inner.len() {
                    assert(inner.contains(inner[a]));
                    if inner[a] != x {
                        assert(front.contains(inner[a]));
                        let w = choose|w: int| 0 <= w < front.len() && front[w] == inner[a];
                        assert(suffix_before(s, v[w] as int, v[v.len() - 1] as int));
                    }
                }
            }
            out
        }
    }
}

/// The positions below `m` in the order of their suffixes.
proof fn lemma_sorted_prefix(s: Seq<u8>, m: nat) -> (out: Seq<usize>)
    requires
        m <= s.len() <= usize::MAX,
    ensures
        out.len() == m,
        sorted_suffixes(s, out),
        forall|y: usize| #[trigger] out.contains(y) <==> y < m,
    decreases m,
{
    if m == 0 {
        let out = Seq::<usize>::empty();
        assert forall|y: usize| #[trigger] out.contains(y) <==> y < m by {
            if out.contains(y) {
                let w = choose|w: int| 0 <= w < out.len() && out[w] == y;
            }
        }
        out
    } else {
        let before = lemma_sorted_prefix(s, (m - 1) as nat);
        let x = (m - 1) as usize;
        assert forall|r: int| 0 <= r < before.len() implies #[trigger] before[r] <= s.len()
            && before[r] != x by {
            assert(before.contains(before[r]));
        }
        lemma_insert(s, before, x)
    }
}

/// Every text that fits in memory has a suffix array.
pub proof fn lemma_suffix_array_exists(s: Seq<u8>)
    requires
        s.len() <= usize::MAX,
    ensures
        is_suffix_array(s, suffix_array(s)),
{
    let sorted = lemma_sorted_prefix(s, s.len());
    assert forall|r: int| 0 <= r < sorted.len() implies #[trigger] sorted[r] < s.len() by {
        assert(sorted.contains(sorted[r]));
    }
    assert(is_suffix_array(s, sorted));
}

/// Computes the suffix array of `s`.
pub fn sort_suffixes(s: &[u8]) -> (sa: Vec<usize>)
    ensures
        is_suffix_array(s@, sa@),
        sa@ == suffix_array(s@),
{
    let sa: Vec<usize> = sort_range(s, 0, s.len());
    proof {
        assert forall|r: int| 0 <= r < sa@.len() implies #[trigger] sa@[r] < s@.len() by {
            assert(sa@.contains(sa@[r]));
        }
        assert(is_suffix_array(s@, sa@));
        lemma_suffix_array_unique(s@, sa@, suffix_array(s@));
    }
    sa
}

} // verus!
