//! The order of k-mers as numbers is the order of the suffixes by their
//! first symbols, so that the k-mer table gives the range of a pattern.

use vstd::prelude::*;
use vstd::arithmetic::power::pow;
use crate::block::Block;
use crate::count_array::{all_symbols, digits_of, spec_initial_range, table_before};
use crate::counting::{count_pos, lemma_count_pos_ext};
use crate::fm_index::FmIndex;
use crate::kmer::{
    code_of, digit_at, kmer_code, kmer_count_le, lemma_kmer_code_bound, lemma_kmer_code_front,
    lemma_pow_step,
};
use crate::lex::{is_prefix, lemma_lex_first, lemma_suffix_step, lex_less, suffix};
use crate::occurrences::{hi_of, lemma_prefix_first, lo_of, p_less, p_upto};
use crate::position::Position;
use crate::text_encoder::TextEncoder;
use crate::theory::lemma_kmer_count_as_pos;

verus! {

/// The number that digits spell is the first digit in the most significant
/// place, then the number of the other digits.
pub proof fn lemma_code_of_front(w: Seq<u8>, base: nat)
    requires
        w.len() >= 1,
    ensures
        code_of(w, base) == w[0] * pow(base as int, (w.len() - 1) as nat) + code_of(
            w.drop_first(),
            base,
        ),
    decreases w.len(),
{
    lemma_pow_step(base, 0);
    let m = w.len();
    if m == 1 {
        assert(w.drop_last() =~= Seq::<u8>::empty());
        assert(w.drop_first() =~= Seq::<u8>::empty());
        assert(code_of(w.drop_last(), base) == 0);
        assert(code_of(w.drop_first(), base) == 0);
        assert(code_of(w.drop_last(), base) * base == 0) by (nonlinear_arith)
            requires
                code_of(w.drop_last(), base) == 0,
        ;
        assert(code_of(w, base) == code_of(w.drop_last(), base) * base + w.last());
        assert(w.last() == w[0]);
    } else {
        let front = w.drop_last();
        lemma_code_of_front(front, base);
        lemma_pow_step(base, (m - 2) as nat);
        assert(front.drop_first() =~= w.drop_first().drop_last());
        assert(w.drop_first().last() == w.last());
        assert(front[0] == w[0]);
        let p = pow(base as int, (m - 2) as nat);
        let c = code_of(front.drop_first(), base);
        assert(code_of(front, base) == w[0] * p + c);
        assert(code_of(w, base) == code_of(front, base) * base + w.last());
        assert(code_of(w.drop_first(), base) == code_of(w.drop_first().drop_last(), base) * base
            + w.drop_first().last());
        assert(pow(base as int, (m - 1) as nat) == p * base);
        assert((w[0] * p + c) * base + w.last() == w[0] * (p * base) + (c * base + w.last()))
            by (nonlinear_arith);
    }
}

/// The first `m` digits of a k-mer are its most significant part.
pub proof fn lemma_kmer_code_split(enc: Seq<u8>, j: int, m: nat, k: nat, base: nat)
    requires
        m <= k,
    ensures
        kmer_code(enc, j, k, base) == kmer_code(enc, j, m, base) * pow(
            base as int,
            (k - m) as nat,
        ) + kmer_code(enc, j + m, (k - m) as nat, base),
    decreases k - m,
{
    lemma_pow_step(base, 0);
    if k == m {
        assert(kmer_code(enc, j + m, 0, base) == 0);
        assert(pow(base as int, 0) == 1);
        assert(kmer_code(enc, j, m, base) * 1 == kmer_code(enc, j, m, base)) by (nonlinear_arith);
    } else {
        let u = (k - 1) as nat;
        lemma_kmer_code_split(enc, j, m, u, base);
        lemma_pow_step(base, (u - m) as nat);
        let a = kmer_code(enc, j, m, base);
        let p = pow(base as int, (u - m) as nat);
        let r = kmer_code(enc, j + m, (u - m) as nat, base);
        let last = digit_at(enc, j + k - 1);
        assert(kmer_code(enc, j, u, base) == a * p + r);
        assert(kmer_code(enc, j, k, base) == kmer_code(enc, j, u, base) * base + last);
        assert(kmer_code(enc, j, k, base) == (a * p + r) * base + last);
        assert(j + m + (k - m) - 1 == j + k - 1);
        assert(kmer_code(enc, j + m, (k - m) as nat, base) == kmer_code(
            enc,
            j + m,
            (k - m - 1) as nat,
            base,
        ) * base + digit_at(enc, j + m + (k - m) - 1));
        assert(kmer_code(enc, j + m, (k - m) as nat, base) == r * base + last);
        assert(pow(base as int, (k - m) as nat) == p * base);
        assert((a * p + r) * base + last == a * (p * base) + (r * base + last))
            by (nonlinear_arith);
    }
}

/// Whether every value of the sequence is a digit of a symbol: between 1
/// and the base without two.
pub open spec fn symbol_digits(d: Seq<u8>, base: nat) -> bool {
    forall|i: int| 0 <= i < d.len() ==> 1 <= #[trigger] d[i] <= base - 2
}

/// The m-mer at a position is below the number of a pattern of `m` digits
/// exactly when the suffix there comes before the pattern; it is at most
/// that number exactly when the suffix comes before the pattern or starts
/// with it.
pub proof fn lemma_code_order(enc: Seq<u8>, j: int, w: Seq<u8>, base: nat)
    requires
        0 <= j <= enc.len(),
        symbol_digits(enc, base),
        symbol_digits(w, base),
        base >= 2,
    ensures
        (kmer_code(enc, j, w.len(), base) < code_of(w, base)) == lex_less(suffix(enc, j), w),
        (kmer_code(enc, j, w.len(), base) <= code_of(w, base)) == (lex_less(suffix(enc, j), w)
            || is_prefix(w, suffix(enc, j))),
    decreases w.len(),
{
    let m = w.len();
    let a = suffix(enc, j);
    if m == 0 {
        assert(a.subrange(0, 0) =~= w);
    } else {
        let rest = w.drop_first();
        lemma_code_of_front(w, base);
        lemma_kmer_code_front(enc, j, m, base);
        lemma_pow_step(base, (m - 1) as nat);
        assert forall|i: int| 0 <= i < enc.len() implies (#[trigger] enc[i] as nat) < base by {}
        assert forall|i: int| 0 <= i < rest.len() implies (#[trigger] rest[i] as nat) < base by {
            assert(rest[i] == w[i + 1]);
        }
        lemma_kmer_code_bound(enc, j + 1, (m - 1) as nat, base);
        crate::count_array::lemma_code_of_bound(rest, base);
        let p = pow(base as int, (m - 1) as nat);
        let ca = kmer_code(enc, j + 1, (m - 1) as nat, base);
        let cw = code_of(rest, base);
        let da = digit_at(enc, j);
        let dw = w[0];
        lemma_prefix_first(w, a);
        if j == enc.len() {
            assert(a.len() == 0);
            assert(da * p + ca < dw * p + cw) by (nonlinear_arith)
                requires
                    da == 0,
                    ca < p,
                    dw >= 1,
                    cw >= 0,
            ;
        } else {
            lemma_suffix_step(enc, j);
            lemma_lex_first(a, w);
            assert(symbol_digits(rest, base)) by {
                assert forall|i: int| 0 <= i < rest.len() implies 1 <= #[trigger] rest[i] <= base
                    - 2 by {
                    assert(rest[i] == w[i + 1]);
                }
            }
            lemma_code_order(enc, j + 1, rest, base);
            if da < dw {
                assert(da * p + ca < dw * p + cw) by (nonlinear_arith)
                    requires
                        da + 1 <= dw,
                        ca < p,
                        cw >= 0,
                ;
            } else if da > dw {
                assert(da * p + ca > dw * p + cw) by (nonlinear_arith)
                    requires
                        dw + 1 <= da,
                        cw < p,
                        ca >= 0,
                ;
            }
        }
    }
}

/// The k-mer at a position, for a pattern of at most `k` digits: the k-mers
/// of the suffixes before the pattern are below the first k-mer that opens
/// with the pattern, and those of the suffixes that start with the pattern
/// are up to the last such k-mer.
pub proof fn lemma_code_order_wide(enc: Seq<u8>, j: int, w: Seq<u8>, k: nat, base: nat)
    requires
        0 <= j < enc.len(),
        symbol_digits(enc, base),
        symbol_digits(w, base),
        base >= 2,
        w.len() <= k,
    ensures
        (kmer_code(enc, j, k, base) <= code_of(w, base) * pow(base as int, (k - w.len()) as nat)
            - 1) == lex_less(suffix(enc, j), w),
        (kmer_code(enc, j, k, base) <= code_of(w, base) * pow(base as int, (k - w.len()) as nat)
            + pow(base as int, (k - w.len()) as nat) - 1) == (lex_less(suffix(enc, j), w)
            || is_prefix(w, suffix(enc, j))),
{
    let m = w.len();
    lemma_code_order(enc, j, w, base);
    lemma_kmer_code_split(enc, j, m, k, base);
    assert forall|i: int| 0 <= i < enc.len() implies (#[trigger] enc[i] as nat) < base by {}
    lemma_kmer_code_bound(enc, j + m, (k - m) as nat, base);
    let gap = pow(base as int, (k - m) as nat);
    let a = kmer_code(enc, j, m, base) as int;
    let r = kmer_code(enc, j + m, (k - m) as nat, base) as int;
    let c = code_of(w, base) as int;
    assert((a * gap + r <= c * gap - 1) == (a < c)) by (nonlinear_arith)
        requires
            0 <= r < gap,
    ;
    assert((a * gap + r <= c * gap + gap - 1) == (a <= c)) by (nonlinear_arith)
        requires
            0 <= r < gap,
    ;
}

/// The digits of a sequence of symbols are digits of symbols.
pub proof fn lemma_digits_of_symbols(syms: Seq<u8>, base: nat)
    requires
        all_symbols(syms, base - 2),
        base <= 130,
    ensures
        symbol_digits(digits_of(syms), base),
        digits_of(syms).len() == syms.len(),
{
    assert forall|i: int| 0 <= i < syms.len() implies 1 <= #[trigger] digits_of(syms)[i] <= base
        - 2 by {
        assert((syms[i] as int) < base - 2);
    }
}

impl<'a, P: Position, B: Block, E: TextEncoder> FmIndex<'a, P, B, E> {
    /// The k-mer table holds at a number the suffixes whose k-mer is at most
    /// the number.
    pub proof fn lemma_table_entry(&self, enc: Seq<u8>, t: int)
        requires
            self.indexes(enc),
            0 <= t < pow(self.count_array_view.base() as int, self.count_array_view.kmer_size()),
        ensures
            self.count_array_view.table()[t] == count_pos(
                |j: int|
                    kmer_code(
                        enc,
                        j,
                        self.count_array_view.kmer_size(),
                        self.count_array_view.base(),
                    ) <= t,
                enc.len(),
            ),
    {
        let base = self.count_array_view.base();
        let k = self.count_array_view.kmer_size();
        lemma_kmer_count_as_pos(enc, k, base, t, 0);
        assert(self.count_array_view.table()[t] == kmer_count_le(enc, k, base, t, 0));
    }

    /// The lookup table gives for a pattern of symbols the range of its
    /// last symbols, as many as the table reads, or of the whole pattern
    /// where it is shorter.
    pub proof fn lemma_initial_range(&self, enc: Seq<u8>, syms: Seq<u8>)
        requires
            self.indexes(enc),
            enc.len() >= 1,
            syms.len() >= 1,
            all_symbols(
                syms.subrange(
                    if syms.len() >= self.count_array_view.kmer_size() {
                        syms.len() - self.count_array_view.kmer_size()
                    } else {
                        0
                    },
                    syms.len() as int,
                ),
                self.symbol_count() as int,
            ),
        ensures
            ({
                let k = self.count_array_view.kmer_size();
                let first = spec_initial_range(
                    self.count_array_view.table(),
                    self.count_array_view.base(),
                    k,
                    syms,
                );
                let m = syms.len();
                let cursor = if m >= k {
                    (m - k) as nat
                } else {
                    0nat
                };
                let window = digits_of(syms).subrange(cursor as int, m as int);
                &&& first.1 == cursor
                &&& first.0.0 == lo_of(enc, window)
                &&& first.0.1 == hi_of(enc, window)
            }),
    {
        let k = self.count_array_view.kmer_size();
        let base = self.count_array_view.base();
        let table = self.count_array_view.table();
        let n = enc.len();
        let m = syms.len();
        let cursor = if m >= k {
            (m - k) as nat
        } else {
            0nat
        };
        let part = syms.subrange(cursor as int, m as int);
        let window = digits_of(syms).subrange(cursor as int, m as int);
        assert(digits_of(part) =~= window);
        assert(all_symbols(part, base - 2));
        if m < k {
            assert(part =~= syms);
        }
        lemma_digits_of_symbols(part, base);
        assert(symbol_digits(enc, base)) by {
            assert forall|i: int| 0 <= i < enc.len() implies 1 <= #[trigger] enc[i] <= base - 2 by {}
        }
        let w = window;
        let gap = pow(base as int, (k - w.len()) as nat);
        let code = code_of(w, base) as int;
        crate::count_array::lemma_code_of_bound(w, base);
        assert forall|i: int| 0 <= i < w.len() implies (#[trigger] w[i] as nat) < base by {}
        lemma_pow_step(base, 0);
        vstd::arithmetic::power::lemma_pow_adds(base as int, w.len(), (k - w.len()) as nat);
        vstd::arithmetic::power::lemma_pow_positive(base as int, (k - w.len()) as nat);
        let span = pow(base as int, w.len());
        assert(code * gap + gap <= span * gap) by (nonlinear_arith)
            requires
                code + 1 <= span,
                gap >= 0,
        ;
        // The pattern is not empty, so its number is not zero.
        lemma_code_of_front(w, base);
        vstd::arithmetic::power::lemma_pow_positive(base as int, (w.len() - 1) as nat);
        assert(code >= 1) by (nonlinear_arith)
            requires
                code == w[0] * pow(base as int, (w.len() - 1) as nat) + code_of(
                    w.drop_first(),
                    base,
                ),
                w[0] >= 1,
                pow(base as int, (w.len() - 1) as nat) >= 1,
                code_of(w.drop_first(), base) >= 0,
        ;
        let t = code * gap;
        assert(t >= 1) by (nonlinear_arith)
            requires
                t == code * gap,
                code >= 1,
                gap >= 1,
        ;
        self.lemma_table_entry(enc, t - 1);
        self.lemma_table_entry(enc, t + gap - 1);
        assert forall|j: int| 0 <= j < n implies (kmer_code(enc, j, k, base) <= t - 1) == p_less(
            w,
        )(suffix(enc, j)) by {
            lemma_code_order_wide(enc, j, w, k, base);
        }
        lemma_count_pos_ext(
            |j: int| kmer_code(enc, j, k, base) <= t - 1,
            |j: int| p_less(w)(suffix(enc, j)),
            n,
        );
        assert forall|j: int| 0 <= j < n implies (kmer_code(enc, j, k, base) <= t + gap - 1)
            == p_upto(w)(suffix(enc, j)) by {
            lemma_code_order_wide(enc, j, w, k, base);
        }
        lemma_count_pos_ext(
            |j: int| kmer_code(enc, j, k, base) <= t + gap - 1,
            |j: int| p_upto(w)(suffix(enc, j)),
            n,
        );
        let first = spec_initial_range(table, base, k, syms);
        assert(table[t - 1] == lo_of(enc, w));
        assert(table[t + gap - 1] == hi_of(enc, w));
        if m >= k {
            assert(gap == 1);
            assert(t == code) by (nonlinear_arith)
                requires
                    t == code * gap,
                    gap == 1,
            ;
            assert(table_before(table, code) == table[code - 1]);
            assert(syms.subrange(m - k, m as int) == part);
            assert(first.1 == cursor);
            assert(first.0.0 == table_before(table, code));
            assert(first.0.1 == table[code]);
        } else {
            assert(table_before(table, t) == table[t - 1]);
            assert(digits_of(syms) =~= w);
            assert(first.1 == cursor);
            assert(first.0.0 == table_before(table, t));
            assert(first.0.1 == table[t + gap - 1]);
        }
    }
}

} // verus!
