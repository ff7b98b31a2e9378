//! K-mers of the encoded text as numbers, and how many of them are below a bound.
//!
//! The encoded text holds symbol-plus-one values, so that zero is free to
//! stand for the sentinel behind the end of the text. A k-mer is read as a
//! number in base `symbol count + 2`, its first symbol in the most significant
//! digit. This order of numbers is the order of the suffixes by their first
//! `k` symbols.

use vstd::prelude::*;
use vstd::arithmetic::power::{pow, lemma_pow_positive};

verus! {

/// The digit that position `i` gives: the symbol-plus-one value of the
/// encoded text there, and zero behind the end of the text.
pub open spec fn digit_at(enc: Seq<u8>, i: int) -> nat {
    if 0 <= i < enc.len() {
        enc[i] as nat
    } else {
        0
    }
}

/// The number that the digits spell in base `base`, the first digit being the
/// most significant one.
pub open spec fn code_of(digits: Seq<u8>, base: nat) -> nat
    decreases digits.len(),
{
    if digits.len() == 0 {
        0
    } else {
        code_of(digits.drop_last(), base) * base + digits.last() as nat
    }
}

/// The `k`-mer that starts at position `i` of the encoded text, as a number
/// in base `base`.
pub open spec fn kmer_code(enc: Seq<u8>, i: int, k: nat, base: nat) -> nat
    decreases k,
{
    if k == 0 {
        0
    } else {
        kmer_code(enc, i, (k - 1) as nat, base) * base + digit_at(enc, i + k - 1)
    }
}

/// The number of positions from `from` on whose `k`-mer is at most `bound`.
pub open spec fn kmer_count_le(enc: Seq<u8>, k: nat, base: nat, bound: int, from: nat) -> nat
    decreases enc.len() - from,
{
    if from >= enc.len() {
        0
    } else {
        (if kmer_code(enc, from as int, k, base) <= bound {
            1nat
        } else {
            0nat
        }) + kmer_count_le(enc, k, base, bound, from + 1)
    }
}

/// The number of positions from `from` on whose `k`-mer is `code`.
pub open spec fn kmer_count_eq(enc: Seq<u8>, k: nat, base: nat, code: int, from: nat) -> nat
    decreases enc.len() - from,
{
    if from >= enc.len() {
        0
    } else {
        (if kmer_code(enc, from as int, k, base) == code {
            1nat
        } else {
            0nat
        }) + kmer_count_eq(enc, k, base, code, from + 1)
    }
}

/// Whether every value of the encoded text is a symbol-plus-one value of one
/// of `symbol_count` symbols.
pub open spec fn is_encoded(enc: Seq<u8>, symbol_count: nat) -> bool {
    forall|i: int| 0 <= i < enc.len() ==> 1 <= #[trigger] enc[i] <= symbol_count
}

pub proof fn lemma_pow_step(base: nat, e: nat)
    ensures
        pow(base as int, e + 1) == pow(base as int, e) * base,
        pow(base as int, 0) == 1,
        base >= 1 ==> pow(base as int, e) >= 1,
{
    reveal(pow);
    assert(pow(base as int, e + 1) == base * pow(base as int, e));
    assert(base * pow(base as int, e) == pow(base as int, e) * base) by (nonlinear_arith);
    if base >= 1 {
        lemma_pow_positive(base as int, e);
    }
}

/// A k-mer of digits below `base` is below `base^k`.
pub proof fn lemma_kmer_code_bound(enc: Seq<u8>, i: int, k: nat, base: nat)
    requires
        forall|j: int| 0 <= j < enc.len() ==> (#[trigger] enc[j] as nat) < base,
        base >= 1,
    ensures
        kmer_code(enc, i, k, base) < pow(base as int, k),
    decreases k,
{
    lemma_pow_step(base, 0);
    if k > 0 {
        let u = (k - 1) as nat;
        lemma_kmer_code_bound(enc, i, u, base);
        lemma_pow_step(base, u);
        let c = kmer_code(enc, i, u, base);
        let d = digit_at(enc, i + k - 1);
        let p = pow(base as int, u);
        assert(c * base + d < p * base) by (nonlinear_arith)
            requires
                c < p,
                d < base,
                0 <= c,
                0 <= d,
        ;
    }
}

/// The k-mer at `i` is the digit at `i` in the most significant place, then
/// the `k - 1`-mer at `i + 1`.
pub proof fn lemma_kmer_code_front(enc: Seq<u8>, i: int, k: nat, base: nat)
    requires
        k >= 1,
    ensures
        kmer_code(enc, i, k, base) == digit_at(enc, i) * pow(base as int, (k - 1) as nat)
            + kmer_code(enc, i + 1, (k - 1) as nat, base),
    decreases k,
{
    lemma_pow_step(base, 0);
    if k == 1 {
        assert(kmer_code(enc, i, 0, base) == 0);
        assert(kmer_code(enc, i, 1, base) == kmer_code(enc, i, 0, base) * base + digit_at(enc, i));
        assert(kmer_code(enc, i + 1, 0, base) == 0);
    } else {
        let u = (k - 1) as nat;
        lemma_kmer_code_front(enc, i, u, base);
        lemma_pow_step(base, (u - 1) as nat);
        let d = digit_at(enc, i);
        let p = pow(base as int, (u - 1) as nat);
        let rest = kmer_code(enc, i + 1, (u - 1) as nat, base);
        let last = digit_at(enc, i + k - 1);
        assert(kmer_code(enc, i, k, base) == (d * p + rest) * base + last);
        assert(kmer_code(enc, i + 1, u, base) == rest * base + last);
        assert((d * p + rest) * base + last == d * (p * base) + (rest * base + last))
            by (nonlinear_arith);
    }
}

/// The rolling step of the counting pass: the k-mer at `i` from that at `i + 1`.
pub proof fn lemma_kmer_code_roll(enc: Seq<u8>, i: int, k: nat, base: nat)
    requires
        k >= 1,
        base >= 1,
        forall|j: int| 0 <= j < enc.len() ==> (#[trigger] enc[j] as nat) < base,
    ensures
        kmer_code(enc, i, k, base) == kmer_code(enc, i + 1, k, base) / base + digit_at(enc, i)
            * pow(base as int, (k - 1) as nat),
{
    lemma_kmer_code_front(enc, i, k, base);
    let rest = kmer_code(enc, i + 1, (k - 1) as nat, base);
    let last = digit_at(enc, i + k);
    assert(kmer_code(enc, i + 1, k, base) == rest * base + last);
    assert((rest * base + last) / base == rest) by {
        vstd::arithmetic::div_mod::lemma_fundamental_div_mod_converse(
            (rest * base + last) as int,
            base as int,
            rest as int,
            last as int,
        );
        assert(base * rest == rest * base) by (nonlinear_arith);
    }
}

pub proof fn lemma_kmer_count_bound(enc: Seq<u8>, k: nat, base: nat, bound: int, from: nat)
    ensures
        kmer_count_le(enc, k, base, bound, from) + from <= enc.len() || from > enc.len(),
        kmer_count_eq(enc, k, base, bound, from) <= kmer_count_le(enc, k, base, bound, from),
    decreases enc.len() - from,
{
    if from < enc.len() {
        lemma_kmer_count_bound(enc, k, base, bound, from + 1);
    }
}

/// Those at most `bound` are those below `bound` and those that are `bound`.
pub proof fn lemma_kmer_count_step(enc: Seq<u8>, k: nat, base: nat, bound: int, from: nat)
    ensures
        kmer_count_le(enc, k, base, bound, from) == kmer_count_le(enc, k, base, bound - 1, from)
            + kmer_count_eq(enc, k, base, bound, from),
    decreases enc.len() - from,
{
    if from < enc.len() {
        lemma_kmer_count_step(enc, k, base, bound, from + 1);
    }
}

pub proof fn lemma_kmer_count_none(enc: Seq<u8>, k: nat, base: nat, from: nat)
    ensures
        kmer_count_le(enc, k, base, -1, from) == 0,
    decreases enc.len() - from,
{
    if from < enc.len() {
        lemma_kmer_count_none(enc, k, base, from + 1);
    }
}

/// Every k-mer is at most a bound that none exceeds.
pub proof fn lemma_kmer_count_all(enc: Seq<u8>, k: nat, base: nat, bound: int, from: nat)
    requires
        forall|j: int| 0 <= j < enc.len() ==> (#[trigger] enc[j] as nat) < base,
        base >= 1,
        bound >= pow(base as int, k) - 1,
        from <= enc.len(),
    ensures
        kmer_count_le(enc, k, base, bound, from) == enc.len() - from,
    decreases enc.len() - from,
{
    if from < enc.len() {
        lemma_kmer_code_bound(enc, from as int, k, base);
        lemma_kmer_count_all(enc, k, base, bound, from + 1);
    }
}

pub proof fn lemma_kmer_count_monotone(enc: Seq<u8>, k: nat, base: nat, a: int, b: int, from: nat)
    requires
        a <= b,
    ensures
        kmer_count_le(enc, k, base, a, from) <= kmer_count_le(enc, k, base, b, from),
    decreases enc.len() - from,
{
    if from < enc.len() {
        lemma_kmer_count_monotone(enc, k, base, a, b, from + 1);
    }
}

} // verus!
