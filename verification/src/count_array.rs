//! The count array and the k-mer lookup table.
//!
//! The count array tells for each symbol how many symbols of the text are
//! smaller; the k-mer table tells for each k-mer how many suffixes of the text
//! start with a k-mer that is not greater. Both are filled during one pass
//! over the text, which also rewrites the text into symbol-plus-one values.

use std::marker::PhantomData;
use vstd::prelude::*;
use vstd::arithmetic::power::pow;
use vstd::std_specs::iter::IteratorSpec;
use crate::aligned::{align_up, lemma_align_up, Aligned};
use crate::endian::{
    fill_zero, le_bytes, le_value, lemma_le_bytes_len, lemma_le_value_of_bytes, lemma_overlay_nested,
    lemma_pow256_values, overlay, pow256, read_u32, read_u64, write_u32, write_u64, zeros,
};
use crate::entries::{as_nats, entries, entry_at, entry_bytes, read_entry, write_entries};
use crate::header::Header;
use crate::kmer::{
    code_of, is_encoded, kmer_code, kmer_count_eq, kmer_count_le, lemma_kmer_code_bound,
    lemma_kmer_code_roll, lemma_kmer_count_bound, lemma_kmer_count_none, lemma_kmer_count_step,
    lemma_pow_step,
};
use crate::position::Position;
use crate::text_encoder::TextEncoder;
use crate::text_encoders::pass_through::PassThrough;

verus! {

/// The header of the count array: the number of symbols, the k-mer size of
/// the lookup table, and the lengths of the three arrays of the body.
#[derive(Debug, Clone, Copy, PartialEq, Eq)]
pub struct CountArrayHeader {
    pub symbol_count: u32,
    pub lookup_table_kmer_size: u32,
    pub count_array_len: u32,
    pub kmer_multiplier_len: u32,
    pub kmer_count_table_len: u64,
}

/// `base` to the power `e`, where it fits in 64 bits.
pub fn checked_pow(base: u64, e: u32) -> (power: Option<u64>)
    requires
        base >= 2,
    ensures
        power matches Some(p) ==> p as int == pow(base as int, e as nat),
        power is None ==> pow(base as int, e as nat) > u64::MAX,
{
    let mut p: u64 = 1;
    let mut i: u32 = 0;
    proof {
        lemma_pow_step(base as nat, 0);
    }
    while i < e
        invariant
            i <= e,
            base >= 2,
            p as int == pow(base as int, i as nat),
        decreases e - i,
    {
        proof {
            lemma_pow_step(base as nat, i as nat);
        }
        match p.checked_mul(base) {
            Some(next) => {
                p = next;
            },
            None => {
                proof {
                    vstd::arithmetic::power::lemma_pow_increases(
                        base as nat,
                        (i + 1) as nat,
                        e as nat,
                    );
                }
                return None;
            },
        }
        i += 1;
    }
    Some(p)
}

impl CountArrayHeader {
    /// The base of the k-mer numbers: one digit for each symbol, one for the
    /// sentinel and one spare.
    pub open spec fn base(&self) -> nat {
        self.symbol_count as nat + 2
    }

    /// Whether the lengths of the header are those that the number of symbols
    /// and the k-mer size call for.
    pub open spec fn valid(&self) -> bool {
        &&& self.lookup_table_kmer_size >= 1
        &&& self.count_array_len == self.symbol_count + 2
        &&& self.kmer_multiplier_len == self.lookup_table_kmer_size
        &&& self.kmer_count_table_len as int == pow(
            self.base() as int,
            self.lookup_table_kmer_size as nat,
        )
    }

    pub fn is_valid(&self) -> (valid: bool)
        ensures
            valid == self.valid(),
    {
        if self.lookup_table_kmer_size < 1 || self.symbol_count > u32::MAX - 2 {
            return false;
        }
        if self.count_array_len != self.symbol_count + 2 || self.kmer_multiplier_len
            != self.lookup_table_kmer_size {
            return false;
        }
        match checked_pow(self.symbol_count as u64 + 2, self.lookup_table_kmer_size) {
            Some(len) => len == self.kmer_count_table_len,
            None => false,
        }
    }

    /// The size of the body in bytes: the count array, the k-mer multipliers
    /// and the k-mer table, each with its padding.
    pub open spec fn spec_body_size<P: Position, A: Aligned>(&self) -> nat {
        self.spec_count_array_size::<P, A>() + self.spec_kmer_multiplier_size::<A>()
            + self.spec_kmer_count_table_size::<P, A>()
    }

    pub open spec fn spec_count_array_size<P: Position, A: Aligned>(&self) -> nat {
        align_up(self.count_array_len as nat * P::spec_size(), A::ALIGN_SIZE as nat)
    }

    pub open spec fn spec_kmer_multiplier_size<A: Aligned>(&self) -> nat {
        align_up(self.kmer_multiplier_len as nat * 8, A::ALIGN_SIZE as nat)
    }

    pub open spec fn spec_kmer_count_table_size<P: Position, A: Aligned>(&self) -> nat {
        align_up(self.kmer_count_table_len as nat * P::spec_size(), A::ALIGN_SIZE as nat)
    }

    /// The size of the body in bytes, in a width that holds it for every header.
    pub fn wide_body_size<P: Position, A: Aligned>(&self) -> (size: u128)
        ensures
            size == self.spec_body_size::<P, A>(),
            size <= 0x400_0000_0000_0000_0000,
    {
        proof {
            P::lemma_position();
        }
        let a: u128 = wide_aligned_size::<A>(self.count_array_len as u64, P::size() as u64);
        let b: u128 = wide_aligned_size::<A>(self.kmer_multiplier_len as u64, 8);
        let c: u128 = wide_aligned_size::<A>(self.kmer_count_table_len, P::size() as u64);
        a + b + c
    }

    fn count_array_raw_size<P: Position>(&self) -> (size: usize)
        requires
            self.count_array_len * P::spec_size() <= usize::MAX,
        ensures
            size == self.count_array_len * P::spec_size(),
    {
        proof {
            P::lemma_position();
        }
        let width: usize = P::size();
        assert(self.count_array_len * width <= usize::MAX);
        self.count_array_len as usize * width
    }

    fn count_array_aligned_size<P: Position, A: Aligned>(&self) -> (size: usize)
        requires
            self.spec_count_array_size::<P, A>() <= usize::MAX,
        ensures
            size == self.spec_count_array_size::<P, A>(),
    {
        proof {
            A::lemma_align_size();
            lemma_align_up(self.count_array_len as nat * P::spec_size(), A::ALIGN_SIZE as nat);
        }
        let raw: usize = self.count_array_raw_size::<P>();
        narrow_aligned_size::<A>(raw)
    }

    fn kmer_multiplier_raw_size(&self) -> (size: usize)
        requires
            self.kmer_multiplier_len * 8 <= usize::MAX,
        ensures
            size == self.kmer_multiplier_len * 8,
    {
        self.kmer_multiplier_len as usize * 8
    }

    fn kmer_multiplier_aligned_size<A: Aligned>(&self) -> (size: usize)
        requires
            self.spec_kmer_multiplier_size::<A>() <= usize::MAX,
        ensures
            size == self.spec_kmer_multiplier_size::<A>(),
    {
        proof {
            A::lemma_align_size();
            lemma_align_up(self.kmer_multiplier_len as nat * 8, A::ALIGN_SIZE as nat);
        }
        let raw: usize = self.kmer_multiplier_raw_size();
        narrow_aligned_size::<A>(raw)
    }

    fn kmer_count_table_raw_size<P: Position>(&self) -> (size: usize)
        requires
            self.kmer_count_table_len * P::spec_size() <= usize::MAX,
        ensures
            size == self.kmer_count_table_len * P::spec_size(),
    {
        proof {
            P::lemma_position();
        }
        let width: usize = P::size();
        assert(self.kmer_count_table_len * width <= usize::MAX);
        self.kmer_count_table_len as usize * width
    }

    /// The header for `symbol_count` symbols and a lookup table of k-mers of
    /// size `lookup_table_kmer_size`.
    pub fn new(symbol_count: u32, lookup_table_kmer_size: u32) -> (header: Self)
        requires
            lookup_table_kmer_size >= 1,
            symbol_count <= u32::MAX - 2,
            pow(symbol_count as int + 2, lookup_table_kmer_size as nat) <= u64::MAX,
        ensures
            header.valid(),
            header.symbol_count == symbol_count,
            header.lookup_table_kmer_size == lookup_table_kmer_size,
    {
        proof {
            lemma_pow_step((symbol_count + 2) as nat, 0);
            vstd::arithmetic::power::lemma_pow_increases(
                (symbol_count + 2) as nat,
                1,
                lookup_table_kmer_size as nat,
            );
            vstd::arithmetic::power::lemma_pow1(symbol_count as int + 2);
        }
        let total_symbol_count_in_bwt: u32 = symbol_count + 2;
        let kmer_count_table_len: u64 = match checked_pow(
            total_symbol_count_in_bwt as u64,
            lookup_table_kmer_size,
        ) {
            Some(len) => len,
            None => 0,
        };
        CountArrayHeader {
            symbol_count,
            lookup_table_kmer_size,
            count_array_len: total_symbol_count_in_bwt,
            kmer_multiplier_len: lookup_table_kmer_size,
            kmer_count_table_len,
        }
    }
}

/// The aligned size of an array of `len` entries of `width` bytes, in a wide integer.
pub fn wide_aligned_size<A: Aligned>(len: u64, width: u64) -> (size: u128)
    requires
        width <= 128,
    ensures
        size == align_up(len as nat * width as nat, A::ALIGN_SIZE as nat),
        size <= 0x100_0000_0000_0000_0000,
{
    proof {
        A::lemma_align_size();
        assert(len * width <= 0xffff_ffff_ffff_ffff * 128) by (nonlinear_arith)
            requires
                len <= 0xffff_ffff_ffff_ffff,
                width <= 128,
        ;
    }
    let raw: u128 = len as u128 * width as u128;
    let align: u128 = A::ALIGN_SIZE as u128;
    let rem: u128 = raw % align;
    if rem == 0 {
        raw
    } else {
        raw + (align - rem)
    }
}

/// The aligned size of a section of `raw` bytes.
pub fn narrow_aligned_size<A: Aligned>(raw: usize) -> (size: usize)
    requires
        align_up(raw as nat, A::ALIGN_SIZE as nat) <= usize::MAX,
    ensures
        size == align_up(raw as nat, A::ALIGN_SIZE as nat),
{
    proof {
        A::lemma_align_size();
    }
    let rem: usize = raw % A::ALIGN_SIZE;
    if rem == 0 {
        raw
    } else {
        raw + (A::ALIGN_SIZE - rem)
    }
}

impl Header for CountArrayHeader {
    open spec fn spec_raw_size() -> nat {
        24
    }

    open spec fn spec_bytes(&self) -> Seq<u8> {
        le_bytes(self.symbol_count as nat, 4) + le_bytes(self.lookup_table_kmer_size as nat, 4)
            + le_bytes(self.count_array_len as nat, 4) + le_bytes(
            self.kmer_multiplier_len as nat,
            4,
        ) + le_bytes(self.kmer_count_table_len as nat, 8)
    }

    open spec fn spec_parse(bytes: Seq<u8>) -> Self {
        CountArrayHeader {
            symbol_count: le_value(bytes.subrange(0, 4)) as u32,
            lookup_table_kmer_size: le_value(bytes.subrange(4, 8)) as u32,
            count_array_len: le_value(bytes.subrange(8, 12)) as u32,
            kmer_multiplier_len: le_value(bytes.subrange(12, 16)) as u32,
            kmer_count_table_len: le_value(bytes.subrange(16, 24)) as u64,
        }
    }

    proof fn lemma_header(&self) {
        lemma_pow256_values();
        let a = le_bytes(self.symbol_count as nat, 4);
        let b = le_bytes(self.lookup_table_kmer_size as nat, 4);
        let c = le_bytes(self.count_array_len as nat, 4);
        let d = le_bytes(self.kmer_multiplier_len as nat, 4);
        let e = le_bytes(self.kmer_count_table_len as nat, 8);
        lemma_le_bytes_len(self.symbol_count as nat, 4);
        lemma_le_bytes_len(self.lookup_table_kmer_size as nat, 4);
        lemma_le_bytes_len(self.count_array_len as nat, 4);
        lemma_le_bytes_len(self.kmer_multiplier_len as nat, 4);
        lemma_le_bytes_len(self.kmer_count_table_len as nat, 8);
        lemma_le_value_of_bytes(self.symbol_count as nat, 4);
        lemma_le_value_of_bytes(self.lookup_table_kmer_size as nat, 4);
        lemma_le_value_of_bytes(self.count_array_len as nat, 4);
        lemma_le_value_of_bytes(self.kmer_multiplier_len as nat, 4);
        lemma_le_value_of_bytes(self.kmer_count_table_len as nat, 8);
        let all = self.spec_bytes();
        assert(all.subrange(0, 4) =~= a);
        assert(all.subrange(4, 8) =~= b);
        assert(all.subrange(8, 12) =~= c);
        assert(all.subrange(12, 16) =~= d);
        assert(all.subrange(16, 24) =~= e);
        let parsed = Self::spec_parse(all);
        assert(parsed.symbol_count == self.symbol_count);
        assert(parsed.lookup_table_kmer_size == self.lookup_table_kmer_size);
        assert(parsed.count_array_len == self.count_array_len);
        assert(parsed.kmer_multiplier_len == self.kmer_multiplier_len);
        assert(parsed.kmer_count_table_len == self.kmer_count_table_len);
    }

    fn raw_size() -> (size: usize) {
        24
    }

    fn write_to_blob(&self, blob: &mut [u8], off: usize) {
        proof {
            lemma_le_bytes_len(self.symbol_count as nat, 4);
            lemma_le_bytes_len(self.lookup_table_kmer_size as nat, 4);
            lemma_le_bytes_len(self.count_array_len as nat, 4);
            lemma_le_bytes_len(self.kmer_multiplier_len as nat, 4);
            lemma_le_bytes_len(self.kmer_count_table_len as nat, 8);
        }
        let total: usize = blob.len();
        write_u32(blob, off, self.symbol_count);
        write_u32(blob, off + 4, self.lookup_table_kmer_size);
        write_u32(blob, off + 8, self.count_array_len);
        write_u32(blob, off + 12, self.kmer_multiplier_len);
        write_u64(blob, off + 16, self.kmer_count_table_len);
        assert(blob@ =~= overlay(old(blob)@, off as int, self.spec_bytes()));
    }

    fn read_from_blob(blob: &[u8], off: usize) -> (header: Self) {
        let total: usize = blob.len();
        let header = CountArrayHeader {
            symbol_count: read_u32(blob, off),
            lookup_table_kmer_size: read_u32(blob, off + 4),
            count_array_len: read_u32(blob, off + 8),
            kmer_multiplier_len: read_u32(blob, off + 12),
            kmer_count_table_len: read_u64(blob, off + 16),
        };
        proof {
            let bytes = blob@.subrange(off as int, off + 24);
            assert(bytes.subrange(0, 4) =~= blob@.subrange(off as int, off + 4));
            assert(bytes.subrange(4, 8) =~= blob@.subrange(off + 4, off + 8));
            assert(bytes.subrange(8, 12) =~= blob@.subrange(off + 8, off + 12));
            assert(bytes.subrange(12, 16) =~= blob@.subrange(off + 12, off + 16));
            assert(bytes.subrange(16, 24) =~= blob@.subrange(off + 16, off + 24));
        }
        header
    }
}

/// The encoded text: the symbol-plus-one value of every byte of the text.
pub open spec fn encode_text<E: TextEncoder>(text: Seq<u8>, encoder: &E) -> Seq<u8> {
    Seq::new(text.len(), |i: int| (encoder.spec_idx_of(text[i]) + 1) as u8)
}

/// Whether the encoder gives every byte of the text one of `symbol_count` symbol indices.
pub open spec fn encodes_text<E: TextEncoder>(text: Seq<u8>, encoder: &E, symbol_count: nat) -> bool {
    forall|i: int| 0 <= i < text.len() ==> (encoder.spec_idx_of(#[trigger] text[i]) as nat) < symbol_count
}

/// The count array of an encoded text: entry `j` is the number of symbols of
/// the text whose symbol-plus-one value is at most `j`.
pub open spec fn spec_counts(enc: Seq<u8>, symbol_count: nat) -> Seq<nat> {
    Seq::new(symbol_count + 2, |j: int| kmer_count_le(enc, 1, symbol_count + 2, j, 0))
}

/// The k-mer table of an encoded text: entry `j` is the number of positions
/// of the text whose k-mer is at most `j`.
pub open spec fn spec_kmer_table(enc: Seq<u8>, symbol_count: nat, k: nat) -> Seq<nat> {
    Seq::new(
        pow(symbol_count as int + 2, k) as nat,
        |j: int| kmer_count_le(enc, k, symbol_count + 2, j, 0),
    )
}

/// The weights of the digits of a k-mer: the first digit weighs `base^(k-1)`, the last one 1.
pub open spec fn spec_multipliers(base: nat, k: nat) -> Seq<nat> {
    Seq::new(k, |i: int| pow(base as int, (k - 1 - i) as nat) as nat)
}

/// The sum of the first `upto` elements.
pub open spec fn prefix_sum(s: Seq<u64>, upto: nat) -> nat
    decreases upto,
{
    if upto == 0 {
        0
    } else {
        prefix_sum(s, (upto - 1) as nat) + s[upto - 1] as nat
    }
}

pub proof fn lemma_prefix_sum_monotone(s: Seq<u64>, a: nat, b: nat)
    requires
        a <= b,
    ensures
        prefix_sum(s, a) <= prefix_sum(s, b),
    decreases b,
{
    if a < b {
        lemma_prefix_sum_monotone(s, a, (b - 1) as nat);
    }
}

/// Replaces every element by the sum of the elements up to it.
pub fn accumulate_count_array(count_array: &mut Vec<u64>)
    requires
        prefix_sum(old(count_array)@, old(count_array)@.len()) <= u64::MAX,
    ensures
        final(count_array)@.len() == old(count_array)@.len(),
        forall|j: int|
            0 <= j < old(count_array)@.len() ==> #[trigger] final(count_array)@[j] as nat
                == prefix_sum(old(count_array)@, (j + 1) as nat),
{
    let n: usize = count_array.len();
    let mut accumulated_count: u64 = 0;
    let mut j: usize = 0;
    while j < n
        invariant
            j <= n == count_array@.len() == old(count_array)@.len(),
            accumulated_count as nat == prefix_sum(old(count_array)@, j as nat),
            prefix_sum(old(count_array)@, n as nat) <= u64::MAX,
            forall|x: int| j <= x < n ==> #[trigger] count_array@[x] == old(count_array)@[x],
            forall|x: int|
                0 <= x < j ==> #[trigger] count_array@[x] as nat == prefix_sum(
                    old(count_array)@,
                    (x + 1) as nat,
                ),
        decreases n - j,
    {
        proof {
            lemma_prefix_sum_monotone(old(count_array)@, (j + 1) as nat, n as nat);
        }
        accumulated_count = accumulated_count + count_array[j];
        count_array.set(j, accumulated_count);
        j += 1;
    }
}

/// The sums of the numbers of k-mers that are `x`, for `x` up to `j`, are the
/// numbers of k-mers that are at most `j`.
proof fn lemma_prefix_sum_counts(hist: Seq<u64>, enc: Seq<u8>, k: nat, base: nat, upto: nat)
    requires
        upto <= hist.len(),
        forall|x: int| 0 <= x < hist.len() ==> #[trigger] hist[x] as nat == kmer_count_eq(enc, k, base, x, 0),
    ensures
        prefix_sum(hist, upto) == kmer_count_le(enc, k, base, upto - 1, 0),
    decreases upto,
{
    if upto == 0 {
        lemma_kmer_count_none(enc, k, base, 0);
    } else {
        lemma_prefix_sum_counts(hist, enc, k, base, (upto - 1) as nat);
        lemma_kmer_count_step(enc, k, base, upto - 1, 0);
    }
}

/// A k-mer that starts behind the end of the text is zero.
proof fn lemma_kmer_code_end(enc: Seq<u8>, i: int, k: nat, base: nat)
    requires
        i >= enc.len(),
    ensures
        kmer_code(enc, i, k, base) == 0,
    decreases k,
{
    if k > 0 {
        lemma_kmer_code_end(enc, i, (k - 1) as nat, base);
        assert(kmer_code(enc, i, (k - 1) as nat, base) * base == 0) by (nonlinear_arith)
            requires
                kmer_code(enc, i, (k - 1) as nat, base) == 0,
        ;
    }
}

/// A 1-mer is the digit at its position.
proof fn lemma_kmer_code_one(enc: Seq<u8>, i: int, base: nat)
    ensures
        kmer_code(enc, i, 1, base) == crate::kmer::digit_at(enc, i),
{
    assert(kmer_code(enc, i, 0, base) == 0);
    assert(kmer_code(enc, i, 1, base) == kmer_code(enc, i, 0, base) * base + crate::kmer::digit_at(
        enc,
        i,
    ));
    assert(kmer_code(enc, i, 0, base) * base == 0) by (nonlinear_arith)
        requires
            kmer_code(enc, i, 0, base) == 0,
    ;
}

/// A vector of `len` zeros.
pub fn zero_counts(len: usize) -> (counts: Vec<u64>)
    ensures
        counts@.len() == len,
        forall|i: int| 0 <= i < len ==> #[trigger] counts@[i] == 0,
{
    let mut counts: Vec<u64> = Vec::new();
    let mut i: usize = 0;
    while i < len
        invariant
            i <= len,
            counts@.len() == i,
            forall|j: int| 0 <= j < i ==> #[trigger] counts@[j] == 0,
        decreases len - i,
    {
        counts.push(0);
        i += 1;
    }
    counts
}

/// The weights of the digits of a k-mer of `k` digits in base `base`.
pub fn kmer_multipliers(base: u64, k: u32) -> (multipliers: Vec<u64>)
    requires
        base >= 2,
        k >= 1,
        pow(base as int, k as nat) <= u64::MAX,
    ensures
        as_nats(multipliers@) == spec_multipliers(base as nat, k as nat),
{
    let mut multipliers: Vec<u64> = Vec::new();
    let mut i: u32 = 0;
    while i < k
        invariant
            i <= k,
            base >= 2,
            pow(base as int, k as nat) <= u64::MAX,
            multipliers@.len() == i,
            forall|j: int|
                0 <= j < i ==> #[trigger] multipliers@[j] as int == pow(
                    base as int,
                    (k - 1 - j) as nat,
                ),
        decreases k - i,
    {
        proof {
            vstd::arithmetic::power::lemma_pow_increases(
                base as nat,
                (k - 1 - i) as nat,
                k as nat,
            );
        }
        let weight: u64 = match checked_pow(base, k - 1 - i) {
            Some(w) => w,
            None => 0,
        };
        multipliers.push(weight);
        i += 1;
    }
    proof {
        assert forall|j: int| 0 <= j < k implies as_nats(multipliers@)[j] == spec_multipliers(
            base as nat,
            k as nat,
        )[j] by {
            lemma_pow_step(base as nat, (k - 1 - j) as nat);
        }
        assert(as_nats(multipliers@) =~= spec_multipliers(base as nat, k as nat));
    }
    multipliers
}

impl CountArrayHeader {
    /// The body of the count array for an encoded text: the count array, the
    /// k-mer multipliers and the k-mer table, each followed by zero bytes up
    /// to the alignment.
    pub open spec fn spec_body<P: Position, A: Aligned>(&self, enc: Seq<u8>) -> Seq<u8> {
        overlay(
            overlay(
                overlay(
                    zeros(self.spec_body_size::<P, A>()),
                    0,
                    entry_bytes(spec_counts(enc, self.symbol_count as nat), P::spec_size()),
                ),
                self.spec_count_array_size::<P, A>() as int,
                entry_bytes(
                    spec_multipliers(self.base(), self.lookup_table_kmer_size as nat),
                    8,
                ),
            ),
            (self.spec_count_array_size::<P, A>() + self.spec_kmer_multiplier_size::<A>()) as int,
            entry_bytes(
                spec_kmer_table(
                    enc,
                    self.symbol_count as nat,
                    self.lookup_table_kmer_size as nat,
                ),
                P::spec_size(),
            ),
        )
    }

    /// Counts the symbols and the k-mers of the text and rewrites the text
    /// into symbol-plus-one values; returns the count array and the k-mer table.
    pub fn count_text<E: TextEncoder>(&self, text: &mut Vec<u8>, text_encoder: &E) -> (tables: (
        Vec<u64>,
        Vec<u64>,
    ))
        requires
            self.valid(),
            self.symbol_count <= 128,
            self.kmer_count_table_len <= usize::MAX,
            encodes_text(old(text)@, text_encoder, self.symbol_count as nat),
        ensures
            final(text)@ == encode_text(old(text)@, text_encoder),
            is_encoded(final(text)@, self.symbol_count as nat),
            as_nats(tables.0@) == spec_counts(final(text)@, self.symbol_count as nat),
            as_nats(tables.1@) == spec_kmer_table(
                final(text)@,
                self.symbol_count as nat,
                self.lookup_table_kmer_size as nat,
            ),
            forall|j: int| 0 <= j < tables.0@.len() ==> #[trigger] tables.0@[j] <= old(text)@.len(),
            forall|j: int| 0 <= j < tables.1@.len() ==> #[trigger] tables.1@[j] <= old(text)@.len(),
    {
        let n: usize = text.len();
        let k: u32 = self.lookup_table_kmer_size;
        let base: u64 = self.symbol_count as u64 + 2;
        let ghost orig = text@;
        let ghost enc = encode_text(orig, text_encoder);
        let ghost sigma = self.symbol_count as nat;
        proof {
            lemma_pow_step(base as nat, (k - 1) as nat);
            assert(pow(base as int, (k - 1) as nat) <= pow(base as int, k as nat)) by {
                vstd::arithmetic::power::lemma_pow_increases(base as nat, (k - 1) as nat, k as nat);
            }
            assert forall|j: int| 0 <= j < enc.len() implies 1 <= #[trigger] enc[j] <= sigma by {
                assert((text_encoder.spec_idx_of(orig[j]) as nat) < sigma);
            }
        }
        let top: u64 = match checked_pow(base, k - 1) {
            Some(p) => p,
            None => 0,
        };
        let mut count_array: Vec<u64> = zero_counts(self.count_array_len as usize);
        let mut kmer_count_array: Vec<u64> = zero_counts(self.kmer_count_table_len as usize);
        let mut table_index: u64 = 0;
        let mut i: usize = n;
        proof {
            lemma_kmer_code_end(enc, n as int, k as nat, base as nat);
        }
        while i > 0
            invariant
                i <= n == text@.len() == orig.len() == enc.len(),
                self.valid(),
                k == self.lookup_table_kmer_size,
                base == self.symbol_count + 2,
                sigma == self.symbol_count <= 128,
                enc == encode_text(orig, text_encoder),
                encodes_text(orig, text_encoder, sigma),
                self.kmer_count_table_len <= usize::MAX,
                top as int == pow(base as int, (k - 1) as nat),
                pow(base as int, k as nat) == top * base,
                forall|j: int| 0 <= j < enc.len() ==> 1 <= #[trigger] enc[j] <= sigma,
                forall|j: int| i <= j < n ==> #[trigger] text@[j] == enc[j],
                forall|j: int| 0 <= j < i ==> #[trigger] text@[j] == orig[j],
                table_index as nat == kmer_code(enc, i as int, k as nat, base as nat),
                count_array@.len() == base,
                kmer_count_array@.len() == self.kmer_count_table_len,
                forall|x: int|
                    0 <= x < count_array@.len() ==> #[trigger] count_array@[x] as nat
                        == kmer_count_eq(enc, 1, base as nat, x, i as nat),
                forall|x: int|
                    0 <= x < kmer_count_array@.len() ==> #[trigger] kmer_count_array@[x] as nat
                        == kmer_count_eq(enc, k as nat, base as nat, x, i as nat),
            decreases i,
        {
            i -= 1;
            let symidx: u8 = text_encoder.idx_of(text[i]);
            proof {
                assert(enc[i as int] == symidx + 1);
                assert(1 <= enc[i as int] <= sigma);
                lemma_kmer_code_roll(enc, i as int, k as nat, base as nat);
                lemma_kmer_code_bound(enc, i as int, k as nat, base as nat);
                lemma_kmer_code_one(enc, i as int, base as nat);
                lemma_kmer_count_bound(enc, 1, base as nat, symidx + 1, (i + 1) as nat);
                let code = kmer_code(enc, i as int, k as nat, base as nat);
                lemma_kmer_count_bound(enc, k as nat, base as nat, code as int, (i + 1) as nat);
                let q = table_index as int / base as int;
                assert(0 <= q);
                assert(code == q + (symidx + 1) * top);
                assert(code < top * base);
            }
            // Transform the symbol to its index plus one: the sentinel will be 0.
            text.set(i, symidx + 1);
            let before: u64 = count_array[symidx as usize + 1];
            count_array.set(symidx as usize + 1, before + 1);
            table_index = table_index / base + (symidx as u64 + 1) * top;
            let seen: u64 = kmer_count_array[table_index as usize];
            kmer_count_array.set(table_index as usize, seen + 1);
        }
        proof {
            assert(text@ =~= enc);
            assert forall|x: int| 0 <= x < count_array@.len() implies kmer_count_eq(
                enc,
                1,
                base as nat,
                x,
                0,
            ) <= n by {
                lemma_kmer_count_bound(enc, 1, base as nat, x, 0);
            }
            lemma_prefix_sum_counts(count_array@, enc, 1, base as nat, count_array@.len());
            lemma_prefix_sum_counts(
                kmer_count_array@,
                enc,
                k as nat,
                base as nat,
                kmer_count_array@.len(),
            );
            lemma_kmer_count_bound(enc, 1, base as nat, count_array@.len() - 1, 0);
            lemma_kmer_count_bound(enc, k as nat, base as nat, kmer_count_array@.len() - 1, 0);
        }
        let ghost hist = count_array@;
        let ghost kmer_hist = kmer_count_array@;
        accumulate_count_array(&mut count_array);
        accumulate_count_array(&mut kmer_count_array);
        proof {
            assert forall|j: int| 0 <= j < count_array@.len() implies as_nats(count_array@)[j]
                == spec_counts(enc, sigma)[j] && #[trigger] count_array@[j] <= n by {
                lemma_prefix_sum_counts(hist, enc, 1, base as nat, (j + 1) as nat);
                lemma_kmer_count_bound(enc, 1, base as nat, j, 0);
            }
            assert(as_nats(count_array@) =~= spec_counts(enc, sigma));
            assert forall|j: int| 0 <= j < kmer_count_array@.len() implies as_nats(
                kmer_count_array@,
            )[j] == spec_kmer_table(enc, sigma, k as nat)[j] && #[trigger] kmer_count_array@[j]
                <= n by {
                lemma_prefix_sum_counts(kmer_hist, enc, k as nat, base as nat, (j + 1) as nat);
                lemma_kmer_count_bound(enc, k as nat, base as nat, j, 0);
            }
            assert(as_nats(kmer_count_array@) =~= spec_kmer_table(enc, sigma, k as nat));
        }
        (count_array, kmer_count_array)
    }
}

impl CountArrayHeader {
    /// Counts the symbols and the k-mers of the text, rewrites the text into
    /// symbol-plus-one values, and writes the body of the count array at byte
    /// `off` of `blob`.
    pub fn count_and_encode_text<P: Position, A: Aligned, E: TextEncoder>(
        &self,
        text: &mut Vec<u8>,
        text_encoder: &E,
        blob: &mut [u8],
        off: usize,
    )
        requires
            self.valid(),
            self.symbol_count <= 128,
            old(text)@.len() < pow256(P::spec_size()),
            encodes_text(old(text)@, text_encoder, self.symbol_count as nat),
            off + self.spec_body_size::<P, A>() <= old(blob)@.len(),
        ensures
            final(text)@ == encode_text(old(text)@, text_encoder),
            is_encoded(final(text)@, self.symbol_count as nat),
            final(blob)@ == overlay(old(blob)@, off as int, self.spec_body::<P, A>(final(text)@)),
    {
        let total: usize = blob.len();
        proof {
            P::lemma_position();
            A::lemma_align_size();
            lemma_pow256_values();
            lemma_align_up(self.count_array_len as nat * P::spec_size(), A::ALIGN_SIZE as nat);
            lemma_align_up(self.kmer_multiplier_len as nat * 8, A::ALIGN_SIZE as nat);
            lemma_align_up(
                self.kmer_count_table_len as nat * P::spec_size(),
                A::ALIGN_SIZE as nat,
            );
            assert(self.kmer_count_table_len as nat <= self.kmer_count_table_len as nat
                * P::spec_size()) by (nonlinear_arith)
                requires
                    P::spec_size() >= 1,
            ;
        }
        let body_size: usize = self.wide_body_size::<P, A>() as usize;
        let count_size: usize = self.count_array_aligned_size::<P, A>();
        let multiplier_size: usize = self.kmer_multiplier_aligned_size::<A>();
        let (count_array, kmer_count_array) = self.count_text(text, text_encoder);
        let kmer_multiplier: Vec<u64> = kmer_multipliers(
            self.symbol_count as u64 + 2,
            self.lookup_table_kmer_size,
        );
        let ghost counts = as_nats(count_array@);
        let ghost multipliers = as_nats(kmer_multiplier@);
        let ghost table = as_nats(kmer_count_array@);
        let ghost width = P::spec_size();
        let ghost blank = zeros(body_size as nat);
        proof {
            assert forall|i: int| 0 <= i < kmer_multiplier@.len() implies (
            #[trigger] kmer_multiplier@[i] as nat) < pow256(8) by {}
            assert(entry_bytes(counts, width).len() == counts.len() * width);
            assert(entry_bytes(multipliers, 8).len() == multipliers.len() * 8);
            assert(entry_bytes(table, width).len() == table.len() * width);
        }
        fill_zero(blob, off, off + body_size);
        write_entries(blob, off, P::size(), &count_array);
        proof {
            lemma_overlay_nested(old(blob)@, off as int, blank, 0, entry_bytes(counts, width));
        }
        write_entries(blob, off + count_size, 8, &kmer_multiplier);
        proof {
            lemma_overlay_nested(
                old(blob)@,
                off as int,
                overlay(blank, 0, entry_bytes(counts, width)),
                count_size as int,
                entry_bytes(multipliers, 8),
            );
        }
        write_entries(blob, off + count_size + multiplier_size, P::size(), &kmer_count_array);
        proof {
            lemma_overlay_nested(
                old(blob)@,
                off as int,
                overlay(
                    overlay(blank, 0, entry_bytes(counts, width)),
                    count_size as int,
                    entry_bytes(multipliers, 8),
                ),
                (count_size + multiplier_size) as int,
                entry_bytes(table, width),
            );
        }
    }
}

/// The symbol indices of a pattern.
pub open spec fn encode_pattern<E: TextEncoder>(pattern: Seq<u8>, encoder: &E) -> Seq<u8> {
    Seq::new(pattern.len(), |i: int| encoder.spec_idx_of(pattern[i]))
}

/// The symbol-plus-one values of a sequence of symbol indices. The index
/// 255 has no such value in a byte: it gets zero, which stands for no symbol.
pub open spec fn digits_of(syms: Seq<u8>) -> Seq<u8> {
    Seq::new(
        syms.len(),
        |i: int|
            if syms[i] < 255 {
                (syms[i] + 1) as u8
            } else {
                0u8
            },
    )
}

/// Whether every symbol index of the sequence is one of `symbol_count` symbols.
pub open spec fn all_symbols(syms: Seq<u8>, symbol_count: int) -> bool {
    forall|i: int| 0 <= i < syms.len() ==> (#[trigger] syms[i] as int) < symbol_count
}

/// The table entry before `t`, and zero before the first entry.
pub open spec fn table_before(table: Seq<nat>, t: int) -> nat {
    if t <= 0 {
        0
    } else {
        table[t - 1]
    }
}

/// The first range of positions for a pattern, and the number of symbols of
/// the pattern that are still to be searched.
///
/// A pattern of at least `k` symbols gives the range of its last `k` symbols;
/// a shorter one gives the range of all k-mers that it opens. A pattern with
/// a symbol index that is no symbol gives the empty range.
pub open spec fn spec_initial_range(table: Seq<nat>, base: nat, k: nat, syms: Seq<u8>) -> (
    (nat, nat),
    nat,
) {
    let m = syms.len();
    if m >= k {
        let window = syms.subrange(m - k, m as int);
        if !all_symbols(window, base - 2) {
            ((0, 0), 0)
        } else {
            let t = code_of(digits_of(window), base);
            ((table_before(table, t as int), table[t as int]), (m - k) as nat)
        }
    } else {
        if !all_symbols(syms, base - 2) {
            ((0, 0), 0)
        } else {
            let gap = pow(base as int, (k - m) as nat);
            let t = code_of(digits_of(syms), base) * gap;
            ((table_before(table, t), table[t + gap - 1]), 0)
        }
    }
}

/// The number that `j` digits spell is below `base^j`.
pub proof fn lemma_code_of_bound(digits: Seq<u8>, base: nat)
    requires
        base >= 1,
        forall|i: int| 0 <= i < digits.len() ==> (#[trigger] digits[i] as nat) < base,
    ensures
        code_of(digits, base) < pow(base as int, digits.len()),
    decreases digits.len(),
{
    lemma_pow_step(base, 0);
    if digits.len() > 0 {
        let front = digits.drop_last();
        lemma_code_of_bound(front, base);
        lemma_pow_step(base, front.len());
        let c = code_of(front, base);
        let p = pow(base as int, front.len());
        let d = digits.last() as nat;
        assert(c * base + d < p * base) by (nonlinear_arith)
            requires
                c < p,
                d < base,
                0 <= c,
        ;
    }
}

/// The pass-through encoder leaves a pattern of symbol indices as it is.
pub proof fn lemma_encode_pass_through(indices: Seq<u8>)
    ensures
        encode_pattern(indices, &PassThrough) == indices,
{
    assert(encode_pattern(indices, &PassThrough) =~= indices);
}

/// View of the count array of a blob.
pub struct CountArrayView<'a, P: Position> {
    pub lookup_table_kmer_size: usize,
    pub count_array: Vec<u64>,
    pub kmer_multiplier: Vec<u64>,
    pub kmer_count_table: &'a [u8],
    pub position: PhantomData<P>,
}

impl<'a, P: Position> CountArrayView<'a, P> {
    /// The base of the k-mer numbers.
    pub open spec fn base(&self) -> nat {
        self.count_array@.len()
    }

    /// The size of the k-mers of the lookup table.
    pub open spec fn kmer_size(&self) -> nat {
        self.lookup_table_kmer_size as nat
    }

    /// The count array.
    pub open spec fn counts(&self) -> Seq<nat> {
        as_nats(self.count_array@)
    }

    /// The k-mer table.
    pub open spec fn table(&self) -> Seq<nat> {
        entries(
            self.kmer_count_table@,
            P::spec_size(),
            pow(self.base() as int, self.kmer_size()) as nat,
        )
    }

    pub open spec fn wf(&self) -> bool {
        &&& self.lookup_table_kmer_size >= 1
        &&& 2 <= self.base() <= 130
        &&& pow(self.base() as int, self.kmer_size()) <= u64::MAX
        &&& as_nats(self.kmer_multiplier@) == spec_multipliers(self.base(), self.kmer_size())
        &&& self.kmer_count_table@.len() == pow(self.base() as int, self.kmer_size())
            * P::spec_size()
        &&& forall|j: int|
            0 <= j < self.count_array@.len() ==> (#[trigger] self.count_array@[j] as nat) < pow256(
                P::spec_size(),
            )
    }

    /// The size of the body in bytes.
    pub fn aligned_body_size<A: Aligned>(header: &CountArrayHeader) -> (size: usize)
        requires
            header.spec_body_size::<P, A>() <= usize::MAX,
        ensures
            size == header.spec_body_size::<P, A>(),
    {
        header.wide_body_size::<P, A>() as usize
    }

    /// Binds the view to the body of the count array.
    pub fn load_from_body<A: Aligned>(header: &CountArrayHeader, body_blob: &'a [u8]) -> (view:
        Self)
        requires
            header.valid(),
            header.symbol_count <= 128,
            body_blob@.len() == header.spec_body_size::<P, A>(),
        ensures
            view.wf(),
            view.base() == header.base(),
            view.kmer_size() == header.lookup_table_kmer_size,
            view.counts() == entries(body_blob@, P::spec_size(), header.base()),
            view.kmer_count_table@ == body_blob@.subrange(
                (header.spec_count_array_size::<P, A>() + header.spec_kmer_multiplier_size::<A>())
                    as int,
                header.spec_count_array_size::<P, A>() + header.spec_kmer_multiplier_size::<A>()
                    + header.kmer_count_table_len * P::spec_size(),
            ),
    {
        let total: usize = body_blob.len();
        proof {
            P::lemma_position();
            A::lemma_align_size();
            lemma_align_up(header.count_array_len as nat * P::spec_size(), A::ALIGN_SIZE as nat);
            lemma_align_up(header.kmer_multiplier_len as nat * 8, A::ALIGN_SIZE as nat);
            lemma_align_up(
                header.kmer_count_table_len as nat * P::spec_size(),
                A::ALIGN_SIZE as nat,
            );
        }
        let width: usize = P::size();
        let count_size: usize = header.count_array_aligned_size::<P, A>();
        let multiplier_size: usize = header.kmer_multiplier_aligned_size::<A>();
        let table_size: usize = header.kmer_count_table_raw_size::<P>();
        let len: usize = header.count_array_len as usize;
        let mut count_array: Vec<u64> = Vec::new();
        let mut i: usize = 0;
        while i < len
            invariant
                i <= len,
                width == P::spec_size(),
                width == 4 || width == 8,
                len * width <= body_blob@.len(),
                count_array@.len() == i,
                forall|j: int|
                    0 <= j < i ==> #[trigger] count_array@[j] as nat == entry_at(
                        body_blob@,
                        width as nat,
                        j,
                    ) && (count_array@[j] as nat) < pow256(width as nat),
            decreases len - i,
        {
            proof {
                crate::entries::lemma_mul_le(i as int, len as int, width as int);
            }
            let value: u64 = read_entry(body_blob, width, i);
            count_array.push(value);
            i += 1;
        }
        let kmer_multiplier: Vec<u64> = kmer_multipliers(
            header.symbol_count as u64 + 2,
            header.lookup_table_kmer_size,
        );
        let start: usize = count_size + multiplier_size;
        let kmer_count_table: &'a [u8] = vstd::slice::slice_subrange(
            body_blob,
            start,
            start + table_size,
        );
        let view = CountArrayView {
            lookup_table_kmer_size: header.lookup_table_kmer_size as usize,
            count_array,
            kmer_multiplier,
            kmer_count_table,
            position: PhantomData,
        };
        proof {
            assert(view.counts() =~= entries(body_blob@, P::spec_size(), header.base()));
        }
        view
    }

    /// The number of symbols of the text that are smaller than the symbol `symidx`.
    pub fn get_precount(&self, symidx: usize) -> (precount: P)
        requires
            self.wf(),
            symidx < self.base(),
        ensures
            precount.value() == self.counts()[symidx as int],
    {
        proof {
            P::lemma_position();
            vstd::arithmetic::div_mod::lemma_small_mod(
                self.count_array@[symidx as int] as nat,
                pow256(P::spec_size()),
            );
        }
        P::from_u64(self.count_array[symidx])
    }

    /// The table entry before index `t`, and zero before the first entry.
    fn entry_before(&self, t: u64) -> (value: u64)
        requires
            self.wf(),
            t <= pow(self.base() as int, self.kmer_size()),
        ensures
            value as nat == table_before(self.table(), t as int),
            (value as nat) < pow256(P::spec_size()),
    {
        proof {
            P::lemma_position();
            lemma_pow256_values();
        }
        if t == 0 {
            0
        } else {
            self.entry(t - 1)
        }
    }

    /// The table entry at index `t`.
    fn entry(&self, t: u64) -> (value: u64)
        requires
            self.wf(),
            t < pow(self.base() as int, self.kmer_size()),
        ensures
            value as nat == self.table()[t as int],
            (value as nat) < pow256(P::spec_size()),
    {
        proof {
            P::lemma_position();
            crate::entries::lemma_mul_le(
                t as int,
                pow(self.base() as int, self.kmer_size()),
                P::spec_size() as int,
            );
        }
        let total: usize = self.kmer_count_table.len();
        read_entry(self.kmer_count_table, P::size(), t as usize)
    }

    /// The number that the symbols of `pattern` from `start` on spell, or
    /// nothing where one of them is no symbol.
    fn get_idx_of_kmer_count_table_of_pattern<E: TextEncoder>(
        &self,
        pattern: &[u8],
        start: usize,
        text_encoder: &E,
    ) -> (code: Option<u64>)
        requires
            self.wf(),
            start <= pattern@.len(),
            pattern@.len() - start <= self.kmer_size(),
        ensures
            ({
                let window = encode_pattern(pattern@, text_encoder).subrange(
                    start as int,
                    pattern@.len() as int,
                );
                &&& code is None <==> !all_symbols(window, self.base() - 2)
                &&& code matches Some(t) ==> t as nat == code_of(digits_of(window), self.base())
                    && t < pow(self.base() as int, window.len())
            }),
    {
        let base: u64 = self.count_array.len() as u64;
        let len: usize = pattern.len();
        let ghost syms = encode_pattern(pattern@, text_encoder);
        let ghost window = syms.subrange(start as int, len as int);
        let ghost digits = digits_of(window);
        let mut t: u64 = 0;
        let mut j: usize = start;
        proof {
            lemma_pow_step(base as nat, 0);
            assert(digits.take(0) =~= Seq::<u8>::empty());
        }
        while j < len
            invariant
                start <= j <= len == pattern@.len(),
                len - start <= self.kmer_size(),
                self.wf(),
                base == self.base(),
                syms == encode_pattern(pattern@, text_encoder),
                window == syms.subrange(start as int, len as int),
                digits == digits_of(window),
                all_symbols(window.take(j - start), base - 2),
                t as nat == code_of(digits.take(j - start), base as nat),
                t < pow(base as int, (j - start) as nat),
            decreases len - j,
        {
            let symidx: u8 = text_encoder.idx_of(pattern[j]);
            assert(window[j - start] == symidx);
            if symidx as u64 >= base - 2 {
                proof {
                    assert(!((window[j - start] as int) < base - 2));
                }
                return None;
            }
            proof {
                let upto = digits.take(j - start + 1);
                assert(upto.drop_last() =~= digits.take(j - start));
                assert(upto.last() == symidx + 1);
                lemma_pow_step(base as nat, (j - start) as nat);
                vstd::arithmetic::power::lemma_pow_increases(
                    base as nat,
                    (j - start + 1) as nat,
                    self.kmer_size(),
                );
                let p = pow(base as int, (j - start) as nat);
                assert(t * base + (symidx + 1) < p * base) by (nonlinear_arith)
                    requires
                        t < p,
                        symidx + 1 < base,
                        0 <= t,
                ;
                assert forall|x: int| 0 <= x < j - start + 1 implies (#[trigger] window.take(
                    j - start + 1,
                )[x] as int) < base - 2 by {
                    if x < j - start {
                        assert(window.take(j - start)[x] == window[x]);
                    }
                }
            }
            t = t * base + (symidx as u64 + 1);
            j += 1;
        }
        proof {
            assert(window.take(len - start) =~= window);
            assert(digits.take(len - start) =~= digits);
        }
        Some(t)
    }

    /// The first range of positions for a pattern, and the number of symbols
    /// of the pattern that are still to be searched.
    pub fn get_initial_pos_range_and_idx_of_pattern<E: TextEncoder>(
        &self,
        pattern: &[u8],
        text_encoder: &E,
    ) -> (found: ((P, P), usize))
        requires
            self.wf(),
        ensures
            ({
                let spec = spec_initial_range(
                    self.table(),
                    self.base(),
                    self.kmer_size(),
                    encode_pattern(pattern@, text_encoder),
                );
                &&& found.0.0.value() == spec.0.0
                &&& found.0.1.value() == spec.0.1
                &&& found.1 == spec.1
            }),
    {
        proof {
            P::lemma_position();
        }
        let pattern_len: usize = pattern.len();
        let k: usize = self.lookup_table_kmer_size;
        let ghost syms = encode_pattern(pattern@, text_encoder);
        let ghost base = self.base();
        if pattern_len < k {
            match self.get_idx_of_kmer_count_table_of_pattern(pattern, 0, text_encoder) {
                None => {
                    assert(syms.subrange(0, pattern_len as int) =~= syms);
                    (Self::empty_range(), 0)
                },
                Some(code) => {
                    proof {
                        assert(syms.subrange(0, pattern_len as int) =~= syms);
                        assert(as_nats(self.kmer_multiplier@).len() == spec_multipliers(
                            base,
                            k as nat,
                        ).len());
                        assert(self.kmer_multiplier@.len() == k);
                        assert(as_nats(self.kmer_multiplier@)[0] == spec_multipliers(
                            base,
                            k as nat,
                        )[0]);
                        if pattern_len > 0 {
                            assert(as_nats(self.kmer_multiplier@)[pattern_len - 1]
                                == spec_multipliers(base, k as nat)[pattern_len - 1]);
                        }
                        lemma_pow_step(base, (k - 1) as nat);
                        vstd::arithmetic::power::lemma_pow_adds(
                            base as int,
                            pattern_len as nat,
                            (k - pattern_len) as nat,
                        );
                        vstd::arithmetic::power::lemma_pow_positive(
                            base as int,
                            (k - pattern_len) as nat,
                        );
                        let gap = pow(base as int, (k - pattern_len) as nat);
                        let span = pow(base as int, pattern_len as nat);
                        assert(code * gap + gap <= span * gap) by (nonlinear_arith)
                            requires
                                code + 1 <= span,
                                gap >= 0,
                        ;
                        assert(0 <= code * gap) by (nonlinear_arith)
                            requires
                                code >= 0,
                                gap >= 0,
                        ;
                    }
                    let gap: u64 = if pattern_len == 0 {
                        self.kmer_multiplier[0] * (self.count_array.len() as u64)
                    } else {
                        self.kmer_multiplier[pattern_len - 1]
                    };
                    let start_idx: u64 = code * gap;
                    let end_idx: u64 = start_idx + (gap - 1);
                    let lo: u64 = self.entry_before(start_idx);
                    let hi: u64 = self.entry(end_idx);
                    (Self::range_of(lo, hi), 0)
                },
            }
        } else {
            let start: usize = pattern_len - k;
            match self.get_idx_of_kmer_count_table_of_pattern(pattern, start, text_encoder) {
                None => (Self::empty_range(), 0),
                Some(code) => {
                    let lo: u64 = self.entry_before(code);
                    let hi: u64 = self.entry(code);
                    (Self::range_of(lo, hi), start)
                },
            }
        }
    }

    /// The first range of positions for the pattern that the iterator gives,
    /// last byte first, and the number of bytes that were taken from the
    /// iterator: as many as the lookup table reads, or all that there are.
    pub fn get_initial_pos_range_and_idx_of_pattern_rev_iter<
        I: Iterator<Item = u8>,
        E: TextEncoder,
    >(&self, pattern_rev_iter: &mut I, text_encoder: &E) -> (found: ((P, P), usize))
        requires
            self.wf(),
        ensures
            (*final(pattern_rev_iter)).obeys_prophetic_iter_laws() == (*old(pattern_rev_iter)).obeys_prophetic_iter_laws(),
            found.1 <= self.kmer_size(),
            (*old(pattern_rev_iter)).obeys_prophetic_iter_laws() ==> ({
                let rev = (*old(pattern_rev_iter)).remaining();
                let taken = rev.subrange(0, found.1 as int).reverse();
                let spec = spec_initial_range(
                    self.table(),
                    self.base(),
                    self.kmer_size(),
                    encode_pattern(taken, text_encoder),
                );
                &&& found.1 <= rev.len()
                &&& found.1 < self.kmer_size() ==> found.1 == rev.len()
                &&& (*final(pattern_rev_iter)).remaining() == rev.subrange(
                    found.1 as int,
                    rev.len() as int,
                )
                &&& found.0.0.value() == spec.0.0
                &&& found.0.1.value() == spec.0.1
            }),
    {
        let k: usize = self.lookup_table_kmer_size;
        let ghost obeys = (*old(pattern_rev_iter)).obeys_prophetic_iter_laws();
        let ghost rev = (*old(pattern_rev_iter)).remaining();
        // The last symbols of the pattern, as far as the lookup table reads them.
        let mut tail_rev: Vec<u8> = Vec::new();
        let mut exhausted: bool = false;
        while tail_rev.len() < k && !exhausted
            invariant
                tail_rev@.len() <= k,
                obeys == (*pattern_rev_iter).obeys_prophetic_iter_laws(),
                obeys ==> tail_rev@.len() <= rev.len(),
                obeys ==> tail_rev@ == rev.subrange(0, tail_rev@.len() as int),
                obeys ==> (*pattern_rev_iter).remaining() == rev.subrange(
                    tail_rev@.len() as int,
                    rev.len() as int,
                ),
                obeys && exhausted ==> tail_rev@.len() == rev.len(),
            decreases k - tail_rev@.len() + (if exhausted {
                0int
            } else {
                1int
            }),
        {
            let ghost before = (*pattern_rev_iter).remaining();
            match (*pattern_rev_iter).next() {
                Some(sym) => {
                    proof {
                        if obeys {
                            assert(before.len() > 0);
                            assert(sym == rev[tail_rev@.len() as int]);
                            assert(rev.subrange(0, (tail_rev@.len() + 1) as int)
                                =~= tail_rev@.push(sym));
                            assert(before.drop_first() =~= rev.subrange(
                                (tail_rev@.len() + 1) as int,
                                rev.len() as int,
                            ));
                        }
                    }
                    tail_rev.push(sym);
                },
                None => {
                    exhausted = true;
                },
            }
        }
        let consumed: usize = tail_rev.len();
        let mut tail: Vec<u8> = Vec::new();
        let mut j: usize = consumed;
        while j > 0
            invariant
                j <= consumed == tail_rev@.len(),
                tail@.len() == consumed - j,
                forall|x: int| 0 <= x < tail@.len() ==> tail@[x] == tail_rev@[consumed - 1 - x],
            decreases j,
        {
            j -= 1;
            tail.push(tail_rev[j]);
        }
        let (first, cursor) = self.get_initial_pos_range_and_idx_of_pattern(
            tail.as_slice(),
            text_encoder,
        );
        proof {
            if obeys {
                assert(tail@ =~= rev.subrange(0, consumed as int).reverse());
            }
        }
        (first, consumed)
    }

    /// The first range of positions for a pattern of symbol indices, and the
    /// number of symbols of the pattern that are still to be searched.
    pub fn get_initial_pos_range_and_idx_of_indices(&self, indices: &[u8]) -> (found: (
        (P, P),
        usize,
    ))
        requires
            self.wf(),
        ensures
            ({
                let spec = spec_initial_range(
                    self.table(),
                    self.base(),
                    self.kmer_size(),
                    indices@,
                );
                &&& found.0.0.value() == spec.0.0
                &&& found.0.1.value() == spec.0.1
                &&& found.1 == spec.1
            }),
    {
        proof {
            lemma_encode_pass_through(indices@);
        }
        self.get_initial_pos_range_and_idx_of_pattern(indices, &PassThrough)
    }

    /// The first range of positions for the pattern of symbol indices that
    /// the iterator gives, last index first, and the number of indices that
    /// were taken from the iterator.
    pub fn get_initial_pos_range_and_idx_of_indices_rev_iter<I: Iterator<Item = u8>>(
        &self,
        indices_rev_iter: &mut I,
    ) -> (found: ((P, P), usize))
        requires
            self.wf(),
        ensures
            (*final(indices_rev_iter)).obeys_prophetic_iter_laws() == (*old(indices_rev_iter)).obeys_prophetic_iter_laws(),
            found.1 <= self.kmer_size(),
            (*old(indices_rev_iter)).obeys_prophetic_iter_laws() ==> ({
                let rev = (*old(indices_rev_iter)).remaining();
                let taken = rev.subrange(0, found.1 as int).reverse();
                let spec = spec_initial_range(self.table(), self.base(), self.kmer_size(), taken);
                &&& found.1 <= rev.len()
                &&& found.1 < self.kmer_size() ==> found.1 == rev.len()
                &&& (*final(indices_rev_iter)).remaining() == rev.subrange(
                    found.1 as int,
                    rev.len() as int,
                )
                &&& found.0.0.value() == spec.0.0
                &&& found.0.1.value() == spec.0.1
            }),
    {
        let ghost rev = (*old(indices_rev_iter)).remaining();
        let found = self.get_initial_pos_range_and_idx_of_pattern_rev_iter(
            indices_rev_iter,
            &PassThrough,
        );
        proof {
            if (*old(indices_rev_iter)).obeys_prophetic_iter_laws() {
                lemma_encode_pass_through(rev.subrange(0, found.1 as int).reverse());
            }
        }
        found
    }

    fn empty_range() -> (range: (P, P))
        ensures
            range.0.value() == 0,
            range.1.value() == 0,
    {
        proof {
            P::lemma_position();
            lemma_pow256_values();
        }
        (P::from_u32(0), P::from_u32(0))
    }

    fn range_of(lo: u64, hi: u64) -> (range: (P, P))
        requires
            (lo as nat) < pow256(P::spec_size()),
            (hi as nat) < pow256(P::spec_size()),
        ensures
            range.0.value() == lo,
            range.1.value() == hi,
    {
        proof {
            vstd::arithmetic::div_mod::lemma_small_mod(lo as nat, pow256(P::spec_size()));
            vstd::arithmetic::div_mod::lemma_small_mod(hi as nat, pow256(P::spec_size()));
        }
        (P::from_u64(lo), P::from_u64(hi))
    }
}

} // verus!
