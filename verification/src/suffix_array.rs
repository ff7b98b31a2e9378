//! The sampled suffix array, and the Burrows-Wheeler transform that is made
//! from the suffix array.

use std::marker::PhantomData;
use vstd::prelude::*;
use crate::aligned::{align_up, lemma_align_up, Aligned};
use crate::count_array::{narrow_aligned_size, wide_aligned_size};
use crate::endian::{
    fill_zero, le_bytes, le_value, lemma_le_bytes_len, lemma_le_value_of_bytes,
    lemma_overlay_nested, lemma_pow256_values, overlay, pow256, read_u32, read_u64, write_u32,
    write_u64, zeros,
};
use crate::entries::{as_nats, entries, entry_bytes, lemma_mul_le, read_entry, write_entries};
use crate::header::Header;
use crate::position::Position;
use crate::suffix_sort::{is_suffix_array, lemma_sorted_distinct, sort_suffixes, suffix_array};

verus! {

/// The header of the suffix array: the length of the text and the sampling ratio.
#[derive(Debug, Clone, Copy, PartialEq, Eq)]
pub struct SuffixArrayHeader {
    pub text_len: u64,
    pub sampling_ratio: u32,
}

/// The row of the suffix array that holds position 0, plus one: the place of
/// the sentinel in the transformed text. Zero for the empty text.
pub open spec fn sentinel_of(sa: Seq<usize>) -> nat {
    if exists|r: int| 0 <= r < sa.len() && sa[r] == 0 {
        ((choose|r: int| 0 <= r < sa.len() && sa[r] == 0) + 1) as nat
    } else {
        0
    }
}

/// The Burrows-Wheeler transform of the encoded text `s` without its
/// sentinel: first the last symbol of the text, then for each row of the
/// suffix array but that of position 0 the symbol before the suffix.
pub open spec fn bwt_of(s: Seq<u8>, sa: Seq<usize>) -> Seq<u8> {
    Seq::new(
        s.len(),
        |x: int|
            if x == 0 {
                s[s.len() - 1]
            } else if x < sentinel_of(sa) {
                s[sa[x - 1] - 1]
            } else {
                s[sa[x] - 1]
            },
    )
}

/// The stored part of a suffix array: every entry whose row is a multiple of
/// the sampling ratio, and a zero where the last sample would be behind the array.
pub open spec fn spec_samples(sa: Seq<usize>, ratio: nat) -> Seq<nat> {
    Seq::new(
        sa.len() / ratio + 1,
        |i: int|
            if i * ratio < sa.len() {
                sa[i * ratio] as nat
            } else {
                0
            },
    )
}

/// Makes the transformed text of `s` from its suffix array, and finds the
/// place of the sentinel.
pub fn transform(s: &Vec<u8>, sa: &Vec<usize>) -> (out: (Vec<u8>, usize))
    requires
        is_suffix_array(s@, sa@),
    ensures
        out.0@ == bwt_of(s@, sa@),
        out.1 == sentinel_of(sa@),
        s@.len() > 0 ==> 1 <= out.1 <= s@.len(),
        s@.len() == 0 ==> out.1 == 0,
{
    let n: usize = s.len();
    let mut bwt: Vec<u8> = Vec::new();
    let mut sentinel: usize = 0;
    if n == 0 {
        proof {
            assert(sentinel_of(sa@) == 0);
            assert(bwt@ =~= bwt_of(s@, sa@));
        }
        return (bwt, 0);
    }
    bwt.push(s[n - 1]);
    let mut r: usize = 0;
    while r < n
        invariant
            r <= n == s@.len() == sa@.len(),
            n > 0,
            is_suffix_array(s@, sa@),
            sentinel <= r,
            sentinel == 0 ==> bwt@.len() == r + 1 && (forall|x: int|
                0 <= x < r ==> #[trigger] sa@[x] != 0),
            sentinel != 0 ==> bwt@.len() == r && sa@[sentinel - 1] == 0,
            bwt@[0] == s@[n - 1],
            forall|x: int|
                1 <= x < bwt@.len() ==> #[trigger] bwt@[x] == (if sentinel == 0 || x < sentinel {
                    s@[sa@[x - 1] - 1]
                } else {
                    s@[sa@[x] - 1]
                }),
        decreases n - r,
    {
        if sa[r] == 0 {
            proof {
                if sentinel != 0 {
                    lemma_sorted_distinct(s@, sa@, sentinel - 1, r as int);
                }
            }
            sentinel = r + 1;
        } else {
            bwt.push(s[sa[r] - 1]);
        }
        r += 1;
    }
    proof {
        assert(sa@.contains(0usize));
        let w = choose|w: int| 0 <= w < sa@.len() && sa@[w] == 0usize;
        assert(sentinel != 0);
        let c = choose|r: int| 0 <= r < sa@.len() && sa@[r] == 0;
        if c != sentinel - 1 {
            lemma_sorted_distinct(s@, sa@, c, sentinel - 1);
        }
        assert(sentinel_of(sa@) == sentinel);
        assert(bwt@ =~= bwt_of(s@, sa@));
    }
    (bwt, sentinel)
}

/// Takes every entry of the suffix array whose row is a multiple of `ratio`.
pub fn sample(sa: &Vec<usize>, ratio: usize) -> (samples: Vec<u64>)
    requires
        ratio >= 1,
        sa@.len() / (ratio as nat) + 1 <= usize::MAX,
    ensures
        as_nats(samples@) == spec_samples(sa@, ratio as nat),
{
    let n: usize = sa.len();
    let len: usize = n / ratio + 1;
    let mut samples: Vec<u64> = Vec::new();
    let mut i: usize = 0;
    while i < len
        invariant
            i <= len == n / ratio + 1,
            n == sa@.len(),
            ratio >= 1,
            samples@.len() == i,
            forall|j: int|
                0 <= j < i ==> #[trigger] samples@[j] as nat == (if j * ratio < n {
                    sa@[j * ratio] as nat
                } else {
                    0
                }),
        decreases len - i,
    {
        proof {
            assert(i * ratio <= (n / ratio) * ratio) by (nonlinear_arith)
                requires
                    i <= n / ratio,
                    ratio >= 1,
            ;
            vstd::arithmetic::div_mod::lemma_fundamental_div_mod(n as int, ratio as int);
            assert((n / ratio) * ratio == ratio * (n / ratio)) by (nonlinear_arith);
        }
        let row: usize = i * ratio;
        if row < n {
            samples.push(sa[row] as u64);
        } else {
            samples.push(0);
        }
        i += 1;
    }
    proof {
        assert(as_nats(samples@) =~= spec_samples(sa@, ratio as nat));
    }
    samples
}

impl SuffixArrayHeader {
    pub open spec fn valid(&self) -> bool {
        self.sampling_ratio >= 1
    }

    /// The number of entries of the stored array.
    pub open spec fn spec_len(&self) -> nat {
        (self.text_len as nat / self.sampling_ratio as nat + 1) as nat
    }

    /// The size of the body in bytes.
    pub open spec fn spec_body_size<P: Position, A: Aligned>(&self) -> nat {
        align_up(self.spec_len() * P::spec_size(), A::ALIGN_SIZE as nat)
    }

    /// The body of the suffix array: the samples, followed by zero bytes up
    /// to the alignment.
    pub open spec fn spec_body<P: Position, A: Aligned>(&self, sa: Seq<usize>) -> Seq<u8> {
        overlay(
            zeros(self.spec_body_size::<P, A>()),
            0,
            entry_bytes(spec_samples(sa, self.sampling_ratio as nat), P::spec_size()),
        )
    }

    pub fn new(text_len: u64, sampling_ratio: u32) -> (header: Self)
        requires
            sampling_ratio >= 1,
        ensures
            header.valid(),
            header.text_len == text_len,
            header.sampling_ratio == sampling_ratio,
    {
        SuffixArrayHeader { text_len, sampling_ratio }
    }

    /// The size of the body in bytes, in a width that holds it for every header.
    pub fn wide_body_size<P: Position, A: Aligned>(&self) -> (size: u128)
        requires
            self.valid(),
        ensures
            size == self.spec_body_size::<P, A>(),
            size <= 0x100_0000_0000_0000_0000,
    {
        proof {
            P::lemma_position();
            A::lemma_align_size();
        }
        let len: u128 = (self.text_len / (self.sampling_ratio as u64)) as u128 + 1;
        assert(len * P::spec_size() <= 0x1_0000_0000_0000_0000 * 8) by (nonlinear_arith)
            requires
                len <= 0x1_0000_0000_0000_0000,
                P::spec_size() <= 8,
        ;
        let raw: u128 = len * (P::size() as u128);
        let align: u128 = A::ALIGN_SIZE as u128;
        let rem: u128 = raw % align;
        if rem == 0 {
            raw
        } else {
            raw + (align - rem)
        }
    }

    /// Sorts the suffixes of the encoded text, writes the sampled suffix
    /// array at byte `off` of `blob`, and replaces the text by its
    /// Burrows-Wheeler transform. Returns the place of the sentinel in the
    /// transformed text.
    pub fn write_to_blob_and_get_sentinel_index<P: Position, A: Aligned>(
        &self,
        text: &mut Vec<u8>,
        blob: &mut [u8],
        off: usize,
    ) -> (sentinel_index: P)
        requires
            self.valid(),
            old(text)@.len() == self.text_len,
            old(text)@.len() < pow256(P::spec_size()),
            off + self.spec_body_size::<P, A>() <= old(blob)@.len(),
        ensures
            is_suffix_array(old(text)@, suffix_array(old(text)@)),
            final(text)@ == bwt_of(old(text)@, suffix_array(old(text)@)),
            sentinel_index.value() == sentinel_of(suffix_array(old(text)@)),
            final(blob)@ == overlay(
                old(blob)@,
                off as int,
                self.spec_body::<P, A>(suffix_array(old(text)@)),
            ),
    {
        let total: usize = blob.len();
        proof {
            P::lemma_position();
            A::lemma_align_size();
            lemma_pow256_values();
            lemma_align_up(self.spec_len() * P::spec_size(), A::ALIGN_SIZE as nat);
        }
        let body_size: usize = self.wide_body_size::<P, A>() as usize;
        let sa: Vec<usize> = sort_suffixes(text.as_slice());
        let (bwt, sentinel) = transform(text, &sa);
        let samples: Vec<u64> = sample(&sa, self.sampling_ratio as usize);
        proof {
            let ratio = self.sampling_ratio as nat;
            let wanted = spec_samples(sa@, ratio);
            assert(as_nats(samples@).len() == samples@.len());
            assert(wanted.len() == sa@.len() / ratio + 1);
            assert forall|i: int| 0 <= i < samples@.len() implies (#[trigger] samples@[i] as nat)
                < pow256(P::spec_size()) by {
                assert(as_nats(samples@)[i] == samples@[i] as nat);
                assert(wanted[i] == (if i * ratio < sa@.len() {
                    sa@[i * ratio] as nat
                } else {
                    0
                }));
                if i * ratio < sa@.len() {
                    assert(0 <= i * ratio) by (nonlinear_arith)
                        requires
                            i >= 0,
                            ratio >= 0,
                    ;
                    assert(sa@[i * ratio] < text@.len());
                }
            }
            assert(as_nats(samples@).len() == self.spec_len());
        }
        fill_zero(blob, off, off + body_size);
        write_entries(blob, off, P::size(), &samples);
        proof {
            lemma_overlay_nested(
                old(blob)@,
                off as int,
                zeros(body_size as nat),
                0,
                entry_bytes(as_nats(samples@), P::spec_size()),
            );
            vstd::arithmetic::div_mod::lemma_small_mod(sentinel as nat, pow256(P::spec_size()));
        }
        *text = bwt;
        P::from_usize(sentinel)
    }
}

impl Header for SuffixArrayHeader {
    open spec fn spec_raw_size() -> nat {
        16
    }

    open spec fn spec_bytes(&self) -> Seq<u8> {
        le_bytes(self.text_len as nat, 8) + le_bytes(self.sampling_ratio as nat, 4) + zeros(4)
    }

    open spec fn spec_parse(bytes: Seq<u8>) -> Self {
        SuffixArrayHeader {
            text_len: le_value(bytes.subrange(0, 8)) as u64,
            sampling_ratio: le_value(bytes.subrange(8, 12)) as u32,
        }
    }

    proof fn lemma_header(&self) {
        lemma_pow256_values();
        lemma_le_bytes_len(self.text_len as nat, 8);
        lemma_le_bytes_len(self.sampling_ratio as nat, 4);
        lemma_le_value_of_bytes(self.text_len as nat, 8);
        lemma_le_value_of_bytes(self.sampling_ratio as nat, 4);
        let all = self.spec_bytes();
        assert(all.subrange(0, 8) =~= le_bytes(self.text_len as nat, 8));
        assert(all.subrange(8, 12) =~= le_bytes(self.sampling_ratio as nat, 4));
        let parsed = Self::spec_parse(all);
        assert(parsed.text_len == self.text_len);
        assert(parsed.sampling_ratio == self.sampling_ratio);
    }

    fn raw_size() -> (size: usize) {
        16
    }

    fn write_to_blob(&self, blob: &mut [u8], off: usize) {
        proof {
            lemma_le_bytes_len(self.text_len as nat, 8);
            lemma_le_bytes_len(self.sampling_ratio as nat, 4);
        }
        let total: usize = blob.len();
        write_u64(blob, off, self.text_len);
        write_u32(blob, off + 8, self.sampling_ratio);
        fill_zero(blob, off + 12, off + 16);
        assert(blob@ =~= overlay(old(blob)@, off as int, self.spec_bytes()));
    }

    fn read_from_blob(blob: &[u8], off: usize) -> (header: Self) {
        let total: usize = blob.len();
        let header = SuffixArrayHeader {
            text_len: read_u64(blob, off),
            sampling_ratio: read_u32(blob, off + 8),
        };
        proof {
            let bytes = blob@.subrange(off as int, off + 16);
            assert(bytes.subrange(0, 8) =~= blob@.subrange(off as int, off + 8));
            assert(bytes.subrange(8, 12) =~= blob@.subrange(off + 8, off + 12));
        }
        header
    }
}

/// View of the sampled suffix array of a blob.
pub struct SuffixArrayView<'a, P: Position> {
    pub sampling_ratio: u64,
    pub array: &'a [u8],
    pub len: usize,
    pub position: PhantomData<P>,
}

impl<'a, P: Position> SuffixArrayView<'a, P> {
    pub open spec fn wf(&self) -> bool {
        &&& 1 <= self.sampling_ratio <= u32::MAX
        &&& self.len >= 1
        &&& self.array@.len() == self.len * P::spec_size()
    }

    /// The stored samples of the suffix array.
    pub open spec fn samples(&self) -> Seq<nat> {
        entries(self.array@, P::spec_size(), self.len as nat)
    }

    /// Whether row `pos` is a sampled row: a multiple of the sampling
    /// ratio, with its sample in the array.
    pub open spec fn is_sampled(&self, pos: nat) -> bool {
        pos % (self.sampling_ratio as nat) == 0 && pos / (self.sampling_ratio as nat) < self.len
    }

    /// The sample of the sampled row `pos`: the position in the text of
    /// the suffix of the row.
    pub open spec fn spec_location_of(&self, pos: nat) -> nat {
        self.samples()[(pos / self.sampling_ratio as nat) as int]
    }

    /// The size of the body in bytes.
    pub fn aligned_body_size<A: Aligned>(header: &SuffixArrayHeader) -> (size: usize)
        requires
            header.valid(),
            header.spec_body_size::<P, A>() <= usize::MAX,
        ensures
            size == header.spec_body_size::<P, A>(),
    {
        header.wide_body_size::<P, A>() as usize
    }

    /// Binds the view to the body of the suffix array.
    pub fn load_from_body<A: Aligned>(header: &SuffixArrayHeader, body_blob: &'a [u8]) -> (view:
        Self)
        requires
            header.valid(),
            body_blob@.len() == header.spec_body_size::<P, A>(),
        ensures
            view.wf(),
            view.sampling_ratio == header.sampling_ratio,
            view.len == header.spec_len(),
            view.array@ == body_blob@.subrange(0, (header.spec_len() * P::spec_size()) as int),
    {
        let total: usize = body_blob.len();
        proof {
            P::lemma_position();
            A::lemma_align_size();
            lemma_align_up(header.spec_len() * P::spec_size(), A::ALIGN_SIZE as nat);
        }
        let len: usize = (header.text_len / (header.sampling_ratio as u64)) as usize + 1;
        let array: &'a [u8] = vstd::slice::slice_subrange(body_blob, 0, len * P::size());
        SuffixArrayView {
            sampling_ratio: header.sampling_ratio as u64,
            array,
            len,
            position: PhantomData,
        }
    }

    pub fn sampling_ratio(&self) -> (ratio: P)
        requires
            self.wf(),
        ensures
            ratio.value() == self.sampling_ratio,
    {
        P::from_u32(self.sampling_ratio as u32)
    }

    /// The position in the text of the suffix of the sampled row `position`.
    pub fn get_location_of(&self, position: P) -> (location: P)
        requires
            self.wf(),
            self.is_sampled(position.value()),
        ensures
            location.value() == self.spec_location_of(position.value()),
    {
        let value: u64 = self.location_of(position.as_u64());
        proof {
            vstd::arithmetic::div_mod::lemma_small_mod(value as nat, pow256(P::spec_size()));
        }
        P::from_u64(value)
    }

    /// The position in the text of the suffix of the sampled row `pos`.
    pub fn location_of(&self, pos: u64) -> (location: u64)
        requires
            self.wf(),
            self.is_sampled(pos as nat),
        ensures
            location as nat == self.spec_location_of(pos as nat),
            (location as nat) < pow256(P::spec_size()),
    {
        proof {
            P::lemma_position();
        }
        let total: usize = self.array.len();
        let row: usize = (pos / self.sampling_ratio) as usize;
        proof {
            lemma_mul_le(row as int, self.len as int, P::spec_size() as int);
        }
        read_entry(self.array, P::size(), row)
    }
}

/// The transformed text takes each of its symbols from the text: for every
/// place but the first, the row that it reads holds a position behind 0.
pub proof fn lemma_bwt_source(s: Seq<u8>, sa: Seq<usize>, x: int)
    requires
        is_suffix_array(s, sa),
        1 <= x < s.len(),
    ensures
        x < sentinel_of(sa) ==> 1 <= sa[x - 1] < s.len(),
        x >= sentinel_of(sa) ==> 1 <= sa[x] < s.len(),
        1 <= sentinel_of(sa) <= s.len(),
        sa[sentinel_of(sa) - 1] == 0,
{
    assert(sa.contains(0usize));
    let w = choose|w: int| 0 <= w < sa.len() && sa[w] == 0usize;
    let c = choose|r: int| 0 <= r < sa.len() && sa[r] == 0;
    if x < c + 1 {
        if x - 1 != c {
            lemma_sorted_distinct(s, sa, x - 1, c);
        }
    } else {
        lemma_sorted_distinct(s, sa, x, c);
    }
}

/// The transformed text of an encoded text is an encoded text.
pub proof fn lemma_bwt_encoded(s: Seq<u8>, sa: Seq<usize>, symbol_count: nat)
    requires
        is_suffix_array(s, sa),
        crate::kmer::is_encoded(s, symbol_count),
    ensures
        crate::kmer::is_encoded(bwt_of(s, sa), symbol_count),
        bwt_of(s, sa).len() == s.len(),
{
    let bwt = bwt_of(s, sa);
    assert forall|x: int| 0 <= x < bwt.len() implies 1 <= #[trigger] bwt[x] <= symbol_count by {
        if x >= 1 {
            lemma_bwt_source(s, sa, x);
        }
    }
}

} // verus!
