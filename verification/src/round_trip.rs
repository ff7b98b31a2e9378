//! Reading back what the builder wrote: the bodies of a built blob hold the
//! arrays of the index.

use vstd::prelude::*;
use vstd::arithmetic::power::pow;
use crate::aligned::{align_up, lemma_align_up, Aligned};
use crate::block::{chunk_symbols, lemma_spec_planes, plane_symbols, spec_plane, spec_planes, Block};
use crate::blocks::vector::Vector;
use crate::bwm::{block_chunk, spec_block_planes, spec_checkpoints, BwmHeader};
use crate::count_array::{spec_counts, spec_kmer_table, spec_multipliers, CountArrayHeader};
use crate::counting::lemma_count_in_bound;
use crate::endian::{lemma_overlay_read, lemma_pow256_values, overlay, pow256, zeros};
use crate::entries::{entries, entry_at, entry_bytes, lemma_index_split, lemma_section_entries};
use crate::kmer::{is_encoded, lemma_kmer_count_bound};
use crate::position::Position;
use crate::builder::{
    headers_fit, lemma_raw_size_bound, spec_blob_size_of, spec_header_size, FmIndexBuilder,
};
use crate::count_array::{encode_text, encodes_text};
use crate::fm_index::{
    blob_expected_size, blob_headers_ok, parsed_bwm_header, parsed_count_header, parsed_encoder,
    parsed_magic, parsed_suffix_header, spec_load_error, spec_offsets, FmIndex,
};
use crate::header::Header;
use crate::magic_number::MagicNumber;
use crate::suffix_array::{
    bwt_of, lemma_bwt_encoded, lemma_bwt_source, sentinel_of, spec_samples, SuffixArrayHeader,
};
use crate::suffix_sort::{is_suffix_array, lemma_suffix_array_exists, suffix_array};
use crate::text_encoder::TextEncoder;

verus! {

impl CountArrayHeader {
    /// The body of the count array holds the count array at its start and
    /// the k-mer table behind the k-mer multipliers.
    pub proof fn lemma_body<P: Position, A: Aligned>(&self, enc: Seq<u8>)
        requires
            self.valid(),
            enc.len() < pow256(P::spec_size()),
        ensures
            self.spec_body::<P, A>(enc).len() == self.spec_body_size::<P, A>(),
            entries(self.spec_body::<P, A>(enc), P::spec_size(), self.base()) == spec_counts(
                enc,
                self.symbol_count as nat,
            ),
            entries(
                self.spec_body::<P, A>(enc).subrange(
                    (self.spec_count_array_size::<P, A>() + self.spec_kmer_multiplier_size::<
                        A,
                    >()) as int,
                    self.spec_count_array_size::<P, A>() + self.spec_kmer_multiplier_size::<A>()
                        + self.kmer_count_table_len * P::spec_size(),
                ),
                P::spec_size(),
                self.kmer_count_table_len as nat,
            ) == spec_kmer_table(
                enc,
                self.symbol_count as nat,
                self.lookup_table_kmer_size as nat,
            ),
    {
        P::lemma_position();
        A::lemma_align_size();
        lemma_pow256_values();
        let width = P::spec_size();
        let sigma = self.symbol_count as nat;
        let k = self.lookup_table_kmer_size as nat;
        let counts = spec_counts(enc, sigma);
        let multipliers = spec_multipliers(self.base(), k);
        let table = spec_kmer_table(enc, sigma, k);
        let s1 = self.spec_count_array_size::<P, A>();
        let s2 = self.spec_kmer_multiplier_size::<A>();
        let s3 = self.spec_kmer_count_table_size::<P, A>();
        lemma_align_up(self.count_array_len as nat * width, A::ALIGN_SIZE as nat);
        lemma_align_up(self.kmer_multiplier_len as nat * 8, A::ALIGN_SIZE as nat);
        lemma_align_up(self.kmer_count_table_len as nat * width, A::ALIGN_SIZE as nat);
        let blank = zeros(self.spec_body_size::<P, A>());
        let first = overlay(blank, 0, entry_bytes(counts, width));
        let second = overlay(first, s1 as int, entry_bytes(multipliers, 8));
        let third = overlay(second, (s1 + s2) as int, entry_bytes(table, width));
        assert(entry_bytes(counts, width).len() == counts.len() * width);
        assert(entry_bytes(multipliers, 8).len() == multipliers.len() * 8);
        assert(entry_bytes(table, width).len() == table.len() * width);
        lemma_overlay_read(blank, 0, entry_bytes(counts, width));
        lemma_overlay_read(first, s1 as int, entry_bytes(multipliers, 8));
        lemma_overlay_read(second, (s1 + s2) as int, entry_bytes(table, width));
        assert(third.subrange(0, (counts.len() * width) as int) == entry_bytes(counts, width));
        assert forall|i: int| 0 <= i < counts.len() implies #[trigger] counts[i] < pow256(
            width,
        ) by {
            lemma_kmer_count_bound(enc, 1, sigma + 2, i, 0);
        }
        assert forall|i: int| 0 <= i < table.len() implies #[trigger] table[i] < pow256(width) by {
            lemma_kmer_count_bound(enc, k, sigma + 2, i, 0);
        }
        lemma_section_entries(third, 0, counts, width);
        lemma_section_entries(third, (s1 + s2) as int, table, width);
    }
}

impl SuffixArrayHeader {
    /// The body of the suffix array holds the samples at its start.
    pub proof fn lemma_body<P: Position, A: Aligned>(&self, sa: Seq<usize>)
        requires
            self.valid(),
            sa.len() == self.text_len,
            forall|r: int| 0 <= r < sa.len() ==> (#[trigger] sa[r] as nat) < pow256(P::spec_size()),
        ensures
            self.spec_body::<P, A>(sa).len() == self.spec_body_size::<P, A>(),
            entries(
                self.spec_body::<P, A>(sa).subrange(0, (self.spec_len() * P::spec_size()) as int),
                P::spec_size(),
                self.spec_len(),
            ) == spec_samples(sa, self.sampling_ratio as nat),
    {
        P::lemma_position();
        A::lemma_align_size();
        lemma_pow256_values();
        let width = P::spec_size();
        let samples = spec_samples(sa, self.sampling_ratio as nat);
        lemma_align_up(self.spec_len() * width, A::ALIGN_SIZE as nat);
        let blank = zeros(self.spec_body_size::<P, A>());
        assert(entry_bytes(samples, width).len() == samples.len() * width);
        lemma_overlay_read(blank, 0, entry_bytes(samples, width));
        assert forall|i: int| 0 <= i < samples.len() implies #[trigger] samples[i] < pow256(
            width,
        ) by {
            let row = i * self.sampling_ratio;
            if row < sa.len() {
                assert(0 <= row) by (nonlinear_arith)
                    requires
                        row == i * self.sampling_ratio,
                        i >= 0,
                ;
                assert((sa[row] as nat) < pow256(width));
            }
        }
        lemma_section_entries(self.spec_body::<P, A>(sa), 0, samples, width);
    }
}

impl BwmHeader {
    /// The body of the matrix holds the place of the sentinel at its start,
    /// then the rank checkpoints, then the planes of the blocks.
    pub proof fn lemma_body<P: Position, B: Block>(&self, bwt: Seq<u8>, sentinel: nat)
        requires
            self.valid::<B>(),
            self.blocks_len == bwt.len() / (B::BLOCK_LEN as nat) + 1,
            is_encoded(bwt, self.symbol_count as nat),
            bwt.len() < pow256(P::spec_size()),
            sentinel < pow256(P::spec_size()),
        ensures
            self.spec_body::<P, B>(bwt, sentinel).len() == self.spec_body_size::<P, B>(),
            entry_at(self.spec_body::<P, B>(bwt, sentinel), P::spec_size(), 0) == sentinel,
            entries(
                self.spec_body::<P, B>(bwt, sentinel).subrange(
                    self.spec_sentinel_size::<P, B>() as int,
                    self.spec_sentinel_size::<P, B>() + self.rank_checkpoints_len * P::spec_size(),
                ),
                P::spec_size(),
                self.rank_checkpoints_len as nat,
            ) == spec_checkpoints(
                bwt,
                self.symbol_count as nat,
                B::BLOCK_LEN as nat,
                self.blocks_len as nat,
            ),
            entries(
                self.spec_body::<P, B>(bwt, sentinel).subrange(
                    (self.spec_sentinel_size::<P, B>() + self.spec_checkpoints_size::<P, B>())
                        as int,
                    (self.spec_sentinel_size::<P, B>() + self.spec_checkpoints_size::<P, B>()
                        + self.spec_blocks_raw_size::<B>()) as int,
                ),
                B::ALIGN_SIZE as nat,
                (self.blocks_len * B::spec_plane_count()) as nat,
            ) == spec_block_planes(
                bwt,
                B::spec_plane_count(),
                B::BLOCK_LEN as nat,
                self.blocks_len as nat,
            ),
    {
        P::lemma_position();
        B::lemma_block();
        B::lemma_align_size();
        <B::V as Vector>::lemma_vector();
        crate::block::lemma_symbol_limits();
        lemma_pow256_values();
        let width = P::spec_size();
        let size = B::ALIGN_SIZE as nat;
        let k = B::spec_plane_count();
        let sigma = self.symbol_count as nat;
        let block_len = B::BLOCK_LEN as nat;
        let blocks = self.blocks_len as nat;
        let checkpoints = spec_checkpoints(bwt, sigma, block_len, blocks);
        let planes = spec_block_planes(bwt, k, block_len, blocks);
        let s1 = self.spec_sentinel_size::<P, B>();
        let s2 = self.spec_checkpoints_size::<P, B>();
        lemma_align_up(width, size);
        lemma_align_up(self.rank_checkpoints_len as nat * width, size);
        lemma_align_up(self.spec_blocks_raw_size::<B>(), size);
        let blank = zeros(self.spec_body_size::<P, B>());
        let first = overlay(blank, 0, entry_bytes(seq![sentinel], width));
        let second = overlay(first, s1 as int, entry_bytes(checkpoints, width));
        let third = overlay(second, (s1 + s2) as int, entry_bytes(planes, size));
        assert(entry_bytes(seq![sentinel], width).len() == 1 * width);
        assert(entry_bytes(checkpoints, width).len() == checkpoints.len() * width);
        assert(entry_bytes(planes, size).len() == planes.len() * size);
        assert(blocks * k * size == self.spec_blocks_raw_size::<B>()) by (nonlinear_arith)
            requires
                self.spec_blocks_raw_size::<B>() == blocks * (k * size),
        ;
        lemma_overlay_read(blank, 0, entry_bytes(seq![sentinel], width));
        lemma_overlay_read(first, s1 as int, entry_bytes(checkpoints, width));
        lemma_overlay_read(second, (s1 + s2) as int, entry_bytes(planes, size));
        assert(third.subrange(0, (1 * width) as int) == entry_bytes(seq![sentinel], width));
        lemma_section_entries(third, 0, seq![sentinel], width);
        assert(entries(third, width, 1)[0] == sentinel);
        assert forall|i: int| 0 <= i < checkpoints.len() implies #[trigger] checkpoints[i]
            < pow256(width) by {
            lemma_count_in_bound(
                bwt,
                i % (sigma as int) + 1,
                ((i / (sigma as int)) * block_len) as nat,
            );
            // The checkpoint of a block counts up to the start of the block.
            assert(sigma > 0);
            vstd::arithmetic::div_mod::lemma_fundamental_div_mod(i, sigma as int);
            let b = i / (sigma as int);
            assert(b < blocks) by (nonlinear_arith)
                requires
                    i == sigma * b + i % (sigma as int),
                    i % (sigma as int) >= 0,
                    i < blocks * sigma,
                    sigma > 0,
            ;
            assert(0 <= b) by (nonlinear_arith)
                requires
                    b == i / (sigma as int),
                    i >= 0,
                    sigma > 0,
            ;
            vstd::arithmetic::div_mod::lemma_fundamental_div_mod(
                bwt.len() as int,
                block_len as int,
            );
            assert(b * block_len <= bwt.len()) by (nonlinear_arith)
                requires
                    b <= bwt.len() / block_len,
                    0 <= b,
                    bwt.len() == block_len * (bwt.len() / block_len) + bwt.len() % block_len,
                    bwt.len() % block_len >= 0,
                    block_len > 0,
            ;
        }
        lemma_section_entries(third, s1 as int, checkpoints, width);
        assert forall|i: int| 0 <= i < planes.len() implies #[trigger] planes[i] < pow256(size) by {
            let b = i / (k as int);
            let v = (i % (k as int)) as nat;
            assert(0 <= b) by (nonlinear_arith)
                requires
                    b == i / (k as int),
                    i >= 0,
                    k > 0,
            ;
            assert(v < k);
            let syms = chunk_symbols(block_chunk(bwt, b, block_len), block_len);
            Self::lemma_chunk_symbols(bwt, b, sigma, k, block_len);
            lemma_spec_planes(syms, k, block_len);
            assert(spec_planes(syms, k, block_len)[v as int] == spec_plane(syms, v, block_len));
            crate::bits::lemma_fits_values(spec_plane(syms, v, block_len));
        }
        lemma_section_entries(third, (s1 + s2) as int, planes, size);
    }

    /// The symbols of a chunk of an encoded text are symbols of the block.
    pub proof fn lemma_chunk_symbols(bwt: Seq<u8>, b: int, sigma: nat, k: nat, block_len: nat)
        requires
            is_encoded(bwt, sigma),
            0 <= b,
            2 <= k <= 7,
            sigma <= 1u32 << (k as u32),
            sigma <= 128,
        ensures
            forall|j: int|
                0 <= j < block_len ==> #[trigger] chunk_symbols(
                    block_chunk(bwt, b, block_len),
                    block_len,
                )[j] >> (k as u8) == 0u8,
            chunk_symbols(block_chunk(bwt, b, block_len), block_len).len() == block_len,
    {
        let chunk = block_chunk(bwt, b, block_len);
        let syms = chunk_symbols(chunk, block_len);
        assert(0 <= b * block_len <= (b + 1) * block_len) by (nonlinear_arith)
            requires
                0 <= b,
                0 <= block_len,
        ;
        assert forall|j: int| 0 <= j < block_len implies #[trigger] syms[j] >> (k as u8)
            == 0u8 by {
            if j < chunk.len() {
                let start = crate::bwm::min_nat((b * block_len) as nat, bwt.len());
                assert(chunk[j] == bwt[start + j]);
                assert(1 <= chunk[j] <= sigma);
            }
            crate::block::lemma_below_limit(syms[j], k as u8);
        }
    }
}

/// The sections of a blob: where each of them starts.
pub struct Sections {
    pub encoder: int,
    pub count_header: int,
    pub suffix_header: int,
    pub bwm_header: int,
    pub count_body: int,
    pub suffix_body: int,
    pub bwm_body: int,
    pub end: int,
}

impl<P: Position, B: Block, E: TextEncoder> FmIndexBuilder<P, B, E> {
    /// Where the sections of the blob of the builder start.
    pub open spec fn sections(&self) -> Sections {
        let align = B::ALIGN_SIZE as nat;
        let encoder = align_up(8, align);
        let count_header = encoder + align_up(E::spec_raw_size(), align);
        let suffix_header = count_header + align_up(24, align);
        let bwm_header = suffix_header + align_up(16, align);
        let count_body = bwm_header + align_up(24, align);
        let suffix_body = count_body + self.count_array_header.spec_body_size::<P, B>();
        let bwm_body = suffix_body + self.suffix_array_header.spec_body_size::<P, B>();
        let end = bwm_body + self.bwm_header.spec_body_size::<P, B>();
        Sections {
            encoder: encoder as int,
            count_header: count_header as int,
            suffix_header: suffix_header as int,
            bwm_header: bwm_header as int,
            count_body: count_body as int,
            suffix_body: suffix_body as int,
            bwm_body: bwm_body as int,
            end: end as int,
        }
    }

    /// The text that the builder indexes, encoded, has a suffix array, and
    /// its transformed text is an encoded text.
    pub proof fn lemma_encoded(&self, text: Seq<u8>)
        requires
            self.wf(),
            text.len() == self.text_len,
            encodes_text(text, &self.text_encoder, self.symbol_count as nat),
        ensures
            ({
                let enc = encode_text(text, &self.text_encoder);
                let sa = suffix_array(enc);
                &&& enc.len() == text.len()
                &&& is_encoded(enc, self.symbol_count as nat)
                &&& is_suffix_array(enc, sa)
                &&& is_encoded(bwt_of(enc, sa), self.symbol_count as nat)
                &&& bwt_of(enc, sa).len() == enc.len()
                &&& sentinel_of(sa) <= enc.len()
            }),
    {
        let enc = encode_text(text, &self.text_encoder);
        let sigma = self.symbol_count as nat;
        B::lemma_block();
        crate::block::lemma_symbol_limits();
        assert forall|i: int| 0 <= i < enc.len() implies 1 <= #[trigger] enc[i] <= sigma by {
            assert((self.text_encoder.spec_idx_of(text[i]) as nat) < sigma);
        }
        lemma_suffix_array_exists(enc);
        let sa = suffix_array(enc);
        lemma_bwt_encoded(enc, sa, sigma);
        if enc.len() >= 2 {
            lemma_bwt_source(enc, sa, 1);
        } else if enc.len() == 1 {
            assert(sa.contains(0usize));
            let c = choose|r: int| 0 <= r < sa.len() && sa[r] == 0;
        }
    }

    /// The blob of the builder holds each section at its place.
    pub proof fn lemma_blob_sections(&self, text: Seq<u8>)
        requires
            self.wf(),
            text.len() == self.text_len,
            encodes_text(text, &self.text_encoder, self.symbol_count as nat),
        ensures
            ({
                let blob = self.spec_blob(text);
                let at = self.sections();
                let enc = encode_text(text, &self.text_encoder);
                let sa = suffix_array(enc);
                &&& blob.len() == self.spec_blob_size()
                &&& at.end == blob.len()
                &&& blob.subrange(0, 8) == self.magic_number.spec_bytes()
                &&& blob.subrange(at.encoder, at.encoder + E::spec_raw_size())
                    == self.text_encoder.spec_bytes()
                &&& blob.subrange(at.count_header, at.count_header + 24)
                    == self.count_array_header.spec_bytes()
                &&& blob.subrange(at.suffix_header, at.suffix_header + 16)
                    == self.suffix_array_header.spec_bytes()
                &&& blob.subrange(at.bwm_header, at.bwm_header + 24) == self.bwm_header.spec_bytes()
                &&& blob.subrange(at.count_body, at.suffix_body)
                    == self.count_array_header.spec_body::<P, B>(enc)
                &&& blob.subrange(at.suffix_body, at.bwm_body)
                    == self.suffix_array_header.spec_body::<P, B>(sa)
                &&& blob.subrange(at.bwm_body, at.end) == self.bwm_header.spec_body::<P, B>(
                    bwt_of(enc, sa),
                    sentinel_of(sa),
                )
            }),
    {
        P::lemma_position();
        B::lemma_block();
        B::lemma_align_size();
        lemma_pow256_values();
        lemma_raw_size_bound::<E>();
        let align = B::ALIGN_SIZE as nat;
        lemma_align_up(8, align);
        lemma_align_up(24, align);
        lemma_align_up(16, align);
        lemma_align_up(E::spec_raw_size(), align);
        self.magic_number.lemma_header();
        self.text_encoder.lemma_header();
        self.count_array_header.lemma_header();
        self.suffix_array_header.lemma_header();
        self.bwm_header.lemma_header();
        self.lemma_encoded(text);
        let enc = encode_text(text, &self.text_encoder);
        let sa = suffix_array(enc);
        let bwt = bwt_of(enc, sa);
        self.count_array_header.lemma_body::<P, B>(enc);
        assert forall|r: int| 0 <= r < sa.len() implies (#[trigger] sa[r] as nat) < pow256(
            P::spec_size(),
        ) by {}
        self.suffix_array_header.lemma_body::<P, B>(sa);
        self.bwm_header.lemma_body::<P, B>(bwt, sentinel_of(sa));
        let at = self.sections();
        let d1 = self.magic_number.spec_bytes();
        let d2 = self.text_encoder.spec_bytes();
        let d3 = self.count_array_header.spec_bytes();
        let d4 = self.suffix_array_header.spec_bytes();
        let d5 = self.bwm_header.spec_bytes();
        let d6 = self.count_array_header.spec_body::<P, B>(enc);
        let d7 = self.suffix_array_header.spec_body::<P, B>(sa);
        let d8 = self.bwm_header.spec_body::<P, B>(bwt, sentinel_of(sa));
        let b0 = zeros(self.spec_blob_size());
        let b1 = overlay(b0, 0, d1);
        let b2 = overlay(b1, at.encoder, d2);
        let b3 = overlay(b2, at.count_header, d3);
        let b4 = overlay(b3, at.suffix_header, d4);
        let b5 = overlay(b4, at.bwm_header, d5);
        let b6 = overlay(b5, at.count_body, d6);
        let b7 = overlay(b6, at.suffix_body, d7);
        let b8 = overlay(b7, at.bwm_body, d8);
        assert(b8 == self.spec_blob(text));
        lemma_overlay_read(b0, 0, d1);
        lemma_overlay_read(b1, at.encoder, d2);
        lemma_overlay_read(b2, at.count_header, d3);
        lemma_overlay_read(b3, at.suffix_header, d4);
        lemma_overlay_read(b4, at.bwm_header, d5);
        lemma_overlay_read(b5, at.count_body, d6);
        lemma_overlay_read(b6, at.suffix_body, d7);
        lemma_overlay_read(b7, at.bwm_body, d8);
        assert(b8.subrange(0, 8) == d1);
        assert(b8.subrange(at.encoder, at.encoder + E::spec_raw_size()) == d2);
        assert(b8.subrange(at.count_header, at.count_header + 24) == d3);
        assert(b8.subrange(at.suffix_header, at.suffix_header + 16) == d4);
        assert(b8.subrange(at.bwm_header, at.bwm_header + 24) == d5);
        assert(b8.subrange(at.count_body, at.suffix_body) == d6);
        assert(b8.subrange(at.suffix_body, at.bwm_body) == d7);
    }

    /// The blob of the builder loads: it gives no load error.
    pub proof fn lemma_blob_loads(&self, text: Seq<u8>)
        requires
            self.wf(),
            text.len() == self.text_len,
            encodes_text(text, &self.text_encoder, self.symbol_count as nat),
        ensures
            spec_load_error::<P, B, E>(self.spec_blob(text)) is None,
            parsed_encoder::<B, E>(self.spec_blob(text)) == self.text_encoder,
            parsed_count_header::<B, E>(self.spec_blob(text)) == self.count_array_header,
            parsed_suffix_header::<B, E>(self.spec_blob(text)) == self.suffix_array_header,
            parsed_bwm_header::<B, E>(self.spec_blob(text)) == self.bwm_header,
    {
        B::lemma_align_size();
        lemma_raw_size_bound::<E>();
        let align = B::ALIGN_SIZE as nat;
        lemma_align_up(8, align);
        lemma_align_up(24, align);
        lemma_align_up(16, align);
        lemma_align_up(E::spec_raw_size(), align);
        self.lemma_blob_sections(text);
        self.magic_number.lemma_header();
        self.text_encoder.lemma_header();
        self.count_array_header.lemma_header();
        self.suffix_array_header.lemma_header();
        self.bwm_header.lemma_header();
        let blob = self.spec_blob(text);
        let at = self.sections();
        let offsets = spec_offsets::<B, E>();
        assert(offsets.encoder == at.encoder);
        assert(offsets.count_header == at.count_header);
        assert(offsets.suffix_header == at.suffix_header);
        assert(offsets.bwm_header == at.bwm_header);
        assert(parsed_magic(blob) == self.magic_number);
        assert(self.magic_number.spec_is_valid());
        assert(self.magic_number.spec_is_supported_version());
        assert(blob_headers_ok::<P, B, E>(blob));
        assert(blob_expected_size::<P, B, E>(blob) == self.spec_blob_size());
    }
}

impl<'a, P: Position, B: Block, E: TextEncoder> FmIndex<'a, P, B, E> {
    /// An index that was loaded from the blob of a builder is the index of
    /// the encoded text, with the text encoder of the builder.
    pub proof fn lemma_loaded(
        &self,
        builder: &FmIndexBuilder<P, B, E>,
        text: Seq<u8>,
    )
        requires
            builder.wf(),
            text.len() == builder.text_len,
            encodes_text(text, &builder.text_encoder, builder.symbol_count as nat),
            self.wf(),
            self.loaded_from(builder.spec_blob(text)),
        ensures
            self.indexes(encode_text(text, &builder.text_encoder)),
            self.text_encoder == builder.text_encoder,
            self.symbol_count() == builder.symbol_count,
            self.suffix_array_view.sampling_ratio == builder.suffix_array_header.sampling_ratio,
            self.count_array_view.kmer_size()
                == builder.count_array_header.lookup_table_kmer_size,
    {
        P::lemma_position();
        B::lemma_block();
        B::lemma_align_size();
        <B::V as Vector>::lemma_vector();
        crate::block::lemma_symbol_limits();
        lemma_pow256_values();
        lemma_raw_size_bound::<E>();
        let align = B::ALIGN_SIZE as nat;
        lemma_align_up(8, align);
        lemma_align_up(24, align);
        lemma_align_up(16, align);
        lemma_align_up(E::spec_raw_size(), align);
        builder.lemma_blob_sections(text);
        builder.lemma_blob_loads(text);
        builder.lemma_encoded(text);
        let blob = builder.spec_blob(text);
        let at = builder.sections();
        let enc = encode_text(text, &builder.text_encoder);
        let sa = suffix_array(enc);
        let bwt = bwt_of(enc, sa);
        let width = P::spec_size();
        let size = B::ALIGN_SIZE as nat;
        let k = B::spec_plane_count();
        let block_len = B::BLOCK_LEN as nat;
        let sigma = builder.symbol_count as nat;
        let blocks = self.bwm_view.blocks_len as nat;
        assert(self.count_array_header == builder.count_array_header);
        assert(self.suffix_array_header == builder.suffix_array_header);
        assert(self.bwm_header == builder.bwm_header);
        assert(spec_header_size::<B, E>() == at.count_body);
        builder.count_array_header.lemma_body::<P, B>(enc);
        assert forall|r: int| 0 <= r < sa.len() implies (#[trigger] sa[r] as nat) < pow256(
            width,
        ) by {}
        builder.suffix_array_header.lemma_body::<P, B>(sa);
        builder.bwm_header.lemma_body::<P, B>(bwt, sentinel_of(sa));
        // The blocks of the matrix hold the symbols of the transformed text.
        let planes = spec_block_planes(bwt, k, block_len, blocks);
        assert(entries(self.bwm_view.blocks@, size, (blocks * k) as nat) == planes);
        assert forall|b: int| 0 <= b < blocks implies #[trigger] self.bwm_view.block_symbols(b)
            == chunk_symbols(block_chunk(bwt, b, block_len), block_len) by {
            let syms = chunk_symbols(block_chunk(bwt, b, block_len), block_len);
            BwmHeader::lemma_chunk_symbols(bwt, b, sigma, k, block_len);
            lemma_spec_planes(syms, k, block_len);
            crate::entries::lemma_mul_le(b, blocks as int, k as int);
            assert forall|v: int| 0 <= v < k implies self.bwm_view.block_planes(b)[v]
                == spec_planes(syms, k, block_len)[v] by {
                lemma_index_split(b, v, k as int);
                assert(entries(self.bwm_view.blocks@, size, (blocks * k) as nat)[b * k + v]
                    == planes[b * k + v]);
                assert(planes[b * k + v] == spec_plane(syms, v as nat, block_len) as nat);
            }
            assert(self.bwm_view.block_planes(b) =~= spec_planes(syms, k, block_len));
        }
    }
}

} // verus!
