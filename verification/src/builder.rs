//! The builder: it sizes the blob and writes the index into it.

use std::marker::PhantomData;
use vstd::prelude::*;
use vstd::arithmetic::power::pow;
use crate::aligned::{align_up, lemma_align_up, Aligned};
use crate::block::Block;
use crate::blocks::vector::Vector;
use crate::build_config::lookup_table_config::{is_largest_kmer_size, LookupTableConfig};
use crate::build_config::suffix_array_config::SuffixArrayConfig;
use crate::bwm::BwmHeader;
use crate::count_array::{checked_pow, encode_text, encodes_text, CountArrayHeader};
use crate::endian::{fill_zero, lemma_pow256_values, overlay, pow256, zeros};
use crate::errors::BuildError;
use crate::header::Header;
use crate::magic_number::MagicNumber;
use crate::position::Position;
use crate::suffix_array::{bwt_of, lemma_bwt_encoded, sentinel_of, SuffixArrayHeader};
use crate::suffix_sort::suffix_array;
use crate::text_encoder::TextEncoder;
use crate::text_encoders::encoding_table::{symbol_sets, table_entry, EncodingTable};

verus! {

/// `<[u8]>::as_ptr`, taken as a number: the address of the first byte of the
/// blob. Nothing is claimed of it.
#[verifier::external_body]
fn base_address(blob: &[u8]) -> (address: usize) {
    blob.as_ptr() as usize
}

/// The size of the headers of a blob in bytes, each with its padding: the
/// magic number, the text encoder and the headers of the three components.
pub open spec fn spec_header_size<B: Block, E: TextEncoder>() -> nat {
    align_up(8, B::ALIGN_SIZE as nat) + align_up(E::spec_raw_size(), B::ALIGN_SIZE as nat)
        + align_up(24, B::ALIGN_SIZE as nat) + align_up(16, B::ALIGN_SIZE as nat) + align_up(
        24,
        B::ALIGN_SIZE as nat,
    )
}

/// The size of the headers of a blob in bytes.
pub fn header_size_of<B: Block, E: TextEncoder>() -> (size: usize)
    ensures
        size == spec_header_size::<B, E>(),
        size <= 1024,
{
    proof {
        B::lemma_align_size();
        lemma_align_up(8, B::ALIGN_SIZE as nat);
        lemma_align_up(24, B::ALIGN_SIZE as nat);
        lemma_align_up(16, B::ALIGN_SIZE as nat);
        lemma_align_up(E::spec_raw_size(), B::ALIGN_SIZE as nat);
        lemma_raw_size_bound::<E>();
    }
    B::aligned_size(8) + B::aligned_size(E::raw_size()) + B::aligned_size(24) + B::aligned_size(16)
        + B::aligned_size(24)
}

/// No header takes more than 256 bytes.
pub proof fn lemma_raw_size_bound<E: TextEncoder>()
    ensures
        E::spec_raw_size() <= 256,
{
    let e: E = arbitrary();
    e.lemma_header();
}

/// The size in bytes of the blob of an index with the given headers.
pub open spec fn spec_blob_size_of<P: Position, B: Block, E: TextEncoder>(
    count_array_header: &CountArrayHeader,
    suffix_array_header: &SuffixArrayHeader,
    bwm_header: &BwmHeader,
) -> nat {
    spec_header_size::<B, E>() + count_array_header.spec_body_size::<P, B>()
        + suffix_array_header.spec_body_size::<P, B>() + bwm_header.spec_body_size::<P, B>()
}

/// Whether the three headers describe one index of a text of `text_len`
/// symbols out of `symbol_count`, whose positions fit the position width and
/// whose blob fits in memory.
pub open spec fn headers_fit<P: Position, B: Block, E: TextEncoder>(
    text_len: nat,
    symbol_count: nat,
    count_array_header: &CountArrayHeader,
    suffix_array_header: &SuffixArrayHeader,
    bwm_header: &BwmHeader,
) -> bool {
    &&& count_array_header.valid()
    &&& suffix_array_header.valid()
    &&& bwm_header.valid::<B>()
    &&& count_array_header.symbol_count == symbol_count
    &&& bwm_header.symbol_count == symbol_count
    &&& suffix_array_header.text_len == text_len
    &&& bwm_header.blocks_len == text_len / (B::BLOCK_LEN as nat) + 1
    &&& text_len < pow256(P::spec_size())
    &&& spec_blob_size_of::<P, B, E>(count_array_header, suffix_array_header, bwm_header)
        <= usize::MAX
}

/// Whether an index of a text of `text_len` symbols out of `symbol_count`,
/// with k-mers of size `k` and the sampling ratio `ratio`, can be laid out:
/// the positions fit the position width, and the sizes fit the machine.
pub open spec fn layout_fits<P: Position, B: Block, E: TextEncoder>(
    text_len: nat,
    symbol_count: nat,
    k: nat,
    ratio: nat,
) -> bool {
    &&& text_len < pow256(P::spec_size())
    &&& pow(symbol_count as int + 2, k) <= u64::MAX
    &&& (text_len / (B::BLOCK_LEN as nat) + 1) * symbol_count <= u64::MAX
    &&& spec_header_size::<B, E>() + align_up(
        (symbol_count + 2) * P::spec_size(),
        B::ALIGN_SIZE as nat,
    ) + align_up(k * 8, B::ALIGN_SIZE as nat) + align_up(
        (pow(symbol_count as int + 2, k) * P::spec_size()) as nat,
        B::ALIGN_SIZE as nat,
    ) + align_up((text_len / ratio + 1) * P::spec_size(), B::ALIGN_SIZE as nat) + align_up(
        P::spec_size(),
        B::ALIGN_SIZE as nat,
    ) + align_up(
        (text_len / (B::BLOCK_LEN as nat) + 1) * symbol_count * P::spec_size(),
        B::ALIGN_SIZE as nat,
    ) + align_up(
        (text_len / (B::BLOCK_LEN as nat) + 1) * (B::spec_plane_count() * B::ALIGN_SIZE as nat),
        B::ALIGN_SIZE as nat,
    ) <= usize::MAX
}

/// Whether `k` is the k-mer size that the configuration asks for.
pub open spec fn kmer_size_of<P: Position>(
    config: LookupTableConfig,
    symbol_count: nat,
    k: nat,
) -> bool {
    match config {
        LookupTableConfig::NotUsed => k == 1,
        LookupTableConfig::MaxMemory(bytes) => is_largest_kmer_size::<P>(
            symbol_count,
            bytes as nat,
            k,
        ),
        LookupTableConfig::KmerSize(size) => size >= 2 && k == size,
    }
}

/// Whether the lookup table configuration is a valid one.
pub open spec fn lookup_table_config_valid(config: LookupTableConfig) -> bool {
    match config {
        LookupTableConfig::KmerSize(size) => size >= 2,
        _ => true,
    }
}

/// Builder for an index.
pub struct FmIndexBuilder<P: Position, B: Block, E: TextEncoder> {
    // Unchangeable after the builder is made
    pub text_len: usize,
    pub symbol_count: u32,
    pub magic_number: MagicNumber,
    pub text_encoder: E,
    // Configs
    pub suffix_array_config: SuffixArrayConfig,
    pub lookup_table_config: LookupTableConfig,
    // Changeable after the builder is made
    pub count_array_header: CountArrayHeader,
    pub suffix_array_header: SuffixArrayHeader,
    pub bwm_header: BwmHeader,
    pub position: PhantomData<P>,
    pub block: PhantomData<B>,
}

impl<P: Position, B: Block, E: TextEncoder> FmIndexBuilder<P, B, E> {
    /// Whether the headers of the builder are those of its text length,
    /// symbol count and configuration.
    pub open spec fn wf(&self) -> bool {
        &&& self.symbol_count <= B::MAX_SYMBOL
        &&& self.magic_number.0@ == crate::magic_number::magic_bytes()
        &&& headers_fit::<P, B, E>(
            self.text_len as nat,
            self.symbol_count as nat,
            &self.count_array_header,
            &self.suffix_array_header,
            &self.bwm_header,
        )
        &&& self.suffix_array_config.spec_sampling_ratio() == Some(
            self.suffix_array_header.sampling_ratio,
        )
        &&& kmer_size_of::<P>(
            self.lookup_table_config,
            self.symbol_count as nat,
            self.count_array_header.lookup_table_kmer_size as nat,
        )
    }

    /// The size of the blob in bytes.
    pub open spec fn spec_blob_size(&self) -> nat {
        spec_blob_size_of::<P, B, E>(
            &self.count_array_header,
            &self.suffix_array_header,
            &self.bwm_header,
        )
    }

    /// Makes the headers for the given text length, symbol count and configuration.
    fn generate_headers(
        text_len: usize,
        symbol_count: u32,
        suffix_array_config: &SuffixArrayConfig,
        lookup_table_config: &LookupTableConfig,
    ) -> (headers: Result<(CountArrayHeader, SuffixArrayHeader, BwmHeader), BuildError>)
        requires
            symbol_count <= B::MAX_SYMBOL,
        ensures
            match headers {
                Ok((count_array_header, suffix_array_header, bwm_header)) => {
                    &&& headers_fit::<P, B, E>(
                        text_len as nat,
                        symbol_count as nat,
                        &count_array_header,
                        &suffix_array_header,
                        &bwm_header,
                    )
                    &&& suffix_array_config.spec_sampling_ratio() == Some(
                        suffix_array_header.sampling_ratio,
                    )
                    &&& kmer_size_of::<P>(
                        *lookup_table_config,
                        symbol_count as nat,
                        count_array_header.lookup_table_kmer_size as nat,
                    )
                    &&& layout_fits::<P, B, E>(
                        text_len as nat,
                        symbol_count as nat,
                        count_array_header.lookup_table_kmer_size as nat,
                        suffix_array_header.sampling_ratio as nat,
                    )
                },
                Err(error) => {
                    &&& error is InvalidConfig
                    &&& (suffix_array_config.spec_sampling_ratio() is None
                        || !lookup_table_config_valid(*lookup_table_config) || forall|k: nat|
                        kmer_size_of::<P>(*lookup_table_config, symbol_count as nat, k)
                            ==> !layout_fits::<P, B, E>(
                            text_len as nat,
                            symbol_count as nat,
                            k,
                            suffix_array_config.spec_sampling_ratio()->0 as nat,
                        ))
                },
            },
    {
        proof {
            P::lemma_position();
            B::lemma_block();
            B::lemma_align_size();
            <B::V as Vector>::lemma_vector();
            crate::block::lemma_symbol_limits();
            lemma_pow256_values();
        }
        let lookup_table_kmer_size: u32 = match lookup_table_config.kmer_size::<P>(symbol_count) {
            Ok(size) => size,
            Err(error) => {
                return Err(error);
            },
        };
        let suffix_array_sampling_ratio: u32 = match suffix_array_config.sampling_ratio() {
            Ok(ratio) => ratio,
            Err(error) => {
                return Err(error);
            },
        };
        proof {
            lemma_kmer_size_unique::<P>(
                *lookup_table_config,
                symbol_count as nat,
                lookup_table_kmer_size as nat,
            );
        }
        let position_fits: bool = P::size() == 8 || text_len as u64 <= 0xffff_ffff;
        if !position_fits {
            return Err(Self::too_large());
        }
        if checked_pow(symbol_count as u64 + 2, lookup_table_kmer_size).is_none() {
            return Err(Self::too_large());
        }
        let block_count: u64 = text_len as u64 / (B::BLOCK_LEN as u64) + 1;
        proof {
            assert(block_count * symbol_count <= 0xffff_ffff_ffff_ffff * 128) by (nonlinear_arith)
                requires
                    block_count <= 0xffff_ffff_ffff_ffff,
                    symbol_count <= 128,
            ;
        }
        if block_count as u128 * symbol_count as u128 > u64::MAX as u128 {
            return Err(Self::too_large());
        }
        let count_array_header = CountArrayHeader::new(symbol_count, lookup_table_kmer_size);
        let suffix_array_header = SuffixArrayHeader::new(
            text_len as u64,
            suffix_array_sampling_ratio,
        );
        let bwm_header = BwmHeader::new::<P, B>(text_len as u64, symbol_count);
        let total: u128 = header_size_of::<B, E>() as u128 + count_array_header.wide_body_size::<
            P,
            B,
        >() + suffix_array_header.wide_body_size::<P, B>() + bwm_header.wide_body_size::<P, B>();
        proof {
            assert((text_len as nat / (B::BLOCK_LEN as nat) + 1) * symbol_count * P::spec_size()
                == bwm_header.rank_checkpoints_len as nat * P::spec_size());
            assert(pow(symbol_count as int + 2, lookup_table_kmer_size as nat) * P::spec_size()
                == count_array_header.kmer_count_table_len as nat * P::spec_size());
        }
        if total > usize::MAX as u128 {
            return Err(Self::too_large());
        }
        Ok((count_array_header, suffix_array_header, bwm_header))
    }

    /// The error for an index that does not fit the position width or the machine.
    fn too_large() -> (error: BuildError)
        ensures
            error is InvalidConfig,
    {
        BuildError::InvalidConfig(
            "The index does not fit the position width or the addressable memory".to_string(),
        )
    }

    /// A builder for a text of `text_len` bytes that `text_encoder` maps to
    /// `symbol_count` symbols, with the default configuration: every entry
    /// of the suffix array, and no lookup table.
    pub fn new(text_len: usize, symbol_count: u32, text_encoder: E) -> (builder: Result<
        Self,
        BuildError,
    >)
        ensures
            symbol_count > B::MAX_SYMBOL ==> (builder matches Err(
                BuildError::SymbolCountOver(max, given),
            ) && max == B::MAX_SYMBOL && given == symbol_count),
            symbol_count <= B::MAX_SYMBOL && !layout_fits::<P, B, E>(
                text_len as nat,
                symbol_count as nat,
                1,
                1,
            ) ==> (builder matches Err(BuildError::InvalidConfig(_))),
            symbol_count <= B::MAX_SYMBOL && layout_fits::<P, B, E>(
                text_len as nat,
                symbol_count as nat,
                1,
                1,
            ) ==> (builder matches Ok(made) && made.wf() && made.text_len == text_len
                && made.symbol_count == symbol_count && made.text_encoder == text_encoder
                && made.suffix_array_config == SuffixArrayConfig::Uncompressed
                && made.lookup_table_config == LookupTableConfig::NotUsed),
    {
        let suffix_array_config = SuffixArrayConfig::Uncompressed;
        let lookup_table_config = LookupTableConfig::NotUsed;
        if symbol_count > B::MAX_SYMBOL {
            return Err(BuildError::SymbolCountOver(B::MAX_SYMBOL, symbol_count));
        }
        match Self::generate_headers(
            text_len,
            symbol_count,
            &suffix_array_config,
            &lookup_table_config,
        ) {
            Err(error) => {
                proof {
                    assert(kmer_size_of::<P>(lookup_table_config, symbol_count as nat, 1));
                    assert(suffix_array_config.spec_sampling_ratio() == Some(1u32));
                }
                Err(error)
            },
            Ok((count_array_header, suffix_array_header, bwm_header)) => Ok(
                FmIndexBuilder {
                    text_len,
                    symbol_count,
                    magic_number: MagicNumber::new(),
                    text_encoder,
                    suffix_array_config,
                    lookup_table_config,
                    count_array_header,
                    suffix_array_header,
                    bwm_header,
                    position: PhantomData,
                    block: PhantomData,
                },
            ),
        }
    }

    /// Sets the configuration of the lookup table.
    pub fn set_lookup_table_config(self, config: LookupTableConfig) -> (builder: Result<
        Self,
        BuildError,
    >)
        requires
            self.wf(),
        ensures
            match builder {
                Ok(made) => {
                    &&& made.wf()
                    &&& made.lookup_table_config == config
                    &&& made.suffix_array_config == self.suffix_array_config
                    &&& made.text_len == self.text_len
                    &&& made.symbol_count == self.symbol_count
                    &&& made.text_encoder == self.text_encoder
                    &&& lookup_table_config_valid(config)
                },
                Err(error) => {
                    &&& error is InvalidConfig
                    &&& (!lookup_table_config_valid(config) || forall|k: nat|
                        kmer_size_of::<P>(config, self.symbol_count as nat, k) ==> !layout_fits::<
                            P,
                            B,
                            E,
                        >(
                            self.text_len as nat,
                            self.symbol_count as nat,
                            k,
                            self.suffix_array_header.sampling_ratio as nat,
                        ))
                },
            },
    {
        match Self::generate_headers(
            self.text_len,
            self.symbol_count,
            &self.suffix_array_config,
            &config,
        ) {
            Err(error) => Err(error),
            Ok((count_array_header, suffix_array_header, bwm_header)) => Ok(
                FmIndexBuilder {
                    text_len: self.text_len,
                    symbol_count: self.symbol_count,
                    magic_number: self.magic_number,
                    text_encoder: self.text_encoder,
                    suffix_array_config: self.suffix_array_config,
                    lookup_table_config: config,
                    count_array_header,
                    suffix_array_header,
                    bwm_header,
                    position: PhantomData,
                    block: PhantomData,
                },
            ),
        }
    }

    /// Sets the configuration of the suffix array.
    pub fn set_suffix_array_config(self, config: SuffixArrayConfig) -> (builder: Result<
        Self,
        BuildError,
    >)
        requires
            self.wf(),
        ensures
            match builder {
                Ok(made) => {
                    &&& made.wf()
                    &&& made.suffix_array_config == config
                    &&& made.lookup_table_config == self.lookup_table_config
                    &&& made.text_len == self.text_len
                    &&& made.symbol_count == self.symbol_count
                    &&& made.text_encoder == self.text_encoder
                    &&& config.spec_sampling_ratio() is Some
                },
                Err(error) => {
                    &&& error is InvalidConfig
                    &&& (config.spec_sampling_ratio() is None || forall|k: nat|
                        kmer_size_of::<P>(self.lookup_table_config, self.symbol_count as nat, k)
                            ==> !layout_fits::<P, B, E>(
                            self.text_len as nat,
                            self.symbol_count as nat,
                            k,
                            config.spec_sampling_ratio()->0 as nat,
                        ))
                },
            },
    {
        match Self::generate_headers(
            self.text_len,
            self.symbol_count,
            &config,
            &self.lookup_table_config,
        ) {
            Err(error) => Err(error),
            Ok((count_array_header, suffix_array_header, bwm_header)) => Ok(
                FmIndexBuilder {
                    text_len: self.text_len,
                    symbol_count: self.symbol_count,
                    magic_number: self.magic_number,
                    text_encoder: self.text_encoder,
                    suffix_array_config: config,
                    lookup_table_config: self.lookup_table_config,
                    count_array_header,
                    suffix_array_header,
                    bwm_header,
                    position: PhantomData,
                    block: PhantomData,
                },
            ),
        }
    }

    /// Calculate the total size of the blob in bytes.
    pub fn blob_size(&self) -> (size: usize)
        requires
            self.wf(),
        ensures
            size == self.spec_blob_size(),
    {
        self.header_size() + self.body_size()
    }

    /// Header size in bytes.
    fn header_size(&self) -> (size: usize)
        ensures
            size == spec_header_size::<B, E>(),
            size <= 1024,
    {
        header_size_of::<B, E>()
    }

    /// Body size in bytes.
    fn body_size(&self) -> (size: usize)
        requires
            self.wf(),
        ensures
            size == self.spec_blob_size() - spec_header_size::<B, E>(),
    {
        let total: u128 = self.count_array_header.wide_body_size::<P, B>()
            + self.suffix_array_header.wide_body_size::<P, B>() + self.bwm_header.wide_body_size::<
            P,
            B,
        >();
        total as usize
    }
}

impl<P: Position, B: Block, E: TextEncoder> FmIndexBuilder<P, B, E> {
    /// The blob of the index of `text`: the headers and the bodies of the
    /// three components at their aligned offsets, and zero bytes between them.
    pub open spec fn spec_blob(&self, text: Seq<u8>) -> Seq<u8> {
        let align = B::ALIGN_SIZE as nat;
        let enc = encode_text(text, &self.text_encoder);
        let sa = suffix_array(enc);
        let encoder_at = align_up(8, align);
        let count_header_at = encoder_at + align_up(E::spec_raw_size(), align);
        let suffix_header_at = count_header_at + align_up(24, align);
        let bwm_header_at = suffix_header_at + align_up(16, align);
        let count_body_at = bwm_header_at + align_up(24, align);
        let suffix_body_at = count_body_at + self.count_array_header.spec_body_size::<P, B>();
        let bwm_body_at = suffix_body_at + self.suffix_array_header.spec_body_size::<P, B>();
        overlay(
            overlay(
                overlay(
                    overlay(
                        overlay(
                            overlay(
                                overlay(
                                    overlay(
                                        zeros(self.spec_blob_size()),
                                        0,
                                        self.magic_number.spec_bytes(),
                                    ),
                                    encoder_at as int,
                                    self.text_encoder.spec_bytes(),
                                ),
                                count_header_at as int,
                                self.count_array_header.spec_bytes(),
                            ),
                            suffix_header_at as int,
                            self.suffix_array_header.spec_bytes(),
                        ),
                        bwm_header_at as int,
                        self.bwm_header.spec_bytes(),
                    ),
                    count_body_at as int,
                    self.count_array_header.spec_body::<P, B>(enc),
                ),
                suffix_body_at as int,
                self.suffix_array_header.spec_body::<P, B>(sa),
            ),
            bwm_body_at as int,
            self.bwm_header.spec_body::<P, B>(bwt_of(enc, sa), sentinel_of(sa)),
        )
    }

    /// What `build` returns and leaves in the blob, for a blob whose first
    /// byte is `misalignment` bytes behind an aligned address.
    pub open spec fn spec_build(
        &self,
        text: Seq<u8>,
        before: Seq<u8>,
        misalignment: usize,
        built: Result<(), BuildError>,
        after: Seq<u8>,
    ) -> bool {
        if text.len() != self.text_len {
            built matches Err(BuildError::UnmatchedTextLength(expected, given)) && expected
                == self.text_len && given == text.len() && after == before
        } else if misalignment != 0 {
            built matches Err(BuildError::NotAlignedBlob(required, offset)) && required
                == B::ALIGN_SIZE && offset == misalignment && after == before
        } else if before.len() != self.spec_blob_size() {
            built matches Err(BuildError::InvalidBlobSize(expected, given)) && expected
                == self.spec_blob_size() && given == before.len() && after == before
        } else {
            built is Ok && after == self.spec_blob(text)
        }
    }

    /// Build the index of `text` and write it to the provided blob slice.
    ///
    /// The blob must start at an aligned address, which only the machine
    /// knows; `build_at` says what is done for each offset from such an address.
    pub fn build(&self, text: Vec<u8>, blob: &mut [u8]) -> (built: Result<(), BuildError>)
        requires
            self.wf(),
            encodes_text(text@, &self.text_encoder, self.symbol_count as nat),
        ensures
            exists|misalignment: usize|
                misalignment < B::ALIGN_SIZE && self.spec_build(
                    text@,
                    old(blob)@,
                    misalignment,
                    built,
                    final(blob)@,
                ),
    {
        proof {
            B::lemma_align_size();
        }
        let required_alignment: usize = B::ALIGN_SIZE;
        let offset: usize = base_address(blob) % required_alignment;
        self.build_at(text, blob, offset)
    }

    /// Build the index of `text` and write it to the provided blob slice,
    /// whose first byte is `misalignment` bytes behind an aligned address.
    pub fn build_at(&self, text: Vec<u8>, blob: &mut [u8], misalignment: usize) -> (built: Result<
        (),
        BuildError,
    >)
        requires
            self.wf(),
            encodes_text(text@, &self.text_encoder, self.symbol_count as nat),
        ensures
            self.spec_build(text@, old(blob)@, misalignment, built, final(blob)@),
    {
        let mut text = text;
        // Check text length
        if text.len() != self.text_len {
            return Err(BuildError::UnmatchedTextLength(self.text_len, text.len()));
        }
        // Check alignment
        if misalignment != 0 {
            return Err(BuildError::NotAlignedBlob(B::ALIGN_SIZE, misalignment));
        }
        // Check blob size
        let blob_size: usize = self.blob_size();
        let blob_size_actual: usize = blob.len();
        if blob_size != blob_size_actual {
            return Err(BuildError::InvalidBlobSize(blob_size, blob_size_actual));
        }
        proof {
            P::lemma_position();
            B::lemma_block();
            B::lemma_align_size();
            crate::block::lemma_symbol_limits();
            lemma_raw_size_bound::<E>();
            lemma_align_up(8, B::ALIGN_SIZE as nat);
            lemma_align_up(24, B::ALIGN_SIZE as nat);
            lemma_align_up(16, B::ALIGN_SIZE as nat);
            lemma_align_up(E::spec_raw_size(), B::ALIGN_SIZE as nat);
            self.magic_number.lemma_header();
            self.text_encoder.lemma_header();
            self.count_array_header.lemma_header();
            self.suffix_array_header.lemma_header();
            self.bwm_header.lemma_header();
        }
        let ghost source = text@;
        fill_zero(blob, 0, blob_size);
        assert(blob@ =~= zeros(blob_size as nat));
        // 1) Write headers
        let mut at: usize = 0;
        self.magic_number.write_to_blob(blob, at);
        at = at + B::aligned_size(MagicNumber::raw_size());
        self.text_encoder.write_to_blob(blob, at);
        at = at + B::aligned_size(E::raw_size());
        self.count_array_header.write_to_blob(blob, at);
        at = at + B::aligned_size(CountArrayHeader::raw_size());
        self.suffix_array_header.write_to_blob(blob, at);
        at = at + B::aligned_size(SuffixArrayHeader::raw_size());
        self.bwm_header.write_to_blob(blob, at);
        at = at + B::aligned_size(BwmHeader::raw_size());
        // 2) Build & write bodies
        // Count array: encode the text, and count its symbols and k-mers
        // during the encoding.
        self.count_array_header.count_and_encode_text::<P, B, E>(
            &mut text,
            &self.text_encoder,
            blob,
            at,
        );
        at = at + self.count_array_header.wide_body_size::<P, B>() as usize;
        // Suffix array: sort the suffixes, transform the text, and get the
        // place of the sentinel.
        let ghost enc = text@;
        let sentinel_index: P = self.suffix_array_header.write_to_blob_and_get_sentinel_index::<
            P,
            B,
        >(&mut text, blob, at);
        at = at + self.suffix_array_header.wide_body_size::<P, B>() as usize;
        // Burrows-Wheeler matrix
        proof {
            lemma_bwt_encoded(enc, suffix_array(enc), self.symbol_count as nat);
        }
        self.bwm_header.encode_bwm_body::<P, B>(text, sentinel_index, blob, at);
        Ok(())
    }
}

impl<P: Position, B: Block> FmIndexBuilder<P, B, EncodingTable> {
    /// A builder with the encoding table of the given symbol sets and one
    /// more class for every other byte, with the default configuration.
    pub fn init(text_len: usize, symbols: &[&[u8]]) -> (builder: Result<Self, BuildError>)
        requires
            symbols@.len() <= 255,
        ensures
            symbols@.len() + 1 > B::MAX_SYMBOL ==> (builder matches Err(
                BuildError::SymbolCountOver(max, given),
            ) && max == B::MAX_SYMBOL && given == symbols@.len() + 1),
            symbols@.len() + 1 <= B::MAX_SYMBOL && !layout_fits::<P, B, EncodingTable>(
                text_len as nat,
                (symbols@.len() + 1) as nat,
                1,
                1,
            ) ==> (builder matches Err(BuildError::InvalidConfig(_))),
            symbols@.len() + 1 <= B::MAX_SYMBOL && layout_fits::<P, B, EncodingTable>(
                text_len as nat,
                (symbols@.len() + 1) as nat,
                1,
                1,
            ) ==> (builder matches Ok(made) && made.wf() && made.text_len == text_len
                && made.symbol_count == symbols@.len() + 1 && (forall|b: u8|
                made.text_encoder.spec_idx_of(b) == table_entry(
                    symbol_sets(symbols),
                    symbols@.len() as u8,
                    b,
                ))),
    {
        let symbol_count: u32 = symbols.len() as u32 + 1;
        let encoding_table = EncodingTable::from_symbols_with_wildcard(symbols);
        Self::new(text_len, symbol_count, encoding_table)
    }
}

/// A configuration asks for one k-mer size only.
pub proof fn lemma_kmer_size_unique<P: Position>(config: LookupTableConfig, symbol_count: nat, k: nat)
    requires
        kmer_size_of::<P>(config, symbol_count, k),
    ensures
        forall|other: nat| kmer_size_of::<P>(config, symbol_count, other) ==> other == k,
{
    assert forall|other: nat| kmer_size_of::<P>(config, symbol_count, other) implies other == k by {
        if let LookupTableConfig::MaxMemory(bytes) = config {
            if other < k {
                lemma_table_bytes_increases::<P>(symbol_count, other + 1, k);
            }
            if k < other {
                lemma_table_bytes_increases::<P>(symbol_count, k + 1, other);
            }
        }
    }
}

/// A table of longer k-mers is not smaller.
pub proof fn lemma_table_bytes_increases<P: Position>(symbol_count: nat, a: nat, b: nat)
    requires
        a <= b,
    ensures
        crate::build_config::lookup_table_config::table_bytes::<P>(symbol_count, a)
            <= crate::build_config::lookup_table_config::table_bytes::<P>(symbol_count, b),
{
    P::lemma_position();
    vstd::arithmetic::power::lemma_pow_increases(symbol_count + 2, a, b);
    let x = pow(symbol_count as int + 2, a);
    let y = pow(symbol_count as int + 2, b);
    assert(x * P::spec_size() <= y * P::spec_size()) by (nonlinear_arith)
        requires
            x <= y,
            P::spec_size() >= 0,
    ;
}

} // verus!
