//! The index: the headers of a blob and views of its bodies.

use vstd::prelude::*;
use crate::aligned::{align_up, lemma_align_up, Aligned};
use crate::block::Block;
use crate::blocks::vector::Vector;
use crate::builder::{
    header_size_of, headers_fit, lemma_raw_size_bound, spec_blob_size_of, spec_header_size,
};
use crate::bwm::{BwmHeader, BwmView};
use crate::count_array::{CountArrayHeader, CountArrayView};
use crate::endian::{lemma_pow256_values, pow256};
use crate::errors::LoadError;
use crate::header::Header;
use crate::magic_number::MagicNumber;
use crate::position::Position;
use crate::suffix_array::{SuffixArrayHeader, SuffixArrayView};
use crate::text_encoder::TextEncoder;

verus! {

/// FM-index.
///
/// A data structure to count and locate all occurrences of a pattern in a
/// text. It borrows the blob that it was loaded from.
pub struct FmIndex<'a, P: Position, B: Block, E: TextEncoder> {
    // source blob data
    pub source_blob: &'a [u8],
    // headers
    pub magic_number: MagicNumber,
    pub text_encoder: E,
    pub count_array_header: CountArrayHeader,
    pub suffix_array_header: SuffixArrayHeader,
    pub bwm_header: BwmHeader,
    // views
    pub count_array_view: CountArrayView<'a, P>,
    pub suffix_array_view: SuffixArrayView<'a, P>,
    pub bwm_view: BwmView<'a, P, B>,
}

/// The offsets of the sections of a blob: the four headers that follow the
/// magic number, and the three bodies.
pub struct Offsets {
    pub encoder: usize,
    pub count_header: usize,
    pub suffix_header: usize,
    pub bwm_header: usize,
    pub count_body: usize,
}

/// The offsets of the headers of a blob, and the offset of its first body.
pub open spec fn spec_offsets<B: Block, E: TextEncoder>() -> Offsets {
    let align = B::ALIGN_SIZE as nat;
    let encoder = align_up(8, align);
    let count_header = encoder + align_up(E::spec_raw_size(), align);
    let suffix_header = count_header + align_up(24, align);
    let bwm_header = suffix_header + align_up(16, align);
    let count_body = bwm_header + align_up(24, align);
    Offsets {
        encoder: encoder as usize,
        count_header: count_header as usize,
        suffix_header: suffix_header as usize,
        bwm_header: bwm_header as usize,
        count_body: count_body as usize,
    }
}

/// The offsets of the headers of a blob, and the offset of its first body.
pub fn offsets_of<B: Block, E: TextEncoder>() -> (offsets: Offsets)
    ensures
        offsets == spec_offsets::<B, E>(),
        offsets.encoder + E::spec_raw_size() <= offsets.count_header,
        offsets.count_header + 24 <= offsets.suffix_header,
        offsets.suffix_header + 16 <= offsets.bwm_header,
        offsets.bwm_header + 24 <= offsets.count_body,
        8 <= offsets.encoder,
        offsets.count_body == spec_header_size::<B, E>(),
{
    proof {
        B::lemma_align_size();
        lemma_align_up(8, B::ALIGN_SIZE as nat);
        lemma_align_up(24, B::ALIGN_SIZE as nat);
        lemma_align_up(16, B::ALIGN_SIZE as nat);
        lemma_align_up(E::spec_raw_size(), B::ALIGN_SIZE as nat);
        lemma_raw_size_bound::<E>();
    }
    let encoder: usize = B::aligned_size(8);
    let count_header: usize = encoder + B::aligned_size(E::raw_size());
    let suffix_header: usize = count_header + B::aligned_size(24);
    let bwm_header: usize = suffix_header + B::aligned_size(16);
    let count_body: usize = bwm_header + B::aligned_size(24);
    Offsets { encoder, count_header, suffix_header, bwm_header, count_body }
}

/// The magic number at the front of a blob.
pub open spec fn parsed_magic(blob: Seq<u8>) -> MagicNumber {
    MagicNumber::spec_parse(blob.subrange(0, 8))
}

/// The text encoder in the headers of a blob.
pub open spec fn parsed_encoder<B: Block, E: TextEncoder>(blob: Seq<u8>) -> E {
    let at = spec_offsets::<B, E>().encoder as int;
    E::spec_parse(blob.subrange(at, at + E::spec_raw_size()))
}

/// The header of the count array in a blob.
pub open spec fn parsed_count_header<B: Block, E: TextEncoder>(blob: Seq<u8>) -> CountArrayHeader {
    let at = spec_offsets::<B, E>().count_header as int;
    CountArrayHeader::spec_parse(blob.subrange(at, at + 24))
}

/// The header of the suffix array in a blob.
pub open spec fn parsed_suffix_header<B: Block, E: TextEncoder>(blob: Seq<u8>) -> SuffixArrayHeader {
    let at = spec_offsets::<B, E>().suffix_header as int;
    SuffixArrayHeader::spec_parse(blob.subrange(at, at + 16))
}

/// The header of the Burrows-Wheeler matrix in a blob.
pub open spec fn parsed_bwm_header<B: Block, E: TextEncoder>(blob: Seq<u8>) -> BwmHeader {
    let at = spec_offsets::<B, E>().bwm_header as int;
    BwmHeader::spec_parse(blob.subrange(at, at + 24))
}

/// Whether the headers of a blob, which is long enough to hold them, are
/// those of an index: the magic number is that of a supported version, and
/// the headers of the components fit together.
pub open spec fn blob_headers_ok<P: Position, B: Block, E: TextEncoder>(blob: Seq<u8>) -> bool {
    let magic = parsed_magic(blob);
    let count_header = parsed_count_header::<B, E>(blob);
    let suffix_header = parsed_suffix_header::<B, E>(blob);
    let bwm_header = parsed_bwm_header::<B, E>(blob);
    &&& magic.spec_is_valid()
    &&& magic.spec_is_supported_version()
    &&& headers_fit::<P, B, E>(
        suffix_header.text_len as nat,
        count_header.symbol_count as nat,
        &count_header,
        &suffix_header,
        &bwm_header,
    )
}

/// The size that the headers of a blob call for.
pub open spec fn blob_expected_size<P: Position, B: Block, E: TextEncoder>(blob: Seq<u8>) -> nat {
    spec_blob_size_of::<P, B, E>(
        &parsed_count_header::<B, E>(blob),
        &parsed_suffix_header::<B, E>(blob),
        &parsed_bwm_header::<B, E>(blob),
    )
}

/// The error that loading a blob gives, and nothing for a blob that loads.
pub open spec fn spec_load_error<P: Position, B: Block, E: TextEncoder>(blob: Seq<u8>) -> Option<
    LoadError,
> {
    if blob.len() < spec_header_size::<B, E>() {
        Some(LoadError::InvalidFormat)
    } else if !blob_headers_ok::<P, B, E>(blob) {
        Some(LoadError::InvalidFormat)
    } else if blob.len() != blob_expected_size::<P, B, E>(blob) {
        Some(
            LoadError::MismatchedBlobSize(
                blob_expected_size::<P, B, E>(blob) as usize,
                blob.len() as usize,
            ),
        )
    } else {
        None
    }
}

/// Whether the three headers fit together: see `headers_fit`.
pub fn check_headers<P: Position, B: Block, E: TextEncoder>(
    count_array_header: &CountArrayHeader,
    suffix_array_header: &SuffixArrayHeader,
    bwm_header: &BwmHeader,
) -> (ok: bool)
    ensures
        ok == headers_fit::<P, B, E>(
            suffix_array_header.text_len as nat,
            count_array_header.symbol_count as nat,
            count_array_header,
            suffix_array_header,
            bwm_header,
        ),
{
    proof {
        P::lemma_position();
        B::lemma_block();
        <B::V as Vector>::lemma_vector();
        lemma_pow256_values();
    }
    if !count_array_header.is_valid() || suffix_array_header.sampling_ratio < 1
        || !bwm_header.is_valid::<B>() {
        return false;
    }
    if count_array_header.symbol_count != bwm_header.symbol_count {
        return false;
    }
    let text_len: u64 = suffix_array_header.text_len;
    if bwm_header.blocks_len as u128 != (text_len / (B::BLOCK_LEN as u64)) as u128 + 1 {
        return false;
    }
    if P::size() == 4 && text_len > 0xffff_ffff {
        return false;
    }
    let total: u128 = header_size_of::<B, E>() as u128 + count_array_header.wide_body_size::<
        P,
        B,
    >() + suffix_array_header.wide_body_size::<P, B>() + bwm_header.wide_body_size::<P, B>();
    total <= usize::MAX as u128
}

impl<'a, P: Position, B: Block, E: TextEncoder> FmIndex<'a, P, B, E> {
    /// The length of the indexed text.
    pub open spec fn text_len(&self) -> nat {
        self.suffix_array_header.text_len as nat
    }

    /// The number of symbols of the indexed text.
    pub open spec fn symbol_count(&self) -> nat {
        self.bwm_view.symbol_count as nat
    }

    /// Whether the views are those of the headers, and the headers fit together.
    pub open spec fn wf(&self) -> bool {
        &&& headers_fit::<P, B, E>(
            self.text_len(),
            self.symbol_count(),
            &self.count_array_header,
            &self.suffix_array_header,
            &self.bwm_header,
        )
        &&& self.count_array_view.wf()
        &&& self.suffix_array_view.wf()
        &&& self.bwm_view.wf()
        &&& self.count_array_view.base() == self.symbol_count() + 2
        &&& self.count_array_view.kmer_size() == self.count_array_header.lookup_table_kmer_size
        &&& self.suffix_array_view.sampling_ratio == self.suffix_array_header.sampling_ratio
        &&& self.suffix_array_view.len == self.suffix_array_header.spec_len()
        &&& self.bwm_view.blocks_len == self.bwm_header.blocks_len
    }

    /// Whether the index is the one that loading `blob` gives: its headers
    /// are those of the blob, and its views are bound to the bodies of the blob.
    pub open spec fn loaded_from(&self, blob: Seq<u8>) -> bool {
        let count_body_at = spec_header_size::<B, E>();
        let suffix_body_at = count_body_at + self.count_array_header.spec_body_size::<P, B>();
        let bwm_body_at = suffix_body_at + self.suffix_array_header.spec_body_size::<P, B>();
        let count_body = blob.subrange(count_body_at as int, suffix_body_at as int);
        let suffix_body = blob.subrange(suffix_body_at as int, bwm_body_at as int);
        let bwm_body = blob.subrange(bwm_body_at as int, blob.len() as int);
        &&& self.source_blob@ == blob
        &&& self.magic_number == parsed_magic(blob)
        &&& self.text_encoder == parsed_encoder::<B, E>(blob)
        &&& self.count_array_header == parsed_count_header::<B, E>(blob)
        &&& self.suffix_array_header == parsed_suffix_header::<B, E>(blob)
        &&& self.bwm_header == parsed_bwm_header::<B, E>(blob)
        &&& self.count_array_view.counts() == crate::entries::entries(
            count_body,
            P::spec_size(),
            self.count_array_header.base(),
        )
        &&& self.count_array_view.kmer_count_table@ == count_body.subrange(
            (self.count_array_header.spec_count_array_size::<P, B>()
                + self.count_array_header.spec_kmer_multiplier_size::<B>()) as int,
            self.count_array_header.spec_count_array_size::<P, B>()
                + self.count_array_header.spec_kmer_multiplier_size::<B>()
                + self.count_array_header.kmer_count_table_len * P::spec_size(),
        )
        &&& self.suffix_array_view.array@ == suffix_body.subrange(
            0,
            (self.suffix_array_header.spec_len() * P::spec_size()) as int,
        )
        &&& self.bwm_view.sentinel_index as nat == crate::entries::entry_at(
            bwm_body,
            P::spec_size(),
            0,
        )
        &&& self.bwm_view.rank_checkpoints@ == bwm_body.subrange(
            self.bwm_header.spec_sentinel_size::<P, B>() as int,
            self.bwm_header.spec_sentinel_size::<P, B>() + self.bwm_header.rank_checkpoints_len
                * P::spec_size(),
        )
        &&& self.bwm_view.blocks@ == bwm_body.subrange(
            (self.bwm_header.spec_sentinel_size::<P, B>() + self.bwm_header.spec_checkpoints_size::<
                P,
                B,
            >()) as int,
            (self.bwm_header.spec_sentinel_size::<P, B>() + self.bwm_header.spec_checkpoints_size::<
                P,
                B,
            >() + self.bwm_header.spec_blocks_raw_size::<B>()) as int,
        )
    }

    /// Load an index from a blob.
    ///
    /// A blob that is too short for the headers, whose magic number is not
    /// that of a supported version, or whose headers do not fit together, is
    /// no index; a blob of another size than its headers call for is refused
    /// with both sizes.
    pub fn load(blob: &'a [u8]) -> (loaded: Result<Self, LoadError>)
        ensures
            match spec_load_error::<P, B, E>(blob@) {
                Some(error) => loaded == Err::<Self, LoadError>(error),
                None => loaded matches Ok(index) && index.wf() && index.loaded_from(blob@),
            },
    {
        proof {
            P::lemma_position();
            B::lemma_block();
            B::lemma_align_size();
            crate::block::lemma_symbol_limits();
        }
        let offsets: Offsets = offsets_of::<B, E>();
        let actual_size: usize = blob.len();
        if actual_size < offsets.count_body {
            return Err(LoadError::InvalidFormat);
        }
        // Load headers
        let magic_number: MagicNumber = MagicNumber::read_from_blob(blob, 0);
        if !(magic_number.is_valid() && magic_number.is_supported_version()) {
            return Err(LoadError::InvalidFormat);
        }
        let text_encoder: E = E::read_from_blob(blob, offsets.encoder);
        let count_array_header: CountArrayHeader = CountArrayHeader::read_from_blob(
            blob,
            offsets.count_header,
        );
        let suffix_array_header: SuffixArrayHeader = SuffixArrayHeader::read_from_blob(
            blob,
            offsets.suffix_header,
        );
        let bwm_header: BwmHeader = BwmHeader::read_from_blob(blob, offsets.bwm_header);
        if !check_headers::<P, B, E>(&count_array_header, &suffix_array_header, &bwm_header) {
            return Err(LoadError::InvalidFormat);
        }
        // Check body size
        let count_body_size: usize = CountArrayView::<P>::aligned_body_size::<B>(
            &count_array_header,
        );
        let suffix_body_size: usize = SuffixArrayView::<P>::aligned_body_size::<B>(
            &suffix_array_header,
        );
        let bwm_body_size: usize = BwmView::<P, B>::aligned_body_size(&bwm_header);
        let expected_size: usize = offsets.count_body + count_body_size + suffix_body_size
            + bwm_body_size;
        if actual_size != expected_size {
            return Err(LoadError::MismatchedBlobSize(expected_size, actual_size));
        }
        // Get views
        let count_body_at: usize = offsets.count_body;
        let suffix_body_at: usize = count_body_at + count_body_size;
        let bwm_body_at: usize = suffix_body_at + suffix_body_size;
        let count_array_view = CountArrayView::<P>::load_from_body::<B>(
            &count_array_header,
            vstd::slice::slice_subrange(blob, count_body_at, suffix_body_at),
        );
        let suffix_array_view = SuffixArrayView::<P>::load_from_body::<B>(
            &suffix_array_header,
            vstd::slice::slice_subrange(blob, suffix_body_at, bwm_body_at),
        );
        let bwm_view = BwmView::<P, B>::load_from_body(
            &bwm_header,
            vstd::slice::slice_subrange(blob, bwm_body_at, actual_size),
        );
        Ok(
            FmIndex {
                source_blob: blob,
                magic_number,
                text_encoder,
                count_array_header,
                suffix_array_header,
                bwm_header,
                count_array_view,
                suffix_array_view,
                bwm_view,
            },
        )
    }

    /// Returns the blob from which this index was loaded.
    pub fn blob(&self) -> (blob: &'a [u8])
        ensures
            blob@ == self.source_blob@,
    {
        self.source_blob
    }
}

} // verus!
