//! What holds of every index: the laws that relate building, loading,
//! counting and locating.

use vstd::prelude::*;
use crate::block::Block;
use vstd::arithmetic::power::pow;
use crate::builder::FmIndexBuilder;
use crate::bwm::min_nat;
use crate::count_array::{
    all_symbols, digits_of, encode_pattern, encode_text, encodes_text, spec_initial_range,
    table_before,
};
use crate::endian::pow256;
use crate::kmer::code_of;
use crate::errors::BuildError;
use crate::fm_index::{spec_load_error, FmIndex};
use crate::occurrences::occurs_at;
use crate::position::Position;
use crate::search::occurrences;
use crate::text_encoder::TextEncoder;
use crate::text_encoders::pass_through::PassThrough;

verus! {

/// Whether the pattern stands in the text at position `j`, where two bytes
/// are the same when the encoder gives them the same symbol.
pub open spec fn matches_at<E: TextEncoder>(
    text: Seq<u8>,
    pattern: Seq<u8>,
    encoder: &E,
    j: int,
) -> bool {
    &&& 0 <= j
    &&& j + pattern.len() <= text.len()
    &&& forall|i: int|
        0 <= i < pattern.len() ==> encoder.spec_idx_of(#[trigger] text[j + i])
            == encoder.spec_idx_of(pattern[i])
}

/// Whether `locations` lists the positions with the property `at`, each of
/// them once: sorted, it is the sorted list of those positions.
pub open spec fn lists_exactly(locations: Seq<nat>, at: spec_fn(int) -> bool) -> bool {
    &&& forall|i: int| 0 <= i < locations.len() ==> at(#[trigger] locations[i] as int)
    &&& forall|j: int|
        #[trigger] at(j) ==> exists|i: int| 0 <= i < locations.len() && #[trigger] locations[i] == j
    &&& forall|i: int, j: int|
        0 <= i < j < locations.len() ==> #[trigger] locations[i] != #[trigger] locations[j]
}

/// A pattern stands in the encoded text where it matches the text.
pub proof fn lemma_matches_encoded<E: TextEncoder>(
    text: Seq<u8>,
    pattern: Seq<u8>,
    encoder: &E,
    symbol_count: nat,
    j: int,
)
    requires
        encodes_text(text, encoder, symbol_count),
        symbol_count <= 128,
    ensures
        occurs_at(encode_text(text, encoder), digits_of(encode_pattern(pattern, encoder)), j)
            == matches_at(text, pattern, encoder, j),
{
    let enc = encode_text(text, encoder);
    let syms = encode_pattern(pattern, encoder);
    let d = digits_of(syms);
    if 0 <= j && j + pattern.len() <= text.len() {
        if matches_at(text, pattern, encoder, j) {
            assert forall|i: int| 0 <= i < d.len() implies enc.subrange(j, j + d.len())[i]
                == d[i] by {
                assert(encoder.spec_idx_of(text[j + i]) == encoder.spec_idx_of(pattern[i]));
                assert((encoder.spec_idx_of(text[j + i]) as nat) < symbol_count);
            }
            assert(enc.subrange(j, j + d.len()) =~= d);
        }
        if occurs_at(enc, d, j) {
            assert forall|i: int| 0 <= i < pattern.len() implies encoder.spec_idx_of(
                #[trigger] text[j + i],
            ) == encoder.spec_idx_of(pattern[i]) by {
                assert(enc.subrange(j, j + d.len())[i] == d[i]);
                assert((encoder.spec_idx_of(text[j + i]) as nat) < symbol_count);
            }
        }
    }
}

/// Round trip: the blob that a builder makes of a text loads, and the
/// loaded index locates every pattern that is not empty at the positions
/// at which the pattern matches the text, each position once.
pub proof fn law_round_trip<P: Position, B: Block, E: TextEncoder>(
    builder: &FmIndexBuilder<P, B, E>,
    text: Seq<u8>,
    index: &FmIndex<P, B, E>,
    pattern: Seq<u8>,
)
    requires
        builder.wf(),
        text.len() == builder.text_len,
        text.len() >= 1,
        encodes_text(text, &builder.text_encoder, builder.symbol_count as nat),
        index.wf(),
        index.loaded_from(builder.spec_blob(text)),
        pattern.len() >= 1,
    ensures
        spec_load_error::<P, B, E>(builder.spec_blob(text)) is None,
        index.text_encoder == builder.text_encoder,
        lists_exactly(
            index.spec_locations(encode_pattern(pattern, &index.text_encoder)),
            |j: int| matches_at(text, pattern, &builder.text_encoder, j),
        ),
        index.spec_count(encode_pattern(pattern, &index.text_encoder)) == occurrences(
            encode_text(text, &builder.text_encoder),
            digits_of(encode_pattern(pattern, &builder.text_encoder)),
        ),
{
    B::lemma_block();
    crate::block::lemma_symbol_limits();
    builder.lemma_blob_loads(text);
    index.lemma_loaded(builder, text);
    let enc = encode_text(text, &builder.text_encoder);
    let syms = encode_pattern(pattern, &builder.text_encoder);
    index.lemma_pos_range(enc, syms);
    index.lemma_locations(enc, syms);
    let locations = index.spec_locations(syms);
    let at = |j: int| matches_at(text, pattern, &builder.text_encoder, j);
    assert forall|i: int| 0 <= i < locations.len() implies at(#[trigger] locations[i] as int) by {
        lemma_matches_encoded(
            text,
            pattern,
            &builder.text_encoder,
            builder.symbol_count as nat,
            locations[i] as int,
        );
    }
    assert forall|j: int| #[trigger] at(j) implies exists|i: int|
        0 <= i < locations.len() && #[trigger] locations[i] == j by {
        lemma_matches_encoded(text, pattern, &builder.text_encoder, builder.symbol_count as nat, j);
    }
}

/// Count-locate consistency: an index counts as many occurrences of a
/// pattern as it locates.
pub proof fn law_count_is_number_of_locations<P: Position, B: Block, E: TextEncoder>(
    index: &FmIndex<P, B, E>,
    syms: Seq<u8>,
)
    ensures
        index.spec_count(syms) == index.spec_locations(syms).len(),
{
}

/// Iterator-slice equivalence: a pattern that is given last byte first is
/// counted and located as the pattern itself. The queries with a reverse
/// iterator answer for the reverse of what the iterator gives, and the
/// queries with a slice for the slice.
pub proof fn law_reverse_iterator_equivalence<P: Position, B: Block, E: TextEncoder>(
    index: &FmIndex<P, B, E>,
    pattern: Seq<u8>,
    pattern_rev: Seq<u8>,
)
    requires
        pattern_rev == pattern.reverse(),
    ensures
        index.spec_count(encode_pattern(pattern_rev.reverse(), &index.text_encoder))
            == index.spec_count(encode_pattern(pattern, &index.text_encoder)),
        index.spec_locations(encode_pattern(pattern_rev.reverse(), &index.text_encoder))
            == index.spec_locations(encode_pattern(pattern, &index.text_encoder)),
{
    assert(pattern_rev.reverse() =~= pattern);
}

/// Config invariance and block-width invariance: two indexes of one text
/// with one text encoder locate a pattern at the same positions, whatever
/// the configurations of the suffix array and of the lookup table, the
/// position width and the block shape of each.
pub proof fn law_configuration_invariance<
    P1: Position,
    B1: Block,
    P2: Position,
    B2: Block,
    E: TextEncoder,
>(
    first_builder: &FmIndexBuilder<P1, B1, E>,
    first: &FmIndex<P1, B1, E>,
    second_builder: &FmIndexBuilder<P2, B2, E>,
    second: &FmIndex<P2, B2, E>,
    text: Seq<u8>,
    pattern: Seq<u8>,
)
    requires
        first_builder.wf(),
        second_builder.wf(),
        first_builder.text_len == text.len(),
        second_builder.text_len == text.len(),
        first_builder.text_encoder == second_builder.text_encoder,
        first_builder.symbol_count == second_builder.symbol_count,
        text.len() >= 1,
        encodes_text(text, &first_builder.text_encoder, first_builder.symbol_count as nat),
        first.wf(),
        first.loaded_from(first_builder.spec_blob(text)),
        second.wf(),
        second.loaded_from(second_builder.spec_blob(text)),
        pattern.len() >= 1,
    ensures
        first.spec_count(encode_pattern(pattern, &first.text_encoder)) == second.spec_count(
            encode_pattern(pattern, &second.text_encoder),
        ),
        lists_exactly(
            first.spec_locations(encode_pattern(pattern, &first.text_encoder)),
            |j: int| matches_at(text, pattern, &first_builder.text_encoder, j),
        ),
        lists_exactly(
            second.spec_locations(encode_pattern(pattern, &second.text_encoder)),
            |j: int| matches_at(text, pattern, &first_builder.text_encoder, j),
        ),
{
    law_round_trip(first_builder, text, first, pattern);
    law_round_trip(second_builder, text, second, pattern);
}

/// Encoder equivalence: the index of a text with a text encoder and the
/// index of the encoded text with the pass-through encoder locate a
/// pattern and the encoded pattern at the same positions.
pub proof fn law_encoder_equivalence<P: Position, B: Block, E: TextEncoder>(
    builder: &FmIndexBuilder<P, B, E>,
    index: &FmIndex<P, B, E>,
    plain_builder: &FmIndexBuilder<P, B, PassThrough>,
    plain_index: &FmIndex<P, B, PassThrough>,
    text: Seq<u8>,
    pattern: Seq<u8>,
)
    requires
        builder.wf(),
        plain_builder.wf(),
        builder.text_len == text.len(),
        plain_builder.text_len == text.len(),
        builder.symbol_count == plain_builder.symbol_count,
        text.len() >= 1,
        encodes_text(text, &builder.text_encoder, builder.symbol_count as nat),
        index.wf(),
        index.loaded_from(builder.spec_blob(text)),
        plain_index.wf(),
        plain_index.loaded_from(
            plain_builder.spec_blob(encode_pattern(text, &builder.text_encoder)),
        ),
        pattern.len() >= 1,
    ensures
        index.spec_count(encode_pattern(pattern, &index.text_encoder)) == plain_index.spec_count(
            encode_pattern(pattern, &builder.text_encoder),
        ),
        lists_exactly(
            index.spec_locations(encode_pattern(pattern, &index.text_encoder)),
            |j: int| matches_at(text, pattern, &builder.text_encoder, j),
        ),
        lists_exactly(
            plain_index.spec_locations(encode_pattern(pattern, &builder.text_encoder)),
            |j: int| matches_at(text, pattern, &builder.text_encoder, j),
        ),
{
    B::lemma_block();
    crate::block::lemma_symbol_limits();
    let symbols = encode_pattern(text, &builder.text_encoder);
    let syms = encode_pattern(pattern, &builder.text_encoder);
    let enc = encode_text(text, &builder.text_encoder);
    law_round_trip(builder, text, index, pattern);
    // The pass-through encoder encodes the symbols of the text as the
    // text encoder encodes the text.
    assert(encodes_text(symbols, &PassThrough, plain_builder.symbol_count as nat)) by {
        assert forall|i: int| 0 <= i < symbols.len() implies (PassThrough.spec_idx_of(
            #[trigger] symbols[i],
        ) as nat) < plain_builder.symbol_count by {
            assert((builder.text_encoder.spec_idx_of(text[i]) as nat) < builder.symbol_count);
        }
    }
    assert(encode_text(symbols, &PassThrough) =~= enc);
    plain_builder.lemma_blob_loads(symbols);
    plain_index.lemma_loaded(plain_builder, symbols);
    plain_index.lemma_pos_range(enc, syms);
    plain_index.lemma_locations(enc, syms);
    let locations = plain_index.spec_locations(syms);
    let at = |j: int| matches_at(text, pattern, &builder.text_encoder, j);
    assert forall|i: int| 0 <= i < locations.len() implies at(#[trigger] locations[i] as int) by {
        lemma_matches_encoded(
            text,
            pattern,
            &builder.text_encoder,
            builder.symbol_count as nat,
            locations[i] as int,
        );
    }
    assert forall|j: int| #[trigger] at(j) implies exists|i: int|
        0 <= i < locations.len() && #[trigger] locations[i] == j by {
        lemma_matches_encoded(text, pattern, &builder.text_encoder, builder.symbol_count as nat, j);
    }
}

/// Determinism: two builds of one text with one builder leave the same
/// bytes in their blobs, whatever the blobs held before.
pub proof fn law_build_is_deterministic<P: Position, B: Block, E: TextEncoder>(
    builder: &FmIndexBuilder<P, B, E>,
    text: Seq<u8>,
    first_before: Seq<u8>,
    first_misalignment: usize,
    first_built: Result<(), BuildError>,
    first_after: Seq<u8>,
    second_before: Seq<u8>,
    second_misalignment: usize,
    second_built: Result<(), BuildError>,
    second_after: Seq<u8>,
)
    requires
        builder.spec_build(text, first_before, first_misalignment, first_built, first_after),
        builder.spec_build(text, second_before, second_misalignment, second_built, second_after),
        first_built is Ok,
        second_built is Ok,
    ensures
        first_after == second_after,
        first_after == builder.spec_blob(text),
{
}

/// A pattern that is longer than the text is counted zero times and
/// located nowhere.
pub proof fn law_long_pattern<P: Position, B: Block, E: TextEncoder>(
    index: &FmIndex<P, B, E>,
    syms: Seq<u8>,
)
    requires
        syms.len() > index.text_len(),
    ensures
        index.spec_count(syms) == 0,
        index.spec_locations(syms).len() == 0,
{
}

/// A pattern of symbols that is as long as the k-mers of the lookup table
/// has its first range straight from the table, at the number that the
/// pattern spells, and no symbol of it is left to be searched.
pub proof fn law_kmer_sized_pattern(table: Seq<nat>, base: nat, k: nat, syms: Seq<u8>)
    requires
        syms.len() == k,
        all_symbols(syms, base - 2),
    ensures
        spec_initial_range(table, base, k, syms) == (
            (
                table_before(table, code_of(digits_of(syms), base) as int),
                table[code_of(digits_of(syms), base) as int],
            ),
            0nat,
        ),
{
    assert(syms.subrange(0, k as int) =~= syms);
}

/// A pattern of symbols that is shorter than the k-mers of the lookup table
/// has the range of all the k-mers that it opens: from the first of them,
/// which has the pattern in its high digits and zeros behind it, up to the
/// last one; no symbol of it is left to be searched.
pub proof fn law_short_pattern(table: Seq<nat>, base: nat, k: nat, syms: Seq<u8>)
    requires
        syms.len() < k,
        all_symbols(syms, base - 2),
    ensures
        ({
            let gap = pow(base as int, (k - syms.len()) as nat);
            let first = code_of(digits_of(syms), base) * gap;
            spec_initial_range(table, base, k, syms) == (
                (table_before(table, first), table[first + gap - 1]),
                0nat,
            )
        }),
{
}

/// With the sampling ratio 1 every row of the suffix array is a sampled
/// row: the walk from a row takes no step and gives the sample of the row.
pub proof fn law_full_sampling<P: Position, B: Block, E: TextEncoder>(
    index: &FmIndex<P, B, E>,
    pos: nat,
    fuel: nat,
)
    requires
        index.suffix_array_view.sampling_ratio == 1,
    ensures
        index.spec_walk(pos, 0, fuel) == min_nat(
            index.suffix_array_view.spec_location_of(pos),
            (pow256(P::spec_size()) - 1) as nat,
        ),
{
}

} // verus!
