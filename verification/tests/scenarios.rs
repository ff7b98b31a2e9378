use sview_fmindex::blocks::{Block2, Block3};
use sview_fmindex::build_config::{LookupTableConfig, SuffixArrayConfig};
use sview_fmindex::text_encoders::{EncodingTable, PassThrough};
use sview_fmindex::{BuildError, FmIndex, FmIndexBuilder, Position, TextEncoder};

const TEXT: &[u8] = b"CTCCGTACACCTGTTTCGTATCGGAXXYYZZ";

fn build_blob(text: &[u8], symbols: &[&[u8]], lt: LookupTableConfig, sa: SuffixArrayConfig) -> Vec<u8> {
    let builder = FmIndexBuilder::<u32, Block2<u64>, EncodingTable>::init(text.len(), symbols)
        .unwrap()
        .set_lookup_table_config(lt)
        .unwrap()
        .set_suffix_array_config(sa)
        .unwrap();
    let mut blob = vec![0u8; builder.blob_size()];
    builder.build(text.to_vec(), &mut blob).unwrap();
    blob
}

fn sorted(mut locations: Vec<u32>) -> Vec<u32> {
    locations.sort();
    locations
}

#[test]
fn locates_ta_at_two_positions() {
    let blob = build_blob(TEXT, &[b"Aa", b"Cc", b"Gg"], LookupTableConfig::NotUsed, SuffixArrayConfig::Uncompressed);
    let index = FmIndex::<u32, Block2<u64>, EncodingTable>::load(&blob).unwrap();
    assert_eq!(sorted(index.locate(b"TA")), vec![5, 18]);
    assert_eq!(index.count(b"TA"), 2);
}

#[test]
fn unindexed_bytes_are_one_wildcard_class() {
    let blob = build_blob(TEXT, &[b"Aa", b"Cc", b"Gg"], LookupTableConfig::NotUsed, SuffixArrayConfig::Uncompressed);
    let index = FmIndex::<u32, Block2<u64>, EncodingTable>::load(&blob).unwrap();
    assert_eq!(sorted(index.locate(b"UNDEF")), vec![25, 26]);
    assert_eq!(sorted(index.locate(b"XXXXX")), vec![25, 26]);
    assert_eq!(sorted(index.locate(b"!@#$%")), vec![25, 26]);
}

#[test]
fn single_symbol_is_found_in_both_cases() {
    let blob = build_blob(TEXT, &[b"Aa", b"Cc", b"Gg"], LookupTableConfig::KmerSize(3), SuffixArrayConfig::Compressed(3));
    let index = FmIndex::<u32, Block2<u64>, EncodingTable>::load(&blob).unwrap();
    let expected: Vec<u32> = TEXT
        .iter()
        .enumerate()
        .filter(|(_, &b)| b == b'C' || b == b'c')
        .map(|(i, _)| i as u32)
        .collect();
    assert_eq!(expected, vec![0, 2, 3, 7, 9, 10, 16, 21]);
    assert_eq!(sorted(index.locate(b"C")), expected);
    assert_eq!(sorted(index.locate(b"c")), expected);
    assert_eq!(index.count(b"C"), 8);
}

#[test]
fn one_symbol_text_overlapping_occurrences() {
    let symbols: &[&[u8]] = &[b"A"];
    let table = EncodingTable::from_symbols(symbols);
    assert_eq!(table.symbol_count(), 1);
    let text = b"AAAA".to_vec();
    let builder = FmIndexBuilder::<u32, Block2<u32>, EncodingTable>::new(text.len(), 1, table).unwrap();
    let mut blob = vec![0u8; builder.blob_size()];
    builder.build(text, &mut blob).unwrap();
    let index = FmIndex::<u32, Block2<u32>, EncodingTable>::load(&blob).unwrap();
    assert_eq!(sorted(index.locate(b"AA")), vec![0, 1, 2]);
    assert_eq!(index.count(b"AA"), 3);
    assert_eq!(sorted(index.locate(b"AAAA")), vec![0]);
}

#[test]
fn text_of_length_one() {
    for ratio in [SuffixArrayConfig::Uncompressed, SuffixArrayConfig::Compressed(2)] {
        for lookup in [LookupTableConfig::NotUsed, LookupTableConfig::KmerSize(2)] {
            let blob = build_blob(b"C", &[b"Aa", b"Cc", b"Gg"], lookup, ratio);
            let index = FmIndex::<u32, Block2<u64>, EncodingTable>::load(&blob).unwrap();
            assert_eq!(index.locate(b"C"), vec![0]);
            assert_eq!(index.count(b"C"), 1);
            assert_eq!(index.count(b"A"), 0);
            assert_eq!(index.locate(b"A"), Vec::<u32>::new());
        }
    }
}

#[test]
fn pattern_longer_than_text_is_nowhere() {
    let blob = build_blob(b"ACGT", &[b"Aa", b"Cc", b"Gg"], LookupTableConfig::KmerSize(6), SuffixArrayConfig::Compressed(2));
    let index = FmIndex::<u32, Block2<u64>, EncodingTable>::load(&blob).unwrap();
    assert_eq!(index.count(b"ACGTA"), 0);
    assert_eq!(index.locate(b"ACGTA"), Vec::<u32>::new());
    assert_eq!(index.count_rev_iter(b"ACGTA".iter().rev().cloned()), 0);
    assert_eq!(index.locate_rev_iter(b"ACGTACGTACGT".iter().rev().cloned()), Vec::<u32>::new());
    assert_eq!(index.count(b"ACGT"), 1);
}

#[test]
fn pattern_as_long_as_the_kmer_needs_no_further_step() {
    let blob = build_blob(TEXT, &[b"Aa", b"Cc", b"Gg"], LookupTableConfig::KmerSize(2), SuffixArrayConfig::Uncompressed);
    let index = FmIndex::<u32, Block2<u64>, EncodingTable>::load(&blob).unwrap();
    let (range, cursor) = index
        .count_array_view
        .get_initial_pos_range_and_idx_of_pattern(b"TA", &index.text_encoder);
    assert_eq!(cursor, 0);
    assert_eq!(range.1 - range.0, 2);
    let (_, cursor) = index
        .count_array_view
        .get_initial_pos_range_and_idx_of_pattern(b"GTA", &index.text_encoder);
    assert_eq!(cursor, 1);
}

#[test]
fn pattern_shorter_than_the_kmer_uses_a_partial_kmer() {
    let blob = build_blob(TEXT, &[b"Aa", b"Cc", b"Gg"], LookupTableConfig::KmerSize(4), SuffixArrayConfig::Compressed(2));
    let index = FmIndex::<u32, Block2<u64>, EncodingTable>::load(&blob).unwrap();
    let (range, cursor) = index
        .count_array_view
        .get_initial_pos_range_and_idx_of_pattern(b"TA", &index.text_encoder);
    assert_eq!(cursor, 0);
    assert_eq!(range.1 - range.0, 2);
    assert_eq!(sorted(index.locate(b"TA")), vec![5, 18]);
    // The last symbols of the text open k-mers that run behind its end.
    assert_eq!(sorted(index.locate(b"ZZ")), vec![13, 14, 25, 26, 27, 28, 29]);
    assert_eq!(sorted(index.locate(b"Z")), vec![1, 5, 11, 13, 14, 15, 18, 20, 25, 26, 27, 28, 29, 30]);
}

#[test]
fn sampling_ratio_one_stores_every_entry() {
    let blob = build_blob(b"GATTACA", &[b"Aa", b"Cc", b"Gg"], LookupTableConfig::NotUsed, SuffixArrayConfig::Uncompressed);
    let index = FmIndex::<u32, Block2<u64>, EncodingTable>::load(&blob).unwrap();
    // Suffixes in order: A, ACA, ATTACA, CA, GATTACA, TACA, TTACA.
    let rows: Vec<u32> = (0u32..7).map(|row| index.suffix_array_view.get_location_of(row)).collect();
    assert_eq!(rows, vec![6, 4, 1, 5, 0, 3, 2]);
    assert_eq!(index.suffix_array_view.sampling_ratio(), 1);
    assert_eq!(index.bwm_view.sentinel_index, 5);
    assert_eq!(sorted(index.locate(b"A")), vec![1, 4, 6]);
}

#[test]
fn sampled_suffix_array_walks_back_to_a_sample() {
    let blob = build_blob(b"GATTACA", &[b"Aa", b"Cc", b"Gg"], LookupTableConfig::NotUsed, SuffixArrayConfig::Compressed(3));
    let index = FmIndex::<u32, Block2<u64>, EncodingTable>::load(&blob).unwrap();
    assert_eq!(index.suffix_array_view.len, 3);
    assert_eq!(index.suffix_array_view.get_location_of(0), 6);
    assert_eq!(index.suffix_array_view.get_location_of(3), 5);
    assert_eq!(index.suffix_array_view.get_location_of(6), 2);
    assert_eq!(sorted(index.locate(b"A")), vec![1, 4, 6]);
    assert_eq!(sorted(index.locate(b"TTA")), vec![2]);
    assert_eq!(sorted(index.locate(b"GATTACA")), vec![0]);
}

#[test]
fn count_is_the_number_of_locations() {
    let blob = build_blob(TEXT, &[b"Aa", b"Cc", b"Gg"], LookupTableConfig::KmerSize(2), SuffixArrayConfig::Compressed(4));
    let index = FmIndex::<u32, Block2<u64>, EncodingTable>::load(&blob).unwrap();
    for pattern in [&b"T"[..], b"TA", b"CG", b"GT", b"AAAA", b"ZZ", b"CTCCGTACACCTGTTTCGTATCGGAXXYYZZ"] {
        assert_eq!(index.count(pattern) as usize, index.locate(pattern).len());
    }
}

#[test]
fn reverse_iterator_and_slice_agree() {
    let blob = build_blob(TEXT, &[b"Aa", b"Cc", b"Gg"], LookupTableConfig::KmerSize(3), SuffixArrayConfig::Compressed(2));
    let index = FmIndex::<u32, Block2<u64>, EncodingTable>::load(&blob).unwrap();
    for pattern in [&b"T"[..], b"TA", b"CG", b"GTA", b"CGTA", b"ZZ", b"CCGTACACC", b"A?"] {
        assert_eq!(index.count(pattern), index.count_rev_iter(pattern.iter().rev().cloned()));
        assert_eq!(
            sorted(index.locate(pattern)),
            sorted(index.locate_rev_iter(pattern.iter().rev().cloned()))
        );
        assert_eq!(index.count_pattern(pattern), index.count_text_rev_iter(pattern.iter().rev().cloned()));
        assert_eq!(
            sorted(index.locate_pattern(pattern)),
            sorted(index.locate_pattern_rev_iter(pattern.iter().rev().cloned()))
        );
        assert_eq!(index.count_pattern_rev_iter(pattern.iter().rev().cloned()), index.count_text(pattern));
        assert_eq!(
            sorted(index.locate_text(pattern)),
            sorted(index.locate_text_rev_iter(pattern.iter().rev().cloned()))
        );
    }
}

#[test]
fn buffers_are_appended_to() {
    let blob = build_blob(TEXT, &[b"Aa", b"Cc", b"Gg"], LookupTableConfig::NotUsed, SuffixArrayConfig::Compressed(2));
    let index = FmIndex::<u32, Block2<u64>, EncodingTable>::load(&blob).unwrap();
    let mut buffer: Vec<u32> = vec![99];
    index.locate_to_buffer(b"TA", &mut buffer);
    assert_eq!(buffer.len(), 3);
    assert_eq!(buffer[0], 99);
    assert_eq!(sorted(buffer[1..].to_vec()), vec![5, 18]);
    index.locate_rev_iter_to_buffer(b"AT".iter().cloned(), &mut buffer);
    assert_eq!(buffer.len(), 5);
    index.locate_indices_to_buffer(&[3, 0], &mut buffer);
    assert_eq!(buffer.len(), 7);
    index.locate_indices_rev_iter_to_buffer([0u8, 3].iter().cloned(), &mut buffer);
    assert_eq!(buffer.len(), 9);
    assert_eq!(sorted(buffer[7..].to_vec()), vec![5, 18]);
}

#[test]
fn indices_are_symbols_as_they_are() {
    let blob = build_blob(TEXT, &[b"Aa", b"Cc", b"Gg"], LookupTableConfig::KmerSize(2), SuffixArrayConfig::Compressed(2));
    let index = FmIndex::<u32, Block2<u64>, EncodingTable>::load(&blob).unwrap();
    // T is in no symbol set: its index is 3. A is 0.
    assert_eq!(index.get_encoding_table()[b'T' as usize], 3);
    assert_eq!(index.get_encoding_table()[b'a' as usize], 0);
    assert_eq!(sorted(index.locate_indices(&[3, 0])), vec![5, 18]);
    assert_eq!(index.count_indices(&[3, 0]), 2);
    assert_eq!(index.count_indices_rev_iter([0u8, 3].iter().cloned()), 2);
    assert_eq!(sorted(index.locate_indices_rev_iter([0u8, 3].iter().cloned())), vec![5, 18]);
    // An index that is no symbol occurs nowhere.
    assert_eq!(index.count_indices(&[4]), 0);
    assert_eq!(index.count_indices(&[0, 200]), 0);
    assert_eq!(index.locate_indices(&[255, 0]), Vec::<u32>::new());
}

#[test]
fn pass_through_index_of_encoded_text_agrees() {
    let symbols: &[&[u8]] = &[b"Aa", b"Cc", b"Gg"];
    let table = EncodingTable::from_symbols_with_wildcard(symbols);
    let encoded: Vec<u8> = TEXT.iter().map(|&b| table.idx_of(b)).collect();
    let plain = FmIndexBuilder::<u64, Block3<u32>, PassThrough>::new(encoded.len(), 4, PassThrough)
        .unwrap()
        .set_lookup_table_config(LookupTableConfig::KmerSize(2))
        .unwrap();
    let mut plain_blob = vec![0u8; plain.blob_size()];
    plain.build(encoded, &mut plain_blob).unwrap();
    let plain_index = FmIndex::<u64, Block3<u32>, PassThrough>::load(&plain_blob).unwrap();
    let blob = build_blob(TEXT, symbols, LookupTableConfig::NotUsed, SuffixArrayConfig::Compressed(5));
    let index = FmIndex::<u32, Block2<u64>, EncodingTable>::load(&blob).unwrap();
    for pattern in [&b"T"[..], b"TA", b"CG", b"GTA", b"ZZ", b"CCGTACACC"] {
        let encoded_pattern: Vec<u8> = pattern.iter().map(|&b| table.idx_of(b)).collect();
        let mut plain_locations: Vec<u64> = plain_index.locate(&encoded_pattern);
        plain_locations.sort();
        let locations: Vec<u64> = sorted(index.locate(pattern)).into_iter().map(|x| x.as_u64()).collect();
        assert_eq!(plain_locations, locations);
        assert_eq!(plain_index.count(&encoded_pattern), index.count(pattern) as u64);
    }
}

#[test]
fn two_builds_give_the_same_bytes() {
    let first = build_blob(TEXT, &[b"Aa", b"Cc", b"Gg"], LookupTableConfig::KmerSize(3), SuffixArrayConfig::Compressed(2));
    let builder = FmIndexBuilder::<u32, Block2<u64>, EncodingTable>::init(TEXT.len(), &[b"Aa", b"Cc", b"Gg"])
        .unwrap()
        .set_suffix_array_config(SuffixArrayConfig::Compressed(2))
        .unwrap()
        .set_lookup_table_config(LookupTableConfig::KmerSize(3))
        .unwrap();
    // The second blob is full of other bytes before the build.
    let mut second = vec![0xa5u8; builder.blob_size()];
    assert!(matches!(builder.build_at(TEXT.to_vec(), &mut second, 0), Ok(())));
    assert_eq!(first, second);
}

#[test]
fn blob_layout_is_bit_exact() {
    let blob = build_blob(TEXT, &[b"Aa", b"Cc", b"Gg"], LookupTableConfig::NotUsed, SuffixArrayConfig::Uncompressed);
    // Headers: 8 + 256 + 24 + 16 + 24; bodies: (24 + 8 + 24) + 128 + (8 + 16 + 16).
    assert_eq!(blob.len(), 552);
    assert_eq!(&blob[0..8], b"FI00\0\0\0\0");
    // Encoding table: A and a are 0, C is 1, G is 2, every other byte is 3.
    assert_eq!(blob[8 + b'A' as usize], 0);
    assert_eq!(blob[8 + b'a' as usize], 0);
    assert_eq!(blob[8 + b'C' as usize], 1);
    assert_eq!(blob[8 + b'G' as usize], 2);
    assert_eq!(blob[8 + b'T' as usize], 3);
    assert_eq!(blob[8], 3);
    // Count array header: 4 symbols, k-mers of size 1, 6 counts, 1 multiplier, 6 table entries.
    assert_eq!(&blob[264..288], &[4, 0, 0, 0, 1, 0, 0, 0, 6, 0, 0, 0, 1, 0, 0, 0, 6, 0, 0, 0, 0, 0, 0, 0]);
    // Suffix array header: 31 bytes of text, sampling ratio 1, padding.
    assert_eq!(&blob[288..304], &[31, 0, 0, 0, 0, 0, 0, 0, 1, 0, 0, 0, 0, 0, 0, 0]);
    // Matrix header: 4 symbols, padding, 4 rank checkpoints, 1 block.
    assert_eq!(&blob[304..328], &[4, 0, 0, 0, 0, 0, 0, 0, 4, 0, 0, 0, 0, 0, 0, 0, 1, 0, 0, 0, 0, 0, 0, 0]);
    // Count array: nothing below the sentinel, then 4 of A, 12 up to C,
    // 17 up to G, 31 up to the wildcard, and 31 in the spare entry.
    assert_eq!(&blob[328..352], &[0, 0, 0, 0, 4, 0, 0, 0, 12, 0, 0, 0, 17, 0, 0, 0, 31, 0, 0, 0, 31, 0, 0, 0]);
    // The k-mer multiplier of a 1-mer.
    assert_eq!(&blob[352..360], &[1, 0, 0, 0, 0, 0, 0, 0]);
    // The k-mer table of 1-mers is the count array.
    assert_eq!(&blob[360..384], &[0, 0, 0, 0, 4, 0, 0, 0, 12, 0, 0, 0, 17, 0, 0, 0, 31, 0, 0, 0, 31, 0, 0, 0]);
    // The rank checkpoints of the only block are zero.
    assert_eq!(&blob[520..536], &[0u8; 16]);
}

#[test]
fn planes_of_a_block_are_little_endian_with_position_zero_in_the_top_bit() {
    // Text "CA" with symbols A = 0, C = 1, wildcard = 2: rows A (1), CA (0);
    // the transformed text is the last symbol A, then nothing for the row
    // of position 0, then C for the row of A.
    let builder = FmIndexBuilder::<u32, Block2<u32>, EncodingTable>::init(2, &[b"A", b"C"]).unwrap();
    let mut blob = vec![0u8; builder.blob_size()];
    builder.build(b"CA".to_vec(), &mut blob).unwrap();
    let size = blob.len();
    // The block is the last 8 bytes: plane 0 holds bit 0 of the symbols
    // A = 0 and C = 1 at the positions 0 and 1, plane 1 holds bit 1.
    assert_eq!(&blob[size - 8..size - 4], &[0, 0, 0, 0x40]);
    assert_eq!(&blob[size - 4..], &[0, 0, 0, 0]);
    let index = FmIndex::<u32, Block2<u32>, EncodingTable>::load(&blob).unwrap();
    assert_eq!(index.bwm_view.sentinel_index, 2);
    assert_eq!(index.bwm_view.get_next_rank(0, 0), 1);
    assert_eq!(index.bwm_view.get_next_rank(2, 1), 1);
    assert_eq!(index.bwm_view.get_next_rank(2, 0), 1);
    assert_eq!(index.bwm_view.get_pre_rank_and_symidx(0), Some((0, 1)));
    assert_eq!(index.bwm_view.get_pre_rank_and_symidx(1), None);
    assert_eq!(index.count_array_view.get_precount(1), 1);
    assert_eq!(index.blob().len(), size);
}

#[test]
fn kmer_size_for_a_memory_limit() {
    // 2 symbols: base 4; a table of k-mers takes 4^k entries of 4 bytes.
    assert_eq!(LookupTableConfig::MaxMemory(63).kmer_size::<u32>(2).unwrap(), 1);
    assert_eq!(LookupTableConfig::MaxMemory(64).kmer_size::<u32>(2).unwrap(), 2);
    assert_eq!(LookupTableConfig::MaxMemory(1000).kmer_size::<u32>(2).unwrap(), 3);
    assert_eq!(LookupTableConfig::MaxMemory(1024).kmer_size::<u32>(2).unwrap(), 4);
    assert_eq!(LookupTableConfig::MaxMemory(1024).kmer_size::<u64>(2).unwrap(), 3);
    assert_eq!(LookupTableConfig::largest_kmer_size_below_max_memory_size::<u64>(2, 127), 1);
    assert_eq!(LookupTableConfig::KmerSize(7).kmer_size::<u32>(2).unwrap(), 7);
    assert_eq!(SuffixArrayConfig::Uncompressed.sampling_ratio().unwrap(), 1);
    assert_eq!(SuffixArrayConfig::Compressed(9).sampling_ratio().unwrap(), 9);
    assert!(matches!(SuffixArrayConfig::Compressed(1).sampling_ratio(), Err(BuildError::InvalidConfig(_))));
    assert!(matches!(SuffixArrayConfig::Compressed(0).sampling_ratio(), Err(BuildError::InvalidConfig(_))));
    assert_eq!(SuffixArrayConfig::default(), SuffixArrayConfig::Uncompressed);
    assert_eq!(LookupTableConfig::default(), LookupTableConfig::NotUsed);
}

#[test]
fn encoding_tables() {
    let last_is_wildcard = EncodingTable::from_symbols(&[b"Aa", b"Cc", b"Gg"]);
    assert_eq!(last_is_wildcard.symbol_count(), 3);
    assert_eq!(last_is_wildcard.idx_of(b'A'), 0);
    assert_eq!(last_is_wildcard.idx_of(b'c'), 1);
    assert_eq!(last_is_wildcard.idx_of(b'G'), 2);
    assert_eq!(last_is_wildcard.idx_of(b'T'), 2);
    let with_wildcard = EncodingTable::from_symbols_with_wildcard(&[b"Aa", b"Cc", b"Gg"]);
    assert_eq!(with_wildcard.symbol_count(), 4);
    assert_eq!(with_wildcard.idx_of(b'g'), 2);
    assert_eq!(with_wildcard.idx_of(b'T'), 3);
    assert_eq!(with_wildcard.get_encoding_table().len(), 256);
    assert_eq!(EncodingTable::new(&[b"Aa", b"Cc", b"Gg"]).idx_of(0), 3);
    // A byte in two sets is in the later one.
    let twice = EncodingTable::from_symbols(&[b"AB", b"BC", b"D"]);
    assert_eq!(twice.idx_of(b'A'), 0);
    assert_eq!(twice.idx_of(b'B'), 1);
    assert_eq!(twice.idx_of(b'C'), 1);
    assert_eq!(twice.idx_of(b'Z'), 2);
    assert_eq!(PassThrough.idx_of(77), 77);
}

#[test]
fn positions_convert() {
    assert_eq!(<u32 as Position>::ZERO, 0);
    assert_eq!(<u64 as Position>::ONE, 1);
    assert_eq!(<u32 as Position>::BITS, 32);
    assert_eq!(<u64 as Position>::BITS, 64);
    assert_eq!(<u32 as Position>::size(), 4);
    assert_eq!(<u64 as Position>::size(), 8);
    assert_eq!(<u32 as Position>::from_u64(0x1_0000_0005), 5);
    assert_eq!(<u64 as Position>::from_u64(0x1_0000_0005), 0x1_0000_0005);
    assert_eq!(<u64 as Position>::as_u32(0x1_0000_0005), 5);
    assert_eq!(<u32 as Position>::from_i64(-1), u32::MAX);
    assert_eq!(<u64 as Position>::from_i64(-2), u64::MAX - 1);
    assert_eq!(<u32 as Position>::from_i64(7), 7);
    assert_eq!(<u32 as Position>::from_usize(9).as_usize(), 9);
    assert_eq!(<u32 as Position>::from_u32(3).as_u64(), 3);
    assert_eq!(<u32 as Position>::div_rem_with_u32(17, 5), (3, 2));
    assert_eq!(<u64 as Position>::div_rem_with_u32(0x1_0000_0000, 3), (0x5555_5555, 1));
    assert_eq!(<u32 as Position>::as_vec_in_range(&3, &7), vec![3, 4, 5, 6]);
    assert_eq!(<u64 as Position>::as_vec_in_range(&7, &3), Vec::<u64>::new());
}
