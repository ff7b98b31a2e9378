use sview_fmindex::blocks::Block2;
use sview_fmindex::build_config::LookupTableConfig;
use sview_fmindex::text_encoders::EncodingTable;
use sview_fmindex::{FmIndex, FmIndexBuilder};

#[test]
#[allow(unused_variables)]
fn mod_example() {
    // (1) Define symbols to use
    let symbols: &[&[u8]] = &[b"Aa", b"Cc", b"Gg", b"Tt"];
    let encoding_table = EncodingTable::from_symbols(symbols);
    let symbol_count = encoding_table.symbol_count(); // 4

    // (2) Build index
    let text = b"CTCCGTACACCTGTTTCGTATCGGAXXYYZZ".to_vec();
    let builder = FmIndexBuilder::<u32, Block2<u64>, EncodingTable>::new(
        text.len(),
        symbol_count,
        encoding_table,
    )
    .unwrap();
    // You have to prepare a blob to build the index.
    let blob_size = builder.blob_size();
    let mut blob = vec![0; blob_size];
    // Build the fm-index to the blob.
    builder.build(text, &mut blob).unwrap();
    // Load the fm-index from the blob.
    let fm_index = FmIndex::<u32, Block2<u64>, EncodingTable>::load(&blob[..]).unwrap();

    // (3) Match with pattern
    let pattern = b"TA";
    //   - count
    let count = fm_index.count(pattern);
    assert_eq!(count, 2);
    //   - locate
    let mut locations = fm_index.locate(pattern);
    locations.sort(); // The locations may not be in order.
    assert_eq!(locations, vec![5, 18]);

    // When using EncodingTable, the last symbol is treated as wild card.
    // In the text, X, Y, and Z can match any other unindexed character
    let mut locations = fm_index.locate(b"UNDEF");
    locations.sort();
    // Using the b"XXXXX", b"YYYYY", or b"!@#$%" gives the same result.
    assert_eq!(locations, vec![25, 26]);

}

#[test]
#[allow(unused_variables)]
fn example_with_symbols_given_to_the_builder() {
    // (1) Define characters to use
    let symbols: &[&[u8]] = &[
        &[b'A', b'a'], // 'A' and 'a' are treated as the same
        &[b'C', b'c'], // 'C' and 'c' are treated as the same
        &[b'G', b'g'], // 'G' and 'g' are treated as the same
    ];
    // Alternatively, you can use this simpler syntax:
    let symbols: &[&[u8]] = &[b"Aa", b"Cc", b"Gg"];

    // (2) Build index
    let text = b"CTCCGTACACCTGTTTCGTATCGGAXXYYZZ".to_vec();
    let builder =
        FmIndexBuilder::<u32, Block2<u64>, EncodingTable>::init(text.len(), symbols).unwrap();
    // You have to prepare a blob to build the index.
    let blob_size = builder.blob_size();
    let mut blob = vec![0; blob_size];
    // Build the fm-index to the blob.
    builder.build(text, &mut blob).unwrap();
    // Load the fm-index from the blob.
    let fm_index = FmIndex::<u32, Block2<u64>, EncodingTable>::load(&blob[..]).unwrap();

    // (3) Match with pattern
    let pattern = b"TA";
    //   - count
    let count = fm_index.count_text(pattern);
    assert_eq!(count, 2);
    //   - locate
    let mut locations = fm_index.locate_text(pattern);
    locations.sort(); // The locations may not be in order.
    assert_eq!(locations, vec![5, 18]);
    // All unindexed characters are treated as the same character.
    // In the text, X, Y, and Z can match any other unindexed character
    let mut locations = fm_index.locate_text(b"UNDEF");
    locations.sort();
    // Using the b"XXXXX", b"YYYYY", or b"!@#$%" gives the same result.
    assert_eq!(locations, vec![25, 26]);
}

#[test]
fn test_minimum_kmer_sise_is_one() {
    // NotUsed
    let config = LookupTableConfig::NotUsed;
    assert_eq!(config.kmer_size::<u32>(1).unwrap(), 1);
    assert_eq!(config.kmer_size::<u32>(2).unwrap(), 1);

    // KmerSize
    let config = LookupTableConfig::KmerSize(1);
    assert!(config.kmer_size::<u32>(1).is_err());
    let config = LookupTableConfig::KmerSize(2);
    assert_eq!(config.kmer_size::<u32>(2).unwrap(), 2);

    // MaxMemory
    let config = LookupTableConfig::MaxMemory(0);
    assert_eq!(config.kmer_size::<u32>(1).unwrap(), 1);
    assert_eq!(config.kmer_size::<u32>(2).unwrap(), 1);
}
