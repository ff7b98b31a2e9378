use rand::seq::SliceRandom;
use rand::Rng;
use sview_fmindex::blocks::{Block2, Block3, Block4, Block5, Block6, Block7};
use sview_fmindex::build_config::{LookupTableConfig, SuffixArrayConfig};
use sview_fmindex::text_encoders::{EncodingTable, PassThrough};
use sview_fmindex::{Block, FmIndex, FmIndexBuilder, Position, TextEncoder};

fn gen_rand_chr_list(chr_count: usize) -> Vec<u8> {
    let mut rng = rand::thread_rng();
    let mut chr_list = Vec::with_capacity(chr_count);
    while chr_list.len() < chr_count {
        let chr: u8 = rng.gen_range(33..127);
        if !chr_list.contains(&chr) {
            chr_list.push(chr);
        }
    }
    chr_list
}

// At least one of each chr in chr_list is included in text.
fn gen_rand_text(chr_list: &[u8], min_len: usize, max_len: usize) -> Vec<u8> {
    let mut rng = rand::thread_rng();
    let text_len = rng.gen_range(min_len..max_len + 1);
    let chr_count = chr_list.len();
    let mut text = chr_list.to_vec();
    while text.len() < text_len {
        let chr = chr_list[rng.gen_range(0..chr_count)];
        text.push(chr);
    }
    text.shuffle(&mut rng);
    text
}

fn gen_rand_pattern(text: &[u8], min_len: usize, max_len: usize) -> Vec<u8> {
    let mut rng = rand::thread_rng();
    let pattern_len = rng.gen_range(min_len..max_len + 1);
    let last_idx = text.len() - pattern_len;
    let start = rng.gen_range(0..last_idx);
    let end = start + pattern_len;
    text[start..end].to_vec()
}

fn get_sorted_locations(text: &[u8], pattern: &[u8]) -> Vec<u64> {
    let mut locations = Vec::new();
    if pattern.len() <= text.len() {
        for start in 0..=(text.len() - pattern.len()) {
            if &text[start..start + pattern.len()] == pattern {
                locations.push(start as u64);
            }
        }
    }
    locations
}

fn symbols_of(chr_list: &[u8]) -> Vec<&[u8]> {
    chr_list.chunks(1).collect::<Vec<_>>()
}

// *** Accuracy against a plain search of the text ***
fn assert_accurate_fm_index<P: Position, B: Block>(
    chr_list: &Vec<u8>,
    text: Vec<u8>,
    patterns: &Vec<Vec<u8>>,
    answers: &Vec<Vec<u64>>,
    ltks: u32,
    sasr: u64,
) {
    if B::MAX_SYMBOL < chr_list.len() as u32 {
        println!("          pass");
        return;
    }
    let characters_by_index = symbols_of(chr_list);
    let encoding_table = EncodingTable::from_symbols(&characters_by_index);
    let symbol_count = encoding_table.symbol_count();

    let builder =
        FmIndexBuilder::<P, B, EncodingTable>::new(text.len(), symbol_count, encoding_table)
            .unwrap()
            .set_lookup_table_config(LookupTableConfig::KmerSize(ltks as u32))
            .unwrap()
            .set_suffix_array_config(SuffixArrayConfig::Compressed(sasr as u32))
            .unwrap();

    let blob_size = builder.blob_size();
    let mut blob: Vec<u8> = vec![0; blob_size];

    builder.build(text, &mut blob).unwrap();

    let fm_index = FmIndex::<P, B, EncodingTable>::load(&blob).unwrap();

    patterns.iter().zip(answers.iter()).for_each(|(pattern, answer)| {
        let mut result: Vec<u64> =
            fm_index.locate(pattern).into_iter().map(|x| x.as_u64()).collect();
        result.sort();
        assert_eq!(&result, answer);
    });
}

fn accurate_for_vectors_u32<P: Position>(
    chr_list: &Vec<u8>,
    text: &Vec<u8>,
    patterns: &Vec<Vec<u8>>,
    answers: &Vec<Vec<u64>>,
    ltks: u32,
    sasr: u64,
) {
    println!("      - Block: Block2");
    println!("        - Vector: u32");
    assert_accurate_fm_index::<P, Block2<u32>>(chr_list, text.clone(), patterns, answers, ltks, sasr);
    println!("        - Vector: u64");
    assert_accurate_fm_index::<P, Block2<u64>>(chr_list, text.clone(), patterns, answers, ltks, sasr);
    println!("        - Vector: u128");
    assert_accurate_fm_index::<P, Block2<u128>>(chr_list, text.clone(), patterns, answers, ltks, sasr);
    println!("      - Block: Block3");
    println!("        - Vector: u32");
    assert_accurate_fm_index::<P, Block3<u32>>(chr_list, text.clone(), patterns, answers, ltks, sasr);
    println!("        - Vector: u64");
    assert_accurate_fm_index::<P, Block3<u64>>(chr_list, text.clone(), patterns, answers, ltks, sasr);
    println!("        - Vector: u128");
    assert_accurate_fm_index::<P, Block3<u128>>(chr_list, text.clone(), patterns, answers, ltks, sasr);
    println!("      - Block: Block4");
    println!("        - Vector: u32");
    assert_accurate_fm_index::<P, Block4<u32>>(chr_list, text.clone(), patterns, answers, ltks, sasr);
    println!("        - Vector: u64");
    assert_accurate_fm_index::<P, Block4<u64>>(chr_list, text.clone(), patterns, answers, ltks, sasr);
    println!("        - Vector: u128");
    assert_accurate_fm_index::<P, Block4<u128>>(chr_list, text.clone(), patterns, answers, ltks, sasr);
    println!("      - Block: Block5");
    println!("        - Vector: u32");
    assert_accurate_fm_index::<P, Block5<u32>>(chr_list, text.clone(), patterns, answers, ltks, sasr);
    println!("        - Vector: u64");
    assert_accurate_fm_index::<P, Block5<u64>>(chr_list, text.clone(), patterns, answers, ltks, sasr);
    println!("        - Vector: u128");
    assert_accurate_fm_index::<P, Block5<u128>>(chr_list, text.clone(), patterns, answers, ltks, sasr);
    println!("      - Block: Block6");
    println!("        - Vector: u32");
    assert_accurate_fm_index::<P, Block6<u32>>(chr_list, text.clone(), patterns, answers, ltks, sasr);
    println!("        - Vector: u64");
    assert_accurate_fm_index::<P, Block6<u64>>(chr_list, text.clone(), patterns, answers, ltks, sasr);
    println!("        - Vector: u128");
    assert_accurate_fm_index::<P, Block6<u128>>(chr_list, text.clone(), patterns, answers, ltks, sasr);
}

#[test]
fn results_are_accurate() {
    let range_chr_count = 2..8;
    let text_min_len = 100;
    let text_max_len = 300;
    let n_text = 2;
    let pattern_min_len = 1;
    let pattern_max_len = 10;
    let n_pattern = 100;
    let ltks = 3;
    let sasr = 2;

    for chr_count in range_chr_count {
        println!("- Chr count: {}", chr_count);
        for i in 0..n_text {
            println!("  - text: {}/{}", i + 1, n_text);
            let chr_list = gen_rand_chr_list(chr_count);
            let text = gen_rand_text(&chr_list, text_min_len, text_max_len);

            let patterns: Vec<Vec<u8>> = (0..n_pattern)
                .map(|_| gen_rand_pattern(&text, pattern_min_len, pattern_max_len))
                .collect();
            let answers: Vec<Vec<u64>> =
                patterns.iter().map(|pattern| get_sorted_locations(&text, pattern)).collect();
            println!("    - Position: u32");
            accurate_for_vectors_u32::<u32>(&chr_list, &text, &patterns, &answers, ltks, sasr);
            println!("    - Position: u64");
            accurate_for_vectors_u32::<u64>(&chr_list, &text, &patterns, &answers, ltks, sasr);
        }
    }
}

#[test]
fn block7_indexes_many_symbols() {
    let chr_list = gen_rand_chr_list(90);
    let text = gen_rand_text(&chr_list, 400, 600);
    let patterns: Vec<Vec<u8>> = (0..50).map(|_| gen_rand_pattern(&text, 1, 4)).collect();
    let answers: Vec<Vec<u64>> =
        patterns.iter().map(|pattern| get_sorted_locations(&text, pattern)).collect();
    assert_accurate_fm_index::<u32, Block7<u32>>(&chr_list, text.clone(), &patterns, &answers, 2, 3);
    assert_accurate_fm_index::<u64, Block7<u128>>(&chr_list, text.clone(), &patterns, &answers, 2, 1 + 4);
}

// *** Config invariance ***
fn assert_config_invariance<P: Position, B: Block>(
    symbols: &[&[u8]],
    text: Vec<u8>,
    pattern: &Vec<u8>,
    answer: &Vec<u64>,
    lt_config: LookupTableConfig,
    sa_config: SuffixArrayConfig,
) {
    if B::MAX_SYMBOL < symbols.len() as u32 {
        return;
    }

    let builder = FmIndexBuilder::<P, B, EncodingTable>::new(
        text.len(),
        symbols.len() as u32,
        EncodingTable::new(symbols),
    )
    .unwrap()
    .set_lookup_table_config(lt_config)
    .unwrap()
    .set_suffix_array_config(sa_config)
    .unwrap();

    let blob_size = builder.blob_size();
    let mut blob: Vec<u8> = vec![0; blob_size];

    builder.build(text, &mut blob).unwrap();

    let fm_index = FmIndex::<P, B, EncodingTable>::load(&blob).unwrap();

    let mut result: Vec<u64> = fm_index.locate(pattern).into_iter().map(|x| x.as_u64()).collect();
    result.sort();
    assert_eq!(&result, answer);
}

fn config_invariance_of<P: Position, B: Block>(
    symbols: &[&[u8]],
    text: &Vec<u8>,
    pattern: &Vec<u8>,
    answer: &Vec<u64>,
) {
    let lookup_table_configs = [
        LookupTableConfig::NotUsed,
        LookupTableConfig::KmerSize(2),
        LookupTableConfig::KmerSize(3),
        LookupTableConfig::KmerSize(4),
    ];
    let suffix_array_configs = [
        SuffixArrayConfig::Uncompressed,
        SuffixArrayConfig::Compressed(2),
        SuffixArrayConfig::Compressed(3),
        SuffixArrayConfig::Compressed(4),
    ];
    for &lt_config in &lookup_table_configs {
        for &sa_config in &suffix_array_configs {
            if lt_config == LookupTableConfig::default()
                && sa_config == SuffixArrayConfig::default()
            {
                continue;
            }
            assert_config_invariance::<P, B>(
                symbols,
                text.clone(),
                pattern,
                answer,
                lt_config,
                sa_config,
            );
        }
    }
}

fn config_invariance_for_blocks<P: Position>(
    symbols: &[&[u8]],
    text: &Vec<u8>,
    pattern: &Vec<u8>,
    answer: &Vec<u64>,
) {
    println!("      - Block: Block2");
    println!("        - Vector: u32");
    config_invariance_of::<P, Block2<u32>>(symbols, text, pattern, answer);
    println!("        - Vector: u64");
    config_invariance_of::<P, Block2<u64>>(symbols, text, pattern, answer);
    println!("        - Vector: u128");
    config_invariance_of::<P, Block2<u128>>(symbols, text, pattern, answer);
    println!("      - Block: Block3");
    println!("        - Vector: u32");
    config_invariance_of::<P, Block3<u32>>(symbols, text, pattern, answer);
    println!("        - Vector: u64");
    config_invariance_of::<P, Block3<u64>>(symbols, text, pattern, answer);
    println!("        - Vector: u128");
    config_invariance_of::<P, Block3<u128>>(symbols, text, pattern, answer);
    println!("      - Block: Block4");
    println!("        - Vector: u32");
    config_invariance_of::<P, Block4<u32>>(symbols, text, pattern, answer);
    println!("        - Vector: u64");
    config_invariance_of::<P, Block4<u64>>(symbols, text, pattern, answer);
    println!("        - Vector: u128");
    config_invariance_of::<P, Block4<u128>>(symbols, text, pattern, answer);
    println!("      - Block: Block5");
    println!("        - Vector: u32");
    config_invariance_of::<P, Block5<u32>>(symbols, text, pattern, answer);
    println!("        - Vector: u64");
    config_invariance_of::<P, Block5<u64>>(symbols, text, pattern, answer);
    println!("        - Vector: u128");
    config_invariance_of::<P, Block5<u128>>(symbols, text, pattern, answer);
    println!("      - Block: Block6");
    println!("        - Vector: u32");
    config_invariance_of::<P, Block6<u32>>(symbols, text, pattern, answer);
    println!("        - Vector: u64");
    config_invariance_of::<P, Block6<u64>>(symbols, text, pattern, answer);
    println!("        - Vector: u128");
    config_invariance_of::<P, Block6<u128>>(symbols, text, pattern, answer);
}

#[test]
fn test_config_invariance() {
    let symbol_count_range = [4, 6, 8, 10];
    let num_tests_for_symbol_count = 3;

    // Test each symbol count
    for symbol_count in symbol_count_range {
        println!(" - Symbol count: {}", symbol_count);

        // Test each configuration
        for test_idx in 0..num_tests_for_symbol_count {
            println!("   - Test: {}/{}", test_idx, num_tests_for_symbol_count);
            // Generate random data
            let chr_list = gen_rand_chr_list(symbol_count);
            let symbols = symbols_of(&chr_list);
            let text = gen_rand_text(&chr_list, 1000, 1000);
            let pattern = gen_rand_pattern(&text, 10, 10);

            // Get Answer using default configuration
            let base_builder = FmIndexBuilder::<u32, Block4<u32>, EncodingTable>::new(
                text.len(),
                symbols.len() as u32,
                EncodingTable::new(&symbols),
            )
            .unwrap();
            let blob_size = base_builder.blob_size();
            let mut blob: Vec<u8> = vec![0; blob_size];
            base_builder.build(text.clone(), &mut blob).unwrap();
            let base_fm_index = FmIndex::<u32, Block4<u32>, EncodingTable>::load(&blob).unwrap();
            let mut answer: Vec<u64> =
                base_fm_index.locate(&pattern).into_iter().map(|x| x.as_u64()).collect();
            answer.sort();
            assert_eq!(answer, get_sorted_locations(&text, &pattern));

            println!("    - Position: u32");
            config_invariance_for_blocks::<u32>(&symbols, &text, &pattern, &answer);
            println!("    - Position: u64");
            config_invariance_for_blocks::<u64>(&symbols, &text, &pattern, &answer);
        }
    }
}

// *** Text encoders consistency: EncodingTable and PassThrough ***
fn assert_text_encoders_consistency<P: Position + PartialEq + std::fmt::Debug + Ord, B: Block>(
    chr_list: &Vec<u8>,
    text: Vec<u8>,
    patterns: &Vec<Vec<u8>>,
    ltks: u32,
    sasr: u32,
) {
    if B::MAX_SYMBOL < chr_list.len() as u32 {
        println!("          pass");
        return;
    }
    let characters_by_index = symbols_of(chr_list);
    let symbol_count = characters_by_index.len() as u32;

    // Prepare text and encoders
    let text_for_encoding_table = text.clone();
    let encoding_table = EncodingTable::new(&characters_by_index);

    let text_for_pass_through =
        text.into_iter().map(|c| encoding_table.idx_of(c)).collect::<Vec<_>>();
    let pass_through = PassThrough;

    // Build with Encoding Table
    let et_builder = FmIndexBuilder::<P, B, EncodingTable>::new(
        text_for_encoding_table.len(),
        symbol_count,
        encoding_table,
    )
    .unwrap()
    .set_lookup_table_config(LookupTableConfig::KmerSize(ltks))
    .unwrap()
    .set_suffix_array_config(SuffixArrayConfig::Compressed(sasr))
    .unwrap();

    let et_blob_size = et_builder.blob_size();
    let mut et_blob: Vec<u8> = vec![0; et_blob_size];

    et_builder.build(text_for_encoding_table, &mut et_blob).unwrap();

    let et_fm_index = FmIndex::<P, B, EncodingTable>::load(&et_blob).unwrap();

    // Build with Pass Through
    let pt_builder =
        FmIndexBuilder::<P, B, PassThrough>::new(text_for_pass_through.len(), symbol_count, pass_through)
            .unwrap()
            .set_lookup_table_config(LookupTableConfig::KmerSize(ltks))
            .unwrap()
            .set_suffix_array_config(SuffixArrayConfig::Compressed(sasr))
            .unwrap();

    let pt_blob_size = pt_builder.blob_size();
    let mut pt_blob: Vec<u8> = vec![0; pt_blob_size];

    pt_builder.build(text_for_pass_through, &mut pt_blob).unwrap();

    let pt_fm_index = FmIndex::<P, B, PassThrough>::load(&pt_blob).unwrap();

    // Test methods
    let encoding_table = EncodingTable::new(&characters_by_index);
    patterns.iter().for_each(|pattern| {
        // Test count methods
        let et_count = et_fm_index.count(pattern);
        let et_count_rev_iter = et_fm_index.count_rev_iter(pattern.iter().rev().cloned());

        // Convert pattern to indices
        let pattern_indices: Vec<u8> = pattern.iter().map(|&c| encoding_table.idx_of(c)).collect();
        let pt_count = pt_fm_index.count(&pattern_indices);
        let pt_count_rev_iter = pt_fm_index.count_rev_iter(pattern_indices.iter().rev().cloned());

        // Assert all count methods return the same result
        assert_eq!(et_count, et_count_rev_iter, "Count methods should return same result for pattern: {:?}", pattern);
        assert_eq!(et_count, pt_count, "Count methods should return same result for pattern: {:?}", pattern);
        assert_eq!(et_count, pt_count_rev_iter, "Count methods should return same result for pattern: {:?}", pattern);

        // Test locate methods
        let mut et_locate = et_fm_index.locate(pattern);
        et_locate.sort();

        let mut et_locate_rev_iter = et_fm_index.locate_rev_iter(pattern.iter().rev().cloned());
        et_locate_rev_iter.sort();

        let mut pt_locate = pt_fm_index.locate(&pattern_indices);
        pt_locate.sort();

        let mut pt_locate_rev_iter =
            pt_fm_index.locate_rev_iter(pattern_indices.iter().rev().cloned());
        pt_locate_rev_iter.sort();

        // Assert all locate methods return the same result
        assert_eq!(et_locate, et_locate_rev_iter, "Locate methods should return same result for pattern: {:?}", pattern);
        assert_eq!(et_locate, pt_locate, "Locate methods should return same result for pattern: {:?}", pattern);
        assert_eq!(et_locate, pt_locate_rev_iter, "Locate methods should return same result for pattern: {:?}", pattern);
    });
}

fn encoders_for_blocks<P: Position + PartialEq + std::fmt::Debug + Ord>(
    chr_list: &Vec<u8>,
    text: &Vec<u8>,
    patterns: &Vec<Vec<u8>>,
    ltks: u32,
    sasr: u32,
) {
    println!("      - Block: Block2");
    println!("        - Vector: u32");
    assert_text_encoders_consistency::<P, Block2<u32>>(chr_list, text.clone(), patterns, ltks, sasr);
    println!("        - Vector: u64");
    assert_text_encoders_consistency::<P, Block2<u64>>(chr_list, text.clone(), patterns, ltks, sasr);
    println!("        - Vector: u128");
    assert_text_encoders_consistency::<P, Block2<u128>>(chr_list, text.clone(), patterns, ltks, sasr);
    println!("      - Block: Block3");
    println!("        - Vector: u32");
    assert_text_encoders_consistency::<P, Block3<u32>>(chr_list, text.clone(), patterns, ltks, sasr);
    println!("        - Vector: u64");
    assert_text_encoders_consistency::<P, Block3<u64>>(chr_list, text.clone(), patterns, ltks, sasr);
    println!("        - Vector: u128");
    assert_text_encoders_consistency::<P, Block3<u128>>(chr_list, text.clone(), patterns, ltks, sasr);
    println!("      - Block: Block4");
    println!("        - Vector: u32");
    assert_text_encoders_consistency::<P, Block4<u32>>(chr_list, text.clone(), patterns, ltks, sasr);
    println!("        - Vector: u64");
    assert_text_encoders_consistency::<P, Block4<u64>>(chr_list, text.clone(), patterns, ltks, sasr);
    println!("        - Vector: u128");
    assert_text_encoders_consistency::<P, Block4<u128>>(chr_list, text.clone(), patterns, ltks, sasr);
    println!("      - Block: Block5");
    println!("        - Vector: u32");
    assert_text_encoders_consistency::<P, Block5<u32>>(chr_list, text.clone(), patterns, ltks, sasr);
    println!("        - Vector: u64");
    assert_text_encoders_consistency::<P, Block5<u64>>(chr_list, text.clone(), patterns, ltks, sasr);
    println!("        - Vector: u128");
    assert_text_encoders_consistency::<P, Block5<u128>>(chr_list, text.clone(), patterns, ltks, sasr);
    println!("      - Block: Block6");
    println!("        - Vector: u32");
    assert_text_encoders_consistency::<P, Block6<u32>>(chr_list, text.clone(), patterns, ltks, sasr);
    println!("        - Vector: u64");
    assert_text_encoders_consistency::<P, Block6<u64>>(chr_list, text.clone(), patterns, ltks, sasr);
    println!("        - Vector: u128");
    assert_text_encoders_consistency::<P, Block6<u128>>(chr_list, text.clone(), patterns, ltks, sasr);
}

#[test]
fn text_encoders_are_consistent() {
    let range_chr_count = 2..4;
    let text_min_len = 100;
    let text_max_len = 300;
    let n_text = 2;
    let pattern_min_len = 1;
    let pattern_max_len = 10;
    let n_pattern = 100;
    let ltks = 3;
    let sasr = 2;

    for chr_count in range_chr_count {
        println!("- Chr count: {}", chr_count);
        for i in 0..n_text {
            println!("  - text: {}/{}", i + 1, n_text);
            let chr_list = gen_rand_chr_list(chr_count);
            let text = gen_rand_text(&chr_list, text_min_len, text_max_len);

            let patterns: Vec<Vec<u8>> = (0..n_pattern)
                .map(|_| gen_rand_pattern(&text, pattern_min_len, pattern_max_len))
                .collect();

            println!("    - Position: u32");
            encoders_for_blocks::<u32>(&chr_list, &text, &patterns, ltks, sasr);
            println!("    - Position: u64");
            encoders_for_blocks::<u64>(&chr_list, &text, &patterns, ltks, sasr);
        }
    }
}

// *** Locate methods consistency: bytes and symbol indices, slices and reverse iterators ***
fn assert_locate_consistency<P: Position + PartialEq + std::fmt::Debug + Ord, B: Block>(
    chr_list: &Vec<u8>,
    text: Vec<u8>,
    patterns: &Vec<Vec<u8>>,
    ltks: u32,
    sasr: u32,
) {
    if B::MAX_SYMBOL < chr_list.len() as u32 {
        println!("          pass");
        return;
    }
    let characters_by_index = symbols_of(chr_list);

    let builder = FmIndexBuilder::<P, B, EncodingTable>::init(text.len(), &characters_by_index)
        .unwrap()
        .set_lookup_table_config(LookupTableConfig::KmerSize(ltks))
        .unwrap()
        .set_suffix_array_config(SuffixArrayConfig::Compressed(sasr))
        .unwrap();

    let blob_size = builder.blob_size();
    let mut blob: Vec<u8> = vec![0; blob_size];

    builder.build(text.clone(), &mut blob).unwrap();

    let fm_index = FmIndex::<P, B, EncodingTable>::load(&blob).unwrap();

    // Create encoding table for converting text to indices
    let encoding_table = EncodingTable::new(&characters_by_index);

    patterns.iter().for_each(|pattern| {
        // Test count methods
        let count_text = fm_index.count_text(pattern);
        let count_text_rev_iter = fm_index.count_text_rev_iter(pattern.iter().rev().cloned());

        // Convert pattern to indices
        let pattern_indices: Vec<u8> = pattern.iter().map(|&c| encoding_table.idx_of(c)).collect();
        let count_indices = fm_index.count_indices(&pattern_indices);
        let count_indices_rev_iter =
            fm_index.count_indices_rev_iter(pattern_indices.iter().rev().cloned());

        // Assert all count methods return the same result
        assert_eq!(count_text, count_text_rev_iter, "Count methods should return same result for pattern: {:?}", pattern);
        assert_eq!(count_text, count_indices, "Count methods should return same result for pattern: {:?}", pattern);
        assert_eq!(count_text, count_indices_rev_iter, "Count methods should return same result for pattern: {:?}", pattern);

        // Test locate methods
        let mut locate_text = fm_index.locate_text(pattern);
        locate_text.sort();

        let mut locate_text_rev_iter = fm_index.locate_text_rev_iter(pattern.iter().rev().cloned());
        locate_text_rev_iter.sort();

        let mut locate_indices = fm_index.locate_indices(&pattern_indices);
        locate_indices.sort();

        let mut locate_indices_rev_iter =
            fm_index.locate_indices_rev_iter(pattern_indices.iter().rev().cloned());
        locate_indices_rev_iter.sort();

        // Assert all locate methods return the same result
        assert_eq!(locate_text, locate_text_rev_iter, "Locate methods should return same result for pattern: {:?}", pattern);
        assert_eq!(locate_text, locate_indices, "Locate methods should return same result for pattern: {:?}", pattern);
        assert_eq!(locate_text, locate_indices_rev_iter, "Locate methods should return same result for pattern: {:?}", pattern);
    });
}

fn locate_consistency_for_blocks<P: Position + PartialEq + std::fmt::Debug + Ord>(
    chr_list: &Vec<u8>,
    text: &Vec<u8>,
    patterns: &Vec<Vec<u8>>,
    ltks: u32,
    sasr: u32,
) {
    println!("      - Block: Block2");
    println!("        - Vector: u32");
    assert_locate_consistency::<P, Block2<u32>>(chr_list, text.clone(), patterns, ltks, sasr);
    println!("        - Vector: u64");
    assert_locate_consistency::<P, Block2<u64>>(chr_list, text.clone(), patterns, ltks, sasr);
    println!("        - Vector: u128");
    assert_locate_consistency::<P, Block2<u128>>(chr_list, text.clone(), patterns, ltks, sasr);
    println!("      - Block: Block3");
    println!("        - Vector: u32");
    assert_locate_consistency::<P, Block3<u32>>(chr_list, text.clone(), patterns, ltks, sasr);
    println!("        - Vector: u64");
    assert_locate_consistency::<P, Block3<u64>>(chr_list, text.clone(), patterns, ltks, sasr);
    println!("        - Vector: u128");
    assert_locate_consistency::<P, Block3<u128>>(chr_list, text.clone(), patterns, ltks, sasr);
    println!("      - Block: Block4");
    println!("        - Vector: u32");
    assert_locate_consistency::<P, Block4<u32>>(chr_list, text.clone(), patterns, ltks, sasr);
    println!("        - Vector: u64");
    assert_locate_consistency::<P, Block4<u64>>(chr_list, text.clone(), patterns, ltks, sasr);
    println!("        - Vector: u128");
    assert_locate_consistency::<P, Block4<u128>>(chr_list, text.clone(), patterns, ltks, sasr);
    println!("      - Block: Block5");
    println!("        - Vector: u32");
    assert_locate_consistency::<P, Block5<u32>>(chr_list, text.clone(), patterns, ltks, sasr);
    println!("        - Vector: u64");
    assert_locate_consistency::<P, Block5<u64>>(chr_list, text.clone(), patterns, ltks, sasr);
    println!("        - Vector: u128");
    assert_locate_consistency::<P, Block5<u128>>(chr_list, text.clone(), patterns, ltks, sasr);
    println!("      - Block: Block6");
    println!("        - Vector: u32");
    assert_locate_consistency::<P, Block6<u32>>(chr_list, text.clone(), patterns, ltks, sasr);
    println!("        - Vector: u64");
    assert_locate_consistency::<P, Block6<u64>>(chr_list, text.clone(), patterns, ltks, sasr);
    println!("        - Vector: u128");
    assert_locate_consistency::<P, Block6<u128>>(chr_list, text.clone(), patterns, ltks, sasr);
}

#[test]
fn locate_methods_are_consistent() {
    let range_chr_count = 2..4;
    let text_min_len = 100;
    let text_max_len = 300;
    let n_text = 2;
    let pattern_min_len = 1;
    let pattern_max_len = 10;
    let n_pattern = 100;
    let ltks = 3;
    let sasr = 2;

    for chr_count in range_chr_count {
        println!("- Chr count: {}", chr_count);
        for i in 0..n_text {
            println!("  - text: {}/{}", i + 1, n_text);
            let chr_list = gen_rand_chr_list(chr_count);
            let text = gen_rand_text(&chr_list, text_min_len, text_max_len);

            let patterns: Vec<Vec<u8>> = (0..n_pattern)
                .map(|_| gen_rand_pattern(&text, pattern_min_len, pattern_max_len))
                .collect();

            println!("    - Position: u32");
            locate_consistency_for_blocks::<u32>(&chr_list, &text, &patterns, ltks, sasr);
            println!("    - Position: u64");
            locate_consistency_for_blocks::<u64>(&chr_list, &text, &patterns, ltks, sasr);
        }
    }
}
