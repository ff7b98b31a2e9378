use sview_fmindex::blocks::{Block2, Block3, Vector};
use sview_fmindex::bwm::BwmHeader;
use sview_fmindex::count_array::{accumulate_count_array, checked_pow, kmer_multipliers, CountArrayHeader};
use sview_fmindex::endian::{fill_zero, read_u128, read_u32, read_u64, write_bytes, write_u128, write_u32, write_u64};
use sview_fmindex::entries::{read_entry, write_entries};
use sview_fmindex::magic_number::MagicNumber;
use sview_fmindex::suffix_array::{sample, transform, SuffixArrayHeader};
use sview_fmindex::suffix_sort::{sort_suffixes, suffix_lt};
use sview_fmindex::text_encoders::{EncodingTable, PassThrough};
use sview_fmindex::{Aligned, Block, Header};

#[test]
fn integers_are_little_endian() {
    let mut blob = vec![0xffu8; 32];
    write_u32(&mut blob, 1, 0x0403_0201);
    assert_eq!(&blob[0..6], &[0xff, 1, 2, 3, 4, 0xff]);
    assert_eq!(read_u32(&blob, 1), 0x0403_0201);
    write_u64(&mut blob, 8, 0x0807_0605_0403_0201);
    assert_eq!(&blob[8..16], &[1, 2, 3, 4, 5, 6, 7, 8]);
    assert_eq!(read_u64(&blob, 8), 0x0807_0605_0403_0201);
    write_u128(&mut blob, 16, 0x100f_0e0d_0c0b_0a09_0807_0605_0403_0201);
    assert_eq!(&blob[16..32], &[1, 2, 3, 4, 5, 6, 7, 8, 9, 10, 11, 12, 13, 14, 15, 16]);
    assert_eq!(read_u128(&blob, 16), 0x100f_0e0d_0c0b_0a09_0807_0605_0403_0201);
    fill_zero(&mut blob, 2, 4);
    assert_eq!(&blob[0..6], &[0xff, 1, 0, 0, 4, 0xff]);
    write_bytes(&mut blob, 3, &[7, 8]);
    assert_eq!(&blob[0..6], &[0xff, 1, 0, 7, 8, 0xff]);
}

#[test]
fn arrays_of_integers() {
    let mut blob = vec![0u8; 20];
    write_entries(&mut blob, 4, 4, &vec![1, 0x0102, 0xffff_ffff]);
    assert_eq!(&blob[4..16], &[1, 0, 0, 0, 2, 1, 0, 0, 0xff, 0xff, 0xff, 0xff]);
    assert_eq!(read_entry(&blob[4..], 4, 1), 0x0102);
    assert_eq!(read_entry(&blob[4..], 4, 2), 0xffff_ffff);
    write_entries(&mut blob, 0, 8, &vec![0x0100_0000_0000_0002]);
    assert_eq!(&blob[0..8], &[2, 0, 0, 0, 0, 0, 0, 1]);
    assert_eq!(read_entry(&blob, 8, 0), 0x0100_0000_0000_0002);
}

#[test]
fn aligned_sizes() {
    assert_eq!(<u32 as Aligned>::aligned_size(5), 8);
    assert_eq!(<u32 as Aligned>::aligned_size(8), 8);
    assert_eq!(<u64 as Aligned>::aligned_size(9), 16);
    assert_eq!(<u128 as Aligned>::aligned_size(1), 16);
    assert_eq!(<u128 as Aligned>::aligned_size(0), 0);
    assert_eq!(<Block2<u128> as Aligned>::ALIGN_SIZE, 16);
    assert_eq!(<Block3<u32> as Aligned>::ALIGN_SIZE, 4);
    assert_eq!(<Block3<u64> as Block>::BLOCK_LEN, 64);
    assert_eq!(<Block3<u64> as Block>::MAX_SYMBOL, 8);
    assert_eq!(<u128 as Vector>::BLOCK_LEN, 128);
    assert_eq!(MagicNumber::new().aligned_size::<u128>(), 16);
    assert_eq!(PassThrough.aligned_size::<u64>(), 0);
    assert_eq!(EncodingTable::from_symbols(&[b"A"]).aligned_size::<u64>(), 256);
}

#[test]
fn magic_number_of_this_version() {
    let magic = MagicNumber::new();
    assert_eq!(magic.0, *b"FI00\0\0\0\0");
    assert_eq!(magic.major_version(), b'0');
    assert_eq!(magic.minor_version(), b'0');
    assert!(magic.is_valid());
    assert!(magic.is_supported_version());
    assert!(!MagicNumber(*b"FJ00\0\0\0\0").is_valid());
    assert!(!MagicNumber(*b"FI01\0\0\0\0").is_supported_version());
    assert!(MagicNumber(*b"FI01\0\0\0\0").is_valid());
    let mut blob = vec![9u8; 10];
    magic.write_to_blob(&mut blob, 1);
    assert_eq!(&blob, b"\x09FI00\0\0\0\0\x09");
    assert_eq!(MagicNumber::read_from_blob(&blob, 1).0, magic.0);
}

#[test]
fn headers_are_written_and_read() {
    let count = CountArrayHeader::new(3, 2);
    assert_eq!(count.count_array_len, 5);
    assert_eq!(count.kmer_multiplier_len, 2);
    assert_eq!(count.kmer_count_table_len, 25);
    assert!(count.is_valid());
    let mut blob = vec![0xeeu8; 64];
    count.write_to_blob(&mut blob, 0);
    assert_eq!(&blob[0..24], &[3, 0, 0, 0, 2, 0, 0, 0, 5, 0, 0, 0, 2, 0, 0, 0, 25, 0, 0, 0, 0, 0, 0, 0]);
    assert_eq!(CountArrayHeader::read_from_blob(&blob, 0), count);
    let suffix = SuffixArrayHeader::new(1000, 7);
    suffix.write_to_blob(&mut blob, 24);
    assert_eq!(&blob[24..40], &[0xe8, 3, 0, 0, 0, 0, 0, 0, 7, 0, 0, 0, 0, 0, 0, 0]);
    assert_eq!(SuffixArrayHeader::read_from_blob(&blob, 24), suffix);
    let bwm = BwmHeader::new::<u32, Block2<u64>>(1000, 4);
    assert_eq!(bwm.blocks_len, 16);
    assert_eq!(bwm.rank_checkpoints_len, 64);
    assert!(bwm.is_valid::<Block2<u64>>());
    bwm.write_to_blob(&mut blob, 40);
    assert_eq!(&blob[40..64], &[4, 0, 0, 0, 0, 0, 0, 0, 64, 0, 0, 0, 0, 0, 0, 0, 16, 0, 0, 0, 0, 0, 0, 0]);
    assert_eq!(BwmHeader::read_from_blob(&blob, 40), bwm);
    // One block more where the text fills the blocks.
    assert_eq!(BwmHeader::new::<u32, Block2<u32>>(64, 4).blocks_len, 3);
    assert_eq!(BwmHeader::new::<u32, Block2<u32>>(63, 4).blocks_len, 2);
    // Lengths that do not fit together.
    let mut other = count;
    other.kmer_count_table_len = 24;
    assert!(!other.is_valid());
    let mut other = bwm;
    other.rank_checkpoints_len = 63;
    assert!(!other.is_valid::<Block2<u64>>());
    let mut other = bwm;
    other.symbol_count = 5;
    assert!(!other.is_valid::<Block2<u64>>());
    // Sizes of the bodies: (5 * 4 -> 24) + (2 * 8) + (25 * 4 -> 104).
    assert_eq!(count.wide_body_size::<u32, u64>(), 144);
    assert_eq!(suffix.wide_body_size::<u32, u64>(), 576);
    assert_eq!(bwm.wide_body_size::<u32, Block2<u64>>(), 8 + 256 + 256);
}

#[test]
fn powers_and_prefix_sums() {
    assert_eq!(checked_pow(6, 3), Some(216));
    assert_eq!(checked_pow(2, 63), Some(1 << 63));
    assert_eq!(checked_pow(2, 64), None);
    assert_eq!(checked_pow(130, 0), Some(1));
    assert_eq!(kmer_multipliers(6, 3), vec![36, 6, 1]);
    let mut counts = vec![0, 2, 0, 5, 1];
    accumulate_count_array(&mut counts);
    assert_eq!(counts, vec![0, 2, 2, 7, 8]);
}

#[test]
fn count_array_of_a_text() {
    // A = 0, C = 1, G = 2, every other byte = 3.
    let table = EncodingTable::from_symbols_with_wildcard(&[b"A", b"C", b"G"]);
    let header = CountArrayHeader::new(4, 2);
    let mut text = b"GATTACA".to_vec();
    let (counts, kmers) = header.count_text(&mut text, &table);
    assert_eq!(text, vec![3, 1, 4, 4, 1, 2, 1]);
    assert_eq!(counts, vec![0, 3, 4, 5, 7, 7]);
    // The 2-mers in base 6: A$ = 6, AC = 8, AT = 10, CA = 13, GA = 19, TA = 25, TT = 28.
    assert_eq!(kmers.len(), 36);
    assert_eq!(kmers[5], 0);
    assert_eq!(kmers[6], 1);
    assert_eq!(kmers[8], 2);
    assert_eq!(kmers[10], 3);
    assert_eq!(kmers[13], 4);
    assert_eq!(kmers[19], 5);
    assert_eq!(kmers[25], 6);
    assert_eq!(kmers[28], 7);
    assert_eq!(kmers[35], 7);
}

#[test]
fn suffixes_are_sorted_with_the_end_before_every_symbol() {
    // GATTACA with A = 1, C = 2, G = 3, T = 4.
    let text: Vec<u8> = vec![3, 1, 4, 4, 1, 2, 1];
    let sa = sort_suffixes(&text);
    assert_eq!(sa, vec![6, 4, 1, 5, 0, 3, 2]);
    assert!(suffix_lt(&text, 6, 4));
    assert!(!suffix_lt(&text, 4, 6));
    assert!(!suffix_lt(&text, 3, 3));
    assert!(suffix_lt(&text, 7, 6));
    assert!(!suffix_lt(&text, 6, 7));
    let (bwt, sentinel) = transform(&text, &sa);
    assert_eq!(bwt, vec![1, 2, 4, 3, 1, 4, 1]);
    assert_eq!(sentinel, 5);
    assert_eq!(sample(&sa, 1), vec![6, 4, 1, 5, 0, 3, 2, 0]);
    assert_eq!(sample(&sa, 3), vec![6, 5, 2]);
    assert_eq!(sample(&sa, 7), vec![6, 0]);
    // A text of one symbol only.
    let ones: Vec<u8> = vec![1, 1, 1, 1];
    let sa = sort_suffixes(&ones);
    assert_eq!(sa, vec![3, 2, 1, 0]);
    assert_eq!(transform(&ones, &sa), (vec![1, 1, 1, 1], 4));
    assert_eq!(sort_suffixes(&[]), Vec::<usize>::new());
}

#[test]
fn blocks_pack_symbols_into_planes() {
    // Symbols 0, 1, 3, 2 as symbol-plus-one values.
    let mut counts = vec![10u64, 20, 30, 40];
    let mut block = Block2::<u32>::vectorize(&[1, 2, 4, 3], &mut counts);
    assert_eq!(counts, vec![11, 21, 31, 41]);
    // Low-aligned: the last symbol is at bit 0.
    assert_eq!(block.0, [0b0110, 0b0011]);
    block.shift_last_offset(28);
    assert_eq!(block.0, [0x6000_0000, 0x3000_0000]);
    assert_eq!(block.get_symidx_of(0), 0);
    assert_eq!(block.get_symidx_of(1), 1);
    assert_eq!(block.get_symidx_of(2), 3);
    assert_eq!(block.get_symidx_of(3), 2);
    assert_eq!(block.get_symidx_of(4), 0);
    assert_eq!(block.get_remain_count_of(1, 0), 1);
    assert_eq!(block.get_remain_count_of(2, 0), 1);
    assert_eq!(block.get_remain_count_of(2, 1), 1);
    assert_eq!(block.get_remain_count_of(3, 3), 1);
    assert_eq!(block.get_remain_count_of(3, 2), 0);
    assert_eq!(block.get_remain_count_of(4, 2), 1);
    // The unused positions of a short block read as the symbol 0.
    assert_eq!(block.get_remain_count_of(31, 0), 28);
    let mut counts = vec![0u64; 8];
    let block = Block3::<u128>::encode(&[8, 1, 8], &mut counts);
    assert_eq!(counts, vec![1, 0, 0, 0, 0, 0, 0, 2]);
    assert_eq!(block.0, [0b101u128 << 125, 0b101u128 << 125, 0b101u128 << 125]);
    assert_eq!(block.get_symidx_of(2), 7);
    assert_eq!(block.get_remain_count_of(3, 7), 2);
    assert_eq!(Block3::<u128>::plane_count(), 3);
    let mut blob = vec![0u8; 48];
    <u128 as Vector>::write_plane(&mut blob, 16, block.0[1]);
    assert_eq!(blob[31], 0xa0);
    assert_eq!(blob[30], 0);
    assert_eq!(<u128 as Vector>::read_plane(&blob, 16), 0b101u128 << 125);
    <u32 as Vector>::write_plane(&mut blob, 0, 0x0102_0304);
    assert_eq!(&blob[0..4], &[4, 3, 2, 1]);
    let read = Block2::<u32>::read_from_blob(&blob, 0);
    assert_eq!(read.0, [0x0102_0304, 0]);
}
