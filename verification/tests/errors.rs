use sview_fmindex::blocks::{Block2, Block3};
use sview_fmindex::build_config::{LookupTableConfig, SuffixArrayConfig};
use sview_fmindex::text_encoders::{EncodingTable, PassThrough};
use sview_fmindex::{BuildError, FmIndex, FmIndexBuilder, LoadError};

fn builder() -> FmIndexBuilder<u32, Block2<u64>, EncodingTable> {
    FmIndexBuilder::<u32, Block2<u64>, EncodingTable>::init(7, &[b"Aa", b"Cc", b"Gg"]).unwrap()
}

#[test]
fn too_many_symbols_for_the_block() {
    let table = EncodingTable::from_symbols(&[b"A", b"C", b"G", b"T", b"N"]);
    let made = FmIndexBuilder::<u32, Block2<u64>, EncodingTable>::new(10, 5, table);
    assert!(matches!(made, Err(BuildError::SymbolCountOver(4, 5))));
    assert!(FmIndexBuilder::<u32, Block3<u64>, EncodingTable>::new(10, 5, table).is_ok());
    let made = FmIndexBuilder::<u32, Block2<u64>, EncodingTable>::init(10, &[b"A", b"C", b"G", b"T"]);
    assert!(matches!(made, Err(BuildError::SymbolCountOver(4, 5))));
    assert!(FmIndexBuilder::<u32, Block2<u64>, PassThrough>::new(10, 4, PassThrough).is_ok());
}

#[test]
fn invalid_configurations() {
    assert!(matches!(
        builder().set_lookup_table_config(LookupTableConfig::KmerSize(1)),
        Err(BuildError::InvalidConfig(_))
    ));
    assert!(matches!(
        builder().set_lookup_table_config(LookupTableConfig::KmerSize(0)),
        Err(BuildError::InvalidConfig(_))
    ));
    assert!(matches!(
        builder().set_suffix_array_config(SuffixArrayConfig::Compressed(1)),
        Err(BuildError::InvalidConfig(_))
    ));
    assert!(matches!(
        builder().set_suffix_array_config(SuffixArrayConfig::Compressed(0)),
        Err(BuildError::InvalidConfig(_))
    ));
    // A lookup table that no memory can hold.
    assert!(matches!(
        builder().set_lookup_table_config(LookupTableConfig::KmerSize(60)),
        Err(BuildError::InvalidConfig(_))
    ));
    assert!(builder().set_lookup_table_config(LookupTableConfig::KmerSize(2)).is_ok());
    assert!(builder().set_lookup_table_config(LookupTableConfig::MaxMemory(0)).is_ok());
    assert!(builder().set_suffix_array_config(SuffixArrayConfig::Compressed(2)).is_ok());
}

#[test]
fn text_of_another_length() {
    let builder = builder();
    let mut blob = vec![0u8; builder.blob_size()];
    let built = builder.build(b"GATTAC".to_vec(), &mut blob);
    assert!(matches!(built, Err(BuildError::UnmatchedTextLength(7, 6))));
    assert!(blob.iter().all(|&b| b == 0));
}

#[test]
fn blob_of_another_size() {
    let builder = builder();
    let size = builder.blob_size();
    let mut blob = vec![0u8; size + 8];
    let built = builder.build(b"GATTACA".to_vec(), &mut blob);
    assert!(matches!(built, Err(BuildError::InvalidBlobSize(expected, given)) if expected == size && given == size + 8));
    let built = builder.build_at(b"GATTACA".to_vec(), &mut blob[..size - 8], 0);
    assert!(matches!(built, Err(BuildError::InvalidBlobSize(expected, given)) if expected == size && given == size - 8));
}

#[test]
fn blob_at_an_unaligned_address() {
    let builder = builder();
    let size = builder.blob_size();
    // A byte buffer one byte behind its own start is misaligned for 8, or
    // the buffer itself is.
    let mut buffer = vec![0u8; size + 1];
    let at_start = builder.build(b"GATTACA".to_vec(), &mut buffer[..size]);
    let behind = builder.build(b"GATTACA".to_vec(), &mut buffer[1..]);
    let start_offset = buffer.as_ptr() as usize % 8;
    if start_offset == 0 {
        assert!(at_start.is_ok());
        assert!(matches!(behind, Err(BuildError::NotAlignedBlob(8, 1))));
    } else {
        assert!(matches!(at_start, Err(BuildError::NotAlignedBlob(8, offset)) if offset == start_offset));
    }
    let stated = builder.build_at(b"GATTACA".to_vec(), &mut buffer[..size], 3);
    assert!(matches!(stated, Err(BuildError::NotAlignedBlob(8, 3))));
}

#[test]
fn loading_what_is_no_index() {
    let builder = builder();
    let mut blob = vec![0u8; builder.blob_size()];
    builder.build(b"GATTACA".to_vec(), &mut blob).unwrap();
    assert!(FmIndex::<u32, Block2<u64>, EncodingTable>::load(&blob).is_ok());
    // Too short for the headers.
    assert_eq!(
        FmIndex::<u32, Block2<u64>, EncodingTable>::load(&blob[..100]).err(),
        Some(LoadError::InvalidFormat)
    );
    assert_eq!(
        FmIndex::<u32, Block2<u64>, EncodingTable>::load(&[]).err(),
        Some(LoadError::InvalidFormat)
    );
    // Another magic number.
    let mut other = blob.clone();
    other[0] = b'G';
    assert_eq!(
        FmIndex::<u32, Block2<u64>, EncodingTable>::load(&other).err(),
        Some(LoadError::InvalidFormat)
    );
    // Another version.
    let mut other = blob.clone();
    other[3] = b'1';
    assert_eq!(
        FmIndex::<u32, Block2<u64>, EncodingTable>::load(&other).err(),
        Some(LoadError::InvalidFormat)
    );
    // Headers that do not fit together: a sampling ratio of zero.
    let mut other = blob.clone();
    other[296] = 0;
    assert_eq!(
        FmIndex::<u32, Block2<u64>, EncodingTable>::load(&other).err(),
        Some(LoadError::InvalidFormat)
    );
}

#[test]
fn loading_a_blob_of_another_size() {
    let builder = builder();
    let size = builder.blob_size();
    let mut blob = vec![0u8; size];
    builder.build(b"GATTACA".to_vec(), &mut blob).unwrap();
    let mut longer = blob.clone();
    longer.extend_from_slice(&[0u8; 8]);
    assert_eq!(
        FmIndex::<u32, Block2<u64>, EncodingTable>::load(&longer).err(),
        Some(LoadError::MismatchedBlobSize(size, size + 8))
    );
    assert_eq!(
        FmIndex::<u32, Block2<u64>, EncodingTable>::load(&blob[..size - 8]).err(),
        Some(LoadError::MismatchedBlobSize(size, size - 8))
    );
    // A blob for another position width has another size.
    assert!(matches!(
        FmIndex::<u64, Block2<u64>, EncodingTable>::load(&blob).err(),
        Some(LoadError::MismatchedBlobSize(_, given)) if given == size
    ));
}
