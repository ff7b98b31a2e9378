//! The magic number that opens every blob.

use vstd::prelude::*;
use crate::endian::write_bytes;
use crate::header::Header;

verus! {

pub const MAGIC_NUMBER_HEADER_1: u8 = 0x46;

pub const MAGIC_NUMBER_HEADER_2: u8 = 0x49;

pub const MAGIC_NUMBER_VERSION_1: u8 = 0x30;

pub const MAGIC_NUMBER_VERSION_2: u8 = 0x30;

/// The bytes of the magic number of this version: `F`, `I`, `0`, `0` and four zero bytes.
pub open spec fn magic_bytes() -> Seq<u8> {
    seq![
        MAGIC_NUMBER_HEADER_1,
        MAGIC_NUMBER_HEADER_2,
        MAGIC_NUMBER_VERSION_1,
        MAGIC_NUMBER_VERSION_2,
        0u8,
        0u8,
        0u8,
        0u8,
    ]
}

/// Magic number of the index format: two letters, a major and a minor
/// version, and four bytes of padding.
#[derive(Debug, Clone, Copy)]
pub struct MagicNumber(pub [u8; 8]);

impl MagicNumber {
    pub fn new() -> (magic: Self)
        ensures
            magic.0@ == magic_bytes(),
            magic.spec_is_valid(),
            magic.spec_is_supported_version(),
    {
        let magic = MagicNumber(
            [
                MAGIC_NUMBER_HEADER_1,
                MAGIC_NUMBER_HEADER_2,
                MAGIC_NUMBER_VERSION_1,
                MAGIC_NUMBER_VERSION_2,
                0,
                0,
                0,
                0,
            ],
        );
        assert(magic.0@ =~= magic_bytes());
        magic
    }

    pub open spec fn spec_is_valid(&self) -> bool {
        self.0@[0] == MAGIC_NUMBER_HEADER_1 && self.0@[1] == MAGIC_NUMBER_HEADER_2
    }

    pub open spec fn spec_is_supported_version(&self) -> bool {
        self.0@[2] == MAGIC_NUMBER_VERSION_1 && self.0@[3] == MAGIC_NUMBER_VERSION_2
    }

    pub fn major_version(&self) -> (version: u8)
        ensures
            version == self.0@[2],
    {
        self.0[2]
    }

    pub fn minor_version(&self) -> (version: u8)
        ensures
            version == self.0@[3],
    {
        self.0[3]
    }

    /// Whether the magic number opens with the two letters of the format.
    pub fn is_valid(&self) -> (valid: bool)
        ensures
            valid == self.spec_is_valid(),
    {
        self.0[0] == MAGIC_NUMBER_HEADER_1 && self.0[1] == MAGIC_NUMBER_HEADER_2
    }

    /// Whether the version is one that this library reads: only its own.
    pub fn is_supported_version(&self) -> (supported: bool)
        ensures
            supported == self.spec_is_supported_version(),
    {
        self.major_version() == MAGIC_NUMBER_VERSION_1 && self.minor_version()
            == MAGIC_NUMBER_VERSION_2
    }
}

impl Header for MagicNumber {
    open spec fn spec_raw_size() -> nat {
        8
    }

    open spec fn spec_bytes(&self) -> Seq<u8> {
        self.0@
    }

    open spec fn spec_parse(bytes: Seq<u8>) -> Self {
        MagicNumber(
            [bytes[0], bytes[1], bytes[2], bytes[3], bytes[4], bytes[5], bytes[6], bytes[7]],
        )
    }

    proof fn lemma_header(&self) {
        let parsed = Self::spec_parse(self.spec_bytes());
        assert(parsed.0@ =~= self.0@);
        crate::header::lemma_array_ext8(parsed.0, self.0);
    }

    fn raw_size() -> (size: usize) {
        8
    }

    fn write_to_blob(&self, blob: &mut [u8], off: usize) {
        write_bytes(blob, off, self.0.as_slice());
    }

    fn read_from_blob(blob: &[u8], off: usize) -> (header: Self) {
        let header = MagicNumber(
            [
                blob[off],
                blob[off + 1],
                blob[off + 2],
                blob[off + 3],
                blob[off + 4],
                blob[off + 5],
                blob[off + 6],
                blob[off + 7],
            ],
        );
        proof {
            let parsed = Self::spec_parse(blob@.subrange(off as int, off + 8));
            assert(parsed.0@ =~= header.0@);
            crate::header::lemma_array_ext8(parsed.0, header.0);
        }
        header
    }
}

} // verus!
