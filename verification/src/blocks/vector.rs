//! The integer width of the bit vectors of a block.

use vstd::prelude::*;
use crate::aligned::Aligned;
use crate::bits::{fits, lemma_fits_values};
use crate::endian::{
    le_bytes, le_value, overlay, read_u128, read_u32, read_u64, write_u128, write_u32, write_u64,
};

verus! {

/// Type for the bit vectors of a block. Three widths are supported: `u32`,
/// `u64` and `u128`. The width of a vector is the number of text positions
/// that one block covers, and its size is the alignment of the blob.
pub trait Vector: Sized + Copy + Aligned {
    /// The number of bits of a vector.
    const BLOCK_LEN: u32;

    proof fn lemma_vector()
        ensures
            Self::BLOCK_LEN == 32 || Self::BLOCK_LEN == 64 || Self::BLOCK_LEN == 128,
            Self::BLOCK_LEN == 8 * Self::ALIGN_SIZE,
    ;

    /// Reads the vector that starts at byte `off`.
    fn read_plane(bytes: &[u8], off: usize) -> (plane: u128)
        requires
            off + Self::ALIGN_SIZE <= bytes@.len(),
        ensures
            plane as nat == le_value(bytes@.subrange(off as int, off + Self::ALIGN_SIZE)),
            fits(plane, Self::BLOCK_LEN as nat),
    ;

    /// Writes a vector at byte `off`.
    fn write_plane(blob: &mut [u8], off: usize, plane: u128)
        requires
            off + Self::ALIGN_SIZE <= old(blob)@.len(),
            fits(plane, Self::BLOCK_LEN as nat),
        ensures
            final(blob)@ == overlay(
                old(blob)@,
                off as int,
                le_bytes(plane as nat, Self::ALIGN_SIZE as nat),
            ),
    ;
}

impl Aligned for u32 {
    const ALIGN_SIZE: usize = 4;

    proof fn lemma_align_size() {
    }
}

impl Aligned for u64 {
    const ALIGN_SIZE: usize = 8;

    proof fn lemma_align_size() {
    }
}

impl Aligned for u128 {
    const ALIGN_SIZE: usize = 16;

    proof fn lemma_align_size() {
    }
}

impl Vector for u32 {
    const BLOCK_LEN: u32 = 32;

    proof fn lemma_vector() {
    }

    fn read_plane(bytes: &[u8], off: usize) -> (plane: u128) {
        let value: u32 = read_u32(bytes, off);
        proof {
            lemma_fits_values(value as u128);
        }
        value as u128
    }

    fn write_plane(blob: &mut [u8], off: usize, plane: u128) {
        proof {
            lemma_fits_values(plane);
        }
        write_u32(blob, off, plane as u32);
    }
}

impl Vector for u64 {
    const BLOCK_LEN: u32 = 64;

    proof fn lemma_vector() {
    }

    fn read_plane(bytes: &[u8], off: usize) -> (plane: u128) {
        let value: u64 = read_u64(bytes, off);
        proof {
            lemma_fits_values(value as u128);
        }
        value as u128
    }

    fn write_plane(blob: &mut [u8], off: usize, plane: u128) {
        proof {
            lemma_fits_values(plane);
        }
        write_u64(blob, off, plane as u64);
    }
}

impl Vector for u128 {
    const BLOCK_LEN: u32 = 128;

    proof fn lemma_vector() {
    }

    fn read_plane(bytes: &[u8], off: usize) -> (plane: u128) {
        read_u128(bytes, off)
    }

    fn write_plane(blob: &mut [u8], off: usize, plane: u128) {
        write_u128(blob, off, plane);
    }
}

} // verus!
