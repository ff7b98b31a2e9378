//! The block of two planes.

use std::marker::PhantomData;
use vstd::prelude::*;
use crate::aligned::Aligned;
use crate::block::{lemma_symbol_limits, Block};
use crate::blocks::vector::Vector;

verus! {

/// A block of two planes: it can index four symbols.
#[derive(Debug)]
pub struct Block2<V: Vector>(pub [u128; 2], pub PhantomData<V>);

impl<V: Vector> Aligned for Block2<V> {
    const ALIGN_SIZE: usize = V::ALIGN_SIZE;

    proof fn lemma_align_size() {
        V::lemma_align_size();
    }
}

impl<V: Vector> Block for Block2<V> {
    type V = V;

    const BLOCK_LEN: u32 = V::BLOCK_LEN;

    const MAX_SYMBOL: u32 = 4;

    open spec fn spec_plane_count() -> nat {
        2
    }

    open spec fn planes(&self) -> Seq<u128> {
        self.0@
    }

    proof fn lemma_block() {
        lemma_symbol_limits();
    }

    proof fn lemma_planes(&self) {
    }

    fn plane_count() -> (count: usize) {
        2
    }

    fn from_planes(planes: &Vec<u128>) -> (block: Self) {
        let block = Block2([planes[0], planes[1]], PhantomData);
        assert(block.0@ =~= planes@);
        block
    }

    fn plane(&self, v: usize) -> (plane: u128) {
        self.0[v]
    }

    fn read_from_blob(bytes: &[u8], off: usize) -> (block: Self) {
        proof {
            V::lemma_vector();
        }
        let total: usize = bytes.len();
        let size: usize = V::ALIGN_SIZE;
        let p0: u128 = V::read_plane(bytes, off + 0 * size);
        let p1: u128 = V::read_plane(bytes, off + 1 * size);
        Block2([p0, p1], PhantomData)
    }
}

} // verus!
