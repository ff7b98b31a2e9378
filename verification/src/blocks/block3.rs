//! The block of three planes.

use std::marker::PhantomData;
use vstd::prelude::*;
use crate::aligned::Aligned;
use crate::block::{lemma_symbol_limits, Block};
use crate::blocks::vector::Vector;

verus! {

/// A block of three planes: it can index eight symbols.
#[derive(Debug)]
pub struct Block3<V: Vector>(pub [u128; 3], pub PhantomData<V>);

impl<V: Vector> Aligned for Block3<V> {
    const ALIGN_SIZE: usize = V::ALIGN_SIZE;

    proof fn lemma_align_size() {
        V::lemma_align_size();
    }
}

impl<V: Vector> Block for Block3<V> {
    type V = V;

    const BLOCK_LEN: u32 = V::BLOCK_LEN;

    const MAX_SYMBOL: u32 = 8;

    open spec fn spec_plane_count() -> nat {
        3
    }

    open spec fn planes(&self) -> Seq<u128> {
        self.0@
    }

    proof fn lemma_block() {
        lemma_symbol_limits();
    }

    proof fn lemma_planes(&self) {
    }

    fn plane_count() -> (count: usize) {
        3
    }

    fn from_planes(planes: &Vec<u128>) -> (block: Self) {
        let block = Block3([planes[0], planes[1], planes[2]], PhantomData);
        assert(block.0@ =~= planes@);
        block
    }

    fn plane(&self, v: usize) -> (plane: u128) {
        self.0[v]
    }

    fn read_from_blob(bytes: &[u8], off: usize) -> (block: Self) {
        proof {
            V::lemma_vector();
        }
        let total: usize = bytes.len();
        let size: usize = V::ALIGN_SIZE;
        let p0: u128 = V::read_plane(bytes, off + 0 * size);
        let p1: u128 = V::read_plane(bytes, off + 1 * size);
        let p2: u128 = V::read_plane(bytes, off + 2 * size);
        Block3([p0, p1, p2], PhantomData)
    }
}

} // verus!
