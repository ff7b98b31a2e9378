//! The Burrows-Wheeler matrix: the transformed text packed into blocks, with
//! the ranks of every symbol at the start of every block.

use std::marker::PhantomData;
use vstd::prelude::*;
use crate::aligned::{align_up, lemma_align_up, Aligned};
use crate::bits::fits;
use crate::block::{chunk_symbols, plane_symbols, planes_fit, spec_plane, Block};
use crate::blocks::vector::Vector;
use crate::count_array::{wide_aligned_size, zero_counts};
use crate::counting::{count_in, lemma_count_in_bound, lemma_count_in_subrange};
use crate::endian::{
    fill_zero, le_bytes, le_value, lemma_le_bytes_len, lemma_le_value_of_bytes,
    lemma_overlay_nested, lemma_pow256_values, overlay, pow256, read_u32, read_u64, write_u32,
    write_u64, zeros,
};
use crate::entries::{
    as_nats, entries, entry_at, entry_bytes, lemma_entry_bytes_at, lemma_index_split,
    lemma_mul_le, read_entry, write_entries,
};
use crate::header::Header;
use crate::kmer::is_encoded;
use crate::position::Position;

verus! {

/// The header of the Burrows-Wheeler matrix: the number of symbols, the
/// number of rank checkpoints and the number of blocks.
#[derive(Debug, Clone, Copy, PartialEq, Eq)]
pub struct BwmHeader {
    pub symbol_count: u32,
    pub rank_checkpoints_len: u64,
    pub blocks_len: u64,
}

/// The smaller of two numbers.
pub open spec fn min_nat(a: nat, b: nat) -> nat {
    if a <= b {
        a
    } else {
        b
    }
}

/// The part of the transformed text that block `b` holds.
pub open spec fn block_chunk(bwt: Seq<u8>, b: int, block_len: nat) -> Seq<u8> {
    bwt.subrange(
        min_nat((b * block_len) as nat, bwt.len()) as int,
        min_nat(((b + 1) * block_len) as nat, bwt.len()) as int,
    )
}

/// The rank checkpoints of a transformed text: for every block and every
/// symbol, the number of times that the symbol stands before the block.
pub open spec fn spec_checkpoints(
    bwt: Seq<u8>,
    symbol_count: nat,
    block_len: nat,
    blocks_len: nat,
) -> Seq<nat> {
    Seq::new(
        blocks_len * symbol_count,
        |x: int|
            count_in(
                bwt,
                x % (symbol_count as int) + 1,
                ((x / (symbol_count as int)) * block_len) as nat,
            ),
    )
}

/// The planes of all blocks of a transformed text, block after block.
pub open spec fn spec_block_planes(bwt: Seq<u8>, k: nat, block_len: nat, blocks_len: nat) -> Seq<
    nat,
> {
    Seq::new(
        blocks_len * k,
        |x: int|
            spec_plane(
                chunk_symbols(block_chunk(bwt, x / (k as int), block_len), block_len),
                (x % (k as int)) as nat,
                block_len,
            ) as nat,
    )
}

/// The numbers that a vector of planes holds.
pub open spec fn planes_as_nats(planes: Seq<u128>) -> Seq<nat> {
    Seq::new(planes.len(), |i: int| planes[i] as nat)
}

/// Writes `planes` as an array of vectors at byte `off`.
pub fn write_planes<V: Vector>(blob: &mut [u8], off: usize, planes: &Vec<u128>)
    requires
        off + planes@.len() * V::ALIGN_SIZE <= old(blob)@.len(),
        forall|i: int| 0 <= i < planes@.len() ==> fits(#[trigger] planes@[i], V::BLOCK_LEN as nat),
    ensures
        final(blob)@ == overlay(
            old(blob)@,
            off as int,
            entry_bytes(planes_as_nats(planes@), V::ALIGN_SIZE as nat),
        ),
{
    proof {
        V::lemma_vector();
    }
    let n: usize = planes.len();
    let width: usize = V::ALIGN_SIZE;
    let total: usize = blob.len();
    let ghost target = entry_bytes(planes_as_nats(planes@), width as nat);
    let mut i: usize = 0;
    while i < n
        invariant
            i <= n == planes@.len(),
            width == V::ALIGN_SIZE,
            width == 4 || width == 8 || width == 16,
            total == blob@.len() == old(blob)@.len(),
            off + n * width <= total,
            target == entry_bytes(planes_as_nats(planes@), width as nat),
            forall|j: int| 0 <= j < n ==> fits(#[trigger] planes@[j], V::BLOCK_LEN as nat),
            forall|b: int|
                0 <= b < blob@.len() && !(off <= b < off + i * width) ==> blob@[b] == old(blob)@[b],
            forall|b: int| 0 <= b < i * width ==> blob@[off + b] == target[b],
        decreases n - i,
    {
        proof {
            lemma_mul_le(i as int, n as int, width as int);
            lemma_entry_bytes_at(planes_as_nats(planes@), width as nat, i as int);
        }
        let at: usize = off + i * width;
        let ghost before = blob@;
        V::write_plane(blob, at, planes[i]);
        proof {
            let piece = le_bytes(planes@[i as int] as nat, width as nat);
            lemma_le_bytes_len(planes@[i as int] as nat, width as nat);
            assert(blob@ == overlay(before, at as int, piece));
            assert forall|b: int| 0 <= b < (i + 1) * width implies blob@[off + b] == target[b] by {
                if b >= i * width {
                    assert(target.subrange(i * width, (i + 1) * width)[b - i * width] == target[b]);
                }
            }
        }
        i += 1;
    }
    proof {
        assert(blob@ =~= overlay(old(blob)@, off as int, target));
    }
}

impl BwmHeader {
    /// Whether the lengths of the header fit together and the symbols fit the block.
    pub open spec fn valid<B: Block>(&self) -> bool {
        &&& self.symbol_count <= B::MAX_SYMBOL
        &&& self.blocks_len >= 1
        &&& self.rank_checkpoints_len == self.blocks_len * self.symbol_count
    }

    pub fn is_valid<B: Block>(&self) -> (valid: bool)
        ensures
            valid == self.valid::<B>(),
    {
        proof {
            B::lemma_block();
            crate::block::lemma_symbol_limits();
        }
        if self.symbol_count > B::MAX_SYMBOL || self.blocks_len < 1 {
            return false;
        }
        assert(self.blocks_len * self.symbol_count <= 0xffff_ffff_ffff_ffff * 0xffff_ffff)
            by (nonlinear_arith)
            requires
                self.blocks_len <= 0xffff_ffff_ffff_ffff,
                self.symbol_count <= 0xffff_ffff,
        ;
        let wanted: u128 = self.blocks_len as u128 * self.symbol_count as u128;
        wanted == self.rank_checkpoints_len as u128
    }

    pub open spec fn spec_sentinel_size<P: Position, B: Block>(&self) -> nat {
        align_up(P::spec_size(), B::ALIGN_SIZE as nat)
    }

    pub open spec fn spec_checkpoints_size<P: Position, B: Block>(&self) -> nat {
        align_up(self.rank_checkpoints_len as nat * P::spec_size(), B::ALIGN_SIZE as nat)
    }

    pub open spec fn spec_blocks_raw_size<B: Block>(&self) -> nat {
        self.blocks_len as nat * (B::spec_plane_count() * B::ALIGN_SIZE as nat)
    }

    /// The size of the body in bytes: the sentinel index, the rank
    /// checkpoints and the blocks, each with its padding.
    pub open spec fn spec_body_size<P: Position, B: Block>(&self) -> nat {
        self.spec_sentinel_size::<P, B>() + self.spec_checkpoints_size::<P, B>() + align_up(
            self.spec_blocks_raw_size::<B>(),
            B::ALIGN_SIZE as nat,
        )
    }

    /// The body of the matrix for a transformed text and the place of its
    /// sentinel: the place, the rank checkpoints and the blocks, each
    /// followed by zero bytes up to the alignment.
    pub open spec fn spec_body<P: Position, B: Block>(&self, bwt: Seq<u8>, sentinel: nat) -> Seq<
        u8,
    > {
        overlay(
            overlay(
                overlay(
                    zeros(self.spec_body_size::<P, B>()),
                    0,
                    entry_bytes(seq![sentinel], P::spec_size()),
                ),
                self.spec_sentinel_size::<P, B>() as int,
                entry_bytes(
                    spec_checkpoints(
                        bwt,
                        self.symbol_count as nat,
                        B::BLOCK_LEN as nat,
                        self.blocks_len as nat,
                    ),
                    P::spec_size(),
                ),
            ),
            (self.spec_sentinel_size::<P, B>() + self.spec_checkpoints_size::<P, B>()) as int,
            entry_bytes(
                spec_block_planes(
                    bwt,
                    B::spec_plane_count(),
                    B::BLOCK_LEN as nat,
                    self.blocks_len as nat,
                ),
                B::ALIGN_SIZE as nat,
            ),
        )
    }

    /// The size of the body in bytes, in a width that holds it for every header.
    pub fn wide_body_size<P: Position, B: Block>(&self) -> (size: u128)
        ensures
            size == self.spec_body_size::<P, B>(),
            size <= 0x400_0000_0000_0000_0000,
    {
        proof {
            P::lemma_position();
            B::lemma_block();
            B::lemma_align_size();
        }
        let a: u128 = wide_aligned_size::<B>(1, P::size() as u64);
        let b: u128 = wide_aligned_size::<B>(self.rank_checkpoints_len, P::size() as u64);
        let per_block: u64 = (B::plane_count() * B::ALIGN_SIZE) as u64;
        proof {
            assert(self.blocks_len as nat * per_block as nat == self.spec_blocks_raw_size::<B>());
        }
        let c: u128 = wide_aligned_size::<B>(self.blocks_len, per_block);
        a + b + c
    }

    /// The header for a text of `text_len` symbols out of `symbol_count`.
    #[inline]
    pub fn new<P: Position, B: Block>(text_len: u64, symbol_count: u32) -> (header: Self)
        requires
            symbol_count <= B::MAX_SYMBOL,
            (text_len / (B::BLOCK_LEN as u64) + 1) * symbol_count <= u64::MAX,
        ensures
            header.valid::<B>(),
            header.symbol_count == symbol_count,
            header.blocks_len == text_len / (B::BLOCK_LEN as u64) + 1,
    {
        proof {
            B::lemma_block();
            <B::V as Vector>::lemma_vector();
        }
        let block_len: u32 = B::BLOCK_LEN;
        assert(block_len >= 32);
        assert(text_len / (block_len as u64) <= text_len / 2) by (nonlinear_arith)
            requires
                block_len >= 2,
                text_len >= 0,
        ;
        // One block more, always: the ranks at the end of the text are those
        // at the start of a block.
        let block_count: u64 = (text_len / block_len as u64) + 1;
        let rank_checkpoints_len: u64 = block_count * (symbol_count as u64);
        BwmHeader { symbol_count, rank_checkpoints_len, blocks_len: block_count }
    }
}

impl Header for BwmHeader {
    open spec fn spec_raw_size() -> nat {
        24
    }

    open spec fn spec_bytes(&self) -> Seq<u8> {
        le_bytes(self.symbol_count as nat, 4) + zeros(4) + le_bytes(
            self.rank_checkpoints_len as nat,
            8,
        ) + le_bytes(self.blocks_len as nat, 8)
    }

    open spec fn spec_parse(bytes: Seq<u8>) -> Self {
        BwmHeader {
            symbol_count: le_value(bytes.subrange(0, 4)) as u32,
            rank_checkpoints_len: le_value(bytes.subrange(8, 16)) as u64,
            blocks_len: le_value(bytes.subrange(16, 24)) as u64,
        }
    }

    proof fn lemma_header(&self) {
        lemma_pow256_values();
        lemma_le_bytes_len(self.symbol_count as nat, 4);
        lemma_le_bytes_len(self.rank_checkpoints_len as nat, 8);
        lemma_le_bytes_len(self.blocks_len as nat, 8);
        lemma_le_value_of_bytes(self.symbol_count as nat, 4);
        lemma_le_value_of_bytes(self.rank_checkpoints_len as nat, 8);
        lemma_le_value_of_bytes(self.blocks_len as nat, 8);
        let all = self.spec_bytes();
        assert(all.subrange(0, 4) =~= le_bytes(self.symbol_count as nat, 4));
        assert(all.subrange(8, 16) =~= le_bytes(self.rank_checkpoints_len as nat, 8));
        assert(all.subrange(16, 24) =~= le_bytes(self.blocks_len as nat, 8));
        let parsed = Self::spec_parse(all);
        assert(parsed.symbol_count == self.symbol_count);
        assert(parsed.rank_checkpoints_len == self.rank_checkpoints_len);
        assert(parsed.blocks_len == self.blocks_len);
    }

    fn raw_size() -> (size: usize) {
        24
    }

    fn write_to_blob(&self, blob: &mut [u8], off: usize) {
        proof {
            lemma_le_bytes_len(self.symbol_count as nat, 4);
            lemma_le_bytes_len(self.rank_checkpoints_len as nat, 8);
            lemma_le_bytes_len(self.blocks_len as nat, 8);
        }
        let total: usize = blob.len();
        write_u32(blob, off, self.symbol_count);
        fill_zero(blob, off + 4, off + 8);
        write_u64(blob, off + 8, self.rank_checkpoints_len);
        write_u64(blob, off + 16, self.blocks_len);
        assert(blob@ =~= overlay(old(blob)@, off as int, self.spec_bytes()));
    }

    fn read_from_blob(blob: &[u8], off: usize) -> (header: Self) {
        let total: usize = blob.len();
        let header = BwmHeader {
            symbol_count: read_u32(blob, off),
            rank_checkpoints_len: read_u64(blob, off + 8),
            blocks_len: read_u64(blob, off + 16),
        };
        proof {
            let bytes = blob@.subrange(off as int, off + 24);
            assert(bytes.subrange(0, 4) =~= blob@.subrange(off as int, off + 4));
            assert(bytes.subrange(8, 16) =~= blob@.subrange(off + 8, off + 16));
            assert(bytes.subrange(16, 24) =~= blob@.subrange(off + 16, off + 24));
        }
        header
    }
}

impl BwmHeader {
    /// Packs the transformed text into blocks with their rank checkpoints and
    /// writes the body of the matrix at byte `off` of `blob`.
    pub fn encode_bwm_body<P: Position, B: Block>(
        &self,
        bwt_text: Vec<u8>,
        sentinel_index: P,
        blob: &mut [u8],
        off: usize,
    )
        requires
            self.valid::<B>(),
            self.blocks_len == bwt_text@.len() / (B::BLOCK_LEN as nat) + 1,
            is_encoded(bwt_text@, self.symbol_count as nat),
            bwt_text@.len() < pow256(P::spec_size()),
            off + self.spec_body_size::<P, B>() <= old(blob)@.len(),
        ensures
            final(blob)@ == overlay(
                old(blob)@,
                off as int,
                self.spec_body::<P, B>(bwt_text@, sentinel_index.value()),
            ),
    {
        let total: usize = blob.len();
        proof {
            P::lemma_position();
            B::lemma_block();
            B::lemma_align_size();
            <B::V as Vector>::lemma_vector();
            crate::block::lemma_symbol_limits();
            lemma_pow256_values();
            lemma_align_up(P::spec_size(), B::ALIGN_SIZE as nat);
            lemma_align_up(
                self.rank_checkpoints_len as nat * P::spec_size(),
                B::ALIGN_SIZE as nat,
            );
            lemma_align_up(self.spec_blocks_raw_size::<B>(), B::ALIGN_SIZE as nat);
            assert(self.blocks_len as nat <= self.spec_blocks_raw_size::<B>()) by (nonlinear_arith)
                requires
                    self.spec_blocks_raw_size::<B>() == self.blocks_len as nat * (
                    B::spec_plane_count() * B::ALIGN_SIZE as nat),
                    B::spec_plane_count() >= 1,
                    B::ALIGN_SIZE >= 1,
            ;
            assert(self.rank_checkpoints_len as nat <= self.rank_checkpoints_len as nat
                * P::spec_size()) by (nonlinear_arith)
                requires
                    P::spec_size() >= 1,
            ;
        }
        let n: usize = bwt_text.len();
        let sigma: usize = self.symbol_count as usize;
        let k: usize = B::plane_count();
        let block_len: usize = B::BLOCK_LEN as usize;
        let blocks: usize = self.blocks_len as usize;
        let body_size: usize = self.wide_body_size::<P, B>() as usize;
        let sentinel_size: usize = wide_aligned_size::<B>(1, P::size() as u64) as usize;
        let checkpoints_size: usize = wide_aligned_size::<B>(
            self.rank_checkpoints_len,
            P::size() as u64,
        ) as usize;
        let ghost bwt = bwt_text@;
        let ghost wanted_checkpoints = spec_checkpoints(
            bwt,
            sigma as nat,
            block_len as nat,
            blocks as nat,
        );
        let ghost wanted_planes = spec_block_planes(bwt, k as nat, block_len as nat, blocks as nat);
        let mut rank_pre_counts: Vec<u64> = zero_counts(sigma);
        let mut checkpoints: Vec<u64> = Vec::new();
        let mut planes: Vec<u128> = Vec::new();
        let mut b: usize = 0;
        while b < blocks
            invariant
                b <= blocks == n / block_len + 1,
                n == bwt.len(),
                bwt == bwt_text@,
                is_encoded(bwt, sigma as nat),
                sigma <= B::MAX_SYMBOL <= 128,
                k == B::spec_plane_count(),
                2 <= k <= 7,
                block_len == B::BLOCK_LEN,
                32 <= block_len <= 128,
                blocks * sigma == self.rank_checkpoints_len,
                wanted_checkpoints == spec_checkpoints(
                    bwt,
                    sigma as nat,
                    block_len as nat,
                    blocks as nat,
                ),
                wanted_planes == spec_block_planes(
                    bwt,
                    k as nat,
                    block_len as nat,
                    blocks as nat,
                ),
                rank_pre_counts@.len() == sigma,
                forall|c: int|
                    0 <= c < sigma ==> #[trigger] rank_pre_counts@[c] as nat == count_in(
                        bwt,
                        c + 1,
                        min_nat((b * block_len) as nat, n as nat),
                    ),
                checkpoints@.len() == b * sigma,
                forall|x: int|
                    0 <= x < checkpoints@.len() ==> #[trigger] checkpoints@[x] as nat
                        == wanted_checkpoints[x] && checkpoints@[x] <= n,
                planes@.len() == b * k,
                forall|x: int|
                    0 <= x < planes@.len() ==> #[trigger] planes@[x] as nat == wanted_planes[x]
                        && fits(planes@[x], block_len as nat),
            decreases blocks - b,
        {
            proof {
                assert(b * block_len <= n) by (nonlinear_arith)
                    requires
                        b <= n / block_len,
                        block_len > 0,
                        n >= 0,
                {
                    vstd::arithmetic::div_mod::lemma_fundamental_div_mod(n as int, block_len as int);
                    assert(b * block_len <= (n / block_len) * block_len) by (nonlinear_arith)
                        requires
                            b <= n / block_len,
                            block_len > 0,
                    ;
                    assert((n / block_len) * block_len <= n) by (nonlinear_arith)
                        requires
                            n == block_len * (n / block_len) + n % block_len,
                            n % block_len >= 0,
                    ;
                }
                lemma_mul_le(b as int, blocks as int, sigma as int);
                lemma_mul_le(b as int, blocks as int, k as int);
            }
            let mut c: usize = 0;
            while c < sigma
                invariant
                    c <= sigma,
                    b < blocks,
                    b * block_len <= n,
                    n == bwt.len(),
                    (b + 1) * sigma <= blocks * sigma <= u64::MAX,
                    rank_pre_counts@.len() == sigma,
                    wanted_checkpoints == spec_checkpoints(
                        bwt,
                        sigma as nat,
                        block_len as nat,
                        blocks as nat,
                    ),
                    forall|c: int|
                        0 <= c < sigma ==> #[trigger] rank_pre_counts@[c] as nat == count_in(
                            bwt,
                            c + 1,
                            min_nat((b * block_len) as nat, n as nat),
                        ),
                    checkpoints@.len() == b * sigma + c,
                    forall|x: int|
                        0 <= x < checkpoints@.len() ==> #[trigger] checkpoints@[x] as nat
                            == wanted_checkpoints[x] && checkpoints@[x] <= n,
                decreases sigma - c,
            {
                proof {
                    lemma_index_split(b as int, c as int, sigma as int);
                    lemma_count_in_bound(bwt, c + 1, (b * block_len) as nat);
                }
                checkpoints.push(rank_pre_counts[c]);
                c += 1;
            }
            let start: usize = b * block_len;
            let end: usize = if n - start < block_len {
                n
            } else {
                start + block_len
            };
            let chunk: &[u8] = vstd::slice::slice_subrange(bwt_text.as_slice(), start, end);
            proof {
                assert((b + 1) * block_len == start + block_len) by (nonlinear_arith)
                    requires
                        start == b * block_len,
                ;
                assert(chunk@ == block_chunk(bwt, b as int, block_len as nat));
                assert forall|c: int| 0 <= c < sigma implies #[trigger] rank_pre_counts@[c]
                    + chunk@.len() <= u64::MAX by {
                    lemma_count_in_bound(bwt, c + 1, start as nat);
                }
                assert forall|j: int| 0 <= j < chunk@.len() implies 1 <= #[trigger] chunk@[j]
                    <= B::MAX_SYMBOL && chunk@[j] <= rank_pre_counts@.len() by {
                    assert(chunk@[j] == bwt[start + j]);
                }
            }
            let ghost before = rank_pre_counts@;
            let block: B = B::encode(chunk, &mut rank_pre_counts);
            proof {
                block.lemma_planes();
                assert forall|c: int| 0 <= c < sigma implies #[trigger] rank_pre_counts@[c] as nat
                    == count_in(bwt, c + 1, min_nat(((b + 1) * block_len) as nat, n as nat)) by {
                    lemma_count_in_subrange(bwt, c + 1, start as nat, end as nat);
                    assert(rank_pre_counts@[c] == before[c] + count_in(
                        chunk@,
                        c + 1,
                        chunk@.len(),
                    ));
                }
            }
            let mut v: usize = 0;
            while v < k
                invariant
                    v <= k == B::spec_plane_count(),
                    b < blocks,
                    (b + 1) * k <= blocks * k,
                    block_len == B::BLOCK_LEN,
                    block.planes().len() == k,
                    planes_fit(block.planes(), block_len as nat),
                    block.planes() == crate::block::spec_planes(
                        chunk_symbols(block_chunk(bwt, b as int, block_len as nat), block_len as nat),
                        k as nat,
                        block_len as nat,
                    ),
                    wanted_planes == spec_block_planes(
                        bwt,
                        k as nat,
                        block_len as nat,
                        blocks as nat,
                    ),
                    planes@.len() == b * k + v,
                    forall|x: int|
                        0 <= x < planes@.len() ==> #[trigger] planes@[x] as nat == wanted_planes[x]
                            && fits(planes@[x], block_len as nat),
                decreases k - v,
            {
                proof {
                    lemma_index_split(b as int, v as int, k as int);
                    assert(fits(block.planes()[v as int], block_len as nat));
                }
                planes.push(block.plane(v));
                v += 1;
            }
            proof {
                assert((b + 1) * sigma == b * sigma + sigma) by (nonlinear_arith);
                assert((b + 1) * k == b * k + k) by (nonlinear_arith);
            }
            b += 1;
        }
        let mut sentinel: Vec<u64> = Vec::new();
        sentinel.push(sentinel_index.as_u64());
        proof {
            assert(as_nats(sentinel@) =~= seq![sentinel_index.value()]);
            assert(as_nats(checkpoints@) =~= wanted_checkpoints);
            assert(planes_as_nats(planes@) =~= wanted_planes);
            assert(entry_bytes(seq![sentinel_index.value()], P::spec_size()).len() == 1
                * P::spec_size());
            assert(entry_bytes(wanted_checkpoints, P::spec_size()).len()
                == wanted_checkpoints.len() * P::spec_size());
            assert(entry_bytes(wanted_planes, B::ALIGN_SIZE as nat).len() == wanted_planes.len()
                * B::ALIGN_SIZE);
            assert(blocks * k * B::ALIGN_SIZE == self.spec_blocks_raw_size::<B>())
                by (nonlinear_arith)
                requires
                    self.spec_blocks_raw_size::<B>() == self.blocks_len as nat * (
                    B::spec_plane_count() * B::ALIGN_SIZE as nat),
                    blocks == self.blocks_len,
                    k == B::spec_plane_count(),
            ;
        }
        let ghost blank = zeros(body_size as nat);
        let ghost first = overlay(
            blank,
            0,
            entry_bytes(seq![sentinel_index.value()], P::spec_size()),
        );
        let ghost second = overlay(
            first,
            sentinel_size as int,
            entry_bytes(wanted_checkpoints, P::spec_size()),
        );
        fill_zero(blob, off, off + body_size);
        write_entries(blob, off, P::size(), &sentinel);
        proof {
            lemma_overlay_nested(
                old(blob)@,
                off as int,
                blank,
                0,
                entry_bytes(seq![sentinel_index.value()], P::spec_size()),
            );
        }
        write_entries(blob, off + sentinel_size, P::size(), &checkpoints);
        proof {
            lemma_overlay_nested(
                old(blob)@,
                off as int,
                first,
                sentinel_size as int,
                entry_bytes(wanted_checkpoints, P::spec_size()),
            );
        }
        write_planes::<B::V>(blob, off + sentinel_size + checkpoints_size, &planes);
        proof {
            lemma_overlay_nested(
                old(blob)@,
                off as int,
                second,
                (sentinel_size + checkpoints_size) as int,
                entry_bytes(wanted_planes, B::ALIGN_SIZE as nat),
            );
        }
    }
}

/// View of the Burrows-Wheeler matrix of a blob.
pub struct BwmView<'a, P: Position, B: Block> {
    pub symbol_count: usize,
    pub sentinel_index: u64,
    pub rank_checkpoints: &'a [u8],
    pub blocks: &'a [u8],
    pub blocks_len: usize,
    pub position: PhantomData<P>,
    pub block: PhantomData<B>,
}

impl<'a, P: Position, B: Block> BwmView<'a, P, B> {
    pub open spec fn wf(&self) -> bool {
        &&& self.blocks_len >= 1
        &&& self.symbol_count <= B::MAX_SYMBOL
        &&& self.rank_checkpoints@.len() == self.blocks_len * self.symbol_count * P::spec_size()
        &&& self.blocks@.len() == self.blocks_len * (B::spec_plane_count() * B::ALIGN_SIZE)
    }

    /// The rank checkpoints: entry `b * symbol_count + s` is the rank of
    /// symbol `s` at the start of block `b`.
    pub open spec fn checkpoints(&self) -> Seq<nat> {
        entries(
            self.rank_checkpoints@,
            P::spec_size(),
            (self.blocks_len * self.symbol_count) as nat,
        )
    }

    /// The planes of block `b`.
    pub open spec fn block_planes(&self, b: int) -> Seq<u128> {
        Seq::new(
            B::spec_plane_count(),
            |v: int|
                entry_at(self.blocks@, B::ALIGN_SIZE as nat, b * B::spec_plane_count() + v) as u128,
        )
    }

    /// The symbols of block `b`.
    pub open spec fn block_symbols(&self, b: int) -> Seq<u8> {
        plane_symbols(self.block_planes(b), B::BLOCK_LEN as nat)
    }

    /// The place in the stored text that stands for row `pos`: the stored
    /// text has no sentinel, so the rows before it are one place further.
    /// A place behind the last block is taken for the last place.
    pub open spec fn place_of(&self, pos: nat) -> nat {
        let place = if pos < self.sentinel_index {
            pos + 1
        } else {
            pos
        };
        min_nat(place, (self.blocks_len * B::BLOCK_LEN - 1) as nat)
    }

    /// The rank of symbol `s` at a place of the stored text: the number of
    /// times that `s` stands before the place.
    pub open spec fn rank_at(&self, place: nat, s: nat) -> nat {
        let q = place / (B::BLOCK_LEN as nat);
        let rem = place % (B::BLOCK_LEN as nat);
        self.checkpoints()[q * self.symbol_count + s] + count_in(
            self.block_symbols(q as int),
            s as int,
            rem,
        )
    }

    /// The rank of symbol `symidx` at row `pos`, and zero for what is no symbol.
    pub open spec fn spec_rank(&self, pos: nat, symidx: nat) -> nat {
        if symidx >= self.symbol_count {
            0
        } else {
            self.rank_at(self.place_of(pos), symidx)
        }
    }

    /// The symbol that stands before the suffix of row `pos` and its rank
    /// there, or nothing where the suffix is the whole text.
    pub open spec fn spec_step(&self, pos: nat) -> Option<(nat, u8)> {
        if pos + 1 == self.sentinel_index {
            None
        } else {
            let place = self.place_of(pos);
            let q = place / (B::BLOCK_LEN as nat);
            let rem = place % (B::BLOCK_LEN as nat);
            let symidx = self.block_symbols(q as int)[rem as int];
            Some((self.spec_rank(pos, symidx as nat), symidx))
        }
    }

    /// A rank is a checkpoint and at most the length of a block.
    pub proof fn lemma_rank_bound(&self, pos: nat, symidx: nat)
        requires
            self.wf(),
        ensures
            self.spec_rank(pos, symidx) < pow256(P::spec_size()) + 128,
    {
        P::lemma_position();
        B::lemma_block();
        <B::V as Vector>::lemma_vector();
        if symidx < self.symbol_count {
            let place = self.place_of(pos);
            let q = place / (B::BLOCK_LEN as nat);
            let rem = place % (B::BLOCK_LEN as nat);
            lemma_count_in_bound(self.block_symbols(q as int), symidx as int, rem);
            crate::endian::lemma_le_value_bound(
                self.rank_checkpoints@.subrange(
                    (q * self.symbol_count + symidx) * P::spec_size(),
                    (q * self.symbol_count + symidx + 1) * P::spec_size(),
                ),
            );
            assert(place <= self.blocks_len * B::BLOCK_LEN - 1);
            assert(q < self.blocks_len) by (nonlinear_arith)
                requires
                    q == place / (B::BLOCK_LEN as nat),
                    place < self.blocks_len * B::BLOCK_LEN,
                    B::BLOCK_LEN > 0,
            ;
            lemma_mul_le(q as int, self.blocks_len as int, self.symbol_count as int);
            lemma_mul_le(
                q * self.symbol_count + symidx,
                self.blocks_len * self.symbol_count,
                P::spec_size() as int,
            );
        }
    }

    /// The size of the body in bytes.
    pub fn aligned_body_size(header: &BwmHeader) -> (size: usize)
        requires
            header.spec_body_size::<P, B>() <= usize::MAX,
        ensures
            size == header.spec_body_size::<P, B>(),
    {
        header.wide_body_size::<P, B>() as usize
    }

    /// Binds the view to the body of the matrix.
    pub fn load_from_body(header: &BwmHeader, body_blob: &'a [u8]) -> (view: Self)
        requires
            header.valid::<B>(),
            body_blob@.len() == header.spec_body_size::<P, B>(),
        ensures
            view.wf(),
            view.symbol_count == header.symbol_count,
            view.blocks_len == header.blocks_len,
            view.sentinel_index as nat == entry_at(body_blob@, P::spec_size(), 0),
            view.rank_checkpoints@ == body_blob@.subrange(
                header.spec_sentinel_size::<P, B>() as int,
                header.spec_sentinel_size::<P, B>() + header.rank_checkpoints_len
                    * P::spec_size(),
            ),
            view.blocks@ == body_blob@.subrange(
                (header.spec_sentinel_size::<P, B>() + header.spec_checkpoints_size::<P, B>())
                    as int,
                (header.spec_sentinel_size::<P, B>() + header.spec_checkpoints_size::<P, B>()
                    + header.spec_blocks_raw_size::<B>()) as int,
            ),
    {
        let total: usize = body_blob.len();
        proof {
            P::lemma_position();
            B::lemma_block();
            B::lemma_align_size();
            crate::block::lemma_symbol_limits();
            lemma_align_up(P::spec_size(), B::ALIGN_SIZE as nat);
            lemma_align_up(
                header.rank_checkpoints_len as nat * P::spec_size(),
                B::ALIGN_SIZE as nat,
            );
            lemma_align_up(header.spec_blocks_raw_size::<B>(), B::ALIGN_SIZE as nat);
            assert(header.blocks_len as nat <= header.spec_blocks_raw_size::<B>())
                by (nonlinear_arith)
                requires
                    header.spec_blocks_raw_size::<B>() == header.blocks_len as nat * (
                    B::spec_plane_count() * B::ALIGN_SIZE as nat),
                    B::spec_plane_count() >= 1,
                    B::ALIGN_SIZE >= 1,
            ;
            assert(header.blocks_len * header.symbol_count * P::spec_size()
                == header.rank_checkpoints_len * P::spec_size());
        }
        let sentinel_size: usize = wide_aligned_size::<B>(1, P::size() as u64) as usize;
        let checkpoints_size: usize = wide_aligned_size::<B>(
            header.rank_checkpoints_len,
            P::size() as u64,
        ) as usize;
        let checkpoints_raw: usize = (header.rank_checkpoints_len as usize) * P::size();
        let per_block: usize = B::plane_count() * B::ALIGN_SIZE;
        let blocks_raw: usize = (header.blocks_len as usize) * per_block;
        let sentinel_index: u64 = read_entry(body_blob, P::size(), 0);
        let rank_checkpoints: &'a [u8] = vstd::slice::slice_subrange(
            body_blob,
            sentinel_size,
            sentinel_size + checkpoints_raw,
        );
        let start: usize = sentinel_size + checkpoints_size;
        let blocks: &'a [u8] = vstd::slice::slice_subrange(body_blob, start, start + blocks_raw);
        BwmView {
            symbol_count: header.symbol_count as usize,
            sentinel_index,
            rank_checkpoints,
            blocks,
            blocks_len: header.blocks_len as usize,
            position: PhantomData,
            block: PhantomData,
        }
    }

    /// The block and the position in it of a row.
    fn locate_place(&self, pos: u64) -> (at: (usize, u32))
        requires
            self.wf(),
        ensures
            at.0 == self.place_of(pos as nat) / (B::BLOCK_LEN as nat),
            at.1 == self.place_of(pos as nat) % (B::BLOCK_LEN as nat),
            at.0 < self.blocks_len,
            at.1 < B::BLOCK_LEN,
    {
        proof {
            B::lemma_block();
            <B::V as Vector>::lemma_vector();
        }
        let block_len: u64 = B::BLOCK_LEN as u64;
        let place: u64 = if pos < self.sentinel_index {
            pos + 1
        } else {
            pos
        };
        let (quot, rem): (u64, u64) = crate::position::div_rem_u64(place, block_len);
        proof {
            let cap = self.blocks_len * block_len;
            assert(cap >= block_len) by (nonlinear_arith)
                requires
                    cap == self.blocks_len * block_len,
                    self.blocks_len >= 1,
                    block_len >= 0,
            ;
            if quot >= self.blocks_len {
                vstd::arithmetic::div_mod::lemma_fundamental_div_mod(
                    place as int,
                    block_len as int,
                );
                assert(place >= cap) by (nonlinear_arith)
                    requires
                        place == block_len * quot + place % block_len,
                        place % block_len >= 0,
                        quot >= self.blocks_len,
                        cap == self.blocks_len * block_len,
                        block_len > 0,
                ;
                lemma_index_split(self.blocks_len - 1, block_len - 1, block_len as int);
                assert((self.blocks_len - 1) * block_len + (block_len - 1) == cap - 1)
                    by (nonlinear_arith)
                    requires
                        cap == self.blocks_len * block_len,
                ;
            } else {
                vstd::arithmetic::div_mod::lemma_fundamental_div_mod(
                    place as int,
                    block_len as int,
                );
                assert(place < cap) by (nonlinear_arith)
                    requires
                        place == block_len * quot + place % block_len,
                        place % block_len < block_len,
                        quot + 1 <= self.blocks_len,
                        cap == self.blocks_len * block_len,
                        block_len > 0,
                ;
            }
        }
        if quot >= self.blocks_len as u64 {
            (self.blocks_len - 1, (block_len - 1) as u32)
        } else {
            (quot as usize, rem as u32)
        }
    }

    /// The rank checkpoint of symbol `symidx` at the start of block `quot`.
    fn checkpoint(&self, quot: usize, symidx: usize) -> (rank: u64)
        requires
            self.wf(),
            quot < self.blocks_len,
            symidx < self.symbol_count,
        ensures
            rank as nat == self.checkpoints()[quot * self.symbol_count + symidx],
    {
        proof {
            P::lemma_position();
            lemma_mul_le(quot as int, self.blocks_len as int, self.symbol_count as int);
            lemma_mul_le(
                quot * self.symbol_count + symidx,
                self.blocks_len * self.symbol_count,
                P::spec_size() as int,
            );
        }
        let total: usize = self.rank_checkpoints.len();
        read_entry(self.rank_checkpoints, P::size(), quot * self.symbol_count + symidx)
    }

    /// Reads block `quot`.
    fn read_block(&self, quot: usize) -> (block: B)
        requires
            self.wf(),
            quot < self.blocks_len,
        ensures
            block.planes() == self.block_planes(quot as int),
    {
        proof {
            B::lemma_block();
            B::lemma_align_size();
            lemma_mul_le(
                quot as int,
                self.blocks_len as int,
                (B::spec_plane_count() * B::ALIGN_SIZE) as int,
            );
        }
        let total: usize = self.blocks.len();
        let per_block: usize = B::plane_count() * B::ALIGN_SIZE;
        let off: usize = quot * per_block;
        let block: B = B::read_from_blob(self.blocks, off);
        proof {
            block.lemma_planes();
            let k = B::spec_plane_count() as int;
            let size = B::ALIGN_SIZE as int;
            assert forall|v: int| 0 <= v < k implies block.planes()[v] == self.block_planes(
                quot as int,
            )[v] by {
                assert(off + v * size == (quot * k + v) * size) by (nonlinear_arith)
                    requires
                        off == quot * (k * size),
                ;
                assert(off + (v + 1) * size == (quot * k + v + 1) * size) by (nonlinear_arith)
                    requires
                        off == quot * (k * size),
                ;
            }
            assert(block.planes() =~= self.block_planes(quot as int));
        }
        block
    }

    /// The rank of symbol `symidx` at row `pos`.
    pub fn next_rank(&self, pos: u64, symidx: u8) -> (rank: u128)
        requires
            self.wf(),
        ensures
            rank == self.spec_rank(pos as nat, symidx as nat),
    {
        if symidx as usize >= self.symbol_count {
            return 0;
        }
        let (quot, rem) = self.locate_place(pos);
        let rank_precount: u64 = self.checkpoint(quot, symidx as usize);
        if rem == 0 {
            rank_precount as u128
        } else {
            let block: B = self.read_block(quot);
            let rem_count: u32 = block.get_remain_count_of(rem, symidx);
            rank_precount as u128 + rem_count as u128
        }
    }

    /// The symbol that stands before the suffix of row `pos` and its rank
    /// there, or nothing where the suffix is the whole text.
    pub fn pre_rank_and_symidx(&self, pos: u64) -> (step: Option<(u128, u8)>)
        requires
            self.wf(),
        ensures
            step matches Some(found) ==> self.spec_step(pos as nat) == Some(
                (found.0 as nat, found.1),
            ),
            step is None ==> self.spec_step(pos as nat) is None,
    {
        if self.sentinel_index > 0 && pos == self.sentinel_index - 1 {
            return None;
        }
        let (quot, rem) = self.locate_place(pos);
        let block: B = self.read_block(quot);
        let symidx: u8 = block.get_symidx_of(rem);
        if symidx as usize >= self.symbol_count {
            return Some((0, symidx));
        }
        let rank_precount: u64 = self.checkpoint(quot, symidx as usize);
        if rem == 0 {
            Some((rank_precount as u128, symidx))
        } else {
            let rem_count: u32 = block.get_remain_count_of(rem, symidx);
            Some((rank_precount as u128 + rem_count as u128, symidx))
        }
    }

    /// The greatest number that a position holds.
    pub open spec fn spec_position_max() -> nat {
        (pow256(P::spec_size()) - 1) as nat
    }

    fn saturate(rank: u128) -> (position: P)
        ensures
            position.value() == min_nat(rank as nat, Self::spec_position_max()),
    {
        proof {
            P::lemma_position();
            lemma_pow256_values();
        }
        let max: u128 = if P::size() == 4 {
            0xffff_ffff
        } else {
            0xffff_ffff_ffff_ffff
        };
        let value: u64 = if rank > max {
            max as u64
        } else {
            rank as u64
        };
        proof {
            vstd::arithmetic::div_mod::lemma_small_mod(value as nat, pow256(P::spec_size()));
        }
        P::from_u64(value)
    }

    /// The rank of symbol `symidx` at row `pos`, as far as a position holds it.
    #[inline]
    pub fn get_next_rank(&self, pos: P, symidx: u8) -> (rank: P)
        requires
            self.wf(),
        ensures
            rank.value() == min_nat(
                self.spec_rank(pos.value(), symidx as nat),
                Self::spec_position_max(),
            ),
    {
        Self::saturate(self.next_rank(pos.as_u64(), symidx))
    }

    /// The symbol that stands before the suffix of row `pos` and its rank
    /// there, as far as a position holds it, or nothing where the suffix is
    /// the whole text.
    #[inline]
    pub fn get_pre_rank_and_symidx(&self, pos: P) -> (step: Option<(P, u8)>)
        requires
            self.wf(),
        ensures
            step is None <==> self.spec_step(pos.value()) is None,
            step matches Some(found) ==> (self.spec_step(pos.value()) matches Some(wanted)
                && found.1 == wanted.1 && found.0.value() == min_nat(
                wanted.0,
                Self::spec_position_max(),
            )),
    {
        match self.pre_rank_and_symidx(pos.as_u64()) {
            None => None,
            Some((rank, symidx)) => Some((Self::saturate(rank), symidx)),
        }
    }
}

} // verus!
