//! Blocks: the packed form of a run of symbols of the transformed text.

use vstd::prelude::*;
use crate::aligned::Aligned;
use crate::bits::{
    bit, count_bits, fits, lemma_bit_ops, lemma_bit_shl, lemma_bit_small, lemma_bits_ext,
    lemma_count_bits_shift, lemma_fits_and, lemma_fits_bit, lemma_fits_push, lemma_fits_shl,
    lemma_fits_shr, lemma_fits_zero, lemma_low_symbol, lemma_popcount, lemma_select,
    lemma_select_elim, low_mask, plane_symbol, sbit, select,
};
use crate::endian::le_value;
use crate::blocks::vector::Vector;
use crate::counting::count_in;

verus! {

/// The symbols that a block holds, one for each of its positions: position
/// `j` is spelled by bit `width - 1 - j` of the planes.
pub open spec fn plane_symbols(planes: Seq<u128>, width: nat) -> Seq<u8> {
    Seq::new(width, |j: int| plane_symbol(planes, (width - 1 - j) as nat, planes.len()))
}

/// What a block of `width` positions holds after a chunk of symbol-plus-one
/// values was packed into it: the symbols of the chunk, then zeros.
pub open spec fn chunk_symbols(chunk: Seq<u8>, width: nat) -> Seq<u8> {
    Seq::new(
        width,
        |j: int|
            if j < chunk.len() {
                (chunk[j] - 1) as u8
            } else {
                0u8
            },
    )
}

/// Whether every plane fits in `len` bits.
pub open spec fn planes_fit(planes: Seq<u128>, len: nat) -> bool {
    forall|v: int| 0 <= v < planes.len() ==> fits(#[trigger] planes[v], len)
}

/// `1 << k` for the plane counts that blocks have.
pub proof fn lemma_symbol_limits()
    ensures
        1u32 << 2u32 == 4,
        1u32 << 3u32 == 8,
        1u32 << 4u32 == 16,
        1u32 << 5u32 == 32,
        1u32 << 6u32 == 64,
        1u32 << 7u32 == 128,
{
    assert(1u32 << 2u32 == 4 && 1u32 << 3u32 == 8 && 1u32 << 4u32 == 16 && 1u32 << 5u32 == 32
        && 1u32 << 6u32 == 64 && 1u32 << 7u32 == 128) by (bit_vector);
}

proof fn bv_zero_symbol(v: u8)
    by (bit_vector)
    requires
        v < 8,
    ensures
        (0u8 >> v) & 1u8 == 0u8,
        0u8 >> v == 0u8,
{
}

/// A symbol index is below `1 << k` exactly when it has no bit from bit `k` on.
pub proof fn lemma_below_limit(s: u8, k: u8)
    requires
        2 <= k <= 7,
    ensures
        ((s as u32) < (1u32 << (k as u32))) == (s >> k == 0u8),
        (1u32 << (k as u32)) >= 4,
{
    bv_below_limit(s, k);
}

proof fn bv_below_limit(s: u8, k: u8)
    by (bit_vector)
    requires
        2 <= k <= 7,
    ensures
        ((s as u32) < (1u32 << (k as u32))) == (s >> k == 0u8),
        (1u32 << (k as u32)) >= 4,
{
}

/// The planes spell the same symbol at two bits where they agree plane by plane.
pub proof fn lemma_plane_symbol_ext(p: Seq<u128>, i: nat, q: Seq<u128>, j: nat, v: nat)
    requires
        v <= p.len(),
        v <= q.len(),
        forall|u: int| 0 <= u < v ==> bit(p[u], i) == bit(q[u], j),
    ensures
        plane_symbol(p, i, v) == plane_symbol(q, j, v),
    decreases v,
{
    if v > 0 {
        lemma_plane_symbol_ext(p, i, q, j, (v - 1) as nat);
    }
}

/// Planes that hold the bits of `s` at bit `i` select `s` there.
pub proof fn lemma_select_intro(planes: Seq<u128>, s: u8, i: nat, v: nat)
    requires
        v <= planes.len(),
        forall|u: int| 0 <= u < v ==> bit(planes[u], i) == sbit(s, u as nat),
    ensures
        select(planes, s, i, v),
    decreases v,
{
    if v > 0 {
        lemma_select_intro(planes, s, i, (v - 1) as nat);
    }
}

/// The set bits of a mask that marks the positions of `s` count the
/// occurrences of `s` among the first `rem` positions.
pub proof fn lemma_count_mask(planes: Seq<u128>, width: nat, s: u8, mask: u128, rem: nat)
    requires
        planes.len() <= 7,
        rem <= width <= 128,
        s >> (planes.len() as u8) == 0u8,
        forall|i: nat| i < width ==> #[trigger] bit(mask, i) == select(planes, s, i, planes.len()),
    ensures
        count_bits(mask, (width - rem) as nat, width) == count_in(
            plane_symbols(planes, width),
            s as int,
            rem,
        ),
    decreases rem,
{
    if rem > 0 {
        lemma_count_mask(planes, width, s, mask, (rem - 1) as nat);
        let i = (width - rem) as nat;
        lemma_select(planes, s, i, planes.len());
        lemma_low_symbol(s, planes.len());
        assert(plane_symbols(planes, width)[rem - 1] == plane_symbol(planes, i, planes.len()));
        assert(bit(mask, i) == select(planes, s, i, planes.len()));
    }
}

/// Whether `plane` is plane `v` of a block that holds the symbols `syms`: bit
/// `width - 1 - j` of the plane is bit `v` of the symbol at position `j`.
pub open spec fn is_plane_of(plane: u128, syms: Seq<u8>, v: nat, width: nat) -> bool {
    &&& fits(plane, width)
    &&& forall|i: nat| i < width ==> #[trigger] bit(plane, i) == sbit(syms[width - 1 - i], v)
}

/// Plane `v` of the block that holds the symbols `syms`.
pub open spec fn spec_plane(syms: Seq<u8>, v: nat, width: nat) -> u128 {
    choose|plane: u128| is_plane_of(plane, syms, v, width)
}

/// The `k` planes of the block that holds the symbols `syms`.
pub open spec fn spec_planes(syms: Seq<u8>, k: nat, width: nat) -> Seq<u128> {
    Seq::new(k, |v: int| spec_plane(syms, v as nat, width))
}

/// Planes that fit the width and spell the symbols `syms` are the planes of `syms`.
pub proof fn lemma_planes_unique(planes: Seq<u128>, syms: Seq<u8>, width: nat)
    requires
        width <= 128,
        2 <= planes.len() <= 7,
        syms.len() == width,
        planes_fit(planes, width),
        plane_symbols(planes, width) == syms,
    ensures
        planes == spec_planes(syms, planes.len(), width),
{
    let k = planes.len();
    assert forall|v: int| 0 <= v < k implies planes[v] == spec_planes(syms, k, width)[v] by {
        assert forall|i: nat| i < width implies #[trigger] bit(planes[v], i) == sbit(
            syms[width - 1 - i],
            v as nat,
        ) by {
            let j = width - 1 - i;
            let s = syms[j];
            assert(plane_symbols(planes, width)[j] == plane_symbol(planes, i, k));
            lemma_select(planes, s, i, k);
            bv_low_self(s, k as u8);
            lemma_select_elim(planes, s, i, k, v as nat);
        }
        assert(fits(planes[v], width));
        assert(is_plane_of(planes[v], syms, v as nat, width));
        let other = spec_plane(syms, v as nat, width);
        assert(is_plane_of(other, syms, v as nat, width));
        assert forall|i: nat| i < width implies bit(planes[v], i) == bit(other, i) by {
            assert(bit(planes[v], i) == sbit(syms[width - 1 - i], v as nat));
            assert(bit(other, i) == sbit(syms[width - 1 - i], v as nat));
        }
        lemma_bits_ext(planes[v], other, width);
    }
    assert(planes =~= spec_planes(syms, k, width));
}

proof fn bv_low_self(s: u8, k: u8)
    by (bit_vector)
    requires
        2 <= k <= 7,
    ensures
        (s & ((((1u16 << (k as u16)) - 1) as u16) as u8) == s) == (s >> k == 0u8),
{
}

/// The word whose `t` low bits spell bit `v` of the first `t` symbols, the
/// last of them at bit 0.
pub open spec fn build_plane(syms: Seq<u8>, v: nat, t: nat) -> u128
    decreases t,
{
    if t == 0 {
        0u128
    } else {
        (build_plane(syms, v, (t - 1) as nat) << 1u128) | (if sbit(syms[t - 1], v) {
            1u128
        } else {
            0u128
        })
    }
}

pub proof fn lemma_build_plane(syms: Seq<u8>, v: nat, t: nat)
    requires
        t <= 128,
        t <= syms.len(),
    ensures
        fits(build_plane(syms, v, t), t),
        forall|i: nat| i < t ==> #[trigger] bit(build_plane(syms, v, t), i) == sbit(syms[t - 1 - i], v),
    decreases t,
{
    if t == 0 {
        lemma_fits_zero(0);
    } else {
        let before = build_plane(syms, v, (t - 1) as nat);
        let b: u128 = if sbit(syms[t - 1], v) {
            1u128
        } else {
            0u128
        };
        lemma_build_plane(syms, v, (t - 1) as nat);
        lemma_fits_push(before, b, (t - 1) as nat);
        assert forall|i: nat| i < t implies #[trigger] bit(build_plane(syms, v, t), i) == sbit(
            syms[t - 1 - i],
            v,
        ) by {
            lemma_bit_ops(before << 1u128, b, i);
            lemma_bit_shl(before, 1, i);
            lemma_bit_small(i);
            if i > 0 {
                assert(bit(before, (i - 1) as nat) == sbit(syms[t - 1 - 1 - (i - 1)], v));
            }
        }
    }
}

/// Every run of symbols has its planes, and they spell the symbols.
pub proof fn lemma_spec_planes(syms: Seq<u8>, k: nat, width: nat)
    requires
        width <= 128,
        syms.len() == width,
        2 <= k <= 7,
        forall|j: int| 0 <= j < syms.len() ==> #[trigger] syms[j] >> (k as u8) == 0u8,
    ensures
        spec_planes(syms, k, width).len() == k,
        planes_fit(spec_planes(syms, k, width), width),
        plane_symbols(spec_planes(syms, k, width), width) == syms,
{
    let planes = spec_planes(syms, k, width);
    assert forall|v: int| 0 <= v < k implies is_plane_of(
        #[trigger] planes[v],
        syms,
        v as nat,
        width,
    ) by {
        lemma_build_plane(syms, v as nat, width);
        assert(is_plane_of(build_plane(syms, v as nat, width), syms, v as nat, width));
    }
    assert forall|j: int| 0 <= j < width implies #[trigger] plane_symbols(planes, width)[j]
        == syms[j] by {
        let i = (width - 1 - j) as nat;
        let s = syms[j];
        assert forall|u: int| 0 <= u < k implies bit(planes[u], i) == sbit(s, u as nat) by {
            assert(is_plane_of(planes[u], syms, u as nat, width));
        }
        lemma_select_intro(planes, s, i, k);
        lemma_select(planes, s, i, k);
        lemma_low_symbol(s, k);
    }
    assert(plane_symbols(planes, width) =~= syms);
}

/// Block to compress the Burrows-Wheeler transformed text.
///
/// A block holds `BLOCK_LEN` symbols in a few bit vectors ("planes"): bit
/// `v` of the symbol at position `j` is bit `BLOCK_LEN - 1 - j` of plane `v`.
/// The number of planes bounds the number of symbols that the block can tell apart.
pub trait Block: Sized + Aligned {
    /// The width of the planes.
    type V: Vector;

    /// The number of text positions that a block covers.
    const BLOCK_LEN: u32;

    /// The maximum number of symbols that the block can index.
    const MAX_SYMBOL: u32;

    /// The number of planes.
    spec fn spec_plane_count() -> nat;

    /// The planes of the block, that of the least significant symbol bit first.
    spec fn planes(&self) -> Seq<u128>;

    proof fn lemma_block()
        ensures
            2 <= Self::spec_plane_count() <= 7,
            Self::MAX_SYMBOL == 1u32 << (Self::spec_plane_count() as u32),
            Self::BLOCK_LEN == <Self::V as Vector>::BLOCK_LEN,
            Self::ALIGN_SIZE == <Self::V as Aligned>::ALIGN_SIZE,
    ;

    proof fn lemma_planes(&self)
        ensures
            self.planes().len() == Self::spec_plane_count(),
    ;

    fn plane_count() -> (count: usize)
        ensures
            count == Self::spec_plane_count(),
    ;

    fn from_planes(planes: &Vec<u128>) -> (block: Self)
        requires
            planes@.len() == Self::spec_plane_count(),
        ensures
            block.planes() == planes@,
    ;

    fn plane(&self, v: usize) -> (plane: u128)
        requires
            v < Self::spec_plane_count(),
        ensures
            plane == self.planes()[v as int],
    ;

    /// Reads the block whose planes start at byte `off`.
    fn read_from_blob(bytes: &[u8], off: usize) -> (block: Self)
        requires
            off + Self::spec_plane_count() * Self::ALIGN_SIZE <= bytes@.len(),
        ensures
            planes_fit(block.planes(), Self::BLOCK_LEN as nat),
            forall|v: int|
                0 <= v < Self::spec_plane_count() ==> #[trigger] block.planes()[v] as nat
                    == le_value(
                    bytes@.subrange(off + v * Self::ALIGN_SIZE, off + (v + 1) * Self::ALIGN_SIZE),
                ),
    ;

    /// Packs a chunk of at most `BLOCK_LEN` symbol-plus-one values into a
    /// block, the first symbol of the chunk at the first position, and
    /// counts each of its symbols in `rank_pre_counts`.
    fn encode(chunk: &[u8], rank_pre_counts: &mut Vec<u64>) -> (block: Self)
        requires
            chunk@.len() <= Self::BLOCK_LEN,
            forall|j: int|
                0 <= j < chunk@.len() ==> 1 <= #[trigger] chunk@[j] <= Self::MAX_SYMBOL && chunk@[j]
                    <= old(rank_pre_counts)@.len(),
            forall|c: int|
                0 <= c < old(rank_pre_counts)@.len() ==> #[trigger] old(rank_pre_counts)@[c]
                    + chunk@.len() <= u64::MAX,
        ensures
            planes_fit(block.planes(), Self::BLOCK_LEN as nat),
            plane_symbols(block.planes(), Self::BLOCK_LEN as nat) == chunk_symbols(
                chunk@,
                Self::BLOCK_LEN as nat,
            ),
            block.planes() == spec_planes(
                chunk_symbols(chunk@, Self::BLOCK_LEN as nat),
                Self::spec_plane_count(),
                Self::BLOCK_LEN as nat,
            ),
            final(rank_pre_counts)@.len() == old(rank_pre_counts)@.len(),
            forall|c: int|
                0 <= c < old(rank_pre_counts)@.len() ==> #[trigger] final(rank_pre_counts)@[c]
                    == old(rank_pre_counts)@[c] + count_in(chunk@, c + 1, chunk@.len()),
    {
        proof {
            Self::lemma_block();
            <Self::V as Vector>::lemma_vector();
        }
        let width: u32 = Self::BLOCK_LEN;
        let len: usize = chunk.len();
        let mut block = Self::vectorize(chunk, rank_pre_counts);
        let ghost low = block.planes();
        proof {
            block.lemma_planes();
        }
        if 0 < len && len < width as usize {
            block.shift_last_offset(width - len as u32);
        }
        proof {
            block.lemma_planes();
            let k = Self::spec_plane_count();
            let offset = (width - len) as nat;
            let planes = block.planes();
            let syms = chunk_symbols(chunk@, width as nat);
            if len == width || len == 0 {
                assert(planes == low);
            }
            assert forall|v: int, i: nat| 0 <= v < k implies #[trigger] bit(planes[v], i) == (offset
                <= i < width && bit(low[v], (i - offset) as nat)) by {
                if len == width {
                    if i >= width {
                        assert(fits(low[v], len as nat));
                        lemma_fits_bit(low[v], width as nat, i);
                    }
                }
                if len == 0 {
                    assert(fits(low[v], 0));
                    lemma_fits_bit(low[v], 0, i);
                }
            }
            assert forall|j: int| 0 <= j < width implies #[trigger] plane_symbols(
                planes,
                width as nat,
            )[j] == syms[j] by {
                let i = (width - 1 - j) as nat;
                if j < len {
                    assert forall|u: int| 0 <= u < k implies bit(planes[u], i) == bit(
                        low[u],
                        (len - 1 - j) as nat,
                    ) by {
                        assert(bit(planes[u], i) == (offset <= i < width && bit(
                            low[u],
                            (i - offset) as nat,
                        )));
                    }
                    lemma_plane_symbol_ext(planes, i, low, (len - 1 - j) as nat, k);
                    assert(plane_symbol(low, (len - 1 - j) as nat, k) == chunk@[j] - 1);
                } else {
                    assert forall|u: int| 0 <= u < k implies bit(planes[u], i) == sbit(
                        0u8,
                        u as nat,
                    ) by {
                        assert(bit(planes[u], i) == (offset <= i < width && bit(
                            low[u],
                            (i - offset) as nat,
                        )));
                        bv_zero_symbol(u as u8);
                    }
                    lemma_select_intro(planes, 0u8, i, k);
                    lemma_select(planes, 0u8, i, k);
                    bv_zero_symbol(k as u8);
                    lemma_low_symbol(0u8, k);
                }
            }
            assert(plane_symbols(planes, width as nat) =~= syms);
            if len == width {
                assert(planes_fit(planes, width as nat));
            }
            if len == 0 {
                assert forall|v: int| 0 <= v < k implies fits(#[trigger] planes[v], width as nat) by {
                    assert(fits(low[v], 0));
                    crate::bits::lemma_fits_none(low[v]);
                    lemma_fits_zero(width as nat);
                }
            }
            lemma_planes_unique(planes, syms, width as nat);
        }
        block
    }

    /// Packs a chunk of at most `BLOCK_LEN` symbol-plus-one values into a
    /// block and counts each of its symbols in `rank_pre_counts`. The symbols
    /// sit in the low bits of the planes: the chunk's last symbol is at bit 0.
    fn vectorize(chunk: &[u8], rank_pre_counts: &mut Vec<u64>) -> (block: Self)
        requires
            chunk@.len() <= Self::BLOCK_LEN,
            forall|j: int|
                0 <= j < chunk@.len() ==> 1 <= #[trigger] chunk@[j] <= Self::MAX_SYMBOL && chunk@[j]
                    <= old(rank_pre_counts)@.len(),
            forall|c: int|
                0 <= c < old(rank_pre_counts)@.len() ==> #[trigger] old(rank_pre_counts)@[c]
                    + chunk@.len() <= u64::MAX,
        ensures
            planes_fit(block.planes(), chunk@.len()),
            forall|j: int|
                0 <= j < chunk@.len() ==> plane_symbol(
                    block.planes(),
                    (chunk@.len() - 1 - j) as nat,
                    Self::spec_plane_count(),
                ) == #[trigger] chunk@[j] - 1,
            final(rank_pre_counts)@.len() == old(rank_pre_counts)@.len(),
            forall|c: int|
                0 <= c < old(rank_pre_counts)@.len() ==> #[trigger] final(rank_pre_counts)@[c]
                    == old(rank_pre_counts)@[c] + count_in(chunk@, c + 1, chunk@.len()),
    {
        proof {
            Self::lemma_block();
            <Self::V as Vector>::lemma_vector();
        }
        let k: usize = Self::plane_count();
        let len: usize = chunk.len();
        let mut planes: Vec<u128> = Vec::new();
        let mut v: usize = 0;
        while v < k
            invariant
                v <= k,
                planes@.len() == v,
                forall|u: int| 0 <= u < v ==> #[trigger] planes@[u] == 0,
            decreases k - v,
        {
            planes.push(0);
            v += 1;
        }
        proof {
            lemma_fits_zero(0);
        }
        let mut t: usize = 0;
        while t < len
            invariant
                t <= len == chunk@.len() <= Self::BLOCK_LEN <= 128,
                k == Self::spec_plane_count(),
                2 <= k <= 7,
                Self::MAX_SYMBOL == 1u32 << (k as u32),
                planes@.len() == k,
                forall|j: int|
                    0 <= j < chunk@.len() ==> 1 <= #[trigger] chunk@[j] <= Self::MAX_SYMBOL
                        && chunk@[j] <= old(rank_pre_counts)@.len(),
                forall|c: int|
                    0 <= c < old(rank_pre_counts)@.len() ==> #[trigger] old(rank_pre_counts)@[c]
                        + chunk@.len() <= u64::MAX,
                forall|u: int| 0 <= u < k ==> fits(#[trigger] planes@[u], t as nat),
                forall|u: int, i: nat|
                    0 <= u < k && i < t ==> #[trigger] bit(planes@[u], i) == sbit(
                        (chunk@[t - 1 - i] - 1) as u8,
                        u as nat,
                    ),
                rank_pre_counts@.len() == old(rank_pre_counts)@.len(),
                forall|c: int|
                    0 <= c < rank_pre_counts@.len() ==> #[trigger] rank_pre_counts@[c] == old(
                        rank_pre_counts,
                    )@[c] + count_in(chunk@, c + 1, t as nat),
            decreases len - t,
        {
            let symidx: u8 = chunk[t] - 1;
            proof {
                crate::counting::lemma_count_in_bound(chunk@, symidx + 1, t as nat);
            }
            let before: u64 = rank_pre_counts[symidx as usize];
            rank_pre_counts.set(symidx as usize, before + 1);
            let ghost older = planes@;
            let mut v: usize = 0;
            while v < k
                invariant
                    v <= k,
                    k <= 7,
                    t < 128,
                    planes@.len() == k,
                    older.len() == k,
                    symidx == chunk@[t as int] - 1,
                    forall|u: int| 0 <= u < k ==> fits(#[trigger] older[u], t as nat),
                    forall|u: int| v <= u < k ==> #[trigger] planes@[u] == older[u],
                    forall|u: int| 0 <= u < v ==> fits(#[trigger] planes@[u], (t + 1) as nat),
                    forall|u: int, i: nat|
                        0 <= u < v ==> #[trigger] bit(planes@[u], i) == (if i == 0 {
                            sbit(symidx, u as nat)
                        } else {
                            bit(older[u], (i - 1) as nat)
                        }),
                decreases k - v,
            {
                let b: u128 = if (symidx >> (v as u8)) & 1 == 1 {
                    1
                } else {
                    0
                };
                let old_plane: u128 = planes[v];
                let new_plane: u128 = (old_plane << 1u128) | b;
                proof {
                    lemma_fits_push(old_plane, b, t as nat);
                    assert forall|i: nat| #[trigger]
                        bit(new_plane, i) == (if i == 0 {
                            sbit(symidx, v as nat)
                        } else {
                            bit(old_plane, (i - 1) as nat)
                        }) by {
                        lemma_bit_ops(old_plane << 1u128, b, i);
                        lemma_bit_shl(old_plane, 1, i);
                        lemma_bit_small(i);
                        if i >= 128 {
                            crate::bits::lemma_fits_bit(old_plane, t as nat, (i - 1) as nat);
                        }
                    }
                }
                planes.set(v, new_plane);
                v += 1;
            }
            t += 1;
        }
        let block = Self::from_planes(&planes);
        proof {
            assert forall|j: int| 0 <= j < chunk@.len() implies plane_symbol(
                block.planes(),
                (chunk@.len() - 1 - j) as nat,
                Self::spec_plane_count(),
            ) == #[trigger] chunk@[j] - 1 by {
                let i = (chunk@.len() - 1 - j) as nat;
                let s: u8 = (chunk@[j] - 1) as u8;
                assert forall|u: int| 0 <= u < k implies bit(planes@[u], i) == sbit(
                    s,
                    u as nat,
                ) by {
                    assert(bit(planes@[u], i) == sbit((chunk@[len - 1 - i] - 1) as u8, u as nat));
                }
                lemma_select_intro(planes@, s, i, k as nat);
                lemma_select(planes@, s, i, k as nat);
                bv_below_limit(s, k as u8);
                lemma_low_symbol(s, k as nat);
            }
        }
        block
    }

    /// Moves the symbols of a short last chunk from the low bits of the
    /// planes to the high bits, where the positions of a block start.
    fn shift_last_offset(&mut self, offset: u32)
        requires
            offset < Self::BLOCK_LEN,
            planes_fit(old(self).planes(), (Self::BLOCK_LEN - offset) as nat),
        ensures
            planes_fit(final(self).planes(), Self::BLOCK_LEN as nat),
            forall|v: int, i: nat|
                0 <= v < Self::spec_plane_count() ==> #[trigger] bit(final(self).planes()[v], i)
                    == (offset <= i < Self::BLOCK_LEN && bit(
                    old(self).planes()[v],
                    (i - offset) as nat,
                )),
    {
        proof {
            Self::lemma_block();
            <Self::V as Vector>::lemma_vector();
            self.lemma_planes();
        }
        let k: usize = Self::plane_count();
        let mut planes: Vec<u128> = Vec::new();
        let mut v: usize = 0;
        while v < k
            invariant
                v <= k == Self::spec_plane_count(),
                offset < Self::BLOCK_LEN <= 128,
                self.planes().len() == k,
                planes_fit(self.planes(), (Self::BLOCK_LEN - offset) as nat),
                planes@.len() == v,
                forall|u: int| 0 <= u < v ==> fits(#[trigger] planes@[u], Self::BLOCK_LEN as nat),
                forall|u: int, i: nat|
                    0 <= u < v ==> #[trigger] bit(planes@[u], i) == (offset <= i < Self::BLOCK_LEN
                        && bit(self.planes()[u], (i - offset) as nat)),
            decreases k - v,
        {
            let plane: u128 = self.plane(v);
            let shifted: u128 = plane << (offset as u128);
            proof {
                assert(fits(self.planes()[v as int], (Self::BLOCK_LEN - offset) as nat));
                lemma_fits_shl(plane, offset as nat, (Self::BLOCK_LEN - offset) as nat);
                assert forall|i: nat| #[trigger]
                    bit(shifted, i) == (offset <= i < Self::BLOCK_LEN && bit(
                        plane,
                        (i - offset) as nat,
                    )) by {
                    lemma_bit_shl(plane, offset as nat, i);
                    if offset <= i && i >= Self::BLOCK_LEN {
                        crate::bits::lemma_fits_bit(
                            plane,
                            (Self::BLOCK_LEN - offset) as nat,
                            (i - offset) as nat,
                        );
                    }
                }
            }
            planes.push(shifted);
            v += 1;
        }
        *self = Self::from_planes(&planes);
    }

    /// The number of times that the symbol `symidx` appears within the first
    /// `rem` positions of the block.
    fn get_remain_count_of(&self, rem: u32, symidx: u8) -> (count: u32)
        requires
            0 < rem < Self::BLOCK_LEN,
            symidx < Self::MAX_SYMBOL,
        ensures
            count == count_in(
                plane_symbols(self.planes(), Self::BLOCK_LEN as nat),
                symidx as int,
                rem as nat,
            ),
    {
        proof {
            Self::lemma_block();
            <Self::V as Vector>::lemma_vector();
            self.lemma_planes();
        }
        let k: usize = Self::plane_count();
        let width: u32 = Self::BLOCK_LEN;
        let mut mask: u128 = low_mask(width);
        let mut v: usize = 0;
        while v < k
            invariant
                v <= k == Self::spec_plane_count(),
                k <= 7,
                width == Self::BLOCK_LEN,
                width <= 128,
                self.planes().len() == k,
                fits(mask, width as nat),
                forall|i: nat|
                    i < width ==> #[trigger] bit(mask, i) == select(
                        self.planes(),
                        symidx,
                        i,
                        v as nat,
                    ),
            decreases k - v,
        {
            let plane: u128 = self.plane(v);
            let chosen: u128 = if (symidx >> (v as u8)) & 1 == 1 {
                plane
            } else {
                !plane
            };
            proof {
                lemma_fits_and(chosen, mask, width as nat);
                assert forall|i: nat| i < width implies #[trigger] bit(mask & chosen, i) == select(
                    self.planes(),
                    symidx,
                    i,
                    (v + 1) as nat,
                ) by {
                    lemma_bit_ops(mask, chosen, i);
                    lemma_bit_ops(plane, plane, i);
                }
            }
            mask = mask & chosen;
            v += 1;
        }
        let low: u128 = mask >> ((width - rem) as u128);
        proof {
            lemma_fits_shr(mask, width as nat, (width - rem) as nat);
            lemma_popcount(low, rem as nat);
            lemma_count_bits_shift(mask, (width - rem) as nat, 0, rem as nat);
            bv_below_limit(symidx, k as u8);
            lemma_count_mask(self.planes(), width as nat, symidx, mask, rem as nat);
            crate::counting::lemma_count_in_bound(
                plane_symbols(self.planes(), width as nat),
                symidx as int,
                rem as nat,
            );
        }
        low.count_ones()
    }

    /// The symbol at position `rem` of the block.
    fn get_symidx_of(&self, rem: u32) -> (symidx: u8)
        requires
            rem < Self::BLOCK_LEN,
        ensures
            symidx == plane_symbols(self.planes(), Self::BLOCK_LEN as nat)[rem as int],
            symidx < Self::MAX_SYMBOL,
    {
        proof {
            Self::lemma_block();
            <Self::V as Vector>::lemma_vector();
            self.lemma_planes();
        }
        let k: usize = Self::plane_count();
        let mov: u32 = Self::BLOCK_LEN - rem - 1;
        let mut symidx: u8 = 0;
        let mut v: usize = 0;
        while v < k
            invariant
                v <= k == Self::spec_plane_count(),
                k <= 7,
                mov < 128,
                self.planes().len() == k,
                symidx == plane_symbol(self.planes(), mov as nat, v as nat),
            decreases k - v,
        {
            let b: u8 = if (self.plane(v) >> (mov as u128)) & 1 == 1 {
                1
            } else {
                0
            };
            symidx = symidx | (b << (v as u8));
            v += 1;
        }
        proof {
            lemma_select(self.planes(), symidx, mov as nat, k as nat);
            bv_below_limit(symidx, k as u8);
        }
        symidx
    }
}

} // verus!
