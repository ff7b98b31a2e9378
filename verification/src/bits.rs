//! Single bits of a 128-bit word, and the number of ones in it.

use vstd::prelude::*;

verus! {

/// Whether bit `i` of `x` is set; bit 0 is the least significant one.
pub open spec fn bit(x: u128, i: nat) -> bool {
    i < 128 && (x >> (i as u128)) & 1u128 == 1u128
}

/// Whether `x` is below `2^w`, that is whether it fits in `w` bits.
pub open spec fn fits(x: u128, w: nat) -> bool {
    w >= 128 || x >> (w as u128) == 0u128
}

/// The number of ones in the binary form of `x`.
pub open spec fn popcount(x: nat) -> nat
    decreases x,
{
    if x == 0 {
        0
    } else {
        x % 2 + popcount(x / 2)
    }
}

/// `u128::count_ones` returns the number of ones in the binary form of its argument.
pub assume_specification[ u128::count_ones ](x: u128) -> (ones: u32)
    ensures
        ones as nat == popcount(x as nat),
;

/// The number of set bits of `x` among the bits `lo`, .., `hi - 1`.
pub open spec fn count_bits(x: u128, lo: nat, hi: nat) -> nat
    decreases hi - lo,
{
    if lo >= hi {
        0
    } else {
        (if bit(x, lo) {
            1nat
        } else {
            0nat
        }) + count_bits(x, lo + 1, hi)
    }
}

/// Whether bit `v` of the symbol index `s` is set.
pub open spec fn sbit(s: u8, v: nat) -> bool {
    v < 8 && (s >> (v as u8)) & 1u8 == 1u8
}

proof fn bv_shr(x: u128, n: u128, i: u128)
    by (bit_vector)
    requires
        n < 128,
        i < 128,
    ensures
        ((x >> n) >> i) & 1u128 == (if i + n < 128 {
            (x >> ((i + n) as u128)) & 1u128
        } else {
            0u128
        }),
{
}

proof fn bv_shl(x: u128, n: u128, i: u128)
    by (bit_vector)
    requires
        n < 128,
        i < 128,
    ensures
        ((x << n) >> i) & 1u128 == (if i >= n {
            (x >> ((i - n) as u128)) & 1u128
        } else {
            0u128
        }),
{
}

proof fn bv_and_not_or(x: u128, y: u128, i: u128)
    by (bit_vector)
    requires
        i < 128,
    ensures
        (((x & y) >> i) & 1u128 == 1u128) == ((x >> i) & 1u128 == 1u128 && (y >> i) & 1u128
            == 1u128),
        (((x | y) >> i) & 1u128 == 1u128) == ((x >> i) & 1u128 == 1u128 || (y >> i) & 1u128
            == 1u128),
        (((!x) >> i) & 1u128 == 1u128) == !((x >> i) & 1u128 == 1u128),
{
}

proof fn bv_small(i: u128)
    by (bit_vector)
    requires
        i < 128,
    ensures
        ((1u128 >> i) & 1u128 == 1u128) == (i == 0),
        (0u128 >> i) & 1u128 == 0u128,
        0u128 >> i == 0u128,
        ((0xffff_ffff_ffff_ffff_ffff_ffff_ffff_ffffu128 >> i) & 1u128) == 1u128,
{
}

proof fn bv_low_mask(w: u128, i: u128)
    by (bit_vector)
    requires
        w < 128,
        i < 128,
    ensures
        (((((1u128 << w) - 1) as u128) >> i) & 1u128 == 1u128) == (i < w),
        (((1u128 << w) - 1) as u128) >> w == 0u128,
        1u128 << w >= 1,
{
}

proof fn bv_fits_bit(x: u128, w: u128, i: u128)
    by (bit_vector)
    requires
        w <= i,
        i < 128,
        x >> w == 0u128,
    ensures
        (x >> i) & 1u128 == 0u128,
{
}

proof fn bv_fits_push(x: u128, b: u128, t: u128)
    by (bit_vector)
    requires
        t < 127,
        x >> t == 0u128,
        b <= 1,
    ensures
        ((x << 1u128) | b) >> ((t + 1) as u128) == 0u128,
{
}

proof fn bv_fits_shl(x: u128, n: u128, t: u128)
    by (bit_vector)
    requires
        t < 128,
        n < 128,
        t + n < 128,
        x >> t == 0u128,
    ensures
        (x << n) >> ((t + n) as u128) == 0u128,
{
}

proof fn bv_fits_and(x: u128, m: u128, w: u128)
    by (bit_vector)
    requires
        w < 128,
        m >> w == 0u128,
    ensures
        (m & x) >> w == 0u128,
{
}

proof fn bv_fits_shr(x: u128, w: u128, n: u128)
    by (bit_vector)
    requires
        w <= 128,
        n <= w,
        n < 128,
        w == 128 || x >> w == 0u128,
    ensures
        w - n < 128 ==> (x >> n) >> ((w - n) as u128) == 0u128,
{
}

proof fn bv_half(x: u128)
    by (bit_vector)
    ensures
        x >> 1u128 == x / 2,
        x & 1u128 == x % 2,
        x >> 0u128 == x,
{
}

proof fn bv_fits_values(x: u128)
    by (bit_vector)
    ensures
        x >> 32u128 == 0u128 ==> x <= 0xffff_ffffu128,
        x >> 64u128 == 0u128 ==> x <= 0xffff_ffff_ffff_ffffu128,
        x <= 0xffff_ffffu128 ==> x >> 32u128 == 0u128,
        x <= 0xffff_ffff_ffff_ffffu128 ==> x >> 64u128 == 0u128,
{
}

pub proof fn lemma_bit_shr(x: u128, n: nat, i: nat)
    requires
        n < 128,
    ensures
        bit(x >> (n as u128), i) == bit(x, i + n),
{
    if i < 128 {
        bv_shr(x, n as u128, i as u128);
    }
}

pub proof fn lemma_bit_shl(x: u128, n: nat, i: nat)
    requires
        n < 128,
    ensures
        bit(x << (n as u128), i) == (n <= i < 128 && bit(x, (i - n) as nat)),
{
    if i < 128 {
        bv_shl(x, n as u128, i as u128);
    }
}

pub proof fn lemma_bit_ops(x: u128, y: u128, i: nat)
    ensures
        bit(x & y, i) == (bit(x, i) && bit(y, i)),
        bit(x | y, i) == (bit(x, i) || bit(y, i)),
        i < 128 ==> bit(!x, i) == !bit(x, i),
{
    if i < 128 {
        bv_and_not_or(x, y, i as u128);
    }
}

pub proof fn lemma_bit_small(i: nat)
    ensures
        bit(1u128, i) == (i == 0),
        !bit(0u128, i),
        bit(u128::MAX, i) == (i < 128),
{
    if i < 128 {
        bv_small(i as u128);
    }
}

/// A word that fits in `w` bits has no bit set from bit `w` on.
pub proof fn lemma_fits_bit(x: u128, w: nat, i: nat)
    requires
        fits(x, w),
        w <= i,
    ensures
        !bit(x, i),
{
    if i < 128 {
        bv_fits_bit(x, w as u128, i as u128);
    }
}

pub proof fn lemma_fits_zero(w: nat)
    ensures
        fits(0u128, w),
{
    if w < 128 {
        bv_small(w as u128);
    }
}

/// Shifting a word of `t` bits left by one and setting bit 0 gives a word of `t + 1` bits.
pub proof fn lemma_fits_push(x: u128, b: u128, t: nat)
    requires
        fits(x, t),
        b <= 1,
    ensures
        fits((x << 1u128) | b, t + 1),
{
    if t < 127 {
        bv_fits_push(x, b, t as u128);
    }
}

pub proof fn lemma_fits_shl(x: u128, n: nat, t: nat)
    requires
        fits(x, t),
        n < 128,
    ensures
        fits(x << (n as u128), t + n),
{
    if t + n < 128 {
        bv_fits_shl(x, n as u128, t as u128);
    }
}

pub proof fn lemma_fits_and(x: u128, m: u128, w: nat)
    requires
        fits(m, w),
    ensures
        fits(m & x, w),
{
    if w < 128 {
        bv_fits_and(x, m, w as u128);
    }
}

pub proof fn lemma_fits_shr(x: u128, w: nat, n: nat)
    requires
        fits(x, w),
        n <= w <= 128,
        n < 128,
    ensures
        fits(x >> (n as u128), (w - n) as nat),
{
    bv_fits_shr(x, w as u128, n as u128);
}

pub proof fn lemma_fits_values(x: u128)
    ensures
        fits(x, 32) <==> x <= 0xffff_ffffu128,
        fits(x, 64) <==> x <= 0xffff_ffff_ffff_ffffu128,
        fits(x, 128),
{
    bv_fits_values(x);
}

/// The word with the `w` low bits set and the others clear.
pub open spec fn spec_low_mask(w: nat) -> u128 {
    if w >= 128 {
        u128::MAX
    } else {
        ((1u128 << (w as u128)) - 1) as u128
    }
}

pub fn low_mask(w: u32) -> (mask: u128)
    requires
        w <= 128,
    ensures
        mask == spec_low_mask(w as nat),
        fits(mask, w as nat),
        forall|i: nat| #[trigger] bit(mask, i) == (i < w),
{
    if w == 128 {
        assert forall|i: nat| #[trigger] bit(u128::MAX, i) == (i < 128) by {
            lemma_bit_small(i);
        }
        u128::MAX
    } else {
        proof {
            bv_low_mask(w as u128, 0);
        }
        let mask: u128 = (1u128 << (w as u128)) - 1;
        assert forall|i: nat| #[trigger] bit(mask, i) == (i < w) by {
            if i < 128 {
                bv_low_mask(w as u128, i as u128);
            }
        }
        mask
    }
}

pub proof fn lemma_count_bits_shift(x: u128, n: nat, lo: nat, hi: nat)
    requires
        n < 128,
    ensures
        count_bits(x >> (n as u128), lo, hi) == count_bits(x, lo + n, hi + n),
    decreases hi - lo,
{
    if lo < hi {
        lemma_bit_shr(x, n, lo);
        lemma_count_bits_shift(x, n, lo + 1, hi);
    }
}

pub proof fn lemma_count_bits_split(x: u128, lo: nat, mid: nat, hi: nat)
    requires
        lo <= mid <= hi,
    ensures
        count_bits(x, lo, hi) == count_bits(x, lo, mid) + count_bits(x, mid, hi),
    decreases mid - lo,
{
    if lo < mid {
        lemma_count_bits_split(x, lo + 1, mid, hi);
    }
}

pub proof fn lemma_count_bits_clear(x: u128, w: nat, lo: nat, hi: nat)
    requires
        fits(x, w),
        w <= lo,
    ensures
        count_bits(x, lo, hi) == 0,
    decreases hi - lo,
{
    if lo < hi {
        lemma_fits_bit(x, w, lo);
        lemma_count_bits_clear(x, w, lo + 1, hi);
    }
}

/// The number of ones of a word of `m` bits is the number of its set bits below `m`.
pub proof fn lemma_popcount(x: u128, m: nat)
    requires
        fits(x, m),
        m <= 128,
    ensures
        popcount(x as nat) == count_bits(x, 0, m),
    decreases m,
{
    bv_half(x);
    if m == 0 {
        assert(x == 0);
    } else {
        let y: u128 = x >> 1u128;
        lemma_fits_shr(x, m, 1);
        lemma_popcount(y, (m - 1) as nat);
        lemma_count_bits_shift(x, 1, 0, (m - 1) as nat);
        assert(bit(x, 0) == (x % 2 == 1));
        assert(y as nat == (x as nat) / 2);
        if x == 0 {
            assert(y == 0);
        }
    }
}

proof fn bv_symbol_step(ps: u8, b: u8, s: u8, v: u8)
    by (bit_vector)
    requires
        v < 8,
        ps >> v == 0u8,
        b <= 1,
    ensures
        ((ps | (b << v)) == (s & ((((1u16 << ((v + 1) as u16)) - 1) as u16) as u8))) == (ps == (s & (((
        1u16 << (v as u16)) - 1) as u16) as u8) && (b == 1) == ((s >> v) & 1u8 == 1u8)),
        v < 7 ==> (ps | (b << v)) >> ((v + 1) as u8) == 0u8,
{
}

proof fn bv_symbol_mask(s: u8, k: u8)
    by (bit_vector)
    requires
        k < 8,
        s >> k == 0u8,
    ensures
        s & ((((1u16 << (k as u16)) - 1) as u16) as u8) == s,
{
}

proof fn bv_symbol_zero(s: u8)
    by (bit_vector)
    ensures
        s & ((((1u16 << 0u16) - 1) as u16) as u8) == 0u8,
        0u8 >> 0u8 == 0u8,
{
}

/// The `v` low bits of the symbol index `s`.
pub open spec fn low_symbol(s: u8, v: nat) -> u8 {
    s & ((((1u16 << (v as u16)) - 1) as u16) as u8)
}

/// The symbol index whose bit `v'` is bit `i` of plane `v'`, for the first `v` planes.
pub open spec fn plane_symbol(planes: Seq<u128>, i: nat, v: nat) -> u8
    decreases v,
{
    if v == 0 {
        0u8
    } else {
        plane_symbol(planes, i, (v - 1) as nat) | ((if bit(planes[v - 1], i) {
            1u8
        } else {
            0u8
        }) << ((v - 1) as u8))
    }
}

/// Whether bit `i` of each of the first `v` planes is the bit of `s` with the plane's number.
pub open spec fn select(planes: Seq<u128>, s: u8, i: nat, v: nat) -> bool
    decreases v,
{
    if v == 0 {
        true
    } else {
        select(planes, s, i, (v - 1) as nat) && (bit(planes[v - 1], i) == sbit(s, (v - 1) as nat))
    }
}

/// The planes spell the low bits of `s` at bit `i` exactly when each plane
/// holds the bit of `s` with its number there.
pub proof fn lemma_select(planes: Seq<u128>, s: u8, i: nat, v: nat)
    requires
        v <= 7,
    ensures
        select(planes, s, i, v) == (plane_symbol(planes, i, v) == low_symbol(s, v)),
        plane_symbol(planes, i, v) >> (v as u8) == 0u8,
    decreases v,
{
    if v == 0 {
        bv_symbol_zero(s);
    } else {
        let u = (v - 1) as nat;
        lemma_select(planes, s, i, u);
        let ps = plane_symbol(planes, i, u);
        let b: u8 = if bit(planes[v - 1], i) {
            1u8
        } else {
            0u8
        };
        bv_symbol_step(ps, b, s, u as u8);
    }
}

/// A symbol index below `2^k` is its own `k` low bits.
pub proof fn lemma_low_symbol(s: u8, k: nat)
    requires
        k <= 7,
        s >> (k as u8) == 0u8,
    ensures
        low_symbol(s, k) == s,
{
    bv_symbol_mask(s, k as u8);
}

proof fn bv_rebuild(x: u128)
    by (bit_vector)
    ensures
        x == ((x >> 1u128) << 1u128) | (x & 1u128),
        x >> 0u128 == x,
{
}

/// The only word of no bits is zero.
pub proof fn lemma_fits_none(x: u128)
    requires
        fits(x, 0),
    ensures
        x == 0,
{
    bv_rebuild(x);
}

/// Two words of `m` bits with the same bits are the same word.
pub proof fn lemma_bits_ext(x: u128, y: u128, m: nat)
    requires
        m <= 128,
        fits(x, m),
        fits(y, m),
        forall|i: nat| i < m ==> bit(x, i) == bit(y, i),
    ensures
        x == y,
    decreases m,
{
    bv_rebuild(x);
    bv_rebuild(y);
    if m == 0 {
        assert(x == 0 && y == 0);
    } else {
        lemma_fits_shr(x, m, 1);
        lemma_fits_shr(y, m, 1);
        assert forall|i: nat| i < m - 1 implies bit(x >> 1u128, i) == bit(y >> 1u128, i) by {
            lemma_bit_shr(x, 1, i);
            lemma_bit_shr(y, 1, i);
        }
        lemma_bits_ext(x >> 1u128, y >> 1u128, (m - 1) as nat);
        assert(bit(x, 0) == bit(y, 0));
        assert(x & 1u128 == y & 1u128) by {
            assert(x & 1u128 == 0u128 || x & 1u128 == 1u128) by (bit_vector);
            assert(y & 1u128 == 0u128 || y & 1u128 == 1u128) by (bit_vector);
        }
    }
}

/// Planes that select `s` at bit `i` hold the bits of `s` there.
pub proof fn lemma_select_elim(planes: Seq<u128>, s: u8, i: nat, k: nat, v: nat)
    requires
        select(planes, s, i, k),
        v < k,
    ensures
        bit(planes[v as int], i) == sbit(s, v),
    decreases k,
{
    if v + 1 < k {
        lemma_select_elim(planes, s, i, (k - 1) as nat, v);
    }
}

} // verus!
