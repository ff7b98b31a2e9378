//! The integer width of positions: offsets into the text, ranks and counts.

use vstd::prelude::*;
use vstd::arithmetic::div_mod::lemma_small_mod;
use crate::endian::{pow256, lemma_pow256_values};

verus! {

/// `num_integer::div_rem` on two `u64`: the quotient and the remainder of the
/// division, which the outside function computes with `/` and `%`.
#[verifier::external_body]
pub(crate) fn div_rem_u64(x: u64, y: u64) -> (qr: (u64, u64))
    requires
        y != 0,
    ensures
        qr.0 == x / y,
        qr.1 == x % y,
{
    num_integer::div_rem(x, y)
}

/// Type for the position in an index. Two widths are supported: `u32` and `u64`.
///
/// The width must hold the length of the indexed text.
pub trait Position: Sized + Copy {
    const ZERO: Self;

    const ONE: Self;

    const BITS: u32;

    /// The number that a position stands for.
    spec fn value(self) -> nat;

    /// The number of bytes that one position takes in a blob.
    spec fn spec_size() -> nat;

    /// The width is four or eight bytes, every position fits in it, and the
    /// constants are what their names say.
    proof fn lemma_position()
        ensures
            Self::spec_size() == 4 || Self::spec_size() == 8,
            Self::BITS == 8 * Self::spec_size(),
            Self::ZERO.value() == 0,
            Self::ONE.value() == 1,
            forall|p: Self| #[trigger] p.value() < pow256(Self::spec_size()),
            forall|p: Self, q: Self| #[trigger] p.value() == #[trigger] q.value() ==> p == q,
    ;

    /// The number of bytes that one position takes in a blob.
    fn size() -> (s: usize)
        ensures
            s == Self::spec_size(),
    ;

    fn as_u32(self) -> (v: u32)
        ensures
            v as nat == self.value() % 0x1_0000_0000,
    ;

    fn from_u32(value: u32) -> (p: Self)
        ensures
            p.value() == value,
    ;

    fn as_u64(self) -> (v: u64)
        ensures
            v == self.value(),
    ;

    /// Keeps the low-order bits that fit the width.
    fn from_u64(value: u64) -> (p: Self)
        ensures
            p.value() == value as nat % pow256(Self::spec_size()),
    ;

    fn as_usize(self) -> (v: usize)
        ensures
            v as nat == self.value() % (usize::MAX as nat + 1),
    ;

    /// Keeps the low-order bits that fit the width.
    fn from_usize(value: usize) -> (p: Self)
        ensures
            p.value() == value as nat % pow256(Self::spec_size()),
    ;

    /// Keeps the low-order bits of the two's complement form of `value`.
    fn from_i64(value: i64) -> (p: Self)
        ensures
            p.value() as int == (value as int) % (pow256(Self::spec_size()) as int),
    ;

    fn div_rem_with_u32(self, rhs: u32) -> (qr: (Self, u32))
        requires
            rhs != 0,
        ensures
            qr.0.value() == self.value() / (rhs as nat),
            qr.1 as nat == self.value() % (rhs as nat),
    ;

    /// The positions from `from` up to `to`, `to` excluded, in increasing order.
    fn as_vec_in_range(from: &Self, to: &Self) -> (range: Vec<Self>)
        ensures
            range@.len() == if from.value() <= to.value() {
                to.value() - from.value()
            } else {
                0
            },
            forall|i: int| 0 <= i < range@.len() ==> (#[trigger] range@[i]).value() == from.value() + i,
    ;
}

/// The two's complement form of `value` in 64 bits.
fn wrap_i64(value: i64) -> (w: u64)
    ensures
        w as int == (value as int) % 0x1_0000_0000_0000_0000,
{
    if value >= 0 {
        value as u64
    } else {
        let m: u64 = (-(value + 1)) as u64;
        u64::MAX - m
    }
}

impl Position for u32 {
    const ZERO: Self = 0;

    const ONE: Self = 1;

    const BITS: u32 = 32;

    open spec fn value(self) -> nat {
        self as nat
    }

    open spec fn spec_size() -> nat {
        4
    }

    proof fn lemma_position() {
        lemma_pow256_values();
    }

    fn size() -> (s: usize) {
        4
    }

    fn as_u32(self) -> (v: u32) {
        self
    }

    fn from_u32(value: u32) -> (p: Self) {
        value
    }

    fn as_u64(self) -> (v: u64) {
        self as u64
    }

    fn from_u64(value: u64) -> (p: Self) {
        proof {
            lemma_pow256_values();
        }
        (value % 0x1_0000_0000) as u32
    }

    fn as_usize(self) -> (v: usize) {
        proof {
            lemma_small_mod(self as nat, usize::MAX as nat + 1);
        }
        self as usize
    }

    fn from_usize(value: usize) -> (p: Self) {
        Self::from_u64(value as u64)
    }

    fn from_i64(value: i64) -> (p: Self) {
        proof {
            lemma_pow256_values();
        }
        let w: u64 = wrap_i64(value);
        assert((w as int) % 0x1_0000_0000 == (value as int) % 0x1_0000_0000) by {
            let v = value as int;
            assert(0x1_0000_0000_0000_0000int == 0x1_0000_0000 * 0x1_0000_0000);
            vstd::arithmetic::div_mod::lemma_mod_mod(v, 0x1_0000_0000, 0x1_0000_0000);
        }
        (w % 0x1_0000_0000) as u32
    }

    fn div_rem_with_u32(self, rhs: u32) -> (qr: (Self, u32)) {
        let (q, r): (u64, u64) = div_rem_u64(self as u64, rhs as u64);
        (q as u32, r as u32)
    }

    fn as_vec_in_range(from: &Self, to: &Self) -> (range: Vec<Self>) {
        let mut range: Vec<u32> = Vec::new();
        let mut p: u32 = *from;
        while p < *to
            invariant
                *from <= *to ==> *from <= p <= *to,
                *from > *to ==> p == *from,
                range@.len() == p - *from,
                forall|i: int| 0 <= i < range@.len() ==> range@[i] == *from + i,
            decreases *to - p,
        {
            range.push(p);
            p += 1;
        }
        range
    }
}

impl Position for u64 {
    const ZERO: Self = 0;

    const ONE: Self = 1;

    const BITS: u32 = 64;

    open spec fn value(self) -> nat {
        self as nat
    }

    open spec fn spec_size() -> nat {
        8
    }

    proof fn lemma_position() {
        lemma_pow256_values();
    }

    fn size() -> (s: usize) {
        8
    }

    fn as_u32(self) -> (v: u32) {
        (self % 0x1_0000_0000) as u32
    }

    fn from_u32(value: u32) -> (p: Self) {
        value as u64
    }

    fn as_u64(self) -> (v: u64) {
        self
    }

    fn from_u64(value: u64) -> (p: Self) {
        proof {
            lemma_pow256_values();
            lemma_small_mod(value as nat, pow256(8));
        }
        value
    }

    fn as_usize(self) -> (v: usize) {
        if self <= usize::MAX as u64 {
            proof {
                lemma_small_mod(self as nat, usize::MAX as nat + 1);
            }
            self as usize
        } else {
            (self % (usize::MAX as u64 + 1)) as usize
        }
    }

    fn from_usize(value: usize) -> (p: Self) {
        proof {
            lemma_pow256_values();
            lemma_small_mod(value as nat, pow256(8));
        }
        value as u64
    }

    fn from_i64(value: i64) -> (p: Self) {
        proof {
            lemma_pow256_values();
        }
        wrap_i64(value)
    }

    fn div_rem_with_u32(self, rhs: u32) -> (qr: (Self, u32)) {
        let (q, r): (u64, u64) = div_rem_u64(self, rhs as u64);
        (q, r as u32)
    }

    fn as_vec_in_range(from: &Self, to: &Self) -> (range: Vec<Self>) {
        let mut range: Vec<u64> = Vec::new();
        let mut p: u64 = *from;
        while p < *to
            invariant
                *from <= *to ==> *from <= p <= *to,
                *from > *to ==> p == *from,
                range@.len() == p - *from,
                forall|i: int| 0 <= i < range@.len() ==> range@[i] == *from + i,
            decreases *to - p,
        {
            range.push(p);
            p += 1;
        }
        range
    }
}

} // verus!
