//! Alignment of the sections of a blob.

use vstd::prelude::*;

verus! {

/// The least multiple of `align` that is not below `raw`.
pub open spec fn align_up(raw: nat, align: nat) -> nat {
    if raw % align == 0 {
        raw
    } else {
        (raw + (align - raw % align)) as nat
    }
}

pub proof fn lemma_align_up(raw: nat, align: nat)
    requires
        align > 0,
    ensures
        raw <= align_up(raw, align) < raw + align,
        align_up(raw, align) % align == 0,
        raw % align == 0 ==> align_up(raw, align) == raw,
{
    if raw % align != 0 {
        let r = raw % align;
        let q = raw / align;
        assert(raw == align * q + r) by {
            vstd::arithmetic::div_mod::lemma_fundamental_div_mod(raw as int, align as int);
        }
        assert(raw + (align - r) == align * (q + 1)) by (nonlinear_arith)
            requires
                raw == align * q + r,
        ;
        vstd::arithmetic::div_mod::lemma_mod_multiples_basic((q + 1) as int, align as int);
        assert(align * (q + 1) == (q + 1) * align) by (nonlinear_arith);
    }
}

/// Types that fix the alignment of every section of a blob.
pub trait Aligned {
    /// The alignment in bytes: 4, 8 or 16.
    const ALIGN_SIZE: usize;

    proof fn lemma_align_size()
        ensures
            Self::ALIGN_SIZE == 4 || Self::ALIGN_SIZE == 8 || Self::ALIGN_SIZE == 16,
    ;

    /// The size of a section of `raw_size` bytes with its padding.
    fn aligned_size(raw_size: usize) -> (size: usize)
        requires
            raw_size + Self::ALIGN_SIZE <= usize::MAX,
        ensures
            size == align_up(raw_size as nat, Self::ALIGN_SIZE as nat),
    {
        proof {
            Self::lemma_align_size();
        }
        let rem: usize = raw_size % Self::ALIGN_SIZE;
        if rem == 0 {
            raw_size
        } else {
            raw_size + (Self::ALIGN_SIZE - rem)
        }
    }
}

} // verus!
