//! The configuration of the k-mer lookup table.

use vstd::prelude::*;
use vstd::arithmetic::power::pow;
use crate::errors::BuildError;
use crate::kmer::lemma_pow_step;
use crate::position::Position;

verus! {

/// Configuration for the lookup table.
#[derive(Debug, Clone, Copy, PartialEq, Eq, Structural)]
pub enum LookupTableConfig {
    /// Not use lookup table: the table holds single symbols only.
    NotUsed,
    /// Lookup table size is limited by max memory size, in bytes.
    MaxMemory(usize),
    /// Use explicit k-mer size.
    KmerSize(u32),
}

impl Default for LookupTableConfig {
    fn default() -> (config: Self)
        ensures
            config == LookupTableConfig::NotUsed,
    {
        Self::NotUsed
    }
}

/// The size in bytes of a lookup table of k-mers of size `k` over `symbol_count` symbols.
pub open spec fn table_bytes<P: Position>(symbol_count: nat, k: nat) -> int {
    pow(symbol_count as int + 2, k) * P::spec_size()
}

/// Whether `k` is the largest k-mer size whose table takes at most
/// `max_memory_size` bytes, and 1 where there is no such size.
pub open spec fn is_largest_kmer_size<P: Position>(
    symbol_count: nat,
    max_memory_size: nat,
    k: nat,
) -> bool {
    &&& k >= 1
    &&& k > 1 ==> table_bytes::<P>(symbol_count, k) <= max_memory_size
    &&& table_bytes::<P>(symbol_count, k + 1) > max_memory_size
}

impl LookupTableConfig {
    /// Get the k-mer size.
    pub fn kmer_size<P: Position>(&self, symbol_count: u32) -> (size: Result<u32, BuildError>)
        ensures
            match *self {
                LookupTableConfig::NotUsed => size matches Ok(k) && k == 1,
                LookupTableConfig::MaxMemory(bytes) => size matches Ok(k) && is_largest_kmer_size::<
                    P,
                >(symbol_count as nat, bytes as nat, k as nat),
                LookupTableConfig::KmerSize(k) => if k < 2 {
                    size matches Err(BuildError::InvalidConfig(_))
                } else {
                    size matches Ok(found) && found == k
                },
            },
    {
        match self {
            Self::NotUsed => Ok(1),
            Self::MaxMemory(size) => Ok(
                Self::largest_kmer_size_below_max_memory_size::<P>(symbol_count, *size),
            ),
            Self::KmerSize(size) => {
                if *size < 2 {
                    Err(BuildError::InvalidConfig("K-mer size must be at least 2".to_string()))
                } else {
                    Ok(*size)
                }
            },
        }
    }

    /// The largest k-mer size whose table takes at most `max_memory_size` bytes.
    pub fn largest_kmer_size_below_max_memory_size<P: Position>(
        symbol_count: u32,
        max_memory_size: usize,
    ) -> (kmer_size: u32)
        ensures
            is_largest_kmer_size::<P>(symbol_count as nat, max_memory_size as nat, kmer_size as nat),
    {
        proof {
            P::lemma_position();
        }
        let base: u128 = symbol_count as u128 + 2;
        let limit: u128 = max_memory_size as u128;
        proof {
            assert(base * base <= 0x1_0000_0001 * 0x1_0000_0001) by (nonlinear_arith)
                requires
                    2 <= base <= 0x1_0000_0001,
            ;
            assert(base * base * P::spec_size() <= 0x1_0000_0001 * 0x1_0000_0001 * 8)
                by (nonlinear_arith)
                requires
                    base * base <= 0x1_0000_0001 * 0x1_0000_0001,
                    P::spec_size() <= 8,
            ;
            assert(base * base * P::spec_size() >= 2) by (nonlinear_arith)
                requires
                    2 <= base,
                    P::spec_size() >= 4,
            ;
            lemma_pow_step(base as nat, 1);
            lemma_pow_step(base as nat, 0);
            vstd::arithmetic::power::lemma_pow1(base as int);
            assert(pow(base as int, 2) == base * base);
            vstd::arithmetic::power2::lemma2_to64();
        }
        let mut kmer_size: u32 = 1;
        // The size of the table for the k-mer size after `kmer_size`.
        let mut next_size: u128 = base * base * (P::size() as u128);
        while next_size <= limit
            invariant
                2 <= base == symbol_count + 2,
                limit == max_memory_size,
                1 <= kmer_size <= 64,
                next_size == table_bytes::<P>(symbol_count as nat, (kmer_size + 1) as nat),
                kmer_size > 1 ==> table_bytes::<P>(symbol_count as nat, kmer_size as nat) <= limit,
                next_size >= vstd::arithmetic::power2::pow2(kmer_size as nat),
                next_size <= 0x2_0000_0004_0000_0002_0000_0000_0000_0000,
                P::spec_size() == 4 || P::spec_size() == 8,
            decreases 64 - kmer_size,
        {
            proof {
                lemma_pow_step(base as nat, (kmer_size + 1) as nat);
                let p = pow(base as int, (kmer_size + 1) as nat);
                assert(p * base * P::spec_size() == (p * P::spec_size()) * base)
                    by (nonlinear_arith);
                assert(next_size * base <= 0xffff_ffff_ffff_ffff * 0x1_0000_0001)
                    by (nonlinear_arith)
                    requires
                        next_size <= 0xffff_ffff_ffff_ffff,
                        base <= 0x1_0000_0001,
                ;
                assert(next_size * base >= 2 * next_size) by (nonlinear_arith)
                    requires
                        base >= 2,
                        next_size >= 0,
                ;
                vstd::arithmetic::power2::lemma_pow2_unfold((kmer_size + 1) as nat);
                vstd::arithmetic::power2::lemma2_to64();
                if kmer_size >= 64 {
                    if kmer_size > 64 {
                        vstd::arithmetic::power2::lemma_pow2_strictly_increases(
                            64,
                            kmer_size as nat,
                        );
                    }
                    assert(false);
                }
            }
            kmer_size += 1;
            next_size = next_size * base;
        }
        kmer_size
    }
}

} // verus!
