//! What the parts of an index say of the text that it was built from.

use vstd::prelude::*;
use crate::block::{chunk_symbols, Block};
use crate::blocks::vector::Vector;
use crate::bwm::{block_chunk, min_nat, spec_checkpoints};
use crate::count_array::{spec_counts, spec_kmer_table};
use crate::counting::{
    count_in, count_pos, lemma_count_in_ext, lemma_count_in_subrange, lemma_count_pos_bound,
    lemma_count_pos_ext,
};
use crate::entries::lemma_index_split;
use crate::fm_index::FmIndex;
use crate::kmer::{is_encoded, kmer_code, kmer_count_le};
use crate::lex::suffix;
use crate::position::Position;
use crate::ranges::{closed, count_suffixes, lemma_lf, place_for, with_symbol};
use crate::suffix_array::{bwt_of, lemma_bwt_encoded, sentinel_of, spec_samples};
use crate::suffix_sort::{is_suffix_array, suffix_array};
use crate::text_encoder::TextEncoder;

verus! {

/// The k-mers from `from` on that are at most a bound, counted as a
/// property of positions.
pub proof fn lemma_kmer_count_as_pos(enc: Seq<u8>, k: nat, base: nat, bound: int, from: nat)
    requires
        from <= enc.len(),
    ensures
        count_pos(|j: int| kmer_code(enc, j, k, base) <= bound, enc.len()) == count_pos(
            |j: int| kmer_code(enc, j, k, base) <= bound,
            from,
        ) + kmer_count_le(enc, k, base, bound, from),
    decreases enc.len() - from,
{
    if from < enc.len() {
        lemma_kmer_count_as_pos(enc, k, base, bound, from + 1);
    }
}

impl<'a, P: Position, B: Block, E: TextEncoder> FmIndex<'a, P, B, E> {
    /// Whether the index is that of the encoded text `enc`: its count array,
    /// its k-mer table, its suffix array samples and its Burrows-Wheeler
    /// matrix are those of `enc`.
    pub open spec fn indexes(&self, enc: Seq<u8>) -> bool {
        let sa = suffix_array(enc);
        let bwt = bwt_of(enc, sa);
        &&& self.wf()
        &&& is_suffix_array(enc, sa)
        &&& enc.len() == self.text_len()
        &&& is_encoded(enc, self.symbol_count())
        &&& self.count_array_view.counts() == spec_counts(enc, self.symbol_count())
        &&& self.count_array_view.table() == spec_kmer_table(
            enc,
            self.symbol_count(),
            self.count_array_view.kmer_size(),
        )
        &&& self.suffix_array_view.samples() == spec_samples(
            sa,
            self.suffix_array_view.sampling_ratio as nat,
        )
        &&& self.bwm_view.sentinel_index == sentinel_of(sa)
        &&& self.bwm_view.checkpoints() == spec_checkpoints(
            bwt,
            self.symbol_count(),
            B::BLOCK_LEN as nat,
            self.bwm_view.blocks_len as nat,
        )
        &&& forall|b: int|
            0 <= b < self.bwm_view.blocks_len ==> #[trigger] self.bwm_view.block_symbols(b)
                == chunk_symbols(block_chunk(bwt, b, B::BLOCK_LEN as nat), B::BLOCK_LEN as nat)
    }

    /// The rank that the matrix gives for a symbol at a row is the number of
    /// times that the symbol stands in the transformed text before the place
    /// of the row.
    pub proof fn lemma_rank(&self, enc: Seq<u8>, pos: nat, symidx: nat)
        requires
            self.indexes(enc),
            pos <= enc.len(),
            symidx < self.symbol_count(),
        ensures
            self.bwm_view.spec_rank(pos, symidx) == count_in(
                bwt_of(enc, suffix_array(enc)),
                symidx as int + 1,
                place_for(suffix_array(enc), pos),
            ),
            place_for(suffix_array(enc), pos) <= enc.len(),
    {
        let n = enc.len();
        let sa = suffix_array(enc);
        let bwt = bwt_of(enc, sa);
        let width = B::BLOCK_LEN as nat;
        let blocks = self.bwm_view.blocks_len as nat;
        let sigma = self.symbol_count();
        B::lemma_block();
        <B::V as Vector>::lemma_vector();
        crate::block::lemma_symbol_limits();
        lemma_bwt_encoded(enc, sa, sigma);
        let place = place_for(sa, pos);
        if n >= 1 {
            crate::ranges::lemma_bwt_count(enc, sa, symidx as int + 1, pos);
        } else {
            assert(sentinel_of(sa) == 0);
        }
        assert(place <= n);
        // The place is in a block of the matrix.
        vstd::arithmetic::div_mod::lemma_fundamental_div_mod(n as int, width as int);
        assert(blocks == n / width + 1);
        assert(blocks * width > n) by (nonlinear_arith)
            requires
                blocks == n / width + 1,
                n == width * (n / width) + n % width,
                n % width < width,
                width > 0,
        ;
        assert(self.bwm_view.place_of(pos) == place);
        let q = place / width;
        let rem = place % width;
        vstd::arithmetic::div_mod::lemma_fundamental_div_mod(place as int, width as int);
        assert(q < blocks) by (nonlinear_arith)
            requires
                place == width * q + rem,
                rem >= 0,
                place < blocks * width,
                width > 0,
        ;
        assert(place == q * width + rem) by (nonlinear_arith)
            requires
                place == width * q + rem,
        ;
        // The checkpoint of the block.
        lemma_index_split(q as int, symidx as int, sigma as int);
        crate::entries::lemma_mul_le(q as int, blocks as int, sigma as int);
        let x = q * sigma + symidx;
        assert(self.bwm_view.checkpoints()[x as int] == count_in(
            bwt,
            symidx as int + 1,
            (q * width) as nat,
        ));
        // The symbols of the block before the place.
        let chunk = block_chunk(bwt, q as int, width);
        let start = (q * width) as nat;
        assert(start + rem <= n);
        assert((q + 1) * width == q * width + width) by (nonlinear_arith);
        assert(chunk == bwt.subrange(start as int, min_nat(start + width, n) as int));
        let part = bwt.subrange(start as int, (start + rem) as int);
        lemma_count_in_subrange(bwt, symidx as int + 1, start, start + rem);
        lemma_count_in_ext(part, chunk, symidx as int + 1, rem);
        lemma_count_symbols(chunk, width, symidx as int, rem);
        assert(self.bwm_view.block_symbols(q as int) == chunk_symbols(chunk, width));
    }

    /// The count array gives for a symbol the number of symbols of the text
    /// that are smaller.
    pub proof fn lemma_precount(&self, enc: Seq<u8>, symidx: nat)
        requires
            self.indexes(enc),
            symidx < self.symbol_count(),
        ensures
            self.spec_precount(symidx) == count_pos(|j: int| enc[j] < symidx as int + 1, enc.len()),
    {
        let base = self.symbol_count() + 2;
        lemma_kmer_count_as_pos(enc, 1, base, symidx as int, 0);
        assert(self.count_array_view.counts()[symidx as int] == kmer_count_le(
            enc,
            1,
            base,
            symidx as int,
            0,
        ));
        assert forall|j: int| 0 <= j < enc.len() implies (kmer_code(enc, j, 1, base)
            <= symidx) == (enc[j] < symidx as int + 1) by {
            assert(kmer_code(enc, j, 0, base) == 0);
            assert(kmer_code(enc, j, 1, base) == kmer_code(enc, j, 0, base) * base
                + crate::kmer::digit_at(enc, j));
            assert(kmer_code(enc, j, 0, base) * base == 0) by (nonlinear_arith)
                requires
                    kmer_code(enc, j, 0, base) == 0,
            ;
        }
        lemma_count_pos_ext(
            |j: int| kmer_code(enc, j, 1, base) <= symidx,
            |j: int| enc[j] < symidx as int + 1,
            enc.len(),
        );
    }

    /// The step of the backward search on the index: from the number of
    /// suffixes with a closed property to the number of suffixes with the
    /// property of a sequence that has the symbol before it.
    pub proof fn lemma_index_lf(&self, enc: Seq<u8>, p: spec_fn(Seq<u8>) -> bool, symidx: nat)
        requires
            self.indexes(enc),
            enc.len() >= 1,
            symidx < self.symbol_count(),
            closed(p),
            p(Seq::<u8>::empty()),
        ensures
            count_suffixes(enc, p) <= enc.len(),
            self.spec_lf(count_suffixes(enc, p), symidx) == count_suffixes(
                enc,
                with_symbol(p, symidx as int + 1),
            ),
    {
        let sa = suffix_array(enc);
        lemma_lf(enc, sa, p, symidx as int + 1);
        self.lemma_rank(enc, count_suffixes(enc, p), symidx);
        self.lemma_precount(enc, symidx);
        lemma_count_pos_bound(|j: int| with_symbol(p, symidx as int + 1)(suffix(enc, j)), enc.len());
    }
}

/// The symbol indices of a chunk of symbol-plus-one values hold a symbol as
/// often as the chunk holds its symbol-plus-one value.
pub proof fn lemma_count_symbols(chunk: Seq<u8>, width: nat, symidx: int, rem: nat)
    requires
        rem <= chunk.len() <= width,
        forall|j: int| 0 <= j < chunk.len() ==> #[trigger] chunk[j] >= 1,
        0 <= symidx,
    ensures
        count_in(chunk_symbols(chunk, width), symidx, rem) == count_in(chunk, symidx as int + 1, rem),
    decreases rem,
{
    if rem > 0 {
        lemma_count_symbols(chunk, width, symidx, (rem - 1) as nat);
        assert(chunk[rem - 1] >= 1);
    }
}

} // verus!
