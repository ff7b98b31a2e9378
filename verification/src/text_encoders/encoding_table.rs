//! The encoder that maps each byte through a table of 256 entries.

use vstd::prelude::*;
use crate::endian::write_bytes;
use crate::header::{lemma_array_ext256, Header};
use crate::text_encoder::TextEncoder;

verus! {

/// The index that the symbol sets give to byte `b`: that of the last set that
/// holds `b`, and `default` where no set holds it.
pub open spec fn table_entry(symbols: Seq<Seq<u8>>, default: u8, b: u8) -> u8
    decreases symbols.len(),
{
    if symbols.len() == 0 {
        default
    } else if symbols.last().contains(b) {
        (symbols.len() - 1) as u8
    } else {
        table_entry(symbols.drop_last(), default, b)
    }
}

/// The symbol sets as sequences of byte sequences.
pub open spec fn symbol_sets(symbols: &[&[u8]]) -> Seq<Seq<u8>> {
    Seq::new(symbols@.len(), |i: int| symbols@[i]@)
}

/// The greatest entry among the first `len` entries of a table.
pub open spec fn max_entry(table: Seq<u8>, len: nat) -> u8
    decreases len,
{
    if len == 0 {
        0
    } else {
        let rest = max_entry(table, (len - 1) as nat);
        if table[len - 1] > rest {
            table[len - 1]
        } else {
            rest
        }
    }
}

pub proof fn lemma_max_entry(table: Seq<u8>, len: nat)
    requires
        len <= table.len(),
    ensures
        forall|i: int| 0 <= i < len ==> table[i] <= max_entry(table, len),
    decreases len,
{
    if len > 0 {
        lemma_max_entry(table, (len - 1) as nat);
    }
}

/// A table mapping the bytes of a text to symbol indices.
#[derive(Debug, Clone, Copy)]
pub struct EncodingTable(pub [u8; 256]);

impl TextEncoder for EncodingTable {
    open spec fn spec_idx_of(&self, sym: u8) -> u8 {
        self.0@[sym as int]
    }

    fn idx_of(&self, sym: u8) -> (idx: u8) {
        self.0[sym as usize]
    }
}

impl EncodingTable {
    /// The table that maps each byte of `symbols[i]` to `i` and every other
    /// byte to `default`.
    fn with_default(symbols: &[&[u8]], default: u8) -> (table: Self)
        requires
            symbols@.len() <= 256,
        ensures
            forall|b: u8| table.spec_idx_of(b) == table_entry(symbol_sets(symbols), default, b),
    {
        let mut table: [u8; 256] = [default;256];
        let ghost sets = symbol_sets(symbols);
        let mut idx: usize = 0;
        while idx < symbols.len()
            invariant
                idx <= symbols@.len() <= 256,
                sets == symbol_sets(symbols),
                forall|b: u8| #[trigger] table@[b as int] == table_entry(sets.take(idx as int), default, b),
            decreases symbols@.len() - idx,
        {
            let sym: &[u8] = symbols[idx];
            let ghost before = table@;
            let mut j: usize = 0;
            while j < sym.len()
                invariant
                    j <= sym@.len(),
                    idx < 256,
                    forall|b: u8|
                        #[trigger] table@[b as int] == if sym@.take(j as int).contains(b) {
                            idx as u8
                        } else {
                            before[b as int]
                        },
                decreases sym@.len() - j,
            {
                let x: u8 = sym[j];
                table[x as usize] = idx as u8;
                proof {
                    let prev = sym@.take(j as int);
                    let next = sym@.take(j + 1);
                    assert(next =~= prev.push(x));
                    assert forall|b: u8| next.contains(b) <==> (prev.contains(b) || b == x) by {
                        if prev.contains(b) {
                            let w = choose|w: int| 0 <= w < prev.len() && prev[w] == b;
                            assert(next[w] == b);
                        }
                        if b == x {
                            assert(next[j as int] == x);
                        }
                    }
                }
                j += 1;
            }
            proof {
                assert(sym@.take(sym@.len() as int) =~= sym@);
                let upto = sets.take(idx + 1);
                assert(upto.last() == sym@);
                assert(upto.drop_last() =~= sets.take(idx as int));
            }
            idx += 1;
        }
        proof {
            assert(sets.take(symbols@.len() as int) =~= sets);
        }
        EncodingTable(table)
    }

    /// Treats the last symbol set as the wildcard: a byte that is in no set
    /// gets the index of the last set.
    pub fn from_symbols(symbols: &[&[u8]]) -> (table: Self)
        requires
            1 <= symbols@.len() <= 256,
        ensures
            forall|b: u8|
                table.spec_idx_of(b) == table_entry(
                    symbol_sets(symbols),
                    (symbols@.len() - 1) as u8,
                    b,
                ),
    {
        Self::with_default(symbols, (symbols.len() - 1) as u8)
    }

    /// Adds one wildcard class after the symbol sets: a byte that is in no
    /// set gets the index `symbols.len()`.
    pub fn from_symbols_with_wildcard(symbols: &[&[u8]]) -> (table: Self)
        requires
            symbols@.len() <= 255,
        ensures
            forall|b: u8|
                table.spec_idx_of(b) == table_entry(symbol_sets(symbols), symbols@.len() as u8, b),
    {
        Self::with_default(symbols, symbols.len() as u8)
    }

    /// The same table as `from_symbols_with_wildcard`.
    pub fn new(symbols: &[&[u8]]) -> (table: Self)
        requires
            symbols@.len() <= 255,
        ensures
            forall|b: u8|
                table.spec_idx_of(b) == table_entry(symbol_sets(symbols), symbols@.len() as u8, b),
    {
        Self::from_symbols_with_wildcard(symbols)
    }

    /// The number of symbol classes of the table: its greatest index and one.
    pub open spec fn spec_symbol_count(&self) -> nat {
        max_entry(self.0@, 256) as nat + 1
    }

    /// The number of symbol classes of the table: its greatest index and one.
    pub fn symbol_count(&self) -> (count: u32)
        ensures
            count == self.spec_symbol_count(),
            forall|b: u8| (self.spec_idx_of(b) as nat) < count,
    {
        let mut max: u8 = 0;
        let mut i: usize = 0;
        while i < 256
            invariant
                i <= 256,
                max == max_entry(self.0@, i as nat),
            decreases 256 - i,
        {
            if self.0[i] > max {
                max = self.0[i];
            }
            i += 1;
        }
        proof {
            lemma_max_entry(self.0@, 256);
        }
        max as u32 + 1
    }

    pub fn get_encoding_table(&self) -> (table: &[u8])
        ensures
            table@ == self.0@,
    {
        self.0.as_slice()
    }
}

impl Header for EncodingTable {
    open spec fn spec_raw_size() -> nat {
        256
    }

    open spec fn spec_bytes(&self) -> Seq<u8> {
        self.0@
    }

    open spec fn spec_parse(bytes: Seq<u8>) -> Self {
        choose|table: EncodingTable| table.0@ == bytes
    }

    proof fn lemma_header(&self) {
        let parsed = Self::spec_parse(self.spec_bytes());
        assert(self.0@ == self.spec_bytes());
        lemma_array_ext256(parsed.0, self.0);
    }

    fn raw_size() -> (size: usize) {
        256
    }

    fn write_to_blob(&self, blob: &mut [u8], off: usize) {
        write_bytes(blob, off, self.0.as_slice());
    }

    fn read_from_blob(blob: &[u8], off: usize) -> (header: Self) {
        let mut table: [u8; 256] = [0;256];
        let mut i: usize = 0;
        while i < 256
            invariant
                i <= 256,
                off + 256 <= blob@.len(),
                forall|j: int| 0 <= j < i ==> table@[j] == blob@[off + j],
            decreases 256 - i,
        {
            table[i] = blob[off + i];
            i += 1;
        }
        let header = EncodingTable(table);
        proof {
            let bytes = blob@.subrange(off as int, off + 256);
            assert(header.0@ =~= bytes);
            let parsed = Self::spec_parse(bytes);
            lemma_array_ext256(parsed.0, header.0);
        }
        header
    }
}

} // verus!
