//! Arrays of fixed-width little-endian integers inside a byte blob.

use vstd::prelude::*;
use crate::endian::{
    le_bytes, le_value, lemma_le_bytes_len, lemma_le_value_of_bytes, lemma_pow256_values, overlay,
    pow256, read_u32, read_u64, write_u32, write_u64,
};

verus! {

/// Entry `i` of an array of integers of `width` bytes each that fills `bytes` from its start.
pub open spec fn entry_at(bytes: Seq<u8>, width: nat, i: int) -> nat {
    le_value(bytes.subrange(i * width, (i + 1) * width))
}

/// The first `len` entries of an array of integers of `width` bytes each.
pub open spec fn entries(bytes: Seq<u8>, width: nat, len: nat) -> Seq<nat> {
    Seq::new(len, |i: int| entry_at(bytes, width, i))
}

/// The bytes of an array that holds `values` as integers of `width` bytes each.
pub open spec fn entry_bytes(values: Seq<nat>, width: nat) -> Seq<u8> {
    Seq::new(
        values.len() * width,
        |b: int| le_bytes(values[b / (width as int)], width)[b % (width as int)],
    )
}

/// The numbers that a vector of `u64` holds.
pub open spec fn as_nats(values: Seq<u64>) -> Seq<nat> {
    Seq::new(values.len(), |i: int| values[i] as nat)
}

pub proof fn lemma_index_split(i: int, j: int, width: int)
    requires
        0 <= i,
        0 <= j < width,
    ensures
        (i * width + j) / width == i,
        (i * width + j) % width == j,
        i * width + width == (i + 1) * width,
{
    vstd::arithmetic::div_mod::lemma_fundamental_div_mod_converse(i * width + j, width, i, j);
    assert(width * i == i * width) by (nonlinear_arith);
    assert(i * width + width == (i + 1) * width) by (nonlinear_arith);
}

pub proof fn lemma_mul_le(i: int, len: int, width: int)
    requires
        0 <= i < len,
        0 <= width,
    ensures
        0 <= i * width,
        (i + 1) * width <= len * width,
        i * width + width == (i + 1) * width,
{
    assert(0 <= i * width) by (nonlinear_arith)
        requires
            0 <= i,
            0 <= width,
    ;
    assert((i + 1) * width <= len * width) by (nonlinear_arith)
        requires
            i + 1 <= len,
            0 <= width,
    ;
    assert(i * width + width == (i + 1) * width) by (nonlinear_arith);
}

/// The bytes of entry `i` of a written array are the bytes of value `i`.
pub proof fn lemma_entry_bytes_at(values: Seq<nat>, width: nat, i: int)
    requires
        0 <= i < values.len(),
        width > 0,
    ensures
        entry_bytes(values, width).len() == values.len() * width,
        entry_bytes(values, width).subrange(i * width, (i + 1) * width) == le_bytes(
            values[i],
            width,
        ),
{
    lemma_mul_le(i, values.len() as int, width as int);
    lemma_le_bytes_len(values[i], width);
    let all = entry_bytes(values, width);
    let part = all.subrange(i * width, (i + 1) * width);
    assert forall|j: int| 0 <= j < width implies part[j] == le_bytes(values[i], width)[j] by {
        lemma_index_split(i, j, width as int);
    }
    assert(part =~= le_bytes(values[i], width));
}

/// Reading back an array that was written gives the values, where they fit the width.
pub proof fn lemma_entries_of_bytes(values: Seq<nat>, width: nat)
    requires
        width > 0,
        forall|i: int| 0 <= i < values.len() ==> #[trigger] values[i] < pow256(width),
    ensures
        entries(entry_bytes(values, width), width, values.len()) == values,
{
    let back = entries(entry_bytes(values, width), width, values.len());
    assert forall|i: int| 0 <= i < values.len() implies back[i] == values[i] by {
        lemma_entry_bytes_at(values, width, i);
        lemma_le_value_of_bytes(values[i], width);
    }
    assert(back =~= values);
}

/// The entries of an array depend only on the bytes of the array.
pub proof fn lemma_entries_of_subrange(bytes: Seq<u8>, start: int, width: nat, len: nat)
    requires
        0 <= start,
        start + len * width <= bytes.len(),
    ensures
        forall|i: int|
            0 <= i < len ==> #[trigger] entry_at(
                bytes.subrange(start, start + len * width),
                width,
                i,
            ) == le_value(bytes.subrange(start + i * width, start + (i + 1) * width)),
{
    let part = bytes.subrange(start, start + len * width);
    assert forall|i: int| 0 <= i < len implies #[trigger] entry_at(part, width, i) == le_value(
        bytes.subrange(start + i * width, start + (i + 1) * width),
    ) by {
        lemma_mul_le(i, len as int, width as int);
        assert(part.subrange(i * width, (i + 1) * width) =~= bytes.subrange(
            start + i * width,
            start + (i + 1) * width,
        ));
    }
}

/// Reads entry `i` of an array of integers of `width` bytes that fills `bytes` from its start.
pub fn read_entry(bytes: &[u8], width: usize, i: usize) -> (value: u64)
    requires
        width == 4 || width == 8,
        (i + 1) * width <= bytes@.len(),
    ensures
        value as nat == entry_at(bytes@, width as nat, i as int),
        (value as nat) < pow256(width as nat),
{
    proof {
        lemma_mul_le(i as int, i + 1, width as int);
        lemma_pow256_values();
    }
    let total: usize = bytes.len();
    assert(i * width <= (i + 1) * width <= total);
    let off: usize = i * width;
    if width == 4 {
        read_u32(bytes, off) as u64
    } else {
        read_u64(bytes, off)
    }
}

/// Writes `values` as an array of integers of `width` bytes each at byte `off`.
pub fn write_entries(blob: &mut [u8], off: usize, width: usize, values: &Vec<u64>)
    requires
        width == 4 || width == 8,
        off + values@.len() * width <= old(blob)@.len(),
        forall|i: int| 0 <= i < values@.len() ==> (#[trigger] values@[i] as nat) < pow256(width as nat),
    ensures
        final(blob)@ == overlay(old(blob)@, off as int, entry_bytes(as_nats(values@), width as nat)),
{
    let n: usize = values.len();
    let total: usize = blob.len();
    let ghost target = entry_bytes(as_nats(values@), width as nat);
    let mut i: usize = 0;
    while i < n
        invariant
            i <= n == values@.len(),
            width == 4 || width == 8,
            total == blob@.len() == old(blob)@.len(),
            off + n * width <= total,
            target == entry_bytes(as_nats(values@), width as nat),
            forall|j: int| 0 <= j < n ==> (#[trigger] values@[j] as nat) < pow256(width as nat),
            forall|b: int|
                0 <= b < blob@.len() && !(off <= b < off + i * width) ==> blob@[b] == old(blob)@[b],
            forall|b: int| 0 <= b < i * width ==> blob@[off + b] == target[b],
        decreases n - i,
    {
        proof {
            lemma_mul_le(i as int, n as int, width as int);
            lemma_pow256_values();
            lemma_entry_bytes_at(as_nats(values@), width as nat, i as int);
        }
        let at: usize = off + i * width;
        let ghost before = blob@;
        if width == 4 {
            write_u32(blob, at, values[i] as u32);
        } else {
            write_u64(blob, at, values[i]);
        }
        proof {
            let piece = le_bytes(values@[i as int] as nat, width as nat);
            lemma_le_bytes_len(values@[i as int] as nat, width as nat);
            assert(blob@ == overlay(before, at as int, piece));
            assert forall|b: int| 0 <= b < (i + 1) * width implies blob@[off + b] == target[b] by {
                if b >= i * width {
                    assert(target.subrange(i * width, (i + 1) * width)[b - i * width] == target[b]);
                }
            }
        }
        i += 1;
    }
    proof {
        assert(blob@ =~= overlay(old(blob)@, off as int, target));
    }
}

/// An array that holds the bytes of `values` from byte `start` on holds `values`.
pub proof fn lemma_section_entries(bytes: Seq<u8>, start: int, values: Seq<nat>, width: nat)
    requires
        width > 0,
        0 <= start,
        start + values.len() * width <= bytes.len(),
        bytes.subrange(start, start + values.len() * width) == entry_bytes(values, width),
        forall|i: int| 0 <= i < values.len() ==> #[trigger] values[i] < pow256(width),
    ensures
        entries(bytes.subrange(start, start + values.len() * width), width, values.len())
            == values,
        start == 0 ==> entries(bytes, width, values.len()) == values,
{
    lemma_entries_of_bytes(values, width);
    if start == 0 {
        lemma_entries_of_subrange(bytes, 0, width, values.len());
        assert(entries(bytes, width, values.len()) =~= entries(
            bytes.subrange(0, (values.len() * width) as int),
            width,
            values.len(),
        ));
    }
}

} // verus!
