//! Little-endian integers inside a byte blob.
//!
//! Every integer of the index is stored with a fixed width and in little-endian
//! byte order. This module states what such a byte string means (`le_value`),
//! and reads and writes single integers at a byte offset.

use vstd::prelude::*;

verus! {

/// The number that the bytes hold when read in little-endian order.
pub open spec fn le_value(bytes: Seq<u8>) -> nat
    decreases bytes.len(),
{
    if bytes.len() == 0 {
        0
    } else {
        bytes[0] as nat + 256 * le_value(bytes.drop_first())
    }
}

/// The `len` low-order bytes of `value`, least significant first.
pub open spec fn le_bytes(value: nat, len: nat) -> Seq<u8>
    decreases len,
{
    if len == 0 {
        Seq::empty()
    } else {
        seq![(value % 256) as u8].add(le_bytes(value / 256, (len - 1) as nat))
    }
}

/// `256` to the power `len`: the number of values that `len` bytes can hold.
pub open spec fn pow256(len: nat) -> nat
    decreases len,
{
    if len == 0 {
        1
    } else {
        256 * pow256((len - 1) as nat)
    }
}

/// `base` with the bytes of `data` written over it from index `start` on.
pub open spec fn overlay(base: Seq<u8>, start: int, data: Seq<u8>) -> Seq<u8> {
    Seq::new(
        base.len(),
        |i: int|
            if start <= i < start + data.len() {
                data[i - start]
            } else {
                base[i]
            },
    )
}

/// A sequence of `len` zero bytes.
pub open spec fn zeros(len: nat) -> Seq<u8> {
    Seq::new(len, |i: int| 0u8)
}

pub proof fn lemma_pow256_values()
    ensures
        pow256(0) == 1,
        pow256(1) == 0x100,
        pow256(2) == 0x1_0000,
        pow256(4) == 0x1_0000_0000,
        pow256(8) == 0x1_0000_0000_0000_0000,
        pow256(16) == 0x1_0000_0000_0000_0000_0000_0000_0000_0000,
{
    reveal_with_fuel(pow256, 17);
}

pub proof fn lemma_le_bytes_len(value: nat, len: nat)
    ensures
        le_bytes(value, len).len() == len,
    decreases len,
{
    if len > 0 {
        lemma_le_bytes_len(value / 256, (len - 1) as nat);
    }
}

pub proof fn lemma_le_value_bound(bytes: Seq<u8>)
    ensures
        le_value(bytes) < pow256(bytes.len()),
    decreases bytes.len(),
{
    if bytes.len() > 0 {
        lemma_le_value_bound(bytes.drop_first());
    }
}

/// Writing a value that fits and reading it back gives the value.
pub proof fn lemma_le_value_of_bytes(value: nat, len: nat)
    requires
        value < pow256(len),
    ensures
        le_value(le_bytes(value, len)) == value,
    decreases len,
{
    if len > 0 {
        let rest = le_bytes(value / 256, (len - 1) as nat);
        let all = le_bytes(value, len);
        lemma_le_value_of_bytes(value / 256, (len - 1) as nat);
        assert(all.drop_first() =~= rest);
        assert(all[0] == (value % 256) as u8);
    }
}

/// Reading bytes and writing the value back in the same width gives the bytes.
pub proof fn lemma_le_bytes_of_value(bytes: Seq<u8>)
    ensures
        le_bytes(le_value(bytes), bytes.len()) == bytes,
    decreases bytes.len(),
{
    if bytes.len() > 0 {
        let rest = bytes.drop_first();
        lemma_le_bytes_of_value(rest);
        let v = le_value(bytes);
        assert(v % 256 == bytes[0] as nat);
        assert(v / 256 == le_value(rest));
        assert(le_bytes(v, bytes.len()) =~= bytes);
    } else {
        assert(le_bytes(le_value(bytes), bytes.len()) =~= bytes);
    }
}

/// Two overlays on disjoint ranges do not disturb each other.
pub proof fn lemma_overlay_read(base: Seq<u8>, start: int, data: Seq<u8>)
    requires
        0 <= start,
        start + data.len() <= base.len(),
    ensures
        overlay(base, start, data).len() == base.len(),
        overlay(base, start, data).subrange(start, start + data.len()) == data,
        forall|a: int, b: int|
            0 <= a <= b <= base.len() && (b <= start || start + data.len() <= a)
                ==> #[trigger] overlay(base, start, data).subrange(a, b) == base.subrange(a, b),
{
    let o = overlay(base, start, data);
    assert(o.subrange(start, start + data.len()) =~= data);
    assert forall|a: int, b: int|
        0 <= a <= b <= base.len() && (b <= start || start + data.len() <= a) implies #[trigger] o.subrange(
        a,
        b,
    ) == base.subrange(a, b) by {
        assert(o.subrange(a, b) =~= base.subrange(a, b));
    }
}

/// `zerocopy::byteorder::U32::<LittleEndian>::from_bytes` followed by `get`:
/// the four bytes read as a little-endian number.
#[verifier::external_body]
fn u32_from_le(bytes: [u8; 4]) -> (value: u32)
    ensures
        value as nat == le_value(bytes@),
{
    zerocopy::byteorder::little_endian::U32::from_bytes(bytes).get()
}

/// `zerocopy::byteorder::U64::<LittleEndian>::from_bytes` followed by `get`:
/// the eight bytes read as a little-endian number.
#[verifier::external_body]
fn u64_from_le(bytes: [u8; 8]) -> (value: u64)
    ensures
        value as nat == le_value(bytes@),
{
    zerocopy::byteorder::little_endian::U64::from_bytes(bytes).get()
}

/// `zerocopy::byteorder::U128::<LittleEndian>::from_bytes` followed by `get`:
/// the sixteen bytes read as a little-endian number.
#[verifier::external_body]
fn u128_from_le(bytes: [u8; 16]) -> (value: u128)
    ensures
        value as nat == le_value(bytes@),
{
    zerocopy::byteorder::little_endian::U128::from_bytes(bytes).get()
}

/// `zerocopy::byteorder::U32::<LittleEndian>::new` followed by `to_bytes`:
/// the four bytes of the value, least significant first.
#[verifier::external_body]
fn u32_to_le(value: u32) -> (bytes: [u8; 4])
    ensures
        bytes@ == le_bytes(value as nat, 4),
{
    zerocopy::byteorder::little_endian::U32::new(value).to_bytes()
}

/// `zerocopy::byteorder::U64::<LittleEndian>::new` followed by `to_bytes`:
/// the eight bytes of the value, least significant first.
#[verifier::external_body]
fn u64_to_le(value: u64) -> (bytes: [u8; 8])
    ensures
        bytes@ == le_bytes(value as nat, 8),
{
    zerocopy::byteorder::little_endian::U64::new(value).to_bytes()
}

/// `zerocopy::byteorder::U128::<LittleEndian>::new` followed by `to_bytes`:
/// the sixteen bytes of the value, least significant first.
#[verifier::external_body]
fn u128_to_le(value: u128) -> (bytes: [u8; 16])
    ensures
        bytes@ == le_bytes(value as nat, 16),
{
    zerocopy::byteorder::little_endian::U128::new(value).to_bytes()
}

/// Reads the 32-bit little-endian integer that starts at byte `off`.
pub fn read_u32(bytes: &[u8], off: usize) -> (value: u32)
    requires
        off + 4 <= bytes@.len(),
    ensures
        value as nat == le_value(bytes@.subrange(off as int, off + 4)),
{
    let a: [u8; 4] = [bytes[off], bytes[off + 1], bytes[off + 2], bytes[off + 3]];
    assert(a@ =~= bytes@.subrange(off as int, off + 4));
    u32_from_le(a)
}

/// Reads the 64-bit little-endian integer that starts at byte `off`.
pub fn read_u64(bytes: &[u8], off: usize) -> (value: u64)
    requires
        off + 8 <= bytes@.len(),
    ensures
        value as nat == le_value(bytes@.subrange(off as int, off + 8)),
{
    let a: [u8; 8] = [
        bytes[off],
        bytes[off + 1],
        bytes[off + 2],
        bytes[off + 3],
        bytes[off + 4],
        bytes[off + 5],
        bytes[off + 6],
        bytes[off + 7],
    ];
    assert(a@ =~= bytes@.subrange(off as int, off + 8));
    u64_from_le(a)
}

/// Reads the 128-bit little-endian integer that starts at byte `off`.
pub fn read_u128(bytes: &[u8], off: usize) -> (value: u128)
    requires
        off + 16 <= bytes@.len(),
    ensures
        value as nat == le_value(bytes@.subrange(off as int, off + 16)),
{
    let a: [u8; 16] = [
        bytes[off],
        bytes[off + 1],
        bytes[off + 2],
        bytes[off + 3],
        bytes[off + 4],
        bytes[off + 5],
        bytes[off + 6],
        bytes[off + 7],
        bytes[off + 8],
        bytes[off + 9],
        bytes[off + 10],
        bytes[off + 11],
        bytes[off + 12],
        bytes[off + 13],
        bytes[off + 14],
        bytes[off + 15],
    ];
    assert(a@ =~= bytes@.subrange(off as int, off + 16));
    u128_from_le(a)
}

/// Copies `data` into `blob` from byte `off` on and leaves the other bytes as they are.
pub fn write_bytes(blob: &mut [u8], off: usize, data: &[u8])
    requires
        off + data@.len() <= old(blob)@.len(),
    ensures
        final(blob)@ == overlay(old(blob)@, off as int, data@),
{
    let n = data.len();
    let total = blob.len();
    let mut i: usize = 0;
    while i < n
        invariant
            n == data@.len(),
            i <= n,
            blob@.len() == old(blob)@.len(),
            off + n <= total == blob@.len(),
            forall|j: int| 0 <= j < blob@.len() && !(off <= j < off + i) ==> blob@[j] == old(blob)@[j],
            forall|j: int| 0 <= j < i ==> blob@[off + j] == data@[j],
        decreases n - i,
    {
        blob[off + i] = data[i];
        i += 1;
    }
    assert(blob@ =~= overlay(old(blob)@, off as int, data@));
}

/// Writes `value` as a 32-bit little-endian integer at byte `off`.
pub fn write_u32(blob: &mut [u8], off: usize, value: u32)
    requires
        off + 4 <= old(blob)@.len(),
    ensures
        final(blob)@ == overlay(old(blob)@, off as int, le_bytes(value as nat, 4)),
{
    let a = u32_to_le(value);
    proof {
        lemma_le_bytes_len(value as nat, 4);
    }
    write_bytes(blob, off, a.as_slice());
}

/// Writes `value` as a 64-bit little-endian integer at byte `off`.
pub fn write_u64(blob: &mut [u8], off: usize, value: u64)
    requires
        off + 8 <= old(blob)@.len(),
    ensures
        final(blob)@ == overlay(old(blob)@, off as int, le_bytes(value as nat, 8)),
{
    let a = u64_to_le(value);
    proof {
        lemma_le_bytes_len(value as nat, 8);
    }
    write_bytes(blob, off, a.as_slice());
}

/// Writes `value` as a 128-bit little-endian integer at byte `off`.
pub fn write_u128(blob: &mut [u8], off: usize, value: u128)
    requires
        off + 16 <= old(blob)@.len(),
    ensures
        final(blob)@ == overlay(old(blob)@, off as int, le_bytes(value as nat, 16)),
{
    let a = u128_to_le(value);
    proof {
        lemma_le_bytes_len(value as nat, 16);
    }
    write_bytes(blob, off, a.as_slice());
}

/// Sets every byte of `blob` from `start` up to `end` to zero.
pub fn fill_zero(blob: &mut [u8], start: usize, end: usize)
    requires
        start <= end <= old(blob)@.len(),
    ensures
        final(blob)@ == overlay(old(blob)@, start as int, zeros((end - start) as nat)),
{
    let mut i: usize = start;
    while i < end
        invariant
            start <= i <= end,
            end <= blob@.len(),
            blob@.len() == old(blob)@.len(),
            forall|j: int| 0 <= j < blob@.len() && !(start <= j < i) ==> blob@[j] == old(blob)@[j],
            forall|j: int| start <= j < i ==> blob@[j] == 0,
        decreases end - i,
    {
        blob[i] = 0;
        i += 1;
    }
    assert(blob@ =~= overlay(old(blob)@, start as int, zeros((end - start) as nat)));
}

/// Writing inside a range that was written before is writing the range with the change made in it.
pub proof fn lemma_overlay_nested(base: Seq<u8>, off: int, inner: Seq<u8>, at: int, data: Seq<u8>)
    requires
        0 <= off,
        off + inner.len() <= base.len(),
        0 <= at,
        at + data.len() <= inner.len(),
    ensures
        overlay(overlay(base, off, inner), off + at, data) == overlay(
            base,
            off,
            overlay(inner, at, data),
        ),
{
    assert(overlay(overlay(base, off, inner), off + at, data) =~= overlay(
        base,
        off,
        overlay(inner, at, data),
    ));
}

} // verus!
