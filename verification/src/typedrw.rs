//! Typed reads from raw bytes: unsigned integers stored least significant
//! byte first.

use vstd::prelude::*;

verus! {

/// The 32-bit value whose four bytes start at `at`, least significant first.
pub open spec fn le_u32(bytes: Seq<u8>, at: int) -> u32 {
    (bytes[at] as int + 0x100 * (bytes[at + 1] as int) + 0x1_0000 * (bytes[at + 2] as int)
        + 0x100_0000 * (bytes[at + 3] as int)) as u32
}

/// The 64-bit value whose eight bytes start at `at`, least significant first.
pub open spec fn le_u64(bytes: Seq<u8>, at: int) -> u64 {
    (le_u32(bytes, at) as int + 0x1_0000_0000 * (le_u32(bytes, at + 4) as int)) as u64
}

/// The `count` 32-bit values stored back to back from `at` on.
pub open spec fn le_u32s(bytes: Seq<u8>, at: int, count: nat) -> Seq<u32> {
    Seq::new(count, |i: int| le_u32(bytes, at + 4 * i))
}

/// The `count` 64-bit values stored back to back from `at` on.
pub open spec fn le_u64s(bytes: Seq<u8>, at: int, count: nat) -> Seq<u64> {
    Seq::new(count, |i: int| le_u64(bytes, at + 8 * i))
}

/// Reads the 32-bit value at `at`.
pub fn read_u32(bytes: &[u8], at: usize) -> (value: u32)
    requires
        at + 4 <= bytes.len(),
    ensures
        value == le_u32(bytes@, at as int),
{
    let b0 = bytes[at] as u32;
    let b1 = bytes[at + 1] as u32;
    let b2 = bytes[at + 2] as u32;
    let b3 = bytes[at + 3] as u32;
    b0 + 0x100 * b1 + 0x1_0000 * b2 + 0x100_0000 * b3
}

/// Reads the 64-bit value at `at`.
pub fn read_u64(bytes: &[u8], at: usize) -> (value: u64)
    requires
        at + 8 <= bytes.len(),
    ensures
        value == le_u64(bytes@, at as int),
{
    let low = read_u32(bytes, at) as u64;
    let high = read_u32(bytes, at + 4) as u64;
    low + 0x1_0000_0000 * high
}

/// Reads `count` 32-bit values stored back to back from `at` on.
pub fn read_u32s(bytes: &[u8], at: usize, count: usize) -> (values: Vec<u32>)
    requires
        at + 4 * count <= bytes.len(),
    ensures
        values@ == le_u32s(bytes@, at as int, count as nat),
{
    let mut values: Vec<u32> = Vec::new();
    let mut i: usize = 0;
    while i < count
        invariant
            at + 4 * count <= bytes.len(),
            i <= count,
            values@ == le_u32s(bytes@, at as int, i as nat),
        decreases count - i,
    {
        let value = read_u32(bytes, at + 4 * i);
        values.push(value);
        i = i + 1;
        assert(values@ =~= le_u32s(bytes@, at as int, i as nat));
    }
    values
}

/// Reads `count` 64-bit values stored back to back from `at` on.
pub fn read_u64s(bytes: &[u8], at: usize, count: usize) -> (values: Vec<u64>)
    requires
        at + 8 * count <= bytes.len(),
    ensures
        values@ == le_u64s(bytes@, at as int, count as nat),
{
    let mut values: Vec<u64> = Vec::new();
    let mut i: usize = 0;
    while i < count
        invariant
            at + 8 * count <= bytes.len(),
            i <= count,
            values@ == le_u64s(bytes@, at as int, i as nat),
        decreases count - i,
    {
        let value = read_u64(bytes, at + 8 * i);
        values.push(value);
        i = i + 1;
        assert(values@ =~= le_u64s(bytes@, at as int, i as nat));
    }
    values
}

} // verus!
