use vstd::prelude::*;

verus! {

// Sometimes for space or alignment reasons a single value is split into two smaller values which are stored
// non-adjacently on disk (e.g. full value 0xBEEF into hi value 0xBE and lo value 0xEF). These functions join and
// split such values.

/// The value formed by a low half of `lo_bits` bits and a high half.
pub open spec fn join_value(lo: int, hi: int, lo_bits: nat) -> int {
    hi * vstd::arithmetic::power2::pow2(lo_bits) + lo
}

/// Joins a `u32` low half and a `u32` high half into a `u64`.
pub fn join_u32_u32(lo: u32, hi: u32) -> (r: u64)
    ensures
        r == hi * 0x1_0000_0000 + lo,
{
    (hi as u64) * 0x1_0000_0000 + lo as u64
}

/// Splits a `u64` into a `u32` low half and a `u32` high half.
pub fn split_u32_u32(value: u64) -> (r: (u32, u32))
    ensures
        r.0 == value % 0x1_0000_0000,
        r.1 == value / 0x1_0000_0000,
        r.1 * 0x1_0000_0000 + r.0 == value,
{
    ((value % 0x1_0000_0000) as u32, (value / 0x1_0000_0000) as u32)
}

/// Joins a `u32` low half and a `u16` high half into a `u64`.
pub fn join_u32_u16(lo: u32, hi: u16) -> (r: u64)
    ensures
        r == hi * 0x1_0000_0000 + lo,
{
    (hi as u64) * 0x1_0000_0000 + lo as u64
}

/// Splits a `u64` that fits into 48 bits into a `u32` low half and a `u16` high half.
pub fn split_u32_u16(value: u64) -> (r: (u32, u16))
    requires
        value < 0x1_0000_0000_0000,
    ensures
        r.0 == value % 0x1_0000_0000,
        r.1 == value / 0x1_0000_0000,
        r.1 * 0x1_0000_0000 + r.0 == value,
{
    ((value % 0x1_0000_0000) as u32, (value / 0x1_0000_0000) as u16)
}

/// Joins a `u16` low half and a `u16` high half into a `u32`.
pub fn join_u16_u16(lo: u16, hi: u16) -> (r: u32)
    ensures
        r == hi * 0x1_0000 + lo,
{
    (hi as u32) * 0x1_0000 + lo as u32
}

/// Splits a `u32` into a `u16` low half and a `u16` high half.
pub fn split_u16_u16(value: u32) -> (r: (u16, u16))
    ensures
        r.0 == value % 0x1_0000,
        r.1 == value / 0x1_0000,
        r.1 * 0x1_0000 + r.0 == value,
{
    ((value % 0x1_0000) as u16, (value / 0x1_0000) as u16)
}

/// Joining the halves that a split produced gives back the split value, for each pair of widths.
pub proof fn law_join_after_split(value: u64)
    ensures
        (value / 0x1_0000_0000) * 0x1_0000_0000 + value % 0x1_0000_0000 == value,
        value < 0x1_0000_0000 ==> (value / 0x1_0000) * 0x1_0000 + value % 0x1_0000 == value,
{
}

} // verus!
