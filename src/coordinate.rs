use vstd::prelude::*;

verus! {

/// The order key of an `f32`, given its IEEE-754 bits: for all non-NaN values,
/// comparing keys as unsigned integers compares the numbers, with `-0.0`
/// just below `+0.0`. Negative values have their bits inverted, the others
/// get the sign bit set.
pub open spec fn spec_ordered_key(bits: u32) -> u32 {
    if bits >= 0x8000_0000 {
        (0xFFFF_FFFFu32 - bits) as u32
    } else {
        (bits + 0x8000_0000u32) as u32
    }
}

/// The bits of the `f32` whose order key is `key`.
pub open spec fn spec_key_bits(key: u32) -> u32 {
    if key >= 0x8000_0000 {
        (key - 0x8000_0000u32) as u32
    } else {
        (0xFFFF_FFFFu32 - key) as u32
    }
}

/// Turns the bits of a coordinate or a time into its order key.
pub fn ordered_key(bits: u32) -> (r: u32)
    ensures
        r == spec_ordered_key(bits),
{
    if bits >= 0x8000_0000 {
        0xFFFF_FFFF - bits
    } else {
        bits + 0x8000_0000
    }
}

/// Recovers the bits of a coordinate or a time from its order key.
pub fn key_bits(key: u32) -> (r: u32)
    ensures
        r == spec_key_bits(key),
{
    if key >= 0x8000_0000 {
        key - 0x8000_0000
    } else {
        0xFFFF_FFFF - key
    }
}

/// Keys and bits correspond one to one.
pub proof fn lemma_key_round_trip(bits: u32, key: u32)
    ensures
        spec_key_bits(spec_ordered_key(bits)) == bits,
        spec_ordered_key(spec_key_bits(key)) == key,
{
}

/// Among non-negative numbers (sign bit clear), whose bits order as the
/// numbers do, the keys keep that order; among negative ones (sign bit set),
/// whose bits order opposite to the numbers, the keys reverse it; and every
/// negative number's key lies below every non-negative one's.
pub proof fn lemma_key_order(a: u32, b: u32)
    ensures
        a < 0x8000_0000 && b < 0x8000_0000 ==> (a < b <==> spec_ordered_key(a)
            < spec_ordered_key(b)),
        a >= 0x8000_0000 && b >= 0x8000_0000 ==> (a < b <==> spec_ordered_key(b)
            < spec_ordered_key(a)),
        a >= 0x8000_0000 && b < 0x8000_0000 ==> spec_ordered_key(a) < spec_ordered_key(b),
{
}

} // verus!
