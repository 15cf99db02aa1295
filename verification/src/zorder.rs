//! Morton (z-order) codes: tile coordinates bit-interleaved into a `u32`,
//! computed by the `morton` crate and specified here bit by bit.

use vstd::prelude::*;

verus! {

/// The bits of `x` spread to the even bit positions of a `u32`
/// (the carry-free bit-spreading network the codes are built from).
pub open spec fn spec_spread(x: u16) -> u32 {
    let a = x as u32;
    let b = (a | (a << 8)) & 0x00FF00FF;
    let c = (b | (b << 4)) & 0x0F0F0F0F;
    let d = (c | (c << 2)) & 0x33333333;
    (d | (d << 1)) & 0x55555555
}

/// The even-position bits of `z` compacted back into 16 bits.
pub open spec fn spec_compact(z: u32) -> u16 {
    let a = z & 0x55555555;
    let b = (a | (a >> 1)) & 0x33333333;
    let c = (b | (b >> 2)) & 0x0F0F0F0F;
    let d = (c | (c >> 4)) & 0x00FF00FF;
    ((d | (d >> 8)) & 0xFFFF) as u16
}

/// The morton code of `(x, y)`: bit `2i` is bit `i` of `x`, bit `2i + 1` is
/// bit `i` of `y`.
pub open spec fn spec_interleave(x: u16, y: u16) -> u32 {
    spec_spread(x) | (spec_spread(y) << 1)
}

/// The x coordinate encoded in a morton code.
pub open spec fn spec_deinterleave_x(z: u32) -> u16 {
    spec_compact(z)
}

/// The y coordinate encoded in a morton code.
pub open spec fn spec_deinterleave_y(z: u32) -> u16 {
    spec_compact(z >> 1)
}

/// Interleaving then deinterleaving gives the coordinates back.
pub proof fn lemma_morton_roundtrip(x: u16, y: u16)
    ensures
        spec_deinterleave_x(spec_interleave(x, y)) == x,
        spec_deinterleave_y(spec_interleave(x, y)) == y,
{
    assert(spec_deinterleave_x(spec_interleave(x, y)) == x && spec_deinterleave_y(
        spec_interleave(x, y),
    ) == y) by (bit_vector);
}

/// Relies on `morton::interleave_morton`: bit-interleaves `x` and `y` by the
/// spreading network written out in [`spec_spread`].
#[verifier::external_body]
pub fn interleave_morton(x: u16, y: u16) -> (r: u32)
    ensures
        r == spec_interleave(x, y),
{
    morton::interleave_morton(x, y)
}

/// Relies on `morton::deinterleave_morton`: recovers the even- and
/// odd-position bits of a morton code as the two tile coordinates.
#[verifier::external_body]
pub fn deinterleave_morton(z: u32) -> (r: (u16, u16))
    ensures
        r.0 == spec_deinterleave_x(z),
        r.1 == spec_deinterleave_y(z),
{
    morton::deinterleave_morton(z)
}

} // verus!
