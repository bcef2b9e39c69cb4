//! Sizing the iterator's stacks from the number of entries.
use vstd::arithmetic::power2::pow2;
use vstd::prelude::*;

verus! {

/// `usize::leading_zeros`: the number of zero bits above the highest one bit of
/// `x`, all `usize::BITS` of them when `x` is zero. So a nonzero `x` lies between
/// the power of two at its highest one bit and the next one.
#[verifier::external_body]
fn leading_zeros(x: usize) -> (r: u32)
    ensures
        r <= usize::BITS,
        x == 0 ==> r == usize::BITS,
        x > 0 ==> r < usize::BITS,
        x > 0 ==> pow2((usize::BITS - r - 1) as nat) <= x && x < pow2((usize::BITS - r) as nat),
{
    x.leading_zeros()
}

/// The base-2 logarithm of `size`, rounded down.
pub fn lg_floor(size: usize) -> (r: usize)
    requires
        size > 0,
    ensures
        pow2(r as nat) <= size < pow2(r as nat + 1),
        r < usize::BITS,
{
    proof {
        broadcast use vstd::layout::layout_of_primitives;
    }
    let lz = leading_zeros(size);
    let c: usize = 8 * std::mem::size_of::<usize>() - lz as usize;

    c - 1
}

/// An upper bound on the height of a red-black tree with `size` nodes: twice the
/// base-2 logarithm of `size + 1`, rounded down.
pub fn conservative_height(size: usize) -> (r: usize)
    requires
        size < usize::MAX,
    ensures
        size == 0 ==> r == 0,
        size > 0 ==> r % 2 == 0 && pow2((r / 2) as nat) <= size + 1 < pow2((r / 2) as nat + 1),
        r < 2 * usize::BITS,
{
    if size > 0 {
        2 * lg_floor(size + 1)
    } else {
        0
    }
}

} // verus!
