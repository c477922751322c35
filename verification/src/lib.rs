//! Safety and dispatch layer for block-based compression of unsigned
//! integer sequences.
//!
//! The crate packs arrays of 8/16/32/64-bit unsigned integers into compact
//! byte buffers under four data-shape assumptions (unsorted, non-decreasing,
//! strictly increasing, zigzag-folded), using one of three block-width
//! packing strategies.  Buffer-bound arithmetic guarantees that a byte
//! buffer sized by the bound calculator is always large enough for the
//! worst-case output, whatever the data values are.
use vstd::prelude::*;

pub mod blocks;
pub mod buffer;
pub mod codec;
pub mod families;
pub mod generic;
pub mod pack;
pub mod sample;
pub mod sizes;
pub mod transform;

verus! {

/// The modulus of values representable in `b` bytes: 256 to the `b`.
pub open spec fn pow256(b: nat) -> nat
    decreases b,
{
    if b == 0 {
        1
    } else {
        256 * pow256((b - 1) as nat)
    }
}

} // verus!
