//! The bound calculator: worst-case buffer sizes as pure functions of the
//! element count, the element width and the packing strategy's group size.
//!
//! Every buffer handed to a packing call must be sized through these
//! formulas; they are upper bounds that hold whatever the data values are.
use vstd::prelude::*;
use vstd::layout::size_of;

verus! {

broadcast use vstd::layout::layout_of_primitives;

/// The worst-case byte size of packing `n` elements of `esize` bytes with
/// control groups of `group` elements: one header byte per group, at most
/// `esize` bytes per value, and a 32-element margin.
pub open spec fn enc_buf_size_spec(n: nat, esize: nat, group: nat) -> nat
    recommends
        group >= 1,
{
    ((n + group - 1) / (group as int) + (n + 32) * esize) as nat
}

/// The least element count an unpacking buffer must have for `n` values:
/// the values themselves plus a 32-element margin.
pub open spec fn dec_buf_len_spec(n: nat) -> nat {
    n + 32
}

/// Worst-case byte size for `n` elements of type `T` under the 256-element
/// group layout.
pub fn bound<T>(n: usize) -> (r: usize)
    requires
        n + 255 <= usize::MAX,
        enc_buf_size_spec(n as nat, size_of::<T>(), 256) <= usize::MAX,
    ensures
        r == enc_buf_size_spec(n as nat, size_of::<T>(), 256),
{
    (n + 255) / 256 + (n + 32) * core::mem::size_of::<T>()
}

/// Worst-case byte size for `n` elements of type `T` under the 128-element
/// group layout.
pub fn bound_p4<T>(n: usize) -> (r: usize)
    requires
        n + 127 <= usize::MAX,
        enc_buf_size_spec(n as nat, size_of::<T>(), 128) <= usize::MAX,
    ensures
        r == enc_buf_size_spec(n as nat, size_of::<T>(), 128),
{
    (n + 127) / 128 + (n + 32) * core::mem::size_of::<T>()
}

} // verus!
