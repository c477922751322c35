//! Value transforms applied before packing: difference coding for the
//! ordered families, and the zigzag fold for data spread around a centre.
//!
//! All transforms work modulo `m = pow256(size)`, the range of the element
//! type, so they are total bijections: decoding inverts encoding for every
//! input, ordered or not.
use vstd::prelude::*;
use crate::pow256;
use crate::pack::{lemma_pow256_pos, lemma_pow256_u64};

verus! {

/// Difference coding: the first value as is, then each value minus its
/// predecessor (minus `c`), modulo `m`.  `c` is 0 for the non-decreasing
/// family and 1 for the strictly increasing one, whose gaps are never 0.
pub open spec fn delta_seq(vals: Seq<u64>, m: nat, c: nat) -> Seq<u64> {
    Seq::new(
        vals.len(),
        |i: int|
            if i == 0 {
                vals[0]
            } else {
                ((((vals[i] + m) - vals[i - 1]) - c) % (m as int)) as u64
            },
    )
}

/// The running value at position `i` when summing differences back up.
pub open spec fn undelta_at(d: Seq<u64>, m: nat, c: nat, i: int) -> nat
    decreases i,
{
    if i <= 0 {
        d[0] as nat
    } else {
        ((undelta_at(d, m, c, i - 1) + d[i] + c) % (m as int)) as nat
    }
}

/// The inverse of `delta_seq`: prefix sums modulo `m`.
pub open spec fn undelta_seq(d: Seq<u64>, m: nat, c: nat) -> Seq<u64> {
    Seq::new(d.len(), |i: int| undelta_at(d, m, c, i) as u64)
}

/// Every difference is below the modulus (given in-range input).
pub proof fn lemma_delta_seq_bound(vals: Seq<u64>, m: nat, c: nat)
    requires
        m >= 1,
        c <= 1,
        forall|i: int| 0 <= i < vals.len() ==> vals[i] < m,
    ensures
        forall|i: int| 0 <= i < vals.len() ==> #[trigger] delta_seq(vals, m, c)[i] < m,
{
    assert forall|i: int| 0 <= i < vals.len() implies #[trigger] delta_seq(vals, m, c)[i]
        < m by {
        if i > 0 {
            let x = ((vals[i] + m) - vals[i - 1]) - c;
            vstd::arithmetic::div_mod::lemma_mod_bound(x, m as int);
        }
    }
}

/// Summing the differences back up restores every value.
pub proof fn lemma_undelta_delta(vals: Seq<u64>, m: nat, c: nat)
    requires
        m >= 1,
        m <= 0x1_0000_0000_0000_0000,
        c <= 1,
        forall|i: int| 0 <= i < vals.len() ==> vals[i] < m,
    ensures
        undelta_seq(delta_seq(vals, m, c), m, c) == vals,
{
    let d = delta_seq(vals, m, c);
    assert forall|i: int| 0 <= i < vals.len() implies undelta_at(d, m, c, i)
        == vals[i] as nat by {
        lemma_undelta_at(vals, m, c, i);
    }
    assert(undelta_seq(d, m, c) =~= vals);
}

proof fn lemma_undelta_at(vals: Seq<u64>, m: nat, c: nat, i: int)
    requires
        m >= 1,
        m <= 0x1_0000_0000_0000_0000,
        c <= 1,
        0 <= i < vals.len(),
        forall|j: int| 0 <= j < vals.len() ==> vals[j] < m,
    ensures
        undelta_at(delta_seq(vals, m, c), m, c, i) == vals[i] as nat,
    decreases i,
{
    let d = delta_seq(vals, m, c);
    if i == 0 {
    } else {
        lemma_undelta_at(vals, m, c, i - 1);
        let a = vals[i - 1] as int;
        let bv = vals[i] as int;
        let x = ((bv + m) - a) - c;
        vstd::arithmetic::div_mod::lemma_mod_bound(x, m as int);
        assert(d[i] == ((x % (m as int)) as u64));
        assert((x % (m as int)) as u64 as int == x % (m as int));
        assert(undelta_at(d, m, c, i) == ((a + (x % (m as int)) + c) % (m as int)) as nat);
        vstd::arithmetic::div_mod::lemma_add_mod_noop_right(a + c, x, m as int);
        assert((a + c + x) % (m as int) == (bv + m) % (m as int));
        vstd::arithmetic::div_mod::lemma_mod_add_multiples_vanish(bv, m as int);
        vstd::arithmetic::div_mod::lemma_small_mod(bv as nat, m);
    }
}

/// The zigzag fold: values below `m / 2` map to even numbers, the rest to
/// odd ones, so magnitudes near 0 or near `m` both become small.
pub open spec fn zig(d: nat, m: nat) -> nat {
    if 2 * d < m {
        2 * d
    } else {
        (2 * (m - d) - 1) as nat
    }
}

/// The inverse of the zigzag fold.
pub open spec fn unzig(z: nat, m: nat) -> nat {
    if z % 2 == 0 {
        z / 2
    } else {
        (m - (z + 1) / 2) as nat
    }
}

pub proof fn lemma_zig_bound(d: nat, m: nat)
    requires
        d < m,
        m % 2 == 0,
    ensures
        zig(d, m) < m,
{
}

pub proof fn lemma_unzig_zig(d: nat, m: nat)
    requires
        d < m,
        m % 2 == 0,
    ensures
        unzig(zig(d, m), m) == d,
{
    if 2 * d < m {
        assert((2 * d) % 2 == 0) by (nonlinear_arith);
        assert((2 * d) / 2 == d) by (nonlinear_arith);
    } else {
        let z = 2 * (m - d) - 1;
        assert(z % 2 == 1) by (nonlinear_arith)
            requires
                z == 2 * (m - d) - 1,
                m - d >= 1,
        ;
        assert((z + 1) / 2 == m - d) by (nonlinear_arith)
            requires
                z + 1 == 2 * (m - d),
        ;
    }
}

/// The modulus of an element type is even, and fits 64 bits of value
/// range for every element width up to 8 bytes.
pub proof fn lemma_pow256_even(size: nat)
    requires
        size >= 1,
    ensures
        pow256(size) % 2 == 0,
        pow256(size) >= 256,
        size <= 8 ==> pow256(size) <= 0x1_0000_0000_0000_0000,
{
    lemma_pow256_pos((size - 1) as nat);
    assert(pow256(size) == 256 * pow256((size - 1) as nat));
    assert(256 * pow256((size - 1) as nat) % 2 == 0 && 256 * pow256((size - 1) as nat) >= 256)
        by (nonlinear_arith)
        requires
            pow256((size - 1) as nat) >= 1,
    ;
    if size <= 8 {
        lemma_pow256_u64();
        crate::pack::lemma_pow256_monotone(size, 8);
    }
}

/// The zigzag family's coded sequence: zigzag applied to each difference.
pub open spec fn zz_seq(vals: Seq<u64>, m: nat) -> Seq<u64> {
    Seq::new(vals.len(), |i: int| zig(delta_seq(vals, m, 0)[i] as nat, m) as u64)
}

/// The inverse: unfold each code, then sum the differences back up.
pub open spec fn unzz_seq(z: Seq<u64>, m: nat) -> Seq<u64> {
    undelta_seq(Seq::new(z.len(), |i: int| unzig(z[i] as nat, m) as u64), m, 0)
}

pub proof fn lemma_zz_seq_bound(vals: Seq<u64>, m: nat)
    requires
        m >= 2,
        m <= 0x1_0000_0000_0000_0000,
        m % 2 == 0,
        forall|i: int| 0 <= i < vals.len() ==> vals[i] < m,
    ensures
        forall|i: int| 0 <= i < vals.len() ==> #[trigger] zz_seq(vals, m)[i] < m,
{
    lemma_delta_seq_bound(vals, m, 0);
    assert forall|i: int| 0 <= i < vals.len() implies #[trigger] zz_seq(vals, m)[i] < m by {
        lemma_zig_bound(delta_seq(vals, m, 0)[i] as nat, m);
    }
}

/// Unfolding the zigzag codes restores every value.
pub proof fn lemma_unzz_zz(vals: Seq<u64>, m: nat)
    requires
        m >= 2,
        m <= 0x1_0000_0000_0000_0000,
        m % 2 == 0,
        forall|i: int| 0 <= i < vals.len() ==> vals[i] < m,
    ensures
        unzz_seq(zz_seq(vals, m), m) == vals,
{
    let d = delta_seq(vals, m, 0);
    let z = zz_seq(vals, m);
    lemma_delta_seq_bound(vals, m, 0);
    let back = Seq::new(z.len(), |i: int| unzig(z[i] as nat, m) as u64);
    assert forall|i: int| 0 <= i < vals.len() implies back[i] == d[i] by {
        lemma_zig_bound(d[i] as nat, m);
        assert(z[i] == zig(d[i] as nat, m) as u64);
        lemma_unzig_zig(d[i] as nat, m);
    }
    assert(back =~= d);
    lemma_undelta_delta(vals, m, 0);
}

} // verus!
