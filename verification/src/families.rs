//! The four data-shape families, on `u64` values: plain packing, the two
//! difference-coded families, and the zigzag-folded one.  The per-type
//! codec wrappers widen their input, call one of these, and narrow back.
use vstd::prelude::*;
use crate::pow256;
use crate::pack::{lemma_pow256_u64, lemma_pow256_monotone};
use crate::blocks::{enc_stream, dec_stream, enc_u64s, dec_u64s, lemma_dec_stream_props,
    lemma_dec_of_enc};
use crate::transform::{delta_seq, undelta_seq, undelta_at, zz_seq, unzz_seq, zig, unzig,
    lemma_delta_seq_bound, lemma_undelta_delta, lemma_zz_seq_bound, lemma_unzz_zz,
    lemma_zig_bound, lemma_pow256_even};

verus! {

/// The packed bytes of the plain (unsorted) family.
pub open spec fn standard_bytes(vals: Seq<u64>, size: nat, bsz: nat) -> Seq<u8> {
    enc_stream(vals, size, bsz)
}

/// The packed bytes of the non-decreasing family: differences, packed.
pub open spec fn increasing_bytes(vals: Seq<u64>, size: nat, bsz: nat) -> Seq<u8> {
    enc_stream(delta_seq(vals, pow256(size), 0), size, bsz)
}

/// The packed bytes of the strictly increasing family: differences less
/// one, packed (a gap is never 0, so one less packs denser).
pub open spec fn strict_bytes(vals: Seq<u64>, size: nat, bsz: nat) -> Seq<u8> {
    enc_stream(delta_seq(vals, pow256(size), 1), size, bsz)
}

/// The packed bytes of the zigzag family: zigzag-folded differences.
pub open spec fn zigzag_bytes(vals: Seq<u64>, size: nat, bsz: nat) -> Seq<u8> {
    enc_stream(zz_seq(vals, pow256(size)), size, bsz)
}

/// What decoding `n` values of the plain family yields.
pub open spec fn standard_decoded(input: Seq<u8>, n: nat, size: nat, bsz: nat) -> Option<
    (Seq<u64>, nat),
> {
    dec_stream(input, n, size, bsz)
}

/// What decoding `n` values of the non-decreasing family yields.
pub open spec fn increasing_decoded(input: Seq<u8>, n: nat, size: nat, bsz: nat) -> Option<
    (Seq<u64>, nat),
> {
    match dec_stream(input, n, size, bsz) {
        Option::Some(vu) => Some((undelta_seq(vu.0, pow256(size), 0), vu.1)),
        Option::None => None,
    }
}

/// What decoding `n` values of the strictly increasing family yields.
pub open spec fn strict_decoded(input: Seq<u8>, n: nat, size: nat, bsz: nat) -> Option<
    (Seq<u64>, nat),
> {
    match dec_stream(input, n, size, bsz) {
        Option::Some(vu) => Some((undelta_seq(vu.0, pow256(size), 1), vu.1)),
        Option::None => None,
    }
}

/// What decoding `n` values of the zigzag family yields.
pub open spec fn zigzag_decoded(input: Seq<u8>, n: nat, size: nat, bsz: nat) -> Option<
    (Seq<u64>, nat),
> {
    match dec_stream(input, n, size, bsz) {
        Option::Some(vu) => Some((unzz_seq(vu.0, pow256(size)), vu.1)),
        Option::None => None,
    }
}

/// `pow256(size)` as a `u128`, the working modulus of the transforms.
fn pow256_u128(size: usize) -> (r: u128)
    requires
        size <= 8,
    ensures
        r == pow256(size as nat),
{
    proof {
        reveal_with_fuel(pow256, 9);
    }
    if size == 8 {
        0x1_0000_0000_0000_0000
    } else {
        let mut r: u128 = 1;
        let mut i: usize = 0;
        while i < size
            invariant
                i <= size <= 7,
                r == pow256(i as nat),
            decreases size - i,
        {
            proof {
                lemma_pow256_u64();
                lemma_pow256_monotone((i + 1) as nat, 7);
            }
            r = r * 256;
            i = i + 1;
        }
        r
    }
}

/// Difference coding of a whole slice, modulo the element range.
fn delta_fwd(input: &[u64], size: usize, c: u64) -> (r: Vec<u64>)
    requires
        1 <= size <= 8,
        c <= 1,
        forall|i: int| 0 <= i < input@.len() ==> input@[i] < pow256(size as nat),
    ensures
        r@ == delta_seq(input@, pow256(size as nat), c as nat),
{
    let ghost m = pow256(size as nat);
    let mm = pow256_u128(size);
    proof {
        lemma_pow256_even(size as nat);
    }
    let n = input.len();
    let mut out: Vec<u64> = Vec::new();
    let mut i: usize = 0;
    while i < n
        invariant
            i <= n,
            n == input@.len(),
            1 <= size <= 8,
            c <= 1,
            mm == m,
            m == pow256(size as nat),
            m >= 256,
            m <= 0x1_0000_0000_0000_0000,
            forall|t: int| 0 <= t < input@.len() ==> input@[t] < m,
            out@.len() == i,
            forall|t: int| 0 <= t < i ==> out@[t] == delta_seq(input@, m, c as nat)[t],
        decreases n - i,
    {
        if i == 0 {
            out.push(input[0]);
        } else {
            let a = input[i - 1];
            let bv = input[i];
            let d = (((bv as u128 + mm) - a as u128) - c as u128) % mm;
            proof {
                vstd::arithmetic::div_mod::lemma_mod_bound(
                    ((bv + m) - a) - c,
                    m as int,
                );
            }
            out.push(d as u64);
        }
        i = i + 1;
    }
    proof {
        assert(out@ =~= delta_seq(input@, m, c as nat));
    }
    out
}

/// In-place inverse of difference coding over `output[0 .. n]`.
fn undelta_in(output: &mut Vec<u64>, n: usize, size: usize, c: u64)
    requires
        1 <= size <= 8,
        c <= 1,
        n <= old(output)@.len(),
        forall|t: int| 0 <= t < n ==> old(output)@[t] < pow256(size as nat),
    ensures
        final(output)@.len() == old(output)@.len(),
        final(output)@.subrange(0, n as int) == undelta_seq(
            old(output)@.subrange(0, n as int),
            pow256(size as nat),
            c as nat,
        ),
        forall|t: int| n <= t < final(output)@.len() ==> final(output)@[t] == old(output)@[t],
        forall|t: int| 0 <= t < n ==> final(output)@[t] < pow256(size as nat),
{
    let ghost m = pow256(size as nat);
    let ghost d = old(output)@.subrange(0, n as int);
    let mm = pow256_u128(size);
    proof {
        lemma_pow256_even(size as nat);
    }
    let len = output.len();
    let mut i: usize = 0;
    while i < n
        invariant
            i <= n,
            n <= len,
            len == output@.len(),
            output@.len() == old(output)@.len(),
            1 <= size <= 8,
            c <= 1,
            mm == m,
            m == pow256(size as nat),
            m >= 256,
            m <= 0x1_0000_0000_0000_0000,
            d == old(output)@.subrange(0, n as int),
            forall|t: int| 0 <= t < n ==> d[t] < m,
            forall|t: int| i <= t < len ==> output@[t] == old(output)@[t],
            forall|t: int| 0 <= t < i ==> output@[t] == undelta_at(d, m, c as nat, t) as u64,
            forall|t: int| 0 <= t < i ==> output@[t] < m,
        decreases n - i,
    {
        proof {
            assert(old(output)@[i as int] == d[i as int]);
        }
        if i > 0 {
            let prev = output[i - 1];
            let cur = output[i];
            let v = ((prev as u128 + cur as u128) + c as u128) % mm;
            proof {
                vstd::arithmetic::div_mod::lemma_mod_bound(
                    (prev + cur + c) as int,
                    m as int,
                );
                assert(undelta_at(d, m, c as nat, i as int) == ((undelta_at(
                    d,
                    m,
                    c as nat,
                    i - 1,
                ) + d[i as int] + c) % (m as int)) as nat);
            }
            output[i] = v as u64;
        } else {
            proof {
                assert(undelta_at(d, m, c as nat, 0) == d[0] as nat);
            }
        }
        i = i + 1;
    }
    proof {
        assert(output@.subrange(0, n as int) =~= undelta_seq(d, m, c as nat));
    }
}

/// The zigzag fold of every element, in place.
fn zig_in(vals: &mut Vec<u64>, size: usize)
    requires
        1 <= size <= 8,
        forall|t: int| 0 <= t < old(vals)@.len() ==> old(vals)@[t] < pow256(size as nat),
    ensures
        final(vals)@.len() == old(vals)@.len(),
        forall|t: int|
            0 <= t < final(vals)@.len() ==> final(vals)@[t] == zig(
                old(vals)@[t] as nat,
                pow256(size as nat),
            ) as u64,
{
    let ghost m = pow256(size as nat);
    let ghost orig = old(vals)@;
    let mm = pow256_u128(size);
    proof {
        lemma_pow256_even(size as nat);
    }
    let n = vals.len();
    let mut i: usize = 0;
    while i < n
        invariant
            i <= n,
            n == vals@.len(),
            vals@.len() == orig.len(),
            orig == old(vals)@,
            1 <= size <= 8,
            mm == m,
            m == pow256(size as nat),
            m >= 256,
            m <= 0x1_0000_0000_0000_0000,
            m % 2 == 0,
            forall|t: int| 0 <= t < orig.len() ==> orig[t] < m,
            forall|t: int| i <= t < n ==> vals@[t] == orig[t],
            forall|t: int| 0 <= t < i ==> vals@[t] == zig(orig[t] as nat, m) as u64,
        decreases n - i,
    {
        let x = vals[i];
        proof {
            assert(x == orig[i as int]);
            assert(x < m);
            lemma_zig_bound(x as nat, m);
        }
        let z: u128 = if 2 * (x as u128) < mm {
            2 * (x as u128)
        } else {
            2 * (mm - x as u128) - 1
        };
        vals[i] = z as u64;
        i = i + 1;
    }
}

/// The inverse zigzag fold of every element, in place, over `vals[0 .. n]`.
fn unzig_in(vals: &mut Vec<u64>, n: usize, size: usize)
    requires
        1 <= size <= 8,
        n <= old(vals)@.len(),
        forall|t: int| 0 <= t < n ==> old(vals)@[t] < pow256(size as nat),
    ensures
        final(vals)@.len() == old(vals)@.len(),
        forall|t: int|
            0 <= t < n ==> final(vals)@[t] == unzig(old(vals)@[t] as nat, pow256(size as nat))
                as u64,
        forall|t: int| n <= t < final(vals)@.len() ==> final(vals)@[t] == old(vals)@[t],
        forall|t: int| 0 <= t < n ==> final(vals)@[t] < pow256(size as nat),
{
    let ghost m = pow256(size as nat);
    let ghost orig = old(vals)@;
    let mm = pow256_u128(size);
    proof {
        lemma_pow256_even(size as nat);
    }
    let len = vals.len();
    let mut i: usize = 0;
    while i < n
        invariant
            i <= n,
            n <= len,
            len == vals@.len(),
            vals@.len() == orig.len(),
            orig == old(vals)@,
            1 <= size <= 8,
            mm == m,
            m == pow256(size as nat),
            m >= 256,
            m <= 0x1_0000_0000_0000_0000,
            m % 2 == 0,
            forall|t: int| 0 <= t < n ==> orig[t] < m,
            forall|t: int| i <= t < len ==> vals@[t] == orig[t],
            forall|t: int| 0 <= t < i ==> vals@[t] == unzig(orig[t] as nat, m) as u64,
            forall|t: int| 0 <= t < i ==> vals@[t] < m,
        decreases n - i,
    {
        let z = vals[i];
        proof {
            assert(z == orig[i as int]);
            let zz = z as nat;
            assert(zz < m);
            if zz % 2 != 0 {
                assert((zz + 1) / 2 >= 1);
                assert((zz + 1) / 2 <= m) by (nonlinear_arith)
                    requires
                        zz < m,
                        m >= 2,
                ;
            }
        }
        let v: u128 = if z % 2 == 0 {
            (z as u128) / 2
        } else {
            mm - ((z as u128) + 1) / 2
        };
        vals[i] = v as u64;
        i = i + 1;
    }
}

/// Packs the plain family; returns the bytes written.
pub fn enc_standard_u64(input: &[u64], size: usize, bsz: usize, output: &mut Vec<u8>) -> (r:
    usize)
    requires
        1 <= size <= 8,
        1 <= bsz,
        forall|i: int| 0 <= i < input@.len() ==> input@[i] < pow256(size as nat),
        standard_bytes(input@, size as nat, bsz as nat).len() <= old(output)@.len(),
    ensures
        final(output)@.len() == old(output)@.len(),
        r == standard_bytes(input@, size as nat, bsz as nat).len(),
        final(output)@.subrange(0, r as int) == standard_bytes(input@, size as nat, bsz as nat),
        forall|t: int| r <= t < final(output)@.len() ==> final(output)@[t] == old(output)@[t],
{
    enc_u64s(input, size, bsz, output)
}

/// Packs the non-decreasing family; returns the bytes written.
pub fn enc_increasing_u64(input: &[u64], size: usize, bsz: usize, output: &mut Vec<u8>) -> (r:
    usize)
    requires
        1 <= size <= 8,
        1 <= bsz,
        forall|i: int| 0 <= i < input@.len() ==> input@[i] < pow256(size as nat),
        increasing_bytes(input@, size as nat, bsz as nat).len() <= old(output)@.len(),
    ensures
        final(output)@.len() == old(output)@.len(),
        r == increasing_bytes(input@, size as nat, bsz as nat).len(),
        final(output)@.subrange(0, r as int) == increasing_bytes(
            input@,
            size as nat,
            bsz as nat,
        ),
        forall|t: int| r <= t < final(output)@.len() ==> final(output)@[t] == old(output)@[t],
{
    proof {
        lemma_pow256_even(size as nat);
        lemma_delta_seq_bound(input@, pow256(size as nat), 0);
    }
    let d = delta_fwd(input, size, 0);
    enc_u64s(d.as_slice(), size, bsz, output)
}

/// Packs the strictly increasing family; returns the bytes written.
pub fn enc_strict_u64(input: &[u64], size: usize, bsz: usize, output: &mut Vec<u8>) -> (r:
    usize)
    requires
        1 <= size <= 8,
        1 <= bsz,
        forall|i: int| 0 <= i < input@.len() ==> input@[i] < pow256(size as nat),
        strict_bytes(input@, size as nat, bsz as nat).len() <= old(output)@.len(),
    ensures
        final(output)@.len() == old(output)@.len(),
        r == strict_bytes(input@, size as nat, bsz as nat).len(),
        final(output)@.subrange(0, r as int) == strict_bytes(input@, size as nat, bsz as nat),
        forall|t: int| r <= t < final(output)@.len() ==> final(output)@[t] == old(output)@[t],
{
    proof {
        lemma_pow256_even(size as nat);
        lemma_delta_seq_bound(input@, pow256(size as nat), 1);
    }
    let d = delta_fwd(input, size, 1);
    enc_u64s(d.as_slice(), size, bsz, output)
}

/// Packs the zigzag family; returns the bytes written.
pub fn enc_zigzag_u64(input: &[u64], size: usize, bsz: usize, output: &mut Vec<u8>) -> (r:
    usize)
    requires
        1 <= size <= 8,
        1 <= bsz,
        forall|i: int| 0 <= i < input@.len() ==> input@[i] < pow256(size as nat),
        zigzag_bytes(input@, size as nat, bsz as nat).len() <= old(output)@.len(),
    ensures
        final(output)@.len() == old(output)@.len(),
        r == zigzag_bytes(input@, size as nat, bsz as nat).len(),
        final(output)@.subrange(0, r as int) == zigzag_bytes(input@, size as nat, bsz as nat),
        forall|t: int| r <= t < final(output)@.len() ==> final(output)@[t] == old(output)@[t],
{
    let ghost m = pow256(size as nat);
    proof {
        lemma_pow256_even(size as nat);
        lemma_delta_seq_bound(input@, m, 0);
    }
    let mut d = delta_fwd(input, size, 0);
    zig_in(&mut d, size);
    proof {
        assert(d@ =~= zz_seq(input@, m));
        lemma_zz_seq_bound(input@, m);
        assert forall|i: int| 0 <= i < d@.len() implies d@[i] < pow256(size as nat) by {
            assert(d@[i] == zz_seq(input@, m)[i]);
        }
    }
    enc_u64s(d.as_slice(), size, bsz, output)
}

/// Unpacks `n` values of the plain family into `output[0 .. n]`.
pub fn dec_standard_u64(input: &[u8], n: usize, size: usize, bsz: usize, output: &mut Vec<
    u64,
>) -> (r: usize)
    requires
        1 <= size <= 8,
        1 <= bsz <= 0x10000,
        n <= old(output)@.len(),
    ensures
        final(output)@.len() == old(output)@.len(),
        forall|t: int| n <= t < final(output)@.len() ==> final(output)@[t] == old(output)@[t],
        forall|t: int|
            0 <= t < n ==> final(output)@[t] < pow256(size as nat) || final(output)@[t] == old(
                output,
            )@[t],
        match standard_decoded(input@, n as nat, size as nat, bsz as nat) {
            Option::Some(vu) => final(output)@.subrange(0, n as int) == vu.0 && r == vu.1,
            Option::None => r == 0,
        },
{
    dec_u64s(input, n, size, bsz, output)
}

/// Unpacks `n` values of the non-decreasing family into `output[0 .. n]`.
pub fn dec_increasing_u64(input: &[u8], n: usize, size: usize, bsz: usize, output: &mut Vec<
    u64,
>) -> (r: usize)
    requires
        1 <= size <= 8,
        1 <= bsz <= 0x10000,
        n <= old(output)@.len(),
    ensures
        final(output)@.len() == old(output)@.len(),
        forall|t: int| n <= t < final(output)@.len() ==> final(output)@[t] == old(output)@[t],
        forall|t: int|
            0 <= t < n ==> final(output)@[t] < pow256(size as nat) || final(output)@[t] == old(
                output,
            )@[t],
        match increasing_decoded(input@, n as nat, size as nat, bsz as nat) {
            Option::Some(vu) => final(output)@.subrange(0, n as int) == vu.0 && r == vu.1,
            Option::None => r == 0,
        },
{
    dec_delta_family(input, n, size, bsz, output, 0)
}

/// Unpacks `n` values of the strictly increasing family into
/// `output[0 .. n]`.
pub fn dec_strict_u64(input: &[u8], n: usize, size: usize, bsz: usize, output: &mut Vec<
    u64,
>) -> (r: usize)
    requires
        1 <= size <= 8,
        1 <= bsz <= 0x10000,
        n <= old(output)@.len(),
    ensures
        final(output)@.len() == old(output)@.len(),
        forall|t: int| n <= t < final(output)@.len() ==> final(output)@[t] == old(output)@[t],
        forall|t: int|
            0 <= t < n ==> final(output)@[t] < pow256(size as nat) || final(output)@[t] == old(
                output,
            )@[t],
        match strict_decoded(input@, n as nat, size as nat, bsz as nat) {
            Option::Some(vu) => final(output)@.subrange(0, n as int) == vu.0 && r == vu.1,
            Option::None => r == 0,
        },
{
    dec_delta_family(input, n, size, bsz, output, 1)
}

/// The shared body of the two difference-coded decoders.
fn dec_delta_family(
    input: &[u8],
    n: usize,
    size: usize,
    bsz: usize,
    output: &mut Vec<u64>,
    c: u64,
) -> (r: usize)
    requires
        1 <= size <= 8,
        1 <= bsz <= 0x10000,
        c <= 1,
        n <= old(output)@.len(),
    ensures
        final(output)@.len() == old(output)@.len(),
        forall|t: int| n <= t < final(output)@.len() ==> final(output)@[t] == old(output)@[t],
        forall|t: int|
            0 <= t < n ==> final(output)@[t] < pow256(size as nat) || final(output)@[t] == old(
                output,
            )@[t],
        match dec_stream(input@, n as nat, size as nat, bsz as nat) {
            Option::Some(vu) => final(output)@.subrange(0, n as int) == undelta_seq(
                vu.0,
                pow256(size as nat),
                c as nat,
            ) && r == vu.1,
            Option::None => r == 0,
        },
{
    let ghost sz = size as nat;
    let ghost bz = bsz as nat;
    let ghost whole = dec_stream(input@, n as nat, sz, bz);
    let r = dec_u64s(input, n, size, bsz, output);
    if n == 0 {
        proof {
            if whole is Some {
                let vu = whole.unwrap();
                assert(output@.subrange(0, 0) =~= undelta_seq(vu.0, pow256(sz), c as nat));
            }
        }
        return r;
    }
    if r == 0 {
        proof {
            if whole is Some {
                assert(whole.unwrap().1 >= 1);
            }
        }
        return 0;
    }
    proof {
        assert(whole is Some);
        lemma_dec_stream_props(input@, n as nat, sz, bz);
        let v = whole.unwrap().0;
        assert forall|t: int| 0 <= t < n implies output@[t] < pow256(sz) by {
            assert(output@[t] == output@.subrange(0, n as int)[t]);
            assert(v[t] < pow256(sz));
        }
    }
    let ghost decoded = output@;
    undelta_in(output, n, size, c);
    proof {
        let v = whole.unwrap().0;
        assert(decoded.subrange(0, n as int) == v);
        assert(output@.subrange(0, n as int) == undelta_seq(v, pow256(sz), c as nat));
    }
    r
}

/// Unpacks `n` values of the zigzag family into `output[0 .. n]`.
pub fn dec_zigzag_u64(input: &[u8], n: usize, size: usize, bsz: usize, output: &mut Vec<
    u64,
>) -> (r: usize)
    requires
        1 <= size <= 8,
        1 <= bsz <= 0x10000,
        n <= old(output)@.len(),
    ensures
        final(output)@.len() == old(output)@.len(),
        forall|t: int| n <= t < final(output)@.len() ==> final(output)@[t] == old(output)@[t],
        forall|t: int|
            0 <= t < n ==> final(output)@[t] < pow256(size as nat) || final(output)@[t] == old(
                output,
            )@[t],
        match zigzag_decoded(input@, n as nat, size as nat, bsz as nat) {
            Option::Some(vu) => final(output)@.subrange(0, n as int) == vu.0 && r == vu.1,
            Option::None => r == 0,
        },
{
    let ghost sz = size as nat;
    let ghost bz = bsz as nat;
    let ghost m = pow256(sz);
    let ghost whole = dec_stream(input@, n as nat, sz, bz);
    let r = dec_u64s(input, n, size, bsz, output);
    if n == 0 {
        proof {
            if whole is Some {
                let vu = whole.unwrap();
                assert(output@.subrange(0, 0) =~= unzz_seq(vu.0, m));
            }
        }
        return r;
    }
    if r == 0 {
        proof {
            if whole is Some {
                assert(whole.unwrap().1 >= 1);
            }
        }
        return 0;
    }
    proof {
        assert(whole is Some);
        lemma_dec_stream_props(input@, n as nat, sz, bz);
        let v = whole.unwrap().0;
        assert forall|t: int| 0 <= t < n implies output@[t] < pow256(sz) by {
            assert(output@[t] == output@.subrange(0, n as int)[t]);
            assert(v[t] < pow256(sz));
        }
    }
    let ghost z = output@.subrange(0, n as int);
    unzig_in(output, n, size);
    let ghost unz = output@;
    undelta_in(output, n, size, 0);
    proof {
        let v = whole.unwrap().0;
        assert(z == v);
        let back = Seq::new(v.len(), |i: int| unzig(v[i] as nat, m) as u64);
        assert(unz.subrange(0, n as int) =~= back);
        assert(output@.subrange(0, n as int) == undelta_seq(back, m, 0));
        assert(unzz_seq(v, m) == undelta_seq(back, m, 0));
    }
    r
}

/// Round trip of the plain family: decoding a packed stream, with any
/// trailing bytes after it, yields exactly the packed values and consumes
/// exactly the stream's length.
pub proof fn lemma_round_trip_standard(vals: Seq<u64>, size: nat, bsz: nat, extra: Seq<u8>)
    requires
        1 <= size <= 8,
        bsz >= 1,
        forall|i: int| 0 <= i < vals.len() ==> vals[i] < pow256(size),
    ensures
        standard_decoded(standard_bytes(vals, size, bsz) + extra, vals.len(), size, bsz)
            == Some((vals, standard_bytes(vals, size, bsz).len())),
{
    lemma_dec_of_enc(vals, size, bsz, extra);
}

/// Round trip of the non-decreasing family, for every input, ordered or
/// not: difference coding is a bijection modulo the element range.
pub proof fn lemma_round_trip_increasing(vals: Seq<u64>, size: nat, bsz: nat, extra: Seq<u8>)
    requires
        1 <= size <= 8,
        bsz >= 1,
        forall|i: int| 0 <= i < vals.len() ==> vals[i] < pow256(size),
    ensures
        increasing_decoded(increasing_bytes(vals, size, bsz) + extra, vals.len(), size, bsz)
            == Some((vals, increasing_bytes(vals, size, bsz).len())),
{
    let m = pow256(size);
    lemma_pow256_even(size);
    lemma_delta_seq_bound(vals, m, 0);
    lemma_dec_of_enc(delta_seq(vals, m, 0), size, bsz, extra);
    lemma_undelta_delta(vals, m, 0);
}

/// Round trip of the strictly increasing family, for every input, ordered
/// or not.
pub proof fn lemma_round_trip_strict(vals: Seq<u64>, size: nat, bsz: nat, extra: Seq<u8>)
    requires
        1 <= size <= 8,
        bsz >= 1,
        forall|i: int| 0 <= i < vals.len() ==> vals[i] < pow256(size),
    ensures
        strict_decoded(strict_bytes(vals, size, bsz) + extra, vals.len(), size, bsz) == Some(
            (vals, strict_bytes(vals, size, bsz).len()),
        ),
{
    let m = pow256(size);
    lemma_pow256_even(size);
    lemma_delta_seq_bound(vals, m, 1);
    lemma_dec_of_enc(delta_seq(vals, m, 1), size, bsz, extra);
    lemma_undelta_delta(vals, m, 1);
}

/// Round trip of the zigzag family, for every input.
pub proof fn lemma_round_trip_zigzag(vals: Seq<u64>, size: nat, bsz: nat, extra: Seq<u8>)
    requires
        1 <= size <= 8,
        bsz >= 1,
        forall|i: int| 0 <= i < vals.len() ==> vals[i] < pow256(size),
    ensures
        zigzag_decoded(zigzag_bytes(vals, size, bsz) + extra, vals.len(), size, bsz) == Some(
            (vals, zigzag_bytes(vals, size, bsz).len()),
        ),
{
    let m = pow256(size);
    lemma_pow256_even(size);
    lemma_zz_seq_bound(vals, m);
    lemma_dec_of_enc(zz_seq(vals, m), size, bsz, extra);
    lemma_unzz_zz(vals, m);
}

} // verus!
