//! The width strategies and the per-type codec capability.
//!
//! A `Width` fixes the control-block size and therefore the bound formula;
//! `Codec<W>` gives an element type its eight packing operations, one
//! encode/decode pair per data-shape family.  All of them work through the
//! `u64` core: the wrappers widen their input, pack, and narrow back.
use vstd::prelude::*;
use vstd::layout::size_of;
use crate::pow256;
use crate::pack::lemma_pow256_u64;
use crate::sizes::{enc_buf_size_spec, dec_buf_len_spec};
use crate::families::{standard_bytes, increasing_bytes, strict_bytes, zigzag_bytes,
    standard_decoded, increasing_decoded, strict_decoded, zigzag_decoded, enc_standard_u64,
    enc_increasing_u64, enc_strict_u64, enc_zigzag_u64, dec_standard_u64, dec_increasing_u64,
    dec_strict_u64, dec_zigzag_u64};

verus! {

broadcast use vstd::layout::layout_of_primitives;

/// A packed stream always fits the bound calculator's formula.
pub proof fn lemma_stream_fits(vals: Seq<u64>, size: nat, bsz: nat)
    requires
        1 <= size,
        1 <= bsz,
    ensures
        crate::blocks::enc_stream(vals, size, bsz).len() <= enc_buf_size_spec(
            vals.len(),
            size,
            bsz,
        ),
{
    crate::blocks::lemma_enc_stream_len(vals, size, bsz);
    let n = vals.len();
    assert(n * size <= (n + 32) * size) by (nonlinear_arith);
}

/// A control-block width strategy: fixes the block size and with it
/// the bound formulas.
pub trait Width {
    /// Elements per control block.
    spec fn block_elems() -> nat;

    /// The block size is a fixed, moderate power of two.
    proof fn block_elems_facts()
        ensures
            128 <= Self::block_elems() <= 256,
    ;

    /// Minimum safe `[u8]` size required for encoding `n` `T`s.
    fn enc_buf_size<T>(n: usize) -> (r: usize)
        requires
            n + Self::block_elems() - 1 <= usize::MAX,
            enc_buf_size_spec(n as nat, size_of::<T>(), Self::block_elems()) <= usize::MAX,
        ensures
            r == enc_buf_size_spec(n as nat, size_of::<T>(), Self::block_elems()),
    ;

    /// Minimum safe `[T]` length required for decoding `n` `T`s.
    fn dec_buf_len<T>(n: usize) -> (r: usize)
        requires
            n + 32 <= usize::MAX,
        ensures
            r == dec_buf_len_spec(n as nat),
    ;
}

/// Default width: 128-element blocks.
pub struct W;

impl Width for W {
    open spec fn block_elems() -> nat {
        128
    }

    proof fn block_elems_facts() {
    }

    fn enc_buf_size<T>(n: usize) -> (r: usize) {
        (n + 127) / 128 + (n + 32) * core::mem::size_of::<T>()
    }

    fn dec_buf_len<T>(n: usize) -> (r: usize) {
        n + 32
    }
}

/// Vectorized width with 128-element blocks.
pub struct W128v;

impl Width for W128v {
    open spec fn block_elems() -> nat {
        128
    }

    proof fn block_elems_facts() {
    }

    fn enc_buf_size<T>(n: usize) -> (r: usize) {
        (n + 127) / 128 + (n + 32) * core::mem::size_of::<T>()
    }

    fn dec_buf_len<T>(n: usize) -> (r: usize) {
        n + 32
    }
}

/// Vectorized width with 256-element blocks.
pub struct W256v;

impl Width for W256v {
    open spec fn block_elems() -> nat {
        256
    }

    proof fn block_elems_facts() {
    }

    fn enc_buf_size<T>(n: usize) -> (r: usize) {
        (n + 255) / 256 + (n + 32) * core::mem::size_of::<T>()
    }

    fn dec_buf_len<T>(n: usize) -> (r: usize) {
        n + 32
    }
}

/// The per-type codec capability: eight packing operations, one
/// encode/decode pair per data-shape family.
///
/// Every `enc*` takes the input values and a byte buffer sized through the
/// bound calculator, and returns the bytes used; every `dec*` takes the
/// packed bytes, the element count `n` (the stream carries no count), and
/// an element buffer of at least `dec_buf_len(n)` entries, and returns the
/// bytes read, 0 when the input is malformed.  Nothing is ever written at
/// or past the returned byte count, nor at or past element `n`.
pub trait Codec<W: Width> where Self: Sized {
    /// The element width in bytes.
    spec fn elem_bytes() -> nat;

    /// The elements as plain 64-bit values.
    spec fn seq64(s: Seq<Self>) -> Seq<u64>;

    /// Width and range facts about the element type.
    proof fn elem_facts(s: Seq<Self>)
        ensures
            1 <= Self::elem_bytes() <= 8,
            Self::elem_bytes() == size_of::<Self>(),
            Self::seq64(s).len() == s.len(),
            forall|i: int|
                0 <= i < s.len() ==> #[trigger] Self::seq64(s)[i] < pow256(Self::elem_bytes()),
    ;

    /// Two sequences with the same 64-bit reading are the same sequence.
    proof fn seq64_injective(s1: Seq<Self>, s2: Seq<Self>)
        requires
            Self::seq64(s1) == Self::seq64(s2),
        ensures
            s1 == s2,
    ;

    /// Packs an unsorted sequence.
    fn enc(input: &[Self], output: &mut Vec<u8>) -> (r: usize)
        requires
            old(output)@.len() >= enc_buf_size_spec(
                input@.len(),
                Self::elem_bytes(),
                W::block_elems(),
            ),
        ensures
            final(output)@.len() == old(output)@.len(),
            r == standard_bytes(Self::seq64(input@), Self::elem_bytes(), W::block_elems()).len(),
            r <= enc_buf_size_spec(input@.len(), Self::elem_bytes(), W::block_elems()),
            final(output)@.subrange(0, r as int) == standard_bytes(
                Self::seq64(input@),
                Self::elem_bytes(),
                W::block_elems(),
            ),
            forall|t: int|
                r <= t < final(output)@.len() ==> final(output)@[t] == old(output)@[t],
    ;

    /// Unpacks `n` values of the unsorted family.
    fn dec(input: &[u8], n: usize, output: &mut Vec<Self>) -> (r: usize)
        requires
            old(output)@.len() >= dec_buf_len_spec(n as nat),
        ensures
            final(output)@.len() == old(output)@.len(),
            forall|t: int|
                n <= t < final(output)@.len() ==> final(output)@[t] == old(output)@[t],
            match standard_decoded(input@, n as nat, Self::elem_bytes(), W::block_elems()) {
                Option::Some(vu) => Self::seq64(final(output)@.subrange(0, n as int)) == vu.0
                    && r == vu.1,
                Option::None => r == 0,
            },
    ;

    /// Packs a non-decreasing sequence (difference coding).
    fn denc(input: &[Self], output: &mut Vec<u8>) -> (r: usize)
        requires
            old(output)@.len() >= enc_buf_size_spec(
                input@.len(),
                Self::elem_bytes(),
                W::block_elems(),
            ),
        ensures
            final(output)@.len() == old(output)@.len(),
            r == increasing_bytes(Self::seq64(input@), Self::elem_bytes(), W::block_elems()).len(),
            r <= enc_buf_size_spec(input@.len(), Self::elem_bytes(), W::block_elems()),
            final(output)@.subrange(0, r as int) == increasing_bytes(
                Self::seq64(input@),
                Self::elem_bytes(),
                W::block_elems(),
            ),
            forall|t: int|
                r <= t < final(output)@.len() ==> final(output)@[t] == old(output)@[t],
    ;

    /// Unpacks `n` values of the non-decreasing family.
    fn ddec(input: &[u8], n: usize, output: &mut Vec<Self>) -> (r: usize)
        requires
            old(output)@.len() >= dec_buf_len_spec(n as nat),
        ensures
            final(output)@.len() == old(output)@.len(),
            forall|t: int|
                n <= t < final(output)@.len() ==> final(output)@[t] == old(output)@[t],
            match increasing_decoded(input@, n as nat, Self::elem_bytes(), W::block_elems()) {
                Option::Some(vu) => Self::seq64(final(output)@.subrange(0, n as int)) == vu.0
                    && r == vu.1,
                Option::None => r == 0,
            },
    ;

    /// Packs a strictly increasing sequence (difference-less-one coding).
    fn d1enc(input: &[Self], output: &mut Vec<u8>) -> (r: usize)
        requires
            old(output)@.len() >= enc_buf_size_spec(
                input@.len(),
                Self::elem_bytes(),
                W::block_elems(),
            ),
        ensures
            final(output)@.len() == old(output)@.len(),
            r == strict_bytes(Self::seq64(input@), Self::elem_bytes(), W::block_elems()).len(),
            r <= enc_buf_size_spec(input@.len(), Self::elem_bytes(), W::block_elems()),
            final(output)@.subrange(0, r as int) == strict_bytes(
                Self::seq64(input@),
                Self::elem_bytes(),
                W::block_elems(),
            ),
            forall|t: int|
                r <= t < final(output)@.len() ==> final(output)@[t] == old(output)@[t],
    ;

    /// Unpacks `n` values of the strictly increasing family.
    fn d1dec(input: &[u8], n: usize, output: &mut Vec<Self>) -> (r: usize)
        requires
            old(output)@.len() >= dec_buf_len_spec(n as nat),
        ensures
            final(output)@.len() == old(output)@.len(),
            forall|t: int|
                n <= t < final(output)@.len() ==> final(output)@[t] == old(output)@[t],
            match strict_decoded(input@, n as nat, Self::elem_bytes(), W::block_elems()) {
                Option::Some(vu) => Self::seq64(final(output)@.subrange(0, n as int)) == vu.0
                    && r == vu.1,
                Option::None => r == 0,
            },
    ;

    /// Packs an unsorted sequence with the zigzag fold.
    fn zenc(input: &[Self], output: &mut Vec<u8>) -> (r: usize)
        requires
            old(output)@.len() >= enc_buf_size_spec(
                input@.len(),
                Self::elem_bytes(),
                W::block_elems(),
            ),
        ensures
            final(output)@.len() == old(output)@.len(),
            r == zigzag_bytes(Self::seq64(input@), Self::elem_bytes(), W::block_elems()).len(),
            r <= enc_buf_size_spec(input@.len(), Self::elem_bytes(), W::block_elems()),
            final(output)@.subrange(0, r as int) == zigzag_bytes(
                Self::seq64(input@),
                Self::elem_bytes(),
                W::block_elems(),
            ),
            forall|t: int|
                r <= t < final(output)@.len() ==> final(output)@[t] == old(output)@[t],
    ;

    /// Unpacks `n` values of the zigzag family.
    fn zdec(input: &[u8], n: usize, output: &mut Vec<Self>) -> (r: usize)
        requires
            old(output)@.len() >= dec_buf_len_spec(n as nat),
        ensures
            final(output)@.len() == old(output)@.len(),
            forall|t: int|
                n <= t < final(output)@.len() ==> final(output)@[t] == old(output)@[t],
            match zigzag_decoded(input@, n as nat, Self::elem_bytes(), W::block_elems()) {
                Option::Some(vu) => Self::seq64(final(output)@.subrange(0, n as int)) == vu.0
                    && r == vu.1,
                Option::None => r == 0,
            },
    ;
}

/// `u16` values widened to the `u64` core.
fn widen16(input: &[u16]) -> (r: Vec<u64>)
    ensures
        r@ == Seq::new(input@.len(), |i: int| input@[i] as u64),
{
    let n = input.len();
    let mut out: Vec<u64> = Vec::new();
    let mut i: usize = 0;
    while i < n
        invariant
            i <= n,
            n == input@.len(),
            out@.len() == i,
            forall|t: int| 0 <= t < i ==> out@[t] == input@[t] as u64,
        decreases n - i,
    {
        out.push(input[i] as u64);
        i = i + 1;
    }
    proof {
        assert(out@ =~= Seq::new(input@.len(), |i: int| input@[i] as u64));
    }
    out
}

/// `u64` core values written back as `u16` elements of `output[0 .. n]`.
fn narrow16(tmp: &Vec<u64>, n: usize, output: &mut Vec<u16>)
    requires
        n <= tmp@.len(),
        n <= old(output)@.len(),
        forall|t: int| 0 <= t < n ==> tmp@[t] < 0x1_0000,
    ensures
        final(output)@.len() == old(output)@.len(),
        forall|t: int| n <= t < final(output)@.len() ==> final(output)@[t] == old(output)@[t],
        forall|t: int| 0 <= t < n ==> #[trigger] final(output)@[t] as u64 == tmp@[t],
{
    let mut i: usize = 0;
    let len = output.len();
    while i < n
        invariant
            i <= n,
            n <= tmp@.len(),
            n <= len,
            len == output@.len(),
            output@.len() == old(output)@.len(),
            forall|t: int| 0 <= t < n ==> tmp@[t] < 0x1_0000,
            forall|t: int| i <= t < len ==> output@[t] == old(output)@[t],
            forall|t: int| 0 <= t < i ==> #[trigger] output@[t] as u64 == tmp@[t],
        decreases n - i,
    {
        output[i] = tmp[i] as u16;
        i = i + 1;
    }
}

impl Codec<W> for u16 {
    open spec fn elem_bytes() -> nat {
        2
    }

    open spec fn seq64(s: Seq<u16>) -> Seq<u64> {
        Seq::new(s.len(), |i: int| s[i] as u64)
    }

    proof fn elem_facts(s: Seq<u16>) {
        lemma_pow256_u64();
    }

    proof fn seq64_injective(s1: Seq<u16>, s2: Seq<u16>) {
        assert(<u16 as Codec<W>>::seq64(s1).len() == s1.len());
        assert(<u16 as Codec<W>>::seq64(s2).len() == s2.len());
        assert forall|i: int| 0 <= i < s1.len() implies s1[i] == s2[i] by {
            assert(<u16 as Codec<W>>::seq64(s1)[i] == s1[i] as u64);
            assert(<u16 as Codec<W>>::seq64(s2)[i] == s2[i] as u64);
            assert(<u16 as Codec<W>>::seq64(s1)[i] == <u16 as Codec<W>>::seq64(s2)[i]);
        }
        assert(s1 =~= s2);
    }

    fn enc(input: &[u16], output: &mut Vec<u8>) -> (r: usize) {
        let wide = widen16(input);
        proof {
            lemma_pow256_u64();
            assert(wide@ =~= <u16 as Codec<W>>::seq64(input@));
            lemma_stream_fits(wide@, 2, 128);
        }
        enc_standard_u64(wide.as_slice(), 2, 128, output)
    }

    fn dec(input: &[u8], n: usize, output: &mut Vec<u16>) -> (r: usize) {
        let mut tmp: Vec<u64> = vec![0u64; n];
        let r = dec_standard_u64(input, n, 2, 128, &mut tmp);
        proof {
            lemma_pow256_u64();
            assert(forall|t: int| 0 <= t < n ==> tmp@[t] < 0x1_0000);
        }
        narrow16(&tmp, n, output);
        proof {
            if standard_decoded(input@, n as nat, 2, 128) is Some {
                let vu = standard_decoded(input@, n as nat, 2, 128).unwrap();
                assert(<u16 as Codec<W>>::seq64(output@.subrange(0, n as int)) =~= vu.0);
            }
        }
        r
    }

    fn denc(input: &[u16], output: &mut Vec<u8>) -> (r: usize) {
        let wide = widen16(input);
        proof {
            lemma_pow256_u64();
            assert(wide@ =~= <u16 as Codec<W>>::seq64(input@));
            lemma_stream_fits(crate::transform::delta_seq(wide@, pow256(2), 0), 2, 128);
        }
        enc_increasing_u64(wide.as_slice(), 2, 128, output)
    }

    fn ddec(input: &[u8], n: usize, output: &mut Vec<u16>) -> (r: usize) {
        let mut tmp: Vec<u64> = vec![0u64; n];
        let r = dec_increasing_u64(input, n, 2, 128, &mut tmp);
        proof {
            lemma_pow256_u64();
            assert(forall|t: int| 0 <= t < n ==> tmp@[t] < 0x1_0000);
        }
        narrow16(&tmp, n, output);
        proof {
            if increasing_decoded(input@, n as nat, 2, 128) is Some {
                let vu = increasing_decoded(input@, n as nat, 2, 128).unwrap();
                assert(<u16 as Codec<W>>::seq64(output@.subrange(0, n as int)) =~= vu.0);
            }
        }
        r
    }

    fn d1enc(input: &[u16], output: &mut Vec<u8>) -> (r: usize) {
        let wide = widen16(input);
        proof {
            lemma_pow256_u64();
            assert(wide@ =~= <u16 as Codec<W>>::seq64(input@));
            lemma_stream_fits(crate::transform::delta_seq(wide@, pow256(2), 1), 2, 128);
        }
        enc_strict_u64(wide.as_slice(), 2, 128, output)
    }

    fn d1dec(input: &[u8], n: usize, output: &mut Vec<u16>) -> (r: usize) {
        let mut tmp: Vec<u64> = vec![0u64; n];
        let r = dec_strict_u64(input, n, 2, 128, &mut tmp);
        proof {
            lemma_pow256_u64();
            assert(forall|t: int| 0 <= t < n ==> tmp@[t] < 0x1_0000);
        }
        narrow16(&tmp, n, output);
        proof {
            if strict_decoded(input@, n as nat, 2, 128) is Some {
                let vu = strict_decoded(input@, n as nat, 2, 128).unwrap();
                assert(<u16 as Codec<W>>::seq64(output@.subrange(0, n as int)) =~= vu.0);
            }
        }
        r
    }

    fn zenc(input: &[u16], output: &mut Vec<u8>) -> (r: usize) {
        let wide = widen16(input);
        proof {
            lemma_pow256_u64();
            assert(wide@ =~= <u16 as Codec<W>>::seq64(input@));
            lemma_stream_fits(crate::transform::zz_seq(wide@, pow256(2)), 2, 128);
        }
        enc_zigzag_u64(wide.as_slice(), 2, 128, output)
    }

    fn zdec(input: &[u8], n: usize, output: &mut Vec<u16>) -> (r: usize) {
        let mut tmp: Vec<u64> = vec![0u64; n];
        let r = dec_zigzag_u64(input, n, 2, 128, &mut tmp);
        proof {
            lemma_pow256_u64();
            assert(forall|t: int| 0 <= t < n ==> tmp@[t] < 0x1_0000);
        }
        narrow16(&tmp, n, output);
        proof {
            if zigzag_decoded(input@, n as nat, 2, 128) is Some {
                let vu = zigzag_decoded(input@, n as nat, 2, 128).unwrap();
                assert(<u16 as Codec<W>>::seq64(output@.subrange(0, n as int)) =~= vu.0);
            }
        }
        r
    }
}


/// `u8` values widened to the `u64` core.
fn widen8(input: &[u8]) -> (r: Vec<u64>)
    ensures
        r@ == Seq::new(input@.len(), |i: int| input@[i] as u64),
{
    let n = input.len();
    let mut out: Vec<u64> = Vec::new();
    let mut i: usize = 0;
    while i < n
        invariant
            i <= n,
            n == input@.len(),
            out@.len() == i,
            forall|t: int| 0 <= t < i ==> out@[t] == input@[t] as u64,
        decreases n - i,
    {
        out.push(input[i] as u64);
        i = i + 1;
    }
    proof {
        assert(out@ =~= Seq::new(input@.len(), |i: int| input@[i] as u64));
    }
    out
}

/// `u64` core values written back as `u8` elements of `output[0 .. n]`.
fn narrow8(tmp: &Vec<u64>, n: usize, output: &mut Vec<u8>)
    requires
        n <= tmp@.len(),
        n <= old(output)@.len(),
        forall|t: int| 0 <= t < n ==> tmp@[t] < 0x100,
    ensures
        final(output)@.len() == old(output)@.len(),
        forall|t: int| n <= t < final(output)@.len() ==> final(output)@[t] == old(output)@[t],
        forall|t: int| 0 <= t < n ==> #[trigger] final(output)@[t] as u64 == tmp@[t],
{
    let mut i: usize = 0;
    let len = output.len();
    while i < n
        invariant
            i <= n,
            n <= tmp@.len(),
            n <= len,
            len == output@.len(),
            output@.len() == old(output)@.len(),
            forall|t: int| 0 <= t < n ==> tmp@[t] < 0x100,
            forall|t: int| i <= t < len ==> output@[t] == old(output)@[t],
            forall|t: int| 0 <= t < i ==> #[trigger] output@[t] as u64 == tmp@[t],
        decreases n - i,
    {
        output[i] = tmp[i] as u8;
        i = i + 1;
    }
}

/// `u32` values widened to the `u64` core.
fn widen32(input: &[u32]) -> (r: Vec<u64>)
    ensures
        r@ == Seq::new(input@.len(), |i: int| input@[i] as u64),
{
    let n = input.len();
    let mut out: Vec<u64> = Vec::new();
    let mut i: usize = 0;
    while i < n
        invariant
            i <= n,
            n == input@.len(),
            out@.len() == i,
            forall|t: int| 0 <= t < i ==> out@[t] == input@[t] as u64,
        decreases n - i,
    {
        out.push(input[i] as u64);
        i = i + 1;
    }
    proof {
        assert(out@ =~= Seq::new(input@.len(), |i: int| input@[i] as u64));
    }
    out
}

/// `u64` core values written back as `u32` elements of `output[0 .. n]`.
fn narrow32(tmp: &Vec<u64>, n: usize, output: &mut Vec<u32>)
    requires
        n <= tmp@.len(),
        n <= old(output)@.len(),
        forall|t: int| 0 <= t < n ==> tmp@[t] < 0x1_0000_0000,
    ensures
        final(output)@.len() == old(output)@.len(),
        forall|t: int| n <= t < final(output)@.len() ==> final(output)@[t] == old(output)@[t],
        forall|t: int| 0 <= t < n ==> #[trigger] final(output)@[t] as u64 == tmp@[t],
{
    let mut i: usize = 0;
    let len = output.len();
    while i < n
        invariant
            i <= n,
            n <= tmp@.len(),
            n <= len,
            len == output@.len(),
            output@.len() == old(output)@.len(),
            forall|t: int| 0 <= t < n ==> tmp@[t] < 0x1_0000_0000,
            forall|t: int| i <= t < len ==> output@[t] == old(output)@[t],
            forall|t: int| 0 <= t < i ==> #[trigger] output@[t] as u64 == tmp@[t],
        decreases n - i,
    {
        output[i] = tmp[i] as u32;
        i = i + 1;
    }
}

/// `u64` values widened to the `u64` core.
fn widen64(input: &[u64]) -> (r: Vec<u64>)
    ensures
        r@ == Seq::new(input@.len(), |i: int| input@[i] as u64),
{
    let n = input.len();
    let mut out: Vec<u64> = Vec::new();
    let mut i: usize = 0;
    while i < n
        invariant
            i <= n,
            n == input@.len(),
            out@.len() == i,
            forall|t: int| 0 <= t < i ==> out@[t] == input@[t] as u64,
        decreases n - i,
    {
        out.push(input[i] as u64);
        i = i + 1;
    }
    proof {
        assert(out@ =~= Seq::new(input@.len(), |i: int| input@[i] as u64));
    }
    out
}

/// `u64` core values written back as `u64` elements of `output[0 .. n]`.
fn narrow64(tmp: &Vec<u64>, n: usize, output: &mut Vec<u64>)
    requires
        n <= tmp@.len(),
        n <= old(output)@.len(),
        forall|t: int| 0 <= t < n ==> tmp@[t] < 0x1_0000_0000_0000_0000,
    ensures
        final(output)@.len() == old(output)@.len(),
        forall|t: int| n <= t < final(output)@.len() ==> final(output)@[t] == old(output)@[t],
        forall|t: int| 0 <= t < n ==> #[trigger] final(output)@[t] as u64 == tmp@[t],
{
    let mut i: usize = 0;
    let len = output.len();
    while i < n
        invariant
            i <= n,
            n <= tmp@.len(),
            n <= len,
            len == output@.len(),
            output@.len() == old(output)@.len(),
            forall|t: int| 0 <= t < n ==> tmp@[t] < 0x1_0000_0000_0000_0000,
            forall|t: int| i <= t < len ==> output@[t] == old(output)@[t],
            forall|t: int| 0 <= t < i ==> #[trigger] output@[t] as u64 == tmp@[t],
        decreases n - i,
    {
        output[i] = tmp[i] as u64;
        i = i + 1;
    }
}

impl Codec<W> for u8 {
    open spec fn elem_bytes() -> nat {
        1
    }

    open spec fn seq64(s: Seq<u8>) -> Seq<u64> {
        Seq::new(s.len(), |i: int| s[i] as u64)
    }

    proof fn elem_facts(s: Seq<u8>) {
        lemma_pow256_u64();
    }

    proof fn seq64_injective(s1: Seq<u8>, s2: Seq<u8>) {
        assert(<u8 as Codec<W>>::seq64(s1).len() == s1.len());
        assert(<u8 as Codec<W>>::seq64(s2).len() == s2.len());
        assert forall|i: int| 0 <= i < s1.len() implies s1[i] == s2[i] by {
            assert(<u8 as Codec<W>>::seq64(s1)[i] == s1[i] as u64);
            assert(<u8 as Codec<W>>::seq64(s2)[i] == s2[i] as u64);
            assert(<u8 as Codec<W>>::seq64(s1)[i] == <u8 as Codec<W>>::seq64(s2)[i]);
        }
        assert(s1 =~= s2);
    }

    fn enc(input: &[u8], output: &mut Vec<u8>) -> (r: usize) {
        let wide = widen8(input);
        proof {
            lemma_pow256_u64();
            assert(wide@ =~= <u8 as Codec<W>>::seq64(input@));
            lemma_stream_fits(wide@, 1, 128);
        }
        enc_standard_u64(wide.as_slice(), 1, 128, output)
    }

    fn dec(input: &[u8], n: usize, output: &mut Vec<u8>) -> (r: usize) {
        let mut tmp: Vec<u64> = vec![0u64; n];
        let r = dec_standard_u64(input, n, 1, 128, &mut tmp);
        proof {
            lemma_pow256_u64();
            assert(forall|t: int| 0 <= t < n ==> tmp@[t] < 0x100);
        }
        narrow8(&tmp, n, output);
        proof {
            if standard_decoded(input@, n as nat, 1, 128) is Some {
                let vu = standard_decoded(input@, n as nat, 1, 128).unwrap();
                assert(<u8 as Codec<W>>::seq64(output@.subrange(0, n as int)) =~= vu.0);
            }
        }
        r
    }

    fn denc(input: &[u8], output: &mut Vec<u8>) -> (r: usize) {
        let wide = widen8(input);
        proof {
            lemma_pow256_u64();
            assert(wide@ =~= <u8 as Codec<W>>::seq64(input@));
            lemma_stream_fits(crate::transform::delta_seq(wide@, pow256(1), 0), 1, 128);
        }
        enc_increasing_u64(wide.as_slice(), 1, 128, output)
    }

    fn ddec(input: &[u8], n: usize, output: &mut Vec<u8>) -> (r: usize) {
        let mut tmp: Vec<u64> = vec![0u64; n];
        let r = dec_increasing_u64(input, n, 1, 128, &mut tmp);
        proof {
            lemma_pow256_u64();
            assert(forall|t: int| 0 <= t < n ==> tmp@[t] < 0x100);
        }
        narrow8(&tmp, n, output);
        proof {
            if increasing_decoded(input@, n as nat, 1, 128) is Some {
                let vu = increasing_decoded(input@, n as nat, 1, 128).unwrap();
                assert(<u8 as Codec<W>>::seq64(output@.subrange(0, n as int)) =~= vu.0);
            }
        }
        r
    }

    fn d1enc(input: &[u8], output: &mut Vec<u8>) -> (r: usize) {
        let wide = widen8(input);
        proof {
            lemma_pow256_u64();
            assert(wide@ =~= <u8 as Codec<W>>::seq64(input@));
            lemma_stream_fits(crate::transform::delta_seq(wide@, pow256(1), 1), 1, 128);
        }
        enc_strict_u64(wide.as_slice(), 1, 128, output)
    }

    fn d1dec(input: &[u8], n: usize, output: &mut Vec<u8>) -> (r: usize) {
        let mut tmp: Vec<u64> = vec![0u64; n];
        let r = dec_strict_u64(input, n, 1, 128, &mut tmp);
        proof {
            lemma_pow256_u64();
            assert(forall|t: int| 0 <= t < n ==> tmp@[t] < 0x100);
        }
        narrow8(&tmp, n, output);
        proof {
            if strict_decoded(input@, n as nat, 1, 128) is Some {
                let vu = strict_decoded(input@, n as nat, 1, 128).unwrap();
                assert(<u8 as Codec<W>>::seq64(output@.subrange(0, n as int)) =~= vu.0);
            }
        }
        r
    }

    fn zenc(input: &[u8], output: &mut Vec<u8>) -> (r: usize) {
        let wide = widen8(input);
        proof {
            lemma_pow256_u64();
            assert(wide@ =~= <u8 as Codec<W>>::seq64(input@));
            lemma_stream_fits(crate::transform::zz_seq(wide@, pow256(1)), 1, 128);
        }
        enc_zigzag_u64(wide.as_slice(), 1, 128, output)
    }

    fn zdec(input: &[u8], n: usize, output: &mut Vec<u8>) -> (r: usize) {
        let mut tmp: Vec<u64> = vec![0u64; n];
        let r = dec_zigzag_u64(input, n, 1, 128, &mut tmp);
        proof {
            lemma_pow256_u64();
            assert(forall|t: int| 0 <= t < n ==> tmp@[t] < 0x100);
        }
        narrow8(&tmp, n, output);
        proof {
            if zigzag_decoded(input@, n as nat, 1, 128) is Some {
                let vu = zigzag_decoded(input@, n as nat, 1, 128).unwrap();
                assert(<u8 as Codec<W>>::seq64(output@.subrange(0, n as int)) =~= vu.0);
            }
        }
        r
    }
}

impl Codec<W> for u32 {
    open spec fn elem_bytes() -> nat {
        4
    }

    open spec fn seq64(s: Seq<u32>) -> Seq<u64> {
        Seq::new(s.len(), |i: int| s[i] as u64)
    }

    proof fn elem_facts(s: Seq<u32>) {
        lemma_pow256_u64();
    }

    proof fn seq64_injective(s1: Seq<u32>, s2: Seq<u32>) {
        assert(<u32 as Codec<W>>::seq64(s1).len() == s1.len());
        assert(<u32 as Codec<W>>::seq64(s2).len() == s2.len());
        assert forall|i: int| 0 <= i < s1.len() implies s1[i] == s2[i] by {
            assert(<u32 as Codec<W>>::seq64(s1)[i] == s1[i] as u64);
            assert(<u32 as Codec<W>>::seq64(s2)[i] == s2[i] as u64);
            assert(<u32 as Codec<W>>::seq64(s1)[i] == <u32 as Codec<W>>::seq64(s2)[i]);
        }
        assert(s1 =~= s2);
    }

    fn enc(input: &[u32], output: &mut Vec<u8>) -> (r: usize) {
        let wide = widen32(input);
        proof {
            lemma_pow256_u64();
            assert(wide@ =~= <u32 as Codec<W>>::seq64(input@));
            lemma_stream_fits(wide@, 4, 128);
        }
        enc_standard_u64(wide.as_slice(), 4, 128, output)
    }

    fn dec(input: &[u8], n: usize, output: &mut Vec<u32>) -> (r: usize) {
        let mut tmp: Vec<u64> = vec![0u64; n];
        let r = dec_standard_u64(input, n, 4, 128, &mut tmp);
        proof {
            lemma_pow256_u64();
            assert(forall|t: int| 0 <= t < n ==> tmp@[t] < 0x1_0000_0000);
        }
        narrow32(&tmp, n, output);
        proof {
            if standard_decoded(input@, n as nat, 4, 128) is Some {
                let vu = standard_decoded(input@, n as nat, 4, 128).unwrap();
                assert(<u32 as Codec<W>>::seq64(output@.subrange(0, n as int)) =~= vu.0);
            }
        }
        r
    }

    fn denc(input: &[u32], output: &mut Vec<u8>) -> (r: usize) {
        let wide = widen32(input);
        proof {
            lemma_pow256_u64();
            assert(wide@ =~= <u32 as Codec<W>>::seq64(input@));
            lemma_stream_fits(crate::transform::delta_seq(wide@, pow256(4), 0), 4, 128);
        }
        enc_increasing_u64(wide.as_slice(), 4, 128, output)
    }

    fn ddec(input: &[u8], n: usize, output: &mut Vec<u32>) -> (r: usize) {
        let mut tmp: Vec<u64> = vec![0u64; n];
        let r = dec_increasing_u64(input, n, 4, 128, &mut tmp);
        proof {
            lemma_pow256_u64();
            assert(forall|t: int| 0 <= t < n ==> tmp@[t] < 0x1_0000_0000);
        }
        narrow32(&tmp, n, output);
        proof {
            if increasing_decoded(input@, n as nat, 4, 128) is Some {
                let vu = increasing_decoded(input@, n as nat, 4, 128).unwrap();
                assert(<u32 as Codec<W>>::seq64(output@.subrange(0, n as int)) =~= vu.0);
            }
        }
        r
    }

    fn d1enc(input: &[u32], output: &mut Vec<u8>) -> (r: usize) {
        let wide = widen32(input);
        proof {
            lemma_pow256_u64();
            assert(wide@ =~= <u32 as Codec<W>>::seq64(input@));
            lemma_stream_fits(crate::transform::delta_seq(wide@, pow256(4), 1), 4, 128);
        }
        enc_strict_u64(wide.as_slice(), 4, 128, output)
    }

    fn d1dec(input: &[u8], n: usize, output: &mut Vec<u32>) -> (r: usize) {
        let mut tmp: Vec<u64> = vec![0u64; n];
        let r = dec_strict_u64(input, n, 4, 128, &mut tmp);
        proof {
            lemma_pow256_u64();
            assert(forall|t: int| 0 <= t < n ==> tmp@[t] < 0x1_0000_0000);
        }
        narrow32(&tmp, n, output);
        proof {
            if strict_decoded(input@, n as nat, 4, 128) is Some {
                let vu = strict_decoded(input@, n as nat, 4, 128).unwrap();
                assert(<u32 as Codec<W>>::seq64(output@.subrange(0, n as int)) =~= vu.0);
            }
        }
        r
    }

    fn zenc(input: &[u32], output: &mut Vec<u8>) -> (r: usize) {
        let wide = widen32(input);
        proof {
            lemma_pow256_u64();
            assert(wide@ =~= <u32 as Codec<W>>::seq64(input@));
            lemma_stream_fits(crate::transform::zz_seq(wide@, pow256(4)), 4, 128);
        }
        enc_zigzag_u64(wide.as_slice(), 4, 128, output)
    }

    fn zdec(input: &[u8], n: usize, output: &mut Vec<u32>) -> (r: usize) {
        let mut tmp: Vec<u64> = vec![0u64; n];
        let r = dec_zigzag_u64(input, n, 4, 128, &mut tmp);
        proof {
            lemma_pow256_u64();
            assert(forall|t: int| 0 <= t < n ==> tmp@[t] < 0x1_0000_0000);
        }
        narrow32(&tmp, n, output);
        proof {
            if zigzag_decoded(input@, n as nat, 4, 128) is Some {
                let vu = zigzag_decoded(input@, n as nat, 4, 128).unwrap();
                assert(<u32 as Codec<W>>::seq64(output@.subrange(0, n as int)) =~= vu.0);
            }
        }
        r
    }
}

impl Codec<W> for u64 {
    open spec fn elem_bytes() -> nat {
        8
    }

    open spec fn seq64(s: Seq<u64>) -> Seq<u64> {
        Seq::new(s.len(), |i: int| s[i] as u64)
    }

    proof fn elem_facts(s: Seq<u64>) {
        lemma_pow256_u64();
    }

    proof fn seq64_injective(s1: Seq<u64>, s2: Seq<u64>) {
        assert(<u64 as Codec<W>>::seq64(s1).len() == s1.len());
        assert(<u64 as Codec<W>>::seq64(s2).len() == s2.len());
        assert forall|i: int| 0 <= i < s1.len() implies s1[i] == s2[i] by {
            assert(<u64 as Codec<W>>::seq64(s1)[i] == s1[i] as u64);
            assert(<u64 as Codec<W>>::seq64(s2)[i] == s2[i] as u64);
            assert(<u64 as Codec<W>>::seq64(s1)[i] == <u64 as Codec<W>>::seq64(s2)[i]);
        }
        assert(s1 =~= s2);
    }

    fn enc(input: &[u64], output: &mut Vec<u8>) -> (r: usize) {
        let wide = widen64(input);
        proof {
            lemma_pow256_u64();
            assert(wide@ =~= <u64 as Codec<W>>::seq64(input@));
            lemma_stream_fits(wide@, 8, 128);
        }
        enc_standard_u64(wide.as_slice(), 8, 128, output)
    }

    fn dec(input: &[u8], n: usize, output: &mut Vec<u64>) -> (r: usize) {
        let mut tmp: Vec<u64> = vec![0u64; n];
        let r = dec_standard_u64(input, n, 8, 128, &mut tmp);
        proof {
            lemma_pow256_u64();
            assert(forall|t: int| 0 <= t < n ==> tmp@[t] < 0x1_0000_0000_0000_0000);
        }
        narrow64(&tmp, n, output);
        proof {
            if standard_decoded(input@, n as nat, 8, 128) is Some {
                let vu = standard_decoded(input@, n as nat, 8, 128).unwrap();
                assert(<u64 as Codec<W>>::seq64(output@.subrange(0, n as int)) =~= vu.0);
            }
        }
        r
    }

    fn denc(input: &[u64], output: &mut Vec<u8>) -> (r: usize) {
        let wide = widen64(input);
        proof {
            lemma_pow256_u64();
            assert(wide@ =~= <u64 as Codec<W>>::seq64(input@));
            lemma_stream_fits(crate::transform::delta_seq(wide@, pow256(8), 0), 8, 128);
        }
        enc_increasing_u64(wide.as_slice(), 8, 128, output)
    }

    fn ddec(input: &[u8], n: usize, output: &mut Vec<u64>) -> (r: usize) {
        let mut tmp: Vec<u64> = vec![0u64; n];
        let r = dec_increasing_u64(input, n, 8, 128, &mut tmp);
        proof {
            lemma_pow256_u64();
            assert(forall|t: int| 0 <= t < n ==> tmp@[t] < 0x1_0000_0000_0000_0000);
        }
        narrow64(&tmp, n, output);
        proof {
            if increasing_decoded(input@, n as nat, 8, 128) is Some {
                let vu = increasing_decoded(input@, n as nat, 8, 128).unwrap();
                assert(<u64 as Codec<W>>::seq64(output@.subrange(0, n as int)) =~= vu.0);
            }
        }
        r
    }

    fn d1enc(input: &[u64], output: &mut Vec<u8>) -> (r: usize) {
        let wide = widen64(input);
        proof {
            lemma_pow256_u64();
            assert(wide@ =~= <u64 as Codec<W>>::seq64(input@));
            lemma_stream_fits(crate::transform::delta_seq(wide@, pow256(8), 1), 8, 128);
        }
        enc_strict_u64(wide.as_slice(), 8, 128, output)
    }

    fn d1dec(input: &[u8], n: usize, output: &mut Vec<u64>) -> (r: usize) {
        let mut tmp: Vec<u64> = vec![0u64; n];
        let r = dec_strict_u64(input, n, 8, 128, &mut tmp);
        proof {
            lemma_pow256_u64();
            assert(forall|t: int| 0 <= t < n ==> tmp@[t] < 0x1_0000_0000_0000_0000);
        }
        narrow64(&tmp, n, output);
        proof {
            if strict_decoded(input@, n as nat, 8, 128) is Some {
                let vu = strict_decoded(input@, n as nat, 8, 128).unwrap();
                assert(<u64 as Codec<W>>::seq64(output@.subrange(0, n as int)) =~= vu.0);
            }
        }
        r
    }

    fn zenc(input: &[u64], output: &mut Vec<u8>) -> (r: usize) {
        let wide = widen64(input);
        proof {
            lemma_pow256_u64();
            assert(wide@ =~= <u64 as Codec<W>>::seq64(input@));
            lemma_stream_fits(crate::transform::zz_seq(wide@, pow256(8)), 8, 128);
        }
        enc_zigzag_u64(wide.as_slice(), 8, 128, output)
    }

    fn zdec(input: &[u8], n: usize, output: &mut Vec<u64>) -> (r: usize) {
        let mut tmp: Vec<u64> = vec![0u64; n];
        let r = dec_zigzag_u64(input, n, 8, 128, &mut tmp);
        proof {
            lemma_pow256_u64();
            assert(forall|t: int| 0 <= t < n ==> tmp@[t] < 0x1_0000_0000_0000_0000);
        }
        narrow64(&tmp, n, output);
        proof {
            if zigzag_decoded(input@, n as nat, 8, 128) is Some {
                let vu = zigzag_decoded(input@, n as nat, 8, 128).unwrap();
                assert(<u64 as Codec<W>>::seq64(output@.subrange(0, n as int)) =~= vu.0);
            }
        }
        r
    }
}

impl Codec<W128v> for u16 {
    open spec fn elem_bytes() -> nat {
        2
    }

    open spec fn seq64(s: Seq<u16>) -> Seq<u64> {
        Seq::new(s.len(), |i: int| s[i] as u64)
    }

    proof fn elem_facts(s: Seq<u16>) {
        lemma_pow256_u64();
    }

    proof fn seq64_injective(s1: Seq<u16>, s2: Seq<u16>) {
        assert(<u16 as Codec<W128v>>::seq64(s1).len() == s1.len());
        assert(<u16 as Codec<W128v>>::seq64(s2).len() == s2.len());
        assert forall|i: int| 0 <= i < s1.len() implies s1[i] == s2[i] by {
            assert(<u16 as Codec<W128v>>::seq64(s1)[i] == s1[i] as u64);
            assert(<u16 as Codec<W128v>>::seq64(s2)[i] == s2[i] as u64);
            assert(<u16 as Codec<W128v>>::seq64(s1)[i] == <u16 as Codec<W128v>>::seq64(s2)[i]);
        }
        assert(s1 =~= s2);
    }

    fn enc(input: &[u16], output: &mut Vec<u8>) -> (r: usize) {
        let wide = widen16(input);
        proof {
            lemma_pow256_u64();
            assert(wide@ =~= <u16 as Codec<W128v>>::seq64(input@));
            lemma_stream_fits(wide@, 2, 128);
        }
        enc_standard_u64(wide.as_slice(), 2, 128, output)
    }

    fn dec(input: &[u8], n: usize, output: &mut Vec<u16>) -> (r: usize) {
        let mut tmp: Vec<u64> = vec![0u64; n];
        let r = dec_standard_u64(input, n, 2, 128, &mut tmp);
        proof {
            lemma_pow256_u64();
            assert(forall|t: int| 0 <= t < n ==> tmp@[t] < 0x1_0000);
        }
        narrow16(&tmp, n, output);
        proof {
            if standard_decoded(input@, n as nat, 2, 128) is Some {
                let vu = standard_decoded(input@, n as nat, 2, 128).unwrap();
                assert(<u16 as Codec<W128v>>::seq64(output@.subrange(0, n as int)) =~= vu.0);
            }
        }
        r
    }

    fn denc(input: &[u16], output: &mut Vec<u8>) -> (r: usize) {
        let wide = widen16(input);
        proof {
            lemma_pow256_u64();
            assert(wide@ =~= <u16 as Codec<W128v>>::seq64(input@));
            lemma_stream_fits(crate::transform::delta_seq(wide@, pow256(2), 0), 2, 128);
        }
        enc_increasing_u64(wide.as_slice(), 2, 128, output)
    }

    fn ddec(input: &[u8], n: usize, output: &mut Vec<u16>) -> (r: usize) {
        let mut tmp: Vec<u64> = vec![0u64; n];
        let r = dec_increasing_u64(input, n, 2, 128, &mut tmp);
        proof {
            lemma_pow256_u64();
            assert(forall|t: int| 0 <= t < n ==> tmp@[t] < 0x1_0000);
        }
        narrow16(&tmp, n, output);
        proof {
            if increasing_decoded(input@, n as nat, 2, 128) is Some {
                let vu = increasing_decoded(input@, n as nat, 2, 128).unwrap();
                assert(<u16 as Codec<W128v>>::seq64(output@.subrange(0, n as int)) =~= vu.0);
            }
        }
        r
    }

    fn d1enc(input: &[u16], output: &mut Vec<u8>) -> (r: usize) {
        let wide = widen16(input);
        proof {
            lemma_pow256_u64();
            assert(wide@ =~= <u16 as Codec<W128v>>::seq64(input@));
            lemma_stream_fits(crate::transform::delta_seq(wide@, pow256(2), 1), 2, 128);
        }
        enc_strict_u64(wide.as_slice(), 2, 128, output)
    }

    fn d1dec(input: &[u8], n: usize, output: &mut Vec<u16>) -> (r: usize) {
        let mut tmp: Vec<u64> = vec![0u64; n];
        let r = dec_strict_u64(input, n, 2, 128, &mut tmp);
        proof {
            lemma_pow256_u64();
            assert(forall|t: int| 0 <= t < n ==> tmp@[t] < 0x1_0000);
        }
        narrow16(&tmp, n, output);
        proof {
            if strict_decoded(input@, n as nat, 2, 128) is Some {
                let vu = strict_decoded(input@, n as nat, 2, 128).unwrap();
                assert(<u16 as Codec<W128v>>::seq64(output@.subrange(0, n as int)) =~= vu.0);
            }
        }
        r
    }

    fn zenc(input: &[u16], output: &mut Vec<u8>) -> (r: usize) {
        let wide = widen16(input);
        proof {
            lemma_pow256_u64();
            assert(wide@ =~= <u16 as Codec<W128v>>::seq64(input@));
            lemma_stream_fits(crate::transform::zz_seq(wide@, pow256(2)), 2, 128);
        }
        enc_zigzag_u64(wide.as_slice(), 2, 128, output)
    }

    fn zdec(input: &[u8], n: usize, output: &mut Vec<u16>) -> (r: usize) {
        let mut tmp: Vec<u64> = vec![0u64; n];
        let r = dec_zigzag_u64(input, n, 2, 128, &mut tmp);
        proof {
            lemma_pow256_u64();
            assert(forall|t: int| 0 <= t < n ==> tmp@[t] < 0x1_0000);
        }
        narrow16(&tmp, n, output);
        proof {
            if zigzag_decoded(input@, n as nat, 2, 128) is Some {
                let vu = zigzag_decoded(input@, n as nat, 2, 128).unwrap();
                assert(<u16 as Codec<W128v>>::seq64(output@.subrange(0, n as int)) =~= vu.0);
            }
        }
        r
    }
}

impl Codec<W128v> for u32 {
    open spec fn elem_bytes() -> nat {
        4
    }

    open spec fn seq64(s: Seq<u32>) -> Seq<u64> {
        Seq::new(s.len(), |i: int| s[i] as u64)
    }

    proof fn elem_facts(s: Seq<u32>) {
        lemma_pow256_u64();
    }

    proof fn seq64_injective(s1: Seq<u32>, s2: Seq<u32>) {
        assert(<u32 as Codec<W128v>>::seq64(s1).len() == s1.len());
        assert(<u32 as Codec<W128v>>::seq64(s2).len() == s2.len());
        assert forall|i: int| 0 <= i < s1.len() implies s1[i] == s2[i] by {
            assert(<u32 as Codec<W128v>>::seq64(s1)[i] == s1[i] as u64);
            assert(<u32 as Codec<W128v>>::seq64(s2)[i] == s2[i] as u64);
            assert(<u32 as Codec<W128v>>::seq64(s1)[i] == <u32 as Codec<W128v>>::seq64(s2)[i]);
        }
        assert(s1 =~= s2);
    }

    fn enc(input: &[u32], output: &mut Vec<u8>) -> (r: usize) {
        let wide = widen32(input);
        proof {
            lemma_pow256_u64();
            assert(wide@ =~= <u32 as Codec<W128v>>::seq64(input@));
            lemma_stream_fits(wide@, 4, 128);
        }
        enc_standard_u64(wide.as_slice(), 4, 128, output)
    }

    fn dec(input: &[u8], n: usize, output: &mut Vec<u32>) -> (r: usize) {
        let mut tmp: Vec<u64> = vec![0u64; n];
        let r = dec_standard_u64(input, n, 4, 128, &mut tmp);
        proof {
            lemma_pow256_u64();
            assert(forall|t: int| 0 <= t < n ==> tmp@[t] < 0x1_0000_0000);
        }
        narrow32(&tmp, n, output);
        proof {
            if standard_decoded(input@, n as nat, 4, 128) is Some {
                let vu = standard_decoded(input@, n as nat, 4, 128).unwrap();
                assert(<u32 as Codec<W128v>>::seq64(output@.subrange(0, n as int)) =~= vu.0);
            }
        }
        r
    }

    fn denc(input: &[u32], output: &mut Vec<u8>) -> (r: usize) {
        let wide = widen32(input);
        proof {
            lemma_pow256_u64();
            assert(wide@ =~= <u32 as Codec<W128v>>::seq64(input@));
            lemma_stream_fits(crate::transform::delta_seq(wide@, pow256(4), 0), 4, 128);
        }
        enc_increasing_u64(wide.as_slice(), 4, 128, output)
    }

    fn ddec(input: &[u8], n: usize, output: &mut Vec<u32>) -> (r: usize) {
        let mut tmp: Vec<u64> = vec![0u64; n];
        let r = dec_increasing_u64(input, n, 4, 128, &mut tmp);
        proof {
            lemma_pow256_u64();
            assert(forall|t: int| 0 <= t < n ==> tmp@[t] < 0x1_0000_0000);
        }
        narrow32(&tmp, n, output);
        proof {
            if increasing_decoded(input@, n as nat, 4, 128) is Some {
                let vu = increasing_decoded(input@, n as nat, 4, 128).unwrap();
                assert(<u32 as Codec<W128v>>::seq64(output@.subrange(0, n as int)) =~= vu.0);
            }
        }
        r
    }

    fn d1enc(input: &[u32], output: &mut Vec<u8>) -> (r: usize) {
        let wide = widen32(input);
        proof {
            lemma_pow256_u64();
            assert(wide@ =~= <u32 as Codec<W128v>>::seq64(input@));
            lemma_stream_fits(crate::transform::delta_seq(wide@, pow256(4), 1), 4, 128);
        }
        enc_strict_u64(wide.as_slice(), 4, 128, output)
    }

    fn d1dec(input: &[u8], n: usize, output: &mut Vec<u32>) -> (r: usize) {
        let mut tmp: Vec<u64> = vec![0u64; n];
        let r = dec_strict_u64(input, n, 4, 128, &mut tmp);
        proof {
            lemma_pow256_u64();
            assert(forall|t: int| 0 <= t < n ==> tmp@[t] < 0x1_0000_0000);
        }
        narrow32(&tmp, n, output);
        proof {
            if strict_decoded(input@, n as nat, 4, 128) is Some {
                let vu = strict_decoded(input@, n as nat, 4, 128).unwrap();
                assert(<u32 as Codec<W128v>>::seq64(output@.subrange(0, n as int)) =~= vu.0);
            }
        }
        r
    }

    fn zenc(input: &[u32], output: &mut Vec<u8>) -> (r: usize) {
        let wide = widen32(input);
        proof {
            lemma_pow256_u64();
            assert(wide@ =~= <u32 as Codec<W128v>>::seq64(input@));
            lemma_stream_fits(crate::transform::zz_seq(wide@, pow256(4)), 4, 128);
        }
        enc_zigzag_u64(wide.as_slice(), 4, 128, output)
    }

    fn zdec(input: &[u8], n: usize, output: &mut Vec<u32>) -> (r: usize) {
        let mut tmp: Vec<u64> = vec![0u64; n];
        let r = dec_zigzag_u64(input, n, 4, 128, &mut tmp);
        proof {
            lemma_pow256_u64();
            assert(forall|t: int| 0 <= t < n ==> tmp@[t] < 0x1_0000_0000);
        }
        narrow32(&tmp, n, output);
        proof {
            if zigzag_decoded(input@, n as nat, 4, 128) is Some {
                let vu = zigzag_decoded(input@, n as nat, 4, 128).unwrap();
                assert(<u32 as Codec<W128v>>::seq64(output@.subrange(0, n as int)) =~= vu.0);
            }
        }
        r
    }
}

impl Codec<W256v> for u32 {
    open spec fn elem_bytes() -> nat {
        4
    }

    open spec fn seq64(s: Seq<u32>) -> Seq<u64> {
        Seq::new(s.len(), |i: int| s[i] as u64)
    }

    proof fn elem_facts(s: Seq<u32>) {
        lemma_pow256_u64();
    }

    proof fn seq64_injective(s1: Seq<u32>, s2: Seq<u32>) {
        assert(<u32 as Codec<W256v>>::seq64(s1).len() == s1.len());
        assert(<u32 as Codec<W256v>>::seq64(s2).len() == s2.len());
        assert forall|i: int| 0 <= i < s1.len() implies s1[i] == s2[i] by {
            assert(<u32 as Codec<W256v>>::seq64(s1)[i] == s1[i] as u64);
            assert(<u32 as Codec<W256v>>::seq64(s2)[i] == s2[i] as u64);
            assert(<u32 as Codec<W256v>>::seq64(s1)[i] == <u32 as Codec<W256v>>::seq64(s2)[i]);
        }
        assert(s1 =~= s2);
    }

    fn enc(input: &[u32], output: &mut Vec<u8>) -> (r: usize) {
        let wide = widen32(input);
        proof {
            lemma_pow256_u64();
            assert(wide@ =~= <u32 as Codec<W256v>>::seq64(input@));
            lemma_stream_fits(wide@, 4, 256);
        }
        enc_standard_u64(wide.as_slice(), 4, 256, output)
    }

    fn dec(input: &[u8], n: usize, output: &mut Vec<u32>) -> (r: usize) {
        let mut tmp: Vec<u64> = vec![0u64; n];
        let r = dec_standard_u64(input, n, 4, 256, &mut tmp);
        proof {
            lemma_pow256_u64();
            assert(forall|t: int| 0 <= t < n ==> tmp@[t] < 0x1_0000_0000);
        }
        narrow32(&tmp, n, output);
        proof {
            if standard_decoded(input@, n as nat, 4, 256) is Some {
                let vu = standard_decoded(input@, n as nat, 4, 256).unwrap();
                assert(<u32 as Codec<W256v>>::seq64(output@.subrange(0, n as int)) =~= vu.0);
            }
        }
        r
    }

    fn denc(input: &[u32], output: &mut Vec<u8>) -> (r: usize) {
        let wide = widen32(input);
        proof {
            lemma_pow256_u64();
            assert(wide@ =~= <u32 as Codec<W256v>>::seq64(input@));
            lemma_stream_fits(crate::transform::delta_seq(wide@, pow256(4), 0), 4, 256);
        }
        enc_increasing_u64(wide.as_slice(), 4, 256, output)
    }

    fn ddec(input: &[u8], n: usize, output: &mut Vec<u32>) -> (r: usize) {
        let mut tmp: Vec<u64> = vec![0u64; n];
        let r = dec_increasing_u64(input, n, 4, 256, &mut tmp);
        proof {
            lemma_pow256_u64();
            assert(forall|t: int| 0 <= t < n ==> tmp@[t] < 0x1_0000_0000);
        }
        narrow32(&tmp, n, output);
        proof {
            if increasing_decoded(input@, n as nat, 4, 256) is Some {
                let vu = increasing_decoded(input@, n as nat, 4, 256).unwrap();
                assert(<u32 as Codec<W256v>>::seq64(output@.subrange(0, n as int)) =~= vu.0);
            }
        }
        r
    }

    fn d1enc(input: &[u32], output: &mut Vec<u8>) -> (r: usize) {
        let wide = widen32(input);
        proof {
            lemma_pow256_u64();
            assert(wide@ =~= <u32 as Codec<W256v>>::seq64(input@));
            lemma_stream_fits(crate::transform::delta_seq(wide@, pow256(4), 1), 4, 256);
        }
        enc_strict_u64(wide.as_slice(), 4, 256, output)
    }

    fn d1dec(input: &[u8], n: usize, output: &mut Vec<u32>) -> (r: usize) {
        let mut tmp: Vec<u64> = vec![0u64; n];
        let r = dec_strict_u64(input, n, 4, 256, &mut tmp);
        proof {
            lemma_pow256_u64();
            assert(forall|t: int| 0 <= t < n ==> tmp@[t] < 0x1_0000_0000);
        }
        narrow32(&tmp, n, output);
        proof {
            if strict_decoded(input@, n as nat, 4, 256) is Some {
                let vu = strict_decoded(input@, n as nat, 4, 256).unwrap();
                assert(<u32 as Codec<W256v>>::seq64(output@.subrange(0, n as int)) =~= vu.0);
            }
        }
        r
    }

    fn zenc(input: &[u32], output: &mut Vec<u8>) -> (r: usize) {
        let wide = widen32(input);
        proof {
            lemma_pow256_u64();
            assert(wide@ =~= <u32 as Codec<W256v>>::seq64(input@));
            lemma_stream_fits(crate::transform::zz_seq(wide@, pow256(4)), 4, 256);
        }
        enc_zigzag_u64(wide.as_slice(), 4, 256, output)
    }

    fn zdec(input: &[u8], n: usize, output: &mut Vec<u32>) -> (r: usize) {
        let mut tmp: Vec<u64> = vec![0u64; n];
        let r = dec_zigzag_u64(input, n, 4, 256, &mut tmp);
        proof {
            lemma_pow256_u64();
            assert(forall|t: int| 0 <= t < n ==> tmp@[t] < 0x1_0000_0000);
        }
        narrow32(&tmp, n, output);
        proof {
            if zigzag_decoded(input@, n as nat, 4, 256) is Some {
                let vu = zigzag_decoded(input@, n as nat, 4, 256).unwrap();
                assert(<u32 as Codec<W256v>>::seq64(output@.subrange(0, n as int)) =~= vu.0);
            }
        }
        r
    }
}

} // verus!
