//! Generic functions `encode` and `decode` over an instance of the
//! `Encoding` trait, which binds one width strategy, one element type and
//! one data-shape family into a single handle.
//!
//! There are four such instances:
//! - `StandardEncoding` for unsorted sequences (`Codec::enc` / `dec`)
//! - `IncreasingEncoding` for non-decreasing sequences (`denc` / `ddec`)
//! - `StrictlyIncreasingEncoding` for strictly increasing sequences
//!   (`d1enc` / `d1dec`)
//! - `ZigZagEncoding` for unsorted sequences around a centre
//!   (`zenc` / `zdec`)
//!
//! Beside the encode/decode pair each instance carries the bound
//! calculator specialized to its width and type, a small numeric
//! identifier for lookup tables, the family's round-trip law, and a sample
//! generator whose output satisfies the family's precondition.
use vstd::prelude::*;
use core::marker::PhantomData;
use crate::pow256;
use crate::codec::{Codec, Width};
use crate::sizes::{enc_buf_size_spec, dec_buf_len_spec};
use crate::sample::{Arithmetic, to64_seq, sample_standard, sample_increasing};
use crate::families::{standard_bytes, increasing_bytes, strict_bytes, zigzag_bytes,
    standard_decoded, increasing_decoded, strict_decoded, zigzag_decoded,
    lemma_round_trip_standard, lemma_round_trip_increasing, lemma_round_trip_strict,
    lemma_round_trip_zigzag};

verus! {

/// One width strategy, one element type and one data-shape family, bound
/// into a single introspectable handle.
pub trait Encoding {
    type W: Width;

    type T: Codec<Self::W> + Arithmetic;

    /// The family's numeric identifier, stable for lookup tables.
    spec fn enc_type_spec() -> u8;

    /// The family's packed bytes for given core values.
    spec fn enc_spec(vals: Seq<u64>, size: nat, bsz: nat) -> Seq<u8>;

    /// What the family's decoder yields for given bytes.
    spec fn dec_spec(input: Seq<u8>, n: nat, size: nat, bsz: nat) -> Option<(Seq<u64>, nat)>;

    /// The family precondition that `sample`'s output satisfies.
    spec fn sample_ok(vals: Seq<u64>) -> bool;

    /// The round-trip law: decoding a packed stream, with anything after
    /// it, restores the packed values and consumes exactly the stream.
    proof fn round_trip(vals: Seq<u64>, size: nat, bsz: nat, extra: Seq<u8>)
        requires
            1 <= size <= 8,
            bsz >= 1,
            forall|i: int| 0 <= i < vals.len() ==> vals[i] < pow256(size),
        ensures
            Self::dec_spec(Self::enc_spec(vals, size, bsz) + extra, vals.len(), size, bsz)
                == Some((vals, Self::enc_spec(vals, size, bsz).len())),
    ;

    /// The family's numeric identifier.
    fn enc_type() -> (r: u8)
        ensures
            r == Self::enc_type_spec(),
    ;

    /// Packs `input` into `output`, which the caller sized through
    /// `enc_buf_size`; returns the bytes used.
    fn encode(input: &[Self::T], output: &mut Vec<u8>) -> (r: usize)
        requires
            old(output)@.len() >= enc_buf_size_spec(
                input@.len(),
                <Self::T as Codec<Self::W>>::elem_bytes(),
                <Self::W as Width>::block_elems(),
            ),
        ensures
            final(output)@.len() == old(output)@.len(),
            r == Self::enc_spec(
                <Self::T as Codec<Self::W>>::seq64(input@),
                <Self::T as Codec<Self::W>>::elem_bytes(),
                <Self::W as Width>::block_elems(),
            ).len(),
            r <= enc_buf_size_spec(
                input@.len(),
                <Self::T as Codec<Self::W>>::elem_bytes(),
                <Self::W as Width>::block_elems(),
            ),
            final(output)@.subrange(0, r as int) == Self::enc_spec(
                <Self::T as Codec<Self::W>>::seq64(input@),
                <Self::T as Codec<Self::W>>::elem_bytes(),
                <Self::W as Width>::block_elems(),
            ),
            forall|t: int|
                r <= t < final(output)@.len() ==> final(output)@[t] == old(output)@[t],
    ;

    /// Unpacks `n` values from `input` into `output[0 .. n]`, which the
    /// caller sized through `dec_buf_len`; returns the bytes read, 0 when
    /// the input is malformed.
    fn decode(input: &[u8], n: usize, output: &mut Vec<Self::T>) -> (r: usize)
        requires
            old(output)@.len() >= dec_buf_len_spec(n as nat),
        ensures
            final(output)@.len() == old(output)@.len(),
            forall|t: int|
                n <= t < final(output)@.len() ==> final(output)@[t] == old(output)@[t],
            match Self::dec_spec(
                input@,
                n as nat,
                <Self::T as Codec<Self::W>>::elem_bytes(),
                <Self::W as Width>::block_elems(),
            ) {
                Option::Some(vu) => <Self::T as Codec<Self::W>>::seq64(
                    final(output)@.subrange(0, n as int),
                ) == vu.0 && r == vu.1,
                Option::None => r == 0,
            },
    ;

    /// Minimum safe `[T]` length for decoding `n` values.
    fn dec_buf_len(n: usize) -> (r: usize)
        requires
            n + 32 <= usize::MAX,
        ensures
            r == dec_buf_len_spec(n as nat),
    ;

    /// Minimum safe `[u8]` size for encoding `n` values.
    fn enc_buf_size(n: usize) -> (r: usize)
        requires
            n + <Self::W as Width>::block_elems() - 1 <= usize::MAX,
            enc_buf_size_spec(
                n as nat,
                <Self::T as Codec<Self::W>>::elem_bytes(),
                <Self::W as Width>::block_elems(),
            ) <= usize::MAX,
        ensures
            r == enc_buf_size_spec(
                n as nat,
                <Self::T as Codec<Self::W>>::elem_bytes(),
                <Self::W as Width>::block_elems(),
            ),
    ;

    /// Random data satisfying this family's precondition.
    fn sample(len: usize) -> (r: Vec<Self::T>)
        ensures
            r@.len() <= len,
            Self::sample_ok(to64_seq(r@)),
    ;
}

/// Unsorted sequences (`Codec::enc` and `dec`).
pub struct StandardEncoding<WT, T> {
    _marker_w: PhantomData<WT>,
    _marker_t: PhantomData<T>,
}

/// Non-decreasing sequences (`Codec::denc` and `ddec`).
pub struct IncreasingEncoding<WT, T> {
    _marker_w: PhantomData<WT>,
    _marker_t: PhantomData<T>,
}

/// Strictly increasing sequences (`Codec::d1enc` and `d1dec`).
pub struct StrictlyIncreasingEncoding<WT, T> {
    _marker_w: PhantomData<WT>,
    _marker_t: PhantomData<T>,
}

/// Unsorted sequences around a centre (`Codec::zenc` and `zdec`).
pub struct ZigZagEncoding<WT, T> {
    _marker_w: PhantomData<WT>,
    _marker_t: PhantomData<T>,
}

impl<WT: Width, T: Codec<WT> + Arithmetic> Encoding for StandardEncoding<WT, T> {
    type W = WT;

    type T = T;

    open spec fn enc_type_spec() -> u8 {
        0
    }

    open spec fn enc_spec(vals: Seq<u64>, size: nat, bsz: nat) -> Seq<u8> {
        standard_bytes(vals, size, bsz)
    }

    open spec fn dec_spec(input: Seq<u8>, n: nat, size: nat, bsz: nat) -> Option<
        (Seq<u64>, nat),
    > {
        standard_decoded(input, n, size, bsz)
    }

    open spec fn sample_ok(vals: Seq<u64>) -> bool {
        true
    }

    proof fn round_trip(vals: Seq<u64>, size: nat, bsz: nat, extra: Seq<u8>) {
        lemma_round_trip_standard(vals, size, bsz, extra);
    }

    fn enc_type() -> (r: u8) {
        0
    }

    fn encode(input: &[T], output: &mut Vec<u8>) -> (r: usize) {
        T::enc(input, output)
    }

    fn decode(input: &[u8], n: usize, output: &mut Vec<T>) -> (r: usize) {
        T::dec(input, n, output)
    }

    fn dec_buf_len(n: usize) -> (r: usize) {
        WT::dec_buf_len::<T>(n)
    }

    fn enc_buf_size(n: usize) -> (r: usize) {
        proof {
            T::elem_facts(Seq::<T>::empty());
        }
        WT::enc_buf_size::<T>(n)
    }

    fn sample(len: usize) -> (r: Vec<T>) {
        sample_standard(len)
    }
}

impl<WT: Width, T: Codec<WT> + Arithmetic> Encoding for IncreasingEncoding<WT, T> {
    type W = WT;

    type T = T;

    open spec fn enc_type_spec() -> u8 {
        1
    }

    open spec fn enc_spec(vals: Seq<u64>, size: nat, bsz: nat) -> Seq<u8> {
        increasing_bytes(vals, size, bsz)
    }

    open spec fn dec_spec(input: Seq<u8>, n: nat, size: nat, bsz: nat) -> Option<
        (Seq<u64>, nat),
    > {
        increasing_decoded(input, n, size, bsz)
    }

    open spec fn sample_ok(vals: Seq<u64>) -> bool {
        forall|i: int| 0 < i < vals.len() ==> #[trigger] vals[i - 1] <= vals[i]
    }

    proof fn round_trip(vals: Seq<u64>, size: nat, bsz: nat, extra: Seq<u8>) {
        lemma_round_trip_increasing(vals, size, bsz, extra);
    }

    fn enc_type() -> (r: u8) {
        1
    }

    fn encode(input: &[T], output: &mut Vec<u8>) -> (r: usize) {
        T::denc(input, output)
    }

    fn decode(input: &[u8], n: usize, output: &mut Vec<T>) -> (r: usize) {
        T::ddec(input, n, output)
    }

    fn dec_buf_len(n: usize) -> (r: usize) {
        WT::dec_buf_len::<T>(n)
    }

    fn enc_buf_size(n: usize) -> (r: usize) {
        proof {
            T::elem_facts(Seq::<T>::empty());
        }
        WT::enc_buf_size::<T>(n)
    }

    fn sample(len: usize) -> (r: Vec<T>) {
        let r = sample_increasing(len, 0, 10);
        proof {
            assert forall|i: int| 0 < i < to64_seq(r@).len() implies #[trigger] to64_seq(r@)[i
                - 1] <= to64_seq(r@)[i] by {
                assert(T::to64(r@[i - 1]) + 0 <= T::to64(r@[i]));
            }
        }
        r
    }
}

impl<WT: Width, T: Codec<WT> + Arithmetic> Encoding for StrictlyIncreasingEncoding<WT, T> {
    type W = WT;

    type T = T;

    open spec fn enc_type_spec() -> u8 {
        2
    }

    open spec fn enc_spec(vals: Seq<u64>, size: nat, bsz: nat) -> Seq<u8> {
        strict_bytes(vals, size, bsz)
    }

    open spec fn dec_spec(input: Seq<u8>, n: nat, size: nat, bsz: nat) -> Option<
        (Seq<u64>, nat),
    > {
        strict_decoded(input, n, size, bsz)
    }

    open spec fn sample_ok(vals: Seq<u64>) -> bool {
        forall|i: int| 0 < i < vals.len() ==> #[trigger] vals[i - 1] < vals[i]
    }

    proof fn round_trip(vals: Seq<u64>, size: nat, bsz: nat, extra: Seq<u8>) {
        lemma_round_trip_strict(vals, size, bsz, extra);
    }

    fn enc_type() -> (r: u8) {
        2
    }

    fn encode(input: &[T], output: &mut Vec<u8>) -> (r: usize) {
        T::d1enc(input, output)
    }

    fn decode(input: &[u8], n: usize, output: &mut Vec<T>) -> (r: usize) {
        T::d1dec(input, n, output)
    }

    fn dec_buf_len(n: usize) -> (r: usize) {
        WT::dec_buf_len::<T>(n)
    }

    fn enc_buf_size(n: usize) -> (r: usize) {
        proof {
            T::elem_facts(Seq::<T>::empty());
        }
        WT::enc_buf_size::<T>(n)
    }

    fn sample(len: usize) -> (r: Vec<T>) {
        let r = sample_increasing(len, 1, 10);
        proof {
            assert forall|i: int| 0 < i < to64_seq(r@).len() implies #[trigger] to64_seq(r@)[i
                - 1] < to64_seq(r@)[i] by {
                assert(T::to64(r@[i - 1]) + 1 <= T::to64(r@[i]));
            }
        }
        r
    }
}

impl<WT: Width, T: Codec<WT> + Arithmetic> Encoding for ZigZagEncoding<WT, T> {
    type W = WT;

    type T = T;

    open spec fn enc_type_spec() -> u8 {
        3
    }

    open spec fn enc_spec(vals: Seq<u64>, size: nat, bsz: nat) -> Seq<u8> {
        zigzag_bytes(vals, size, bsz)
    }

    open spec fn dec_spec(input: Seq<u8>, n: nat, size: nat, bsz: nat) -> Option<
        (Seq<u64>, nat),
    > {
        zigzag_decoded(input, n, size, bsz)
    }

    open spec fn sample_ok(vals: Seq<u64>) -> bool {
        true
    }

    proof fn round_trip(vals: Seq<u64>, size: nat, bsz: nat, extra: Seq<u8>) {
        lemma_round_trip_zigzag(vals, size, bsz, extra);
    }

    fn enc_type() -> (r: u8) {
        3
    }

    fn encode(input: &[T], output: &mut Vec<u8>) -> (r: usize) {
        T::zenc(input, output)
    }

    fn decode(input: &[u8], n: usize, output: &mut Vec<T>) -> (r: usize) {
        T::zdec(input, n, output)
    }

    fn dec_buf_len(n: usize) -> (r: usize) {
        WT::dec_buf_len::<T>(n)
    }

    fn enc_buf_size(n: usize) -> (r: usize) {
        proof {
            T::elem_facts(Seq::<T>::empty());
        }
        WT::enc_buf_size::<T>(n)
    }

    fn sample(len: usize) -> (r: Vec<T>) {
        sample_standard(len)
    }
}

/// The round-trip law at the element level, for every encoding instance
/// and every input: a buffer holding exactly the packed bytes of `input`,
/// with anything at all after them, decodes to `input`'s values again, and
/// the bytes read equal the bytes written.
pub proof fn lemma_round_trip<E: Encoding>(input: Seq<E::T>, extra: Seq<u8>)
    ensures
        ({
            let size = <E::T as Codec<E::W>>::elem_bytes();
            let bsz = <E::W as Width>::block_elems();
            let vals = <E::T as Codec<E::W>>::seq64(input);
            let bytes = E::enc_spec(vals, size, bsz);
            E::dec_spec(bytes + extra, input.len(), size, bsz) == Some((vals, bytes.len()))
        }),
{
    <E::T as Codec<E::W>>::elem_facts(input);
    <E::W as Width>::block_elems_facts();
    E::round_trip(
        <E::T as Codec<E::W>>::seq64(input),
        <E::T as Codec<E::W>>::elem_bytes(),
        <E::W as Width>::block_elems(),
        extra,
    );
}

/// Generic encoding function over an `Encoding` instance.
pub fn encode<E: Encoding>(input: &[E::T], output: &mut Vec<u8>) -> (r: usize)
    requires
        old(output)@.len() >= enc_buf_size_spec(
            input@.len(),
            <E::T as Codec<E::W>>::elem_bytes(),
            <E::W as Width>::block_elems(),
        ),
    ensures
        final(output)@.len() == old(output)@.len(),
        r == E::enc_spec(
            <E::T as Codec<E::W>>::seq64(input@),
            <E::T as Codec<E::W>>::elem_bytes(),
            <E::W as Width>::block_elems(),
        ).len(),
        r <= enc_buf_size_spec(
            input@.len(),
            <E::T as Codec<E::W>>::elem_bytes(),
            <E::W as Width>::block_elems(),
        ),
        final(output)@.subrange(0, r as int) == E::enc_spec(
            <E::T as Codec<E::W>>::seq64(input@),
            <E::T as Codec<E::W>>::elem_bytes(),
            <E::W as Width>::block_elems(),
        ),
        forall|t: int| r <= t < final(output)@.len() ==> final(output)@[t] == old(output)@[t],
{
    E::encode(input, output)
}

/// Generic decoding function over an `Encoding` instance.
pub fn decode<E: Encoding>(input: &[u8], n: usize, output: &mut Vec<E::T>) -> (r: usize)
    requires
        old(output)@.len() >= dec_buf_len_spec(n as nat),
    ensures
        final(output)@.len() == old(output)@.len(),
        forall|t: int| n <= t < final(output)@.len() ==> final(output)@[t] == old(output)@[t],
        match E::dec_spec(
            input@,
            n as nat,
            <E::T as Codec<E::W>>::elem_bytes(),
            <E::W as Width>::block_elems(),
        ) {
            Option::Some(vu) => <E::T as Codec<E::W>>::seq64(final(output)@.subrange(0, n as int))
                == vu.0 && r == vu.1,
            Option::None => r == 0,
        },
{
    E::decode(input, n, output)
}

} // verus!
