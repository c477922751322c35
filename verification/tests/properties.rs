//! Concrete-value checks of the library's stated properties: buffer
//! cursor discipline, bound formulas, boundary lengths, edge values,
//! malformed input, and the sample generators' shape guarantees.
use intpack::buffer::Buffer;
use intpack::codec::{Codec, Width, W, W128v, W256v};
use intpack::generic::{Encoding, StandardEncoding, IncreasingEncoding, StrictlyIncreasingEncoding,
    ZigZagEncoding, encode, decode};
use intpack::sizes::{bound, bound_p4};
use std::collections::HashSet;

#[test]
fn buffer_reset_keeps_capacity() {
    let mut b: Buffer<u8> = Buffer::from_vec(vec![0u8; 100]);
    assert_eq!(b.len(), 0);
    assert_eq!(b.capacity(), 100);
    assert_eq!(b.space(), 100);
    b.increment(10);
    assert_eq!(b.len(), 10);
    assert_eq!(b.capacity(), 100);
    assert_eq!(b.space(), 90);
    b.reset();
    assert_eq!(b.len(), 0);
    assert_eq!(b.capacity(), 100);
    assert_eq!(b.space(), 100);
    // a second commit starts again at offset 0, as on a fresh buffer
    b.increment(25);
    assert_eq!(b.len(), 25);
    assert_eq!(b.space(), 75);
}

#[test]
fn buffer_with_capacity_is_fresh() {
    let mut b: Buffer<u16> = Buffer::with_capacity(50);
    assert_eq!(b.len(), 0);
    assert_eq!(b.capacity(), 50);
    assert_eq!(b.space(), 50);
    b.increment(50);
    assert_eq!(b.space(), 0);
}

#[test]
fn buffer_from_boxed_and_views() {
    let mut b: Buffer<u32> = Buffer::from_boxed(vec![7u32, 8, 9, 10].into_boxed_slice());
    assert_eq!(b.capacity(), 4);
    assert_eq!(b.as_slice(), &[] as &[u32]);
    b.increment(2);
    assert_eq!(b.as_slice(), &[7u32, 8]);
    b.reset();
    assert_eq!(b.as_slice(), &[] as &[u32]);
}

#[test]
fn bound_formulas_exact() {
    // 256-element groups: ceil(31/256) + (31+32)*2
    assert_eq!(bound::<u16>(31), 1 + 63 * 2);
    // 128-element groups: ceil(31/128) + (31+32)*2
    assert_eq!(bound_p4::<u16>(31), 1 + 63 * 2);
    assert_eq!(bound::<u64>(1000), (1000 + 255) / 256 + 1032 * 8);
    assert_eq!(bound_p4::<u8>(0), 0 + 32);
    assert_eq!(W::enc_buf_size::<u16>(31), 1 + 63 * 2);
    assert_eq!(W128v::enc_buf_size::<u32>(200), 2 + 232 * 4);
    assert_eq!(W256v::enc_buf_size::<u32>(1000), 4 + 1032 * 4);
    assert_eq!(W::dec_buf_len::<u16>(1000), 1032);
    assert_eq!(W256v::dec_buf_len::<u32>(0), 32);
}

#[test]
fn enc_type_identifiers() {
    assert_eq!(StandardEncoding::<W, u8>::enc_type(), 0);
    assert_eq!(IncreasingEncoding::<W, u16>::enc_type(), 1);
    assert_eq!(StrictlyIncreasingEncoding::<W, u32>::enc_type(), 2);
    assert_eq!(ZigZagEncoding::<W, u64>::enc_type(), 3);
}

fn round_trip_exact<E>(input: &[E::T])
where
    E: Encoding,
    E::T: Default + std::fmt::Debug + PartialEq + Copy,
{
    let mut buf = vec![0u8; E::enc_buf_size(input.len())];
    let written = encode::<E>(input, &mut buf);
    assert!(written <= buf.len());
    let mut output: Vec<E::T> = vec![E::T::default(); E::dec_buf_len(input.len())];
    let read = decode::<E>(&buf[..written], input.len(), &mut output);
    assert_eq!(written, read);
    assert_eq!(input, &output[..input.len()]);
}

#[test]
fn boundary_lengths_round_trip() {
    // length 0 and length 1, for every family
    round_trip_exact::<StandardEncoding<W, u16>>(&[]);
    round_trip_exact::<IncreasingEncoding<W, u16>>(&[]);
    round_trip_exact::<StrictlyIncreasingEncoding<W, u16>>(&[]);
    round_trip_exact::<ZigZagEncoding<W, u16>>(&[]);
    round_trip_exact::<StandardEncoding<W, u16>>(&[4711]);
    round_trip_exact::<IncreasingEncoding<W, u16>>(&[4711]);
    round_trip_exact::<StrictlyIncreasingEncoding<W, u16>>(&[4711]);
    round_trip_exact::<ZigZagEncoding<W, u16>>(&[4711]);
}

#[test]
fn equal_keys_round_trip() {
    // the non-decreasing family accepts runs of equal values
    round_trip_exact::<IncreasingEncoding<W, u32>>(&[5, 5, 5, 5, 9, 9, 100]);
    round_trip_exact::<IncreasingEncoding<W, u8>>(&[0, 0, 0]);
}

#[test]
fn extreme_values_round_trip() {
    round_trip_exact::<StandardEncoding<W, u64>>(&[u64::MAX, 0, u64::MAX - 1, 1]);
    round_trip_exact::<ZigZagEncoding<W, u64>>(&[u64::MAX, 0, u64::MAX, 0]);
    round_trip_exact::<IncreasingEncoding<W, u64>>(&[u64::MAX - 2, u64::MAX, u64::MAX]);
    round_trip_exact::<StrictlyIncreasingEncoding<W, u8>>(&[0, 1, 2, 253, 254, 255]);
}

#[test]
fn tight_allocation_round_trip() {
    // buffers sized to the exact bound for the actual length
    let input: Vec<u32> = (0..999u32).map(|x| x.wrapping_mul(2654435761)).collect();
    let mut buf = vec![0u8; W256v::enc_buf_size::<u32>(input.len())];
    let written = <u32 as Codec<W256v>>::enc(&input, &mut buf);
    assert!(written <= buf.len());
    let mut output: Vec<u32> = vec![0; W256v::dec_buf_len::<u32>(input.len())];
    let read = <u32 as Codec<W256v>>::dec(&buf[..written], input.len(), &mut output);
    assert_eq!(written, read);
    assert_eq!(&input[..], &output[..input.len()]);
}

#[test]
fn no_write_past_reported_length() {
    // encode: a zero-initialized buffer stays zero past bytes_written
    let input: Vec<u16> = (0..300u16).collect();
    let mut buf = vec![0u8; W::enc_buf_size::<u16>(input.len()) + 64];
    let written = <u16 as Codec<W>>::enc(&input, &mut buf);
    for t in written..buf.len() {
        assert_eq!(buf[t], 0);
    }
    // decode: elements at and past n keep their old values
    let mut output: Vec<u16> = vec![0xAAAA; input.len() + 64];
    let read = <u16 as Codec<W>>::dec(&buf[..written], input.len(), &mut output);
    assert_eq!(read, written);
    for t in input.len()..output.len() {
        assert_eq!(output[t], 0xAAAA);
    }
}

#[test]
fn malformed_input_reads_nothing() {
    let mut output: Vec<u16> = vec![0; 64];
    // an empty input cannot hold one value
    assert_eq!(<u16 as Codec<W>>::dec(&[], 1, &mut output), 0);
    // width header 0 is out of range
    assert_eq!(<u16 as Codec<W>>::dec(&[0u8, 1, 2], 1, &mut output), 0);
    // width header past the element size is out of range
    assert_eq!(<u16 as Codec<W>>::dec(&[3u8, 1, 2], 1, &mut output), 0);
    // a truncated stream is refused
    let input: Vec<u16> = (0..200u16).collect();
    let mut buf = vec![0u8; W::enc_buf_size::<u16>(input.len())];
    let written = <u16 as Codec<W>>::enc(&input, &mut buf);
    let mut full: Vec<u16> = vec![0; input.len() + 32];
    assert_eq!(<u16 as Codec<W>>::dec(&buf[..written / 2], input.len(), &mut full), 0);
}

#[test]
fn strictly_increasing_sampler_never_repeats() {
    for _ in 0..8 {
        let data: Vec<u32> = StrictlyIncreasingEncoding::<W, u32>::sample(1000);
        for i in 1..data.len() {
            assert!(data[i - 1] < data[i]);
        }
        let unique: HashSet<u32> = data.iter().copied().collect();
        assert_eq!(unique.len(), data.len());
    }
}

#[test]
fn increasing_sampler_is_non_decreasing() {
    for _ in 0..8 {
        let data: Vec<u8> = IncreasingEncoding::<W, u8>::sample(500);
        for i in 1..data.len() {
            assert!(data[i - 1] <= data[i]);
        }
    }
}

#[test]
fn standard_sampler_fills_requested_length() {
    let data: Vec<u64> = StandardEncoding::<W, u64>::sample(333);
    assert_eq!(data.len(), 333);
    let data2: Vec<u16> = ZigZagEncoding::<W, u16>::sample(77);
    assert_eq!(data2.len(), 77);
}

#[test]
fn compressed_size_shrinks_small_values() {
    // 1000 small u64 values pack into far fewer than 8 bytes each
    let input: Vec<u64> = vec![3; 1000];
    let mut buf = vec![0u8; W::enc_buf_size::<u64>(input.len())];
    let written = <u64 as Codec<W>>::enc(&input, &mut buf);
    assert!(written <= 1000 + 8);
    // and the ordered family packs a linear run just as tightly
    let run: Vec<u64> = (0..1000u64).collect();
    let written2 = <u64 as Codec<W>>::denc(&run, &mut buf);
    assert!(written2 <= 1000 + 8);
}
