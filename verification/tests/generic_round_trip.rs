//! Randomized round-trip checks of every encoding instance through the
//! generic `encode` / `decode` entry points.
use intpack::codec::{W, Width, Codec};
use intpack::generic::{Encoding, StandardEncoding, IncreasingEncoding, StrictlyIncreasingEncoding,
    ZigZagEncoding, encode, decode};
use intpack::sample::Arithmetic;
use rand::Rng;

fn test_enc_dec_generic<E>()
where
    E: Encoding,
    E::T: Default + std::fmt::Debug + PartialEq + Copy + Codec<E::W> + Arithmetic,
    E::W: Width,
{
    let mut rng = rand::thread_rng();
    for _ in 0..32 {
        // Generate random input data
        let len = rng.gen_range(1..=4 * 1024);
        let input: Vec<E::T> = E::sample(len);
        // Prepare input buffer and encode
        let mut buf = vec![0u8; E::enc_buf_size(input.len())];
        let size_enc = encode::<E>(&input, &mut buf);
        // Prepare output buffer and decode
        let mut output: Vec<E::T> = vec![E::T::default(); E::dec_buf_len(input.len())];
        let size_dec = decode::<E>(&buf[..size_enc], input.len(), &mut output);
        // Check results
        assert_eq!(size_enc, size_dec);
        assert_eq!(input, output[..input.len()]);
    }
}

#[test]
fn test_enc_dec_u8_standard() {
    test_enc_dec_generic::<StandardEncoding<W, u8>>()
}

#[test]
fn test_enc_dec_u16_standard() {
    test_enc_dec_generic::<StandardEncoding<W, u16>>()
}

#[test]
fn test_enc_dec_u32_standard() {
    test_enc_dec_generic::<StandardEncoding<W, u32>>()
}

#[test]
fn test_enc_dec_u64_standard() {
    test_enc_dec_generic::<StandardEncoding<W, u64>>()
}

#[test]
fn test_enc_dec_u8_increasing() {
    test_enc_dec_generic::<IncreasingEncoding<W, u8>>()
}

#[test]
fn test_enc_dec_u16_increasing() {
    test_enc_dec_generic::<IncreasingEncoding<W, u16>>()
}

#[test]
fn test_enc_dec_u32_increasing() {
    test_enc_dec_generic::<IncreasingEncoding<W, u32>>()
}

#[test]
fn test_enc_dec_u64_increasing() {
    test_enc_dec_generic::<IncreasingEncoding<W, u64>>()
}

#[test]
fn test_enc_dec_u8_strictly_increasing() {
    test_enc_dec_generic::<StrictlyIncreasingEncoding<W, u8>>()
}

#[test]
fn test_enc_dec_u16_strictly_increasing() {
    test_enc_dec_generic::<StrictlyIncreasingEncoding<W, u16>>()
}

#[test]
fn test_enc_dec_u32_strictly_increasing() {
    test_enc_dec_generic::<StrictlyIncreasingEncoding<W, u32>>()
}

#[test]
fn test_enc_dec_u64_strictly_increasing() {
    test_enc_dec_generic::<StrictlyIncreasingEncoding<W, u64>>()
}

#[test]
fn test_enc_dec_u8_zigzag() {
    test_enc_dec_generic::<ZigZagEncoding<W, u8>>()
}

#[test]
fn test_enc_dec_u16_zigzag() {
    test_enc_dec_generic::<ZigZagEncoding<W, u16>>()
}

#[test]
fn test_enc_dec_u32_zigzag() {
    test_enc_dec_generic::<ZigZagEncoding<W, u32>>()
}

#[test]
fn test_enc_dec_u64_zigzag() {
    test_enc_dec_generic::<ZigZagEncoding<W, u64>>()
}
