//! Little-endian byte packing of single values.
use vstd::prelude::*;
use crate::pow256;

verus! {

/// The little-endian byte string of `v` in exactly `b` bytes
/// (the value is truncated to `b` bytes).
pub open spec fn le_bytes(v: nat, b: nat) -> Seq<u8>
    decreases b,
{
    if b == 0 {
        Seq::empty()
    } else {
        seq![(v % 256) as u8] + le_bytes(v / 256, (b - 1) as nat)
    }
}

/// The value of a little-endian byte string.
pub open spec fn le_value(s: Seq<u8>) -> nat
    decreases s.len(),
{
    if s.len() == 0 {
        0
    } else {
        (s[0] + 256 * le_value(s.subrange(1, s.len() as int))) as nat
    }
}

pub proof fn lemma_pow256_pos(b: nat)
    ensures
        pow256(b) >= 1,
    decreases b,
{
    if b > 0 {
        lemma_pow256_pos((b - 1) as nat);
    }
}

/// `pow256` grows with the byte count.
pub proof fn lemma_pow256_monotone(a: nat, b: nat)
    requires
        a <= b,
    ensures
        pow256(a) <= pow256(b),
    decreases b,
{
    lemma_pow256_pos(a);
    if a < b {
        lemma_pow256_monotone(a, (b - 1) as nat);
    }
}

/// The value of 8 bytes fits in a `u64`.
pub proof fn lemma_pow256_u64()
    ensures
        pow256(1) == 0x100,
        pow256(2) == 0x1_0000,
        pow256(3) == 0x100_0000,
        pow256(4) == 0x1_0000_0000,
        pow256(5) == 0x100_0000_0000,
        pow256(6) == 0x1_0000_0000_0000,
        pow256(7) == 0x100_0000_0000_0000,
        pow256(8) == 0x1_0000_0000_0000_0000,
{
    reveal_with_fuel(pow256, 9);
}

/// A little-endian byte string of length `b` holds a value below
/// `pow256(b)`.
pub proof fn lemma_le_value_bound(s: Seq<u8>)
    ensures
        le_value(s) < pow256(s.len()),
    decreases s.len(),
{
    if s.len() == 0 {
    } else {
        let t = s.subrange(1, s.len() as int);
        lemma_le_value_bound(t);
        assert(le_value(s) == s[0] + 256 * le_value(t));
        assert(256 * le_value(t) <= 256 * (pow256(t.len()) - 1)) by (nonlinear_arith)
            requires
                le_value(t) <= pow256(t.len()) - 1,
        ;
    }
}

pub proof fn lemma_le_bytes_len(v: nat, b: nat)
    ensures
        le_bytes(v, b).len() == b,
    decreases b,
{
    if b > 0 {
        lemma_le_bytes_len(v / 256, (b - 1) as nat);
    }
}

/// Decoding the little-endian bytes of `v` gives back `v` modulo the
/// covered range.
pub proof fn lemma_le_round_trip(v: nat, b: nat)
    ensures
        le_value(le_bytes(v, b)) == v % pow256(b),
    decreases b,
{
    if b == 0 {
        assert(pow256(0) == 1);
    } else {
        let s = le_bytes(v, b);
        lemma_le_bytes_len(v, b);
        assert(s.subrange(1, s.len() as int) =~= le_bytes(v / 256, (b - 1) as nat));
        lemma_le_round_trip(v / 256, (b - 1) as nat);
        assert(le_value(s) == v % 256 + 256 * ((v / 256) % pow256((b - 1) as nat)));
        lemma_pow256_pos((b - 1) as nat);
        lemma_mod_breakdown(v, 256, pow256((b - 1) as nat));
    }
}

proof fn lemma_mod_breakdown(v: nat, x: nat, y: nat)
    requires
        x > 0,
        y > 0,
    ensures
        v % (x * y) == v % x + x * ((v / x) % y),
{
    vstd::arithmetic::div_mod::lemma_mod_breakdown(v as int, x as int, y as int);
}

/// Reads the value of the `b` bytes at `input[pos .. pos + b]`.
pub fn get_le(input: &[u8], pos: usize, b: usize) -> (r: u64)
    requires
        b <= 8,
        pos + b <= input@.len(),
    ensures
        r == le_value(input@.subrange(pos as int, pos + b)),
        r < pow256(b as nat),
{
    let len = input.len();
    let mut acc: u64 = 0;
    let mut i: usize = b;
    proof {
        assert(input@.subrange(pos + b, pos + b) =~= Seq::<u8>::empty());
        lemma_pow256_pos(0);
    }
    while i > 0
        invariant
            i <= b,
            b <= 8,
            pos + b <= len,
            len == input@.len(),
            acc == le_value(input@.subrange(pos + i, pos + b)),
            acc < pow256((b - i) as nat),
        decreases i,
    {
        i = i - 1;
        let byte = input[pos + i];
        proof {
            let s = input@.subrange(pos + i, pos + b);
            assert(s[0] == input@[pos + i]);
            assert(s.subrange(1, s.len() as int) =~= input@.subrange(pos + i + 1, pos + b));
            lemma_pow256_monotone((b - i - 1) as nat, 7);
            lemma_pow256_u64();
            assert(byte + 256 * acc < 256 * pow256((b - i - 1) as nat)) by (nonlinear_arith)
                requires
                    byte < 256,
                    acc < pow256((b - i - 1) as nat),
            ;
        }
        acc = byte as u64 + 256 * acc;
    }
    proof {
        lemma_le_value_bound(input@.subrange(pos as int, pos + b));
        assert(input@.subrange(pos as int, pos + b).len() == b as nat);
    }
    acc
}

/// The byte at offset `j` of the little-endian form of `v`.
pub proof fn lemma_le_bytes_index(v: nat, b: nat, j: int)
    requires
        0 <= j < b,
    ensures
        le_bytes(v, b).len() == b,
        le_bytes(v, b)[j] == (v / pow256(j as nat)) % 256,
    decreases b,
{
    lemma_le_bytes_len(v, b);
    let s = le_bytes(v, b);
    let rest = le_bytes(v / 256, (b - 1) as nat);
    assert(s == seq![(v % 256) as u8] + rest);
    if j == 0 {
        assert(s[0] == (v % 256) as u8);
        assert(pow256(0) == 1);
        vstd::arithmetic::div_mod::lemma_div_basics(v as int);
        assert(v / pow256(0nat) == v);
        assert(s[j] == (v / pow256(j as nat)) % 256);
    } else {
        lemma_le_bytes_index(v / 256, (b - 1) as nat, j - 1);
        assert(s[j] == rest[j - 1]);
        assert(rest[j - 1] == ((v / 256) / pow256((j - 1) as nat)) % 256);
        lemma_pow256_pos((j - 1) as nat);
        vstd::arithmetic::div_mod::lemma_div_denominator(
            v as int,
            256,
            pow256((j - 1) as nat) as int,
        );
        assert(256 * pow256((j - 1) as nat) == pow256(j as nat));
        assert((v / 256) / pow256((j - 1) as nat) == v / pow256(j as nat));
        assert(s[j] == (v / pow256(j as nat)) % 256);
    }
}

/// Writes the `b` little-endian bytes of `v` at `output[pos .. pos + b]`;
/// nothing else in `output` changes.
pub fn put_le(output: &mut Vec<u8>, pos: usize, v: u64, b: usize)
    requires
        b <= 8,
        pos + b <= old(output)@.len(),
    ensures
        final(output)@.len() == old(output)@.len(),
        final(output)@.subrange(pos as int, pos + b) == le_bytes(v as nat, b as nat),
        forall|k: int|
            0 <= k < final(output)@.len() && !(pos <= k < pos + b) ==> final(output)@[k] == old(
                output,
            )@[k],
{
    let len = output.len();
    let mut x: u64 = v;
    let mut j: usize = 0;
    proof {
        assert(pow256(0) == 1);
        vstd::arithmetic::div_mod::lemma_div_basics(v as int);
        lemma_le_bytes_len(v as nat, b as nat);
    }
    while j < b
        invariant
            j <= b,
            b <= 8,
            pos + b <= len,
            len == output@.len(),
            output@.len() == old(output)@.len(),
            le_bytes(v as nat, b as nat).len() == b,
            x == v as nat / pow256(j as nat),
            forall|k: int|
                0 <= k < output@.len() && !(pos <= k < pos + j) ==> output@[k] == old(output)@[k],
            forall|k: int|
                0 <= k < j ==> #[trigger] output@[pos + k] == le_bytes(v as nat, b as nat)[k],
        decreases b - j,
    {
        proof {
            lemma_le_bytes_index(v as nat, b as nat, j as int);
            lemma_pow256_pos(j as nat);
            vstd::arithmetic::div_mod::lemma_div_denominator(
                v as int,
                pow256(j as nat) as int,
                256,
            );
            assert(pow256(j as nat) * 256 == pow256((j + 1) as nat)) by (nonlinear_arith)
                requires
                    pow256((j + 1) as nat) == 256 * pow256(j as nat),
            ;
        }
        output[pos + j] = (x % 256) as u8;
        x = x / 256;
        j = j + 1;
    }
    proof {
        assert forall|k: int| 0 <= k < b implies output@.subrange(pos as int, pos + b)[k]
            == le_bytes(v as nat, b as nat)[k] by {
            assert(output@[pos + k] == le_bytes(v as nat, b as nat)[k]);
        }
        assert(output@.subrange(pos as int, pos + b) =~= le_bytes(v as nat, b as nat));
    }
}

} // verus!
