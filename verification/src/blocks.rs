//! Block-structured packing of `u64` sequences into bytes.
//!
//! A stream is a run of blocks of at most `bsz` values.  Each block stores
//! one header byte, the byte width `b` shared by the whole block, followed
//! by each value in exactly `b` little-endian bytes.  The width is the
//! smallest count of bytes, between 1 and `size`, that covers the largest
//! value of the block, so blocks of small values pack densely.
use vstd::prelude::*;
use vstd::assert_seqs_equal;
use crate::pow256;
use crate::pack::{get_le, le_bytes, le_value, lemma_le_bytes_len, lemma_pow256_monotone, put_le};

verus! {

/// The smallest byte count in `1 ..= size` whose range covers `v`
/// (clamped to `size` when even that does not cover it).
pub open spec fn bytes_needed(v: nat, size: nat) -> nat
    decreases size,
{
    if size <= 1 {
        1
    } else if v < pow256((size - 1) as nat) {
        bytes_needed(v, (size - 1) as nat)
    } else {
        size
    }
}

pub proof fn lemma_bytes_needed_range(v: nat, size: nat)
    requires
        size >= 1,
    ensures
        1 <= bytes_needed(v, size) <= size,
    decreases size,
{
    if size > 1 && v < pow256((size - 1) as nat) {
        lemma_bytes_needed_range(v, (size - 1) as nat);
    }
}

/// The chosen byte count indeed covers the value.
pub proof fn lemma_bytes_needed_covers(v: nat, size: nat)
    requires
        size >= 1,
        v < pow256(size),
    ensures
        v < pow256(bytes_needed(v, size)),
    decreases size,
{
    if size > 1 && v < pow256((size - 1) as nat) {
        lemma_bytes_needed_covers(v, (size - 1) as nat);
    }
}

/// The largest value of a sequence of `u64`s (0 when empty).
pub open spec fn max_val(s: Seq<u64>) -> nat
    decreases s.len(),
{
    if s.len() == 0 {
        0
    } else if s.last() as nat >= max_val(s.drop_last()) {
        s.last() as nat
    } else {
        max_val(s.drop_last())
    }
}

pub proof fn lemma_max_val_ge(s: Seq<u64>, i: int)
    requires
        0 <= i < s.len(),
    ensures
        s[i] <= max_val(s),
    decreases s.len(),
{
    if i < s.len() - 1 {
        lemma_max_val_ge(s.drop_last(), i);
    }
}

/// The shared byte width of one block.
pub open spec fn block_width(block: Seq<u64>, size: nat) -> nat {
    bytes_needed(max_val(block), size)
}

/// The bytes of the values of a block, each in exactly `b` bytes.
pub open spec fn vals_bytes(block: Seq<u64>, b: nat) -> Seq<u8>
    decreases block.len(),
{
    if block.len() == 0 {
        Seq::empty()
    } else {
        le_bytes(block[0] as nat, b) + vals_bytes(block.subrange(1, block.len() as int), b)
    }
}

pub proof fn lemma_vals_bytes_len(block: Seq<u64>, b: nat)
    ensures
        vals_bytes(block, b).len() == block.len() * b,
    decreases block.len(),
{
    if block.len() == 0 {
    } else {
        lemma_le_bytes_len(block[0] as nat, b);
        lemma_vals_bytes_len(block.subrange(1, block.len() as int), b);
        assert((block.len() - 1) * b + b == block.len() * b) by (nonlinear_arith);
    }
}

/// Appending one value appends its bytes.
pub proof fn lemma_vals_bytes_snoc(block: Seq<u64>, x: u64, b: nat)
    ensures
        vals_bytes(block.push(x), b) == vals_bytes(block, b) + le_bytes(x as nat, b),
    decreases block.len(),
{
    let p = block.push(x);
    if block.len() == 0 {
        assert(p.subrange(1, p.len() as int) =~= Seq::<u64>::empty());
        assert(vals_bytes(Seq::<u64>::empty(), b) == Seq::<u8>::empty());
        assert(p[0] == x);
        assert(vals_bytes(p, b) == le_bytes(x as nat, b) + Seq::<u8>::empty());
        assert(le_bytes(x as nat, b) + Seq::<u8>::empty() =~= le_bytes(x as nat, b));
        assert(vals_bytes(block, b) == Seq::<u8>::empty());
        assert(Seq::<u8>::empty() + le_bytes(x as nat, b) =~= le_bytes(x as nat, b));
    } else {
        let t = block.subrange(1, block.len() as int);
        assert(p.subrange(1, p.len() as int) =~= t.push(x));
        lemma_vals_bytes_snoc(t, x, b);
        assert(vals_bytes(p, b) == le_bytes(p[0] as nat, b) + (vals_bytes(t, b) + le_bytes(
            x as nat,
            b,
        )));
        assert(le_bytes(block[0] as nat, b) + (vals_bytes(t, b) + le_bytes(x as nat, b))
            =~= (le_bytes(block[0] as nat, b) + vals_bytes(t, b)) + le_bytes(x as nat, b));
    }
}

/// The bytes of one block: a width header, then the packed values.
pub open spec fn enc_block(block: Seq<u64>, size: nat) -> Seq<u8> {
    seq![block_width(block, size) as u8] + vals_bytes(block, block_width(block, size))
}

pub proof fn lemma_enc_block_len(block: Seq<u64>, size: nat)
    ensures
        enc_block(block, size).len() == 1 + block.len() * block_width(block, size),
{
    lemma_vals_bytes_len(block, block_width(block, size));
}

/// The bytes of a whole stream: blocks of at most `bsz` values.
pub open spec fn enc_stream(vals: Seq<u64>, size: nat, bsz: nat) -> Seq<u8>
    decreases vals.len(),
{
    if vals.len() == 0 || bsz == 0 {
        Seq::empty()
    } else {
        let k = if bsz < vals.len() {
            bsz
        } else {
            vals.len()
        };
        enc_block(vals.take(k as int), size) + enc_stream(vals.skip(k as int), size, bsz)
    }
}

/// Decoding a stream of `n` values: `None` when the input is malformed
/// (a width header out of range, or too few bytes).
pub open spec fn dec_stream(input: Seq<u8>, n: nat, size: nat, bsz: nat) -> Option<
    (Seq<u64>, nat),
>
    decreases n,
{
    if n == 0 {
        Some((Seq::empty(), 0nat))
    } else if bsz == 0 || input.len() < 1 {
        None
    } else {
        let k = if bsz < n {
            bsz
        } else {
            n
        };
        let b = input[0] as nat;
        if b < 1 || b > size || input.len() < 1 + k * b {
            None
        } else {
            let block = Seq::new(
                k,
                |j: int| le_value(input.subrange(1 + j * b, 1 + (j + 1) * b)) as u64,
            );
            match dec_stream(input.skip(1 + k * b as int), (n - k) as nat, size, bsz) {
                Option::None => None,
                Option::Some((rest, used)) => Some((block + rest, (1 + k * b + used) as nat)),
            }
        }
    }
}

/// When every element is below a positive bound, so is the maximum.
pub proof fn lemma_max_val_bound(s: Seq<u64>, bound: nat)
    requires
        bound >= 1,
        forall|i: int| 0 <= i < s.len() ==> s[i] < bound,
    ensures
        max_val(s) < bound,
    decreases s.len(),
{
    if s.len() > 0 {
        lemma_max_val_bound(s.drop_last(), bound);
    }
}

/// The packed bytes of value `j` of a block sit at offset `j * b` of the
/// block's value area.
pub proof fn lemma_vals_bytes_at(block: Seq<u64>, b: nat, j: int, t: int)
    requires
        0 <= j < block.len(),
        0 <= t < b,
    ensures
        vals_bytes(block, b).len() == block.len() * b,
        0 <= j * b + t < block.len() * b,
        vals_bytes(block, b)[j * b + t] == le_bytes(block[j] as nat, b)[t],
    decreases j,
{
    lemma_vals_bytes_len(block, b);
    lemma_le_bytes_len(block[0] as nat, b);
    let tail = block.subrange(1, block.len() as int);
    lemma_vals_bytes_len(tail, b);
    assert(vals_bytes(block, b) == le_bytes(block[0] as nat, b) + vals_bytes(tail, b));
    assert(0 <= j * b + t < block.len() * b) by (nonlinear_arith)
        requires
            0 <= j < block.len(),
            0 <= t < b,
    ;
    if j == 0 {
        assert(vals_bytes(block, b)[t] == le_bytes(block[0] as nat, b)[t]);
        assert(0 * b + t == t);
    } else {
        lemma_vals_bytes_at(tail, b, j - 1, t);
        assert(j * b + t - b == (j - 1) * b + t && j * b + t >= b) by (nonlinear_arith)
            requires
                j >= 1,
                0 <= t < b,
        ;
        assert(vals_bytes(block, b)[j * b + t] == vals_bytes(tail, b)[j * b + t - b]);
        assert(tail[j - 1] == block[j]);
    }
}

/// What a well-formed decode yields: `n` values, each within the range of
/// `size` bytes, consuming no more than the whole input.
pub proof fn lemma_dec_stream_props(input: Seq<u8>, n: nat, size: nat, bsz: nat)
    requires
        size <= 8,
        dec_stream(input, n, size, bsz) is Some,
    ensures
        dec_stream(input, n, size, bsz).unwrap().0.len() == n,
        dec_stream(input, n, size, bsz).unwrap().1 <= input.len(),
        forall|j: int|
            0 <= j < n ==> #[trigger] dec_stream(input, n, size, bsz).unwrap().0[j] < pow256(
                size,
            ),
    decreases n,
{
    if n == 0 {
    } else {
        let k = if bsz < n {
            bsz
        } else {
            n
        };
        let b = input[0] as nat;
        let rest_in = input.skip(1 + k * b as int);
        lemma_dec_stream_props(rest_in, (n - k) as nat, size, bsz);
        let block = Seq::new(
            k,
            |j: int| le_value(input.subrange(1 + j * b, 1 + (j + 1) * b)) as u64,
        );
        assert forall|j: int| 0 <= j < k implies block[j] < pow256(size) by {
            let s = input.subrange(1 + j * b, 1 + (j + 1) * b);
            assert(1 + (j + 1) * b <= 1 + k * b) by (nonlinear_arith)
                requires
                    j + 1 <= k,
                    b >= 0,
            ;
            assert(1 + (j + 1) * b - (1 + j * b) == b) by (nonlinear_arith);
            crate::pack::lemma_le_value_bound(s);
            lemma_pow256_monotone(b, size);
            vstd::arithmetic::div_mod::lemma_mod_self_0(pow256(size) as int);
        }
        assert forall|j: int|
            0 <= j < n implies #[trigger] dec_stream(input, n, size, bsz).unwrap().0[j] < pow256(
            size,
        ) by {
            if j >= k {
                let rest = dec_stream(rest_in, (n - k) as nat, size, bsz).unwrap().0;
                assert(rest[j - k] < pow256(size));
            }
        }
    }
}

/// The packed stream never exceeds one header byte per block plus `size`
/// bytes per value.
pub proof fn lemma_enc_stream_len(vals: Seq<u64>, size: nat, bsz: nat)
    requires
        size >= 1,
        bsz >= 1,
    ensures
        enc_stream(vals, size, bsz).len() <= (vals.len() + bsz - 1) / (bsz as int) + vals.len()
            * size,
    decreases vals.len(),
{
    let n = vals.len();
    if n == 0 {
        assert((0 + bsz - 1) / (bsz as int) >= 0) by {
            vstd::arithmetic::div_mod::lemma_div_pos_is_pos(bsz as int - 1, bsz as int);
        }
    } else {
        let k = if bsz < n {
            bsz
        } else {
            n
        };
        let chunk = vals.take(k as int);
        let rest = vals.skip(k as int);
        lemma_enc_stream_len(rest, size, bsz);
        lemma_enc_block_len(chunk, size);
        lemma_bytes_needed_range(max_val(chunk), size);
        assert(k * block_width(chunk, size) <= k * size) by (nonlinear_arith)
            requires
                block_width(chunk, size) <= size,
                k >= 0,
        ;
        if k < n {
            // a full block: k == bsz
            assert(((n - bsz) + bsz - 1) / (bsz as int) + 1 == (n + bsz - 1) / (bsz as int)) by {
                vstd::arithmetic::div_mod::lemma_div_plus_one((n - 1) as int, bsz as int);
            }
            assert((n - k) * size + k * size == n * size) by (nonlinear_arith);
        } else {
            // the last, possibly short, block
            assert((n + bsz - 1) / (bsz as int) >= 1) by {
                vstd::arithmetic::div_mod::lemma_div_is_ordered(
                    bsz as int,
                    (n + bsz - 1) as int,
                    bsz as int,
                );
                vstd::arithmetic::div_mod::lemma_div_by_self(bsz as int);
            }
            assert(((0 + bsz - 1) as int) / (bsz as int) >= 0) by {
                vstd::arithmetic::div_mod::lemma_div_pos_is_pos(bsz as int - 1, bsz as int);
            }
        }
    }
}

/// Round trip: decoding a packed stream (with anything after it) yields
/// exactly the packed values and consumes exactly the stream's bytes.
pub proof fn lemma_dec_of_enc(vals: Seq<u64>, size: nat, bsz: nat, extra: Seq<u8>)
    requires
        1 <= size <= 8,
        bsz >= 1,
        forall|i: int| 0 <= i < vals.len() ==> vals[i] < pow256(size),
    ensures
        dec_stream(enc_stream(vals, size, bsz) + extra, vals.len(), size, bsz) == Some(
            (vals, enc_stream(vals, size, bsz).len()),
        ),
    decreases vals.len(),
{
    let n = vals.len();
    let enc = enc_stream(vals, size, bsz);
    let input = enc + extra;
    if n == 0 {
        assert(dec_stream(input, 0, size, bsz) == Some((Seq::<u64>::empty(), 0nat)));
        assert(vals =~= Seq::<u64>::empty());
    } else {
        let k = if bsz < n {
            bsz
        } else {
            n
        };
        let chunk = vals.take(k as int);
        let rest = vals.skip(k as int);
        let bw = block_width(chunk, size);
        lemma_max_val_bound(chunk, pow256(size));
        lemma_bytes_needed_range(max_val(chunk), size);
        lemma_bytes_needed_covers(max_val(chunk), size);
        lemma_enc_block_len(chunk, size);
        lemma_vals_bytes_len(chunk, bw);
        let eb = enc_block(chunk, size);
        assert(enc == eb + enc_stream(rest, size, bsz));
        assert(input[0] == eb[0]);
        assert(eb[0] == bw as u8);
        assert(input[0] as nat == bw) by {
            lemma_pow256_monotone(bw, 8);
        }
        // the header and the packed block are inside the input
        assert(input.len() >= 1 + k * bw);
        // each value of the block decodes to itself
        assert forall|j: int| 0 <= j < k implies le_value(
            input.subrange(1 + j * bw, 1 + (j + 1) * bw),
        ) as u64 == chunk[j] by {
            assert((j + 1) * bw <= k * bw) by (nonlinear_arith)
                requires
                    j + 1 <= k,
                    bw >= 0,
            ;
            assert((j + 1) * bw == j * bw + bw && j * bw >= 0) by (nonlinear_arith)
                requires
                    j >= 0,
                    bw >= 0,
            ;
            lemma_le_bytes_len(chunk[j] as nat, bw);
            let lhs = input.subrange(1 + j * bw, 1 + (j + 1) * bw);
            let rhs = le_bytes(chunk[j] as nat, bw);
            assert_seqs_equal!(lhs == rhs, t => {
                lemma_vals_bytes_at(chunk, bw, j, t);
                assert(lhs[t] == input[1 + (j * bw + t)]);
                assert(input[1 + (j * bw + t)] == eb[1 + (j * bw + t)]);
                assert(eb[1 + (j * bw + t)] == vals_bytes(chunk, bw)[j * bw + t]);
            });
            crate::pack::lemma_le_round_trip(chunk[j] as nat, bw);
            assert(chunk[j] <= max_val(chunk)) by {
                lemma_max_val_ge(chunk, j);
            }
            vstd::arithmetic::div_mod::lemma_small_mod(chunk[j] as nat, pow256(bw));
        }
        let block = Seq::new(
            k,
            |j: int| le_value(input.subrange(1 + j * bw, 1 + (j + 1) * bw)) as u64,
        );
        assert(block =~= chunk);
        // the tail of the input is the packed rest, then `extra`
        let rest_in = input.skip(1 + k * bw as int);
        assert(rest_in =~= enc_stream(rest, size, bsz) + extra);
        lemma_dec_of_enc(rest, size, bsz, extra);
        assert(dec_stream(rest_in, (n - k) as nat, size, bsz) == Some(
            (rest, enc_stream(rest, size, bsz).len()),
        ));
        assert(block + rest =~= vals);
        assert(dec_stream(input, n, size, bsz) == Some((vals, enc.len())));
    }
}

/// `pow256(b)` as a `u64`, for `b` up to 7.
fn pow256_u64(b: usize) -> (r: u64)
    requires
        b <= 7,
    ensures
        r == pow256(b as nat),
{
    proof {
        crate::pack::lemma_pow256_u64();
    }
    if b == 0 {
        1
    } else if b == 1 {
        0x100
    } else if b == 2 {
        0x1_0000
    } else if b == 3 {
        0x100_0000
    } else if b == 4 {
        0x1_0000_0000
    } else if b == 5 {
        0x100_0000_0000
    } else if b == 6 {
        0x1_0000_0000_0000
    } else {
        0x100_0000_0000_0000
    }
}

/// The smallest byte count in `1 ..= size` that covers `v`.
fn bytes_needed_exec(v: u64, size: usize) -> (b: usize)
    requires
        1 <= size <= 8,
    ensures
        b == bytes_needed(v as nat, size as nat),
        1 <= b <= size,
{
    proof {
        lemma_bytes_needed_range(v as nat, size as nat);
    }
    let mut b: usize = size;
    while b > 1
        invariant
            size <= 8,
            1 <= b <= size,
            bytes_needed(v as nat, size as nat) == bytes_needed(v as nat, b as nat),
        ensures
            1 <= b <= size,
            bytes_needed(v as nat, size as nat) == bytes_needed(v as nat, b as nat),
            b == 1 || v >= pow256((b - 1) as nat),
        decreases b,
    {
        let th = pow256_u64(b - 1);
        if v >= th {
            break ;
        }
        b = b - 1;
    }
    b
}

/// The largest value in `input[start .. end]`.
fn max_in(input: &[u64], start: usize, end: usize) -> (m: u64)
    requires
        start <= end <= input@.len(),
    ensures
        m == max_val(input@.subrange(start as int, end as int)),
{
    let mut m: u64 = 0;
    let mut i: usize = start;
    proof {
        assert(input@.subrange(start as int, start as int) =~= Seq::<u64>::empty());
    }
    while i < end
        invariant
            start <= i <= end <= input@.len(),
            m == max_val(input@.subrange(start as int, i as int)),
        decreases end - i,
    {
        let x = input[i];
        proof {
            let s = input@.subrange(start as int, i as int);
            let s2 = input@.subrange(start as int, i + 1);
            assert(s2.drop_last() =~= s);
            assert(s2.last() == input@[i as int]);
        }
        if x > m {
            m = x;
        }
        i = i + 1;
    }
    m
}

/// Packs `input` into `output`, which must be at least as long as the
/// packed stream; returns the number of bytes written.  Bytes at and past
/// the returned count keep their old values.
pub fn enc_u64s(input: &[u64], size: usize, bsz: usize, output: &mut Vec<u8>) -> (r: usize)
    requires
        1 <= size <= 8,
        1 <= bsz,
        forall|i: int| 0 <= i < input@.len() ==> input@[i] < pow256(size as nat),
        enc_stream(input@, size as nat, bsz as nat).len() <= old(output)@.len(),
    ensures
        final(output)@.len() == old(output)@.len(),
        r == enc_stream(input@, size as nat, bsz as nat).len(),
        final(output)@.subrange(0, r as int) == enc_stream(input@, size as nat, bsz as nat),
        forall|t: int| r <= t < final(output)@.len() ==> final(output)@[t] == old(output)@[t],
{
    let ghost stream = enc_stream(input@, size as nat, bsz as nat);
    let n = input.len();
    let len = output.len();
    let mut cnt: usize = 0;
    let mut pos: usize = 0;
    proof {
        assert(input@.skip(0) =~= input@);
        assert(output@.subrange(0, 0) =~= Seq::<u8>::empty());
        assert(Seq::<u8>::empty() + enc_stream(input@.skip(0), size as nat, bsz as nat)
            =~= enc_stream(input@, size as nat, bsz as nat));
    }
    while cnt < n
        invariant
            1 <= size <= 8,
            1 <= bsz,
            cnt <= n,
            n == input@.len(),
            pos <= len,
            len == output@.len(),
            output@.len() == old(output)@.len(),
            forall|i: int| 0 <= i < input@.len() ==> input@[i] < pow256(size as nat),
            stream == enc_stream(input@, size as nat, bsz as nat),
            stream.len() <= len,
            stream == output@.subrange(0, pos as int) + enc_stream(
                input@.skip(cnt as int),
                size as nat,
                bsz as nat,
            ),
            forall|t: int| pos <= t < len ==> output@[t] == old(output)@[t],
        decreases n - cnt,
    {
        let ghost pre = output@;
        let rem = n - cnt;
        let k = if bsz < rem {
            bsz
        } else {
            rem
        };
        let ghost tailvals = input@.skip(cnt as int);
        let ghost chunk = input@.subrange(cnt as int, (cnt + k) as int);
        let ghost sz = size as nat;
        let ghost bz = bsz as nat;
        proof {
            assert(tailvals.take(k as int) =~= chunk);
            assert(tailvals.skip(k as int) =~= input@.skip((cnt + k) as int));
            assert(enc_stream(tailvals, sz, bz) == enc_block(chunk, sz) + enc_stream(
                input@.skip((cnt + k) as int),
                sz,
                bz,
            ));
        }
        let m = max_in(input, cnt, cnt + k);
        let b = bytes_needed_exec(m, size);
        proof {
            lemma_max_val_bound(chunk, pow256(sz));
            lemma_bytes_needed_covers(max_val(chunk), sz);
            lemma_enc_block_len(chunk, sz);
            assert(stream.len() == pos + enc_stream(tailvals, sz, bz).len());
            assert(pos + 1 + k * b <= len);
            assert(b == block_width(chunk, sz));
            assert forall|i: int| 0 <= i < chunk.len() implies chunk[i] < pow256(b as nat) by {
                lemma_max_val_ge(chunk, i);
            }
        }
        output[pos] = b as u8;
        let ghost base = output@;
        let mut j: usize = 0;
        proof {
            assert(base.subrange(pos + 1, pos + 1 + 0) =~= Seq::<u8>::empty());
            assert(vals_bytes(chunk.take(0), b as nat) == Seq::<u8>::empty());
        }
        while j < k
            invariant
                j <= k,
                1 <= b <= 8,
                cnt + k <= n,
                n == input@.len(),
                pos + 1 + k * b <= len,
                len == output@.len(),
                chunk == input@.subrange(cnt as int, (cnt + k) as int),
                forall|i: int| 0 <= i < chunk.len() ==> chunk[i] < pow256(b as nat),
                j * b <= k * b,
                output@.subrange(pos + 1, pos + 1 + j * b) == vals_bytes(
                    chunk.take(j as int),
                    b as nat,
                ),
                forall|t: int|
                    0 <= t < len && !(pos + 1 <= t < pos + 1 + j * b) ==> output@[t] == base[t],
            decreases k - j,
        {
            proof {
                assert(j * b + b == (j + 1) * b && (j + 1) * b <= k * b && j * b >= 0)
                    by (nonlinear_arith)
                    requires
                        0 <= j,
                        j + 1 <= k,
                        b >= 0,
                ;
                assert(input@[(cnt + j) as int] == chunk[j as int]);
            }
            let ghost before = output@;
            put_le(output, pos + 1 + j * b, input[cnt + j], b);
            proof {
                let jj = j as int;
                let bb = b as int;
                lemma_vals_bytes_snoc(chunk.take(jj), chunk[jj], b as nat);
                assert(chunk.take(jj).push(chunk[jj]) =~= chunk.take(jj + 1));
                lemma_vals_bytes_len(chunk.take(jj), b as nat);
                lemma_vals_bytes_len(chunk.take(jj + 1), b as nat);
                crate::pack::lemma_le_bytes_len(chunk[jj] as nat, b as nat);
                assert((jj + 1) * bb == jj * bb + bb) by (nonlinear_arith);
                let lhs = output@.subrange(pos + 1, pos + 1 + (jj + 1) * bb);
                let rhs = vals_bytes(chunk.take(jj + 1), b as nat);
                assert_seqs_equal!(lhs == rhs, t => {
                    if t < jj * bb {
                        assert(output@[pos + 1 + t] == before[pos + 1 + t]);
                        assert(before[pos + 1 + t] == before.subrange(
                            pos + 1,
                            pos + 1 + jj * bb,
                        )[t]);
                        assert(rhs[t] == vals_bytes(chunk.take(jj), b as nat)[t]);
                    } else {
                        let w = output@.subrange(
                            pos + 1 + jj * bb,
                            pos + 1 + jj * bb + bb,
                        );
                        assert(w == le_bytes(chunk[jj] as nat, b as nat));
                        assert(w[t - jj * bb] == output@[pos + 1 + t]);
                        assert(rhs[t] == le_bytes(chunk[jj] as nat, b as nat)[t - jj * bb]);
                    }
                });
                assert forall|t: int|
                    0 <= t < len && !(pos + 1 <= t < pos + 1 + (jj + 1) * bb) implies output@[t]
                    == base[t] by {
                    assert(output@[t] == before[t]);
                }
            }
            j = j + 1;
        }
        proof {
            let kk = k as int;
            let bb = b as int;
            assert(chunk.take(kk) =~= chunk);
            // the bytes just written form exactly the block
            let eb = enc_block(chunk, sz);
            let written = output@.subrange(pos as int, pos + 1 + kk * bb);
            lemma_vals_bytes_len(chunk, b as nat);
            assert_seqs_equal!(written == eb, t => {
                if t == 0 {
                    assert(output@[pos as int] == base[pos as int]);
                    assert(base[pos as int] == b as u8);
                } else {
                    assert(output@[pos + t] == output@.subrange(
                        pos + 1,
                        pos + 1 + kk * bb,
                    )[t - 1]);
                }
            });
            // the already-written prefix is untouched
            assert(base == pre.update(pos as int, b as u8));
            assert forall|t: int| 0 <= t < pos implies output@[t] == pre[t] by {
                assert(output@[t] == base[t]);
                assert(base[t] == pre[t]);
            }
            assert(output@.subrange(0, pos as int) =~= pre.subrange(0, pos as int));
            // the bytes past the block are untouched
            assert forall|t: int| pos + 1 + kk * bb <= t < len implies output@[t] == old(
                output,
            )@[t] by {
                assert(output@[t] == base[t]);
                assert(base[t] == pre[t]);
                assert(pre[t] == old(output)@[t]);
            }
            // stitch the new block onto the written prefix
            assert(output@.subrange(0, pos + 1 + kk * bb) =~= output@.subrange(0, pos as int)
                + written);
            assert((output@.subrange(0, pos as int) + written) + enc_stream(
                input@.skip((cnt + k) as int),
                sz,
                bz,
            ) =~= output@.subrange(0, pos as int) + (written + enc_stream(
                input@.skip((cnt + k) as int),
                sz,
                bz,
            )));
            assert(stream == output@.subrange(0, pos + 1 + kk * bb) + enc_stream(
                input@.skip((cnt + k) as int),
                sz,
                bz,
            ));
        }
        pos = pos + 1 + k * b;
        cnt = cnt + k;
    }
    proof {
        assert(input@.skip(cnt as int) =~= Seq::<u64>::empty());
        assert(enc_stream(Seq::<u64>::empty(), size as nat, bsz as nat) == Seq::<u8>::empty());
        assert(stream =~= output@.subrange(0, pos as int) + Seq::<u8>::empty());
        assert(stream =~= output@.subrange(0, pos as int));
    }
    pos
}

/// Unpacks `n` values from `input` into `output[0 .. n]`; returns the
/// number of bytes read, or 0 when the input is malformed.  Entries at and
/// past `n` keep their old values.
pub fn dec_u64s(input: &[u8], n: usize, size: usize, bsz: usize, output: &mut Vec<u64>) -> (r:
    usize)
    requires
        1 <= size <= 8,
        1 <= bsz <= 0x10000,
        n <= old(output)@.len(),
    ensures
        final(output)@.len() == old(output)@.len(),
        forall|t: int| n <= t < final(output)@.len() ==> final(output)@[t] == old(output)@[t],
        forall|t: int|
            0 <= t < n ==> final(output)@[t] < pow256(size as nat) || final(output)@[t] == old(
                output,
            )@[t],
        match dec_stream(input@, n as nat, size as nat, bsz as nat) {
            Option::Some(vu) => final(output)@.subrange(0, n as int) == vu.0 && r == vu.1,
            Option::None => r == 0,
        },
{
    let ghost sz = size as nat;
    let ghost bz = bsz as nat;
    let ghost whole = dec_stream(input@, n as nat, sz, bz);
    let in_len = input.len();
    let out_len = output.len();
    let mut cnt: usize = 0;
    let mut pos: usize = 0;
    proof {
        assert(input@.skip(0) =~= input@);
        if whole is Some {
            let (v, u) = whole.unwrap();
            assert(v.skip(0) =~= v);
            assert(output@.subrange(0, 0) =~= v.subrange(0, 0));
        }
    }
    while cnt < n
        invariant
            1 <= size <= 8,
            1 <= bsz <= 0x10000,
            cnt <= n,
            pos <= in_len,
            in_len == input@.len(),
            n <= out_len,
            out_len == output@.len(),
            output@.len() == old(output)@.len(),
            whole == dec_stream(input@, n as nat, sz, bz),
            sz == size as nat,
            bz == bsz as nat,
            forall|t: int| n <= t < output@.len() ==> output@[t] == old(output)@[t],
            forall|t: int| cnt <= t < n ==> output@[t] == old(output)@[t],
            forall|t: int| 0 <= t < cnt ==> output@[t] < pow256(sz),
            match whole {
                Option::Some(vu) => {
                    &&& dec_stream(input@.skip(pos as int), (n - cnt) as nat, sz, bz) == Some(
                        (vu.0.skip(cnt as int), (vu.1 - pos) as nat),
                    )
                    &&& output@.subrange(0, cnt as int) == vu.0.subrange(0, cnt as int)
                    &&& pos <= vu.1
                },
                Option::None => dec_stream(input@.skip(pos as int), (n - cnt) as nat, sz, bz)
                    is None,
            },
        decreases n - cnt,
    {
        let ghost tail = input@.skip(pos as int);
        let rem_in = in_len - pos;
        if rem_in < 1 {
            proof {
                assert(dec_stream(tail, (n - cnt) as nat, sz, bz) is None);
            }
            return 0;
        }
        let b = input[pos] as usize;
        if b < 1 || b > size {
            proof {
                assert(tail[0] == input@[pos as int]);
                assert(dec_stream(tail, (n - cnt) as nat, sz, bz) is None);
            }
            return 0;
        }
        let rem = n - cnt;
        let k = if bsz < rem {
            bsz
        } else {
            rem
        };
        if (rem_in - 1) / b < k {
            proof {
                assert(tail[0] == input@[pos as int]);
                assert(tail.len() == rem_in);
                assert(tail.len() < 1 + k * b) by (nonlinear_arith)
                    requires
                        tail.len() == rem_in,
                        rem_in >= 1,
                        (rem_in - 1) / (b as int) < k,
                        b >= 1,
                        k >= 0,
                ;
                assert(dec_stream(tail, (n - cnt) as nat, sz, bz) is None);
            }
            return 0;
        }
        proof {
            assert(1 + k * b <= rem_in) by (nonlinear_arith)
                requires
                    rem_in >= 1,
                    (rem_in - 1) / (b as int) >= k,
                    b >= 1,
                    k >= 0,
            ;
        }
        let ghost blockvals = Seq::new(
            k as nat,
            |j: int| le_value(tail.subrange(1 + j * b, 1 + (j + 1) * b)) as u64,
        );
        let ghost blockstart = output@;
        let mut j: usize = 0;
        while j < k
            invariant
                j <= k,
                1 <= b <= 8,
                cnt + k <= n,
                n <= out_len,
                out_len == output@.len(),
                pos + 1 + k * b <= in_len,
                in_len == input@.len(),
                1 <= size <= 8,
                b <= size,
                sz == size as nat,
                tail == input@.skip(pos as int),
                blockvals == Seq::new(
                    k as nat,
                    |jj: int| le_value(tail.subrange(1 + jj * b, 1 + (jj + 1) * b)) as u64,
                ),
                forall|t: int| 0 <= t < j ==> #[trigger] output@[cnt + t] == blockvals[t],
                forall|t: int| 0 <= t < j ==> #[trigger] output@[cnt + t] < pow256(sz),
                forall|t: int| 0 <= t < output@.len() && !(cnt <= t < cnt + j) ==> output@[t]
                    == blockstart[t],
            decreases k - j,
        {
            proof {
                assert(j * b + b == (j + 1) * b && (j + 1) * b <= k * b && j * b >= 0)
                    by (nonlinear_arith)
                    requires
                        0 <= j,
                        j + 1 <= k,
                        b >= 0,
                ;
            }
            let v = get_le(input, pos + 1 + j * b, b);
            proof {
                let jj = j as int;
                let bb = b as int;
                let lhs = input@.subrange(pos + 1 + jj * bb, pos + 1 + jj * bb + bb);
                let rhs = tail.subrange(1 + jj * bb, 1 + (jj + 1) * bb);
                assert_seqs_equal!(lhs == rhs, t => {
                    assert(rhs[t] == tail[1 + jj * bb + t]);
                    assert(tail[1 + jj * bb + t] == input@[pos + 1 + jj * bb + t]);
                });
                lemma_pow256_monotone(b as nat, sz);
            }
            output[cnt + j] = v;
            j = j + 1;
        }
        proof {
            let kk = k as int;
            let bb = b as int;
            let ghost newtail = input@.skip(pos + 1 + kk * bb);
            assert(tail.skip(1 + kk * bb) =~= newtail);
            assert(tail[0] == input@[pos as int]);
            assert(tail[0] as nat == b as nat);
            // one definitional step of the decoder
            assert(dec_stream(tail, (n - cnt) as nat, sz, bz) == match dec_stream(
                newtail,
                (n - cnt - k) as nat,
                sz,
                bz,
            ) {
                Option::None => Option::<(Seq<u64>, nat)>::None,
                Option::Some((rest, used)) => Option::Some(
                    ((blockvals + rest), (1 + kk * bb + used) as nat),
                ),
            });
            if whole is Some {
                let (v, u) = whole.unwrap();
                lemma_dec_stream_props(input@, n as nat, sz, bz);
                assert(v.len() == n);
                let oldskip = v.skip(cnt as int);
                assert(dec_stream(tail, (n - cnt) as nat, sz, bz) == Some(
                    (oldskip, (u - pos) as nat),
                ));
                let rest = dec_stream(newtail, (n - cnt - k) as nat, sz, bz).unwrap().0;
                let used = dec_stream(newtail, (n - cnt - k) as nat, sz, bz).unwrap().1;
                assert(blockvals + rest == oldskip);
                assert(1 + kk * bb + used == u - pos);
                assert(rest =~= oldskip.skip(kk));
                assert(oldskip.skip(kk) =~= v.skip(cnt + kk));
                assert(dec_stream(newtail, (n - (cnt + k)) as nat, sz, bz) == Some(
                    (v.skip(cnt + kk), (u - (pos + 1 + kk * bb)) as nat),
                ));
                // the decoded prefix now extends over the block
                assert forall|t: int| 0 <= t < cnt + kk implies output@[t] == v[t] by {
                    if t < cnt {
                        assert(output@[t] == blockstart[t]);
                        assert(blockstart.subrange(0, cnt as int)
                            == v.subrange(0, cnt as int));
                        assert(blockstart[t] == blockstart.subrange(0, cnt as int)[t]);
                    } else {
                        assert(output@[cnt + (t - cnt)] == blockvals[t - cnt]);
                        assert(oldskip[t - cnt] == v[t]);
                        assert(blockvals[t - cnt] == (blockvals + rest)[t - cnt]);
                    }
                }
                assert(output@.subrange(0, cnt + kk) =~= v.subrange(0, cnt + kk));
            } else {
                assert(dec_stream(newtail, (n - (cnt + k)) as nat, sz, bz) is None);
            }
            assert forall|t: int| 0 <= t < cnt + kk implies output@[t] < pow256(sz) by {
                if t < cnt {
                    assert(output@[t] == blockstart[t]);
                } else {
                    assert(output@[cnt + (t - cnt)] < pow256(sz));
                }
            }
        }
        pos = pos + 1 + k * b;
        cnt = cnt + k;
    }
    proof {
        assert(dec_stream(input@.skip(pos as int), 0, sz, bz) == Some((Seq::<u64>::empty(), 0nat)));
        if whole is Some {
            let (v, u) = whole.unwrap();
            assert((u - pos) as nat == 0);
            assert(pos == u);
            assert(output@.subrange(0, n as int) == v.subrange(0, n as int));
            lemma_dec_stream_props(input@, n as nat, sz, bz);
            assert(v.subrange(0, n as int) =~= v);
        }
    }
    pos
}

} // verus!
