//! Random sample generators for the four data-shape families.
//!
//! Each generator's contract states the family precondition its output
//! satisfies: nothing for the unsorted families, non-decreasing runs for
//! the ordered one, strictly increasing runs for the duplicate-free one.
//! Randomness itself promises nothing; only the shape is specified.
use vstd::prelude::*;
use crate::pow256;
use crate::pack::lemma_pow256_u64;

verus! {

/// Relies on rand::random: one draw of a full-range `u64`.  Nothing can be
/// promised of a random value, so nothing is.
#[verifier::external_body]
fn rand_u64() -> u64 {
    rand::random::<u64>()
}

/// The integer arithmetic the sample generators need of an element type:
/// a plain 64-bit reading of each value, and the way back.
pub trait Arithmetic where Self: Sized + Copy {
    /// The element as a plain 64-bit value.
    spec fn to64(v: Self) -> u64;

    /// The element width in bytes.
    spec fn byte_size() -> nat;

    /// The type's values fill the range of its width.
    proof fn range_facts()
        ensures
            1 <= Self::byte_size() <= 8,
            forall|v: Self| #[trigger] Self::to64(v) < pow256(Self::byte_size()),
    ;

    /// The element as a plain 64-bit value.
    fn as64(self) -> (r: u64)
        ensures
            r == Self::to64(self),
    ;

    /// An element from a plain 64-bit value within the type's range.
    fn from64(v: u64) -> (r: Self)
        requires
            v < pow256(Self::byte_size()),
        ensures
            Self::to64(r) == v,
    ;

    /// The largest value of the type.
    fn max_value() -> (r: Self)
        ensures
            Self::to64(r) == pow256(Self::byte_size()) - 1,
    ;

    /// One random value of the type.
    fn sample_one() -> (r: Self);
}

impl Arithmetic for u8 {
    open spec fn to64(v: u8) -> u64 {
        v as u64
    }

    open spec fn byte_size() -> nat {
        1
    }

    proof fn range_facts() {
        lemma_pow256_u64();
    }

    fn as64(self) -> (r: u64) {
        self as u64
    }

    fn from64(v: u64) -> (r: u8) {
        proof {
            lemma_pow256_u64();
        }
        v as u8
    }

    fn max_value() -> (r: u8) {
        proof {
            lemma_pow256_u64();
        }
        u8::MAX
    }

    fn sample_one() -> (r: u8) {
        rand_u64() as u8
    }
}

impl Arithmetic for u16 {
    open spec fn to64(v: u16) -> u64 {
        v as u64
    }

    open spec fn byte_size() -> nat {
        2
    }

    proof fn range_facts() {
        lemma_pow256_u64();
    }

    fn as64(self) -> (r: u64) {
        self as u64
    }

    fn from64(v: u64) -> (r: u16) {
        proof {
            lemma_pow256_u64();
        }
        v as u16
    }

    fn max_value() -> (r: u16) {
        proof {
            lemma_pow256_u64();
        }
        u16::MAX
    }

    fn sample_one() -> (r: u16) {
        rand_u64() as u16
    }
}

impl Arithmetic for u32 {
    open spec fn to64(v: u32) -> u64 {
        v as u64
    }

    open spec fn byte_size() -> nat {
        4
    }

    proof fn range_facts() {
        lemma_pow256_u64();
    }

    fn as64(self) -> (r: u64) {
        self as u64
    }

    fn from64(v: u64) -> (r: u32) {
        proof {
            lemma_pow256_u64();
        }
        v as u32
    }

    fn max_value() -> (r: u32) {
        proof {
            lemma_pow256_u64();
        }
        u32::MAX
    }

    fn sample_one() -> (r: u32) {
        rand_u64() as u32
    }
}

impl Arithmetic for u64 {
    open spec fn to64(v: u64) -> u64 {
        v
    }

    open spec fn byte_size() -> nat {
        8
    }

    proof fn range_facts() {
        lemma_pow256_u64();
    }

    fn as64(self) -> (r: u64) {
        self
    }

    fn from64(v: u64) -> (r: u64) {
        v
    }

    fn max_value() -> (r: u64) {
        proof {
            lemma_pow256_u64();
        }
        u64::MAX
    }

    fn sample_one() -> (r: u64) {
        rand_u64()
    }
}

/// In a strictly increasing run, earlier values stay below later ones.
proof fn lemma_strict_mono(vals: Seq<u64>, i: int, j: int)
    requires
        forall|t: int| 0 < t < vals.len() ==> #[trigger] vals[t - 1] < vals[t],
        0 <= i < j < vals.len(),
    ensures
        vals[i] < vals[j],
    decreases j - i,
{
    if i + 1 < j {
        lemma_strict_mono(vals, i, j - 1);
    }
    assert(vals[j - 1] < vals[j]);
}

/// A strictly increasing sequence never holds a value twice: what the
/// duplicate-free family's sample generator guarantees of its output.
pub proof fn lemma_strictly_increasing_distinct(vals: Seq<u64>)
    requires
        forall|t: int| 0 < t < vals.len() ==> #[trigger] vals[t - 1] < vals[t],
    ensures
        forall|i: int, j: int| 0 <= i < vals.len() && 0 <= j < vals.len() && i != j ==> vals[i]
            != vals[j],
{
    assert forall|i: int, j: int|
        0 <= i < vals.len() && 0 <= j < vals.len() && i != j implies vals[i] != vals[j] by {
        if i < j {
            lemma_strict_mono(vals, i, j);
        } else {
            lemma_strict_mono(vals, j, i);
        }
    }
}

/// A whole sequence read as plain 64-bit values.
pub open spec fn to64_seq<T: Arithmetic>(s: Seq<T>) -> Seq<u64> {
    Seq::new(s.len(), |i: int| T::to64(s[i]))
}

/// `len` random values with no ordering assumption.
pub fn sample_standard<T: Arithmetic>(len: usize) -> (r: Vec<T>)
    ensures
        r@.len() == len,
{
    let mut result: Vec<T> = Vec::new();
    let mut i: usize = 0;
    while i < len
        invariant
            i <= len,
            result@.len() == i,
        decreases len - i,
    {
        result.push(T::sample_one());
        i = i + 1;
    }
    result
}

/// Random data whose successive gaps all lie in
/// `delta_min ..= delta_max`: non-decreasing for `delta_min` 0, strictly
/// increasing for `delta_min` 1.  The run is cut short of `len` where the
/// next step would leave the type's range.
pub fn sample_increasing<T: Arithmetic>(len: usize, delta_min: u8, delta_max: u8) -> (r: Vec<
    T,
>)
    requires
        delta_min <= delta_max,
    ensures
        r@.len() <= len,
        forall|i: int|
            0 < i < r@.len() ==> T::to64(#[trigger] r@[i - 1]) + delta_min <= T::to64(r@[i])
                <= T::to64(r@[i - 1]) + delta_max,
{
    let mut result: Vec<T> = Vec::new();
    if len == 0 {
        return result;
    }
    proof {
        T::range_facts();
    }
    let top = T::max_value().as64();
    let mut current: T = T::sample_one();
    result.push(current);
    let span = (delta_max - delta_min) as u64;
    let mut filled: usize = 0;
    while filled < len - 1
        invariant_except_break
            len >= 1,
            filled < len,
            result@.len() == filled + 1,
            delta_min <= delta_max,
            span == delta_max - delta_min,
            top == pow256(T::byte_size()) - 1,
            1 <= T::byte_size() <= 8,
            forall|v: T| #[trigger] T::to64(v) < pow256(T::byte_size()),
            current == result@.last(),
            forall|i: int|
                0 < i < result@.len() ==> T::to64(#[trigger] result@[i - 1]) + delta_min <= T::to64(
                    result@[i],
                ) <= T::to64(result@[i - 1]) + delta_max,
        ensures
            result@.len() <= len,
            forall|i: int|
                0 < i < result@.len() ==> T::to64(#[trigger] result@[i - 1]) + delta_min <= T::to64(
                    result@[i],
                ) <= T::to64(result@[i - 1]) + delta_max,
        decreases len - 1 - filled,
    {
        let draw = rand_u64() % (span + 1);
        let delta = delta_min as u64 + draw;
        let cur64 = current.as64();
        if cur64 > top - delta {
            let ghost before = result@;
            result.truncate(filled);
            proof {
                assert(result@ =~= before.subrange(0, filled as int));
            }
            break ;
        }
        current = T::from64(cur64 + delta);
        result.push(current);
        filled = filled + 1;
    }
    result
}

} // verus!
