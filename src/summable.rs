//! Element types that the tree can sum: an identity value and an in-place
//! accumulation that together form a monoid.
use vstd::prelude::*;

verus! {

/// A value type with an additive identity and an in-place accumulation.
///
/// Accumulation must be associative and the identity must be neutral on both
/// sides; commutativity is not needed, since the tree always accumulates the
/// left operand before the right one.
pub trait Summable: Sized {
    /// The identity value.
    spec fn zero_spec() -> Self;

    /// The result of accumulating `rhs` into `self`.
    spec fn combine(self, rhs: Self) -> Self;

    proof fn lemma_combine_associative(a: Self, b: Self, c: Self)
        ensures
            a.combine(b).combine(c) == a.combine(b.combine(c)),
    ;

    proof fn lemma_zero_identity(a: Self)
        ensures
            Self::zero_spec().combine(a) == a,
            a.combine(Self::zero_spec()) == a,
    ;

    fn zero() -> (r: Self)
        ensures
            r == Self::zero_spec(),
    ;

    fn accumulate(&mut self, rhs: &Self)
        ensures
            *final(self) == old(self).combine(*rhs),
    ;
}

/// The accumulation of `s[lo..hi]` from left to right, starting at the identity.
pub open spec fn range_sum<T: Summable>(s: Seq<T>, lo: int, hi: int) -> T
    decreases hi - lo,
{
    if hi <= lo {
        T::zero_spec()
    } else {
        range_sum(s, lo, hi - 1).combine(s[hi - 1])
    }
}

/// A range sum splits at any point inside the range.
pub proof fn lemma_range_sum_split<T: Summable>(s: Seq<T>, lo: int, mid: int, hi: int)
    requires
        lo <= mid <= hi,
    ensures
        range_sum(s, lo, hi) == range_sum(s, lo, mid).combine(range_sum(s, mid, hi)),
    decreases hi - mid,
{
    if hi == mid {
        T::lemma_zero_identity(range_sum(s, lo, mid));
    } else {
        lemma_range_sum_split(s, lo, mid, hi - 1);
        T::lemma_combine_associative(range_sum(s, lo, mid), range_sum(s, mid, hi - 1), s[hi - 1]);
    }
}

/// The sum of one element is that element.
pub proof fn lemma_range_sum_single<T: Summable>(s: Seq<T>, i: int)
    ensures
        range_sum(s, i, i + 1) == s[i],
{
    assert(range_sum(s, i, i) == T::zero_spec());
    T::lemma_zero_identity(s[i]);
}

/// A range sum depends only on the elements inside the range.
pub proof fn lemma_range_sum_same<T: Summable>(s1: Seq<T>, s2: Seq<T>, lo: int, hi: int)
    requires
        forall|k: int| lo <= k < hi ==> s1[k] == s2[k],
    ensures
        range_sum(s1, lo, hi) == range_sum(s2, lo, hi),
    decreases hi - lo,
{
    if hi > lo {
        lemma_range_sum_same(s1, s2, lo, hi - 1);
    }
}

/// Wrapping addition modulo `2^32`.
impl Summable for u32 {
    open spec fn zero_spec() -> u32 {
        0
    }

    open spec fn combine(self, rhs: u32) -> u32 {
        if self + rhs > u32::MAX {
            (self + rhs - 0x1_0000_0000) as u32
        } else {
            (self + rhs) as u32
        }
    }

    proof fn lemma_combine_associative(a: u32, b: u32, c: u32) {
    }

    proof fn lemma_zero_identity(a: u32) {
    }

    fn zero() -> (r: u32) {
        0
    }

    fn accumulate(&mut self, rhs: &u32) {
        *self = self.wrapping_add(*rhs);
    }
}

/// Wrapping addition modulo `2^64`.
impl Summable for u64 {
    open spec fn zero_spec() -> u64 {
        0
    }

    open spec fn combine(self, rhs: u64) -> u64 {
        if self + rhs > u64::MAX {
            (self + rhs - 0x1_0000_0000_0000_0000) as u64
        } else {
            (self + rhs) as u64
        }
    }

    proof fn lemma_combine_associative(a: u64, b: u64, c: u64) {
    }

    proof fn lemma_zero_identity(a: u64) {
    }

    fn zero() -> (r: u64) {
        0
    }

    fn accumulate(&mut self, rhs: &u64) {
        *self = self.wrapping_add(*rhs);
    }
}

/// Wrapping two's complement addition on 32 bits.
impl Summable for i32 {
    open spec fn zero_spec() -> i32 {
        0
    }

    open spec fn combine(self, rhs: i32) -> i32 {
        if self + rhs > i32::MAX {
            (self + rhs - 0x1_0000_0000) as i32
        } else if self + rhs < i32::MIN {
            (self + rhs + 0x1_0000_0000) as i32
        } else {
            (self + rhs) as i32
        }
    }

    proof fn lemma_combine_associative(a: i32, b: i32, c: i32) {
    }

    proof fn lemma_zero_identity(a: i32) {
    }

    fn zero() -> (r: i32) {
        0
    }

    fn accumulate(&mut self, rhs: &i32) {
        *self = self.wrapping_add(*rhs);
    }
}

/// Wrapping two's complement addition on 64 bits.
impl Summable for i64 {
    open spec fn zero_spec() -> i64 {
        0
    }

    open spec fn combine(self, rhs: i64) -> i64 {
        if self + rhs > i64::MAX {
            (self + rhs - 0x1_0000_0000_0000_0000) as i64
        } else if self + rhs < i64::MIN {
            (self + rhs + 0x1_0000_0000_0000_0000) as i64
        } else {
            (self + rhs) as i64
        }
    }

    proof fn lemma_combine_associative(a: i64, b: i64, c: i64) {
    }

    proof fn lemma_zero_identity(a: i64) {
    }

    fn zero() -> (r: i64) {
        0
    }

    fn accumulate(&mut self, rhs: &i64) {
        *self = self.wrapping_add(*rhs);
    }
}

} // verus!
