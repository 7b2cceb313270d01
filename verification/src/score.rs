//! Scores: single-precision floating-point numbers, held by their bits.
//!
//! No floating-point arithmetic is done here. A score is the bit pattern of
//! its number, and two scores are compared as their numbers compare: by sign
//! and magnitude, with the two zeros equal and a NaN in no order with
//! anything. Reading a score from text and writing it as text is the
//! caller's.
use vstd::prelude::*;

verus! {

/// The bit that holds the sign.
pub const SIGN_BIT: u32 = 0x8000_0000;

/// The bits of positive infinity: every magnitude above it is a NaN.
pub const INFINITY_BITS: u32 = 0x7F80_0000;

/// A score, held as the bits of a single-precision floating-point number.
///
/// `==` on this type compares the bits; the order of the numbers is
/// `at_most`.
#[derive(Clone, Copy, Debug, PartialEq, Eq, Structural)]
pub struct Score {
    /// The bit pattern of the number.
    pub bits: u32,
}

/// The numeric column of a record that a query reads.
#[derive(Clone, Copy, Debug, PartialEq, Eq, Structural)]
pub enum ScoreField {
    Math,
    Chinese,
    English,
}

impl Score {
    /// The bits without the sign.
    pub open spec fn magnitude(self) -> int {
        (self.bits % SIGN_BIT) as int
    }

    /// Whether the sign bit is set.
    pub open spec fn is_negative(self) -> bool {
        self.bits >= SIGN_BIT
    }

    /// Whether the bits are those of a NaN.
    pub open spec fn is_nan(self) -> bool {
        self.magnitude() > INFINITY_BITS
    }

    /// The place of a number that is no NaN in the order of all such
    /// numbers: its magnitude, counted downwards below zero. Both zeros have
    /// rank zero.
    pub open spec fn rank(self) -> int {
        if self.is_negative() {
            -self.magnitude()
        } else {
            self.magnitude()
        }
    }

    /// Whether this number is less than or equal to `other`. No NaN is.
    pub open spec fn at_most(self, other: Score) -> bool {
        !self.is_nan() && !other.is_nan() && self.rank() <= other.rank()
    }

    /// Whether this score is a NaN.
    pub fn nan(&self) -> (r: bool)
        ensures
            r == self.is_nan(),
    {
        self.bits % SIGN_BIT > INFINITY_BITS
    }

    /// The rank of this score.
    pub fn rank_of(&self) -> (r: i64)
        ensures
            r == self.rank(),
    {
        let magnitude: u32 = self.bits % SIGN_BIT;
        if self.bits >= SIGN_BIT {
            0 - (magnitude as i64)
        } else {
            magnitude as i64
        }
    }

    /// Whether this score is less than or equal to `other`.
    pub fn le(&self, other: Score) -> (r: bool)
        ensures
            r == self.at_most(other),
    {
        !self.nan() && !other.nan() && self.rank_of() <= other.rank_of()
    }

    /// Whether this score lies between `lo` and `hi`, both included.
    pub fn within(&self, lo: Score, hi: Score) -> (r: bool)
        ensures
            r == in_range(*self, lo, hi),
    {
        lo.le(*self) && self.le(hi)
    }
}

/// Whether `lo <= v <= hi`.
pub open spec fn in_range(v: Score, lo: Score, hi: Score) -> bool {
    lo.at_most(v) && v.at_most(hi)
}

/// Among the numbers that are no NaN, `at_most` is a total order: each is
/// at most itself, any two compare one way or the other, and the relation
/// passes along a chain.
pub proof fn lemma_at_most_orders(a: Score, b: Score, c: Score)
    ensures
        !a.is_nan() ==> a.at_most(a),
        !a.is_nan() && !b.is_nan() ==> a.at_most(b) || b.at_most(a),
        a.at_most(b) && b.at_most(c) ==> a.at_most(c),
{
}

/// A range holds a score only if its lower bound is at most its upper bound.
pub proof fn lemma_range_needs_order(v: Score, lo: Score, hi: Score)
    requires
        in_range(v, lo, hi),
    ensures
        lo.at_most(hi),
{
}

} // verus!
