//! Single-precision values held by their bit pattern.
//!
//! The geometry pipeline stores positions, signed distances and depths as
//! IEEE 754 binary32 values. The library moves, orders and classifies them; it
//! never adds or multiplies them. Holding the bit pattern keeps every one of
//! those operations an exact statement about an integer.

use vstd::prelude::*;

verus! {

/// Bit pattern of positive infinity.
pub const INF_BITS: u32 = 0x7f80_0000;

/// The lowest bit pattern whose sign bit is set.
pub const SIGN_BIT: u32 = 0x8000_0000;

/// A binary32 value, by its bit pattern.
#[derive(Clone, Copy, Debug, PartialEq, Eq, Structural)]
pub struct F32 {
    pub bits: u32,
}

impl F32 {
    /// The pattern without its sign bit.
    pub open spec fn magnitude(self) -> int {
        if self.bits < SIGN_BIT {
            self.bits as int
        } else {
            self.bits - SIGN_BIT
        }
    }

    /// Neither a number nor an infinity.
    pub open spec fn nan(self) -> bool {
        self.magnitude() > INF_BITS
    }

    /// A number: not an infinity and not a NaN.
    pub open spec fn finite(self) -> bool {
        self.magnitude() < INF_BITS
    }

    /// An integer that orders the values that are not NaN; both zeros have 0.
    pub open spec fn rank(self) -> int {
        if self.bits < SIGN_BIT {
            self.bits as int
        } else {
            SIGN_BIT - self.bits
        }
    }

    /// An integer that orders all bit patterns as IEEE 754 `totalOrder` does:
    /// negative NaN, negative numbers, `-0`, `+0`, positive numbers, NaN.
    pub open spec fn total_rank(self) -> int {
        if self.bits < SIGN_BIT {
            self.bits as int
        } else {
            SIGN_BIT - self.bits - 1
        }
    }

    /// `self < other` as IEEE 754 compares: false if either is a NaN.
    pub open spec fn spec_lt(self, other: F32) -> bool {
        !self.nan() && !other.nan() && self.rank() < other.rank()
    }

    /// `self <= other` as IEEE 754 compares: false if either is a NaN.
    pub open spec fn spec_le(self, other: F32) -> bool {
        !self.nan() && !other.nan() && self.rank() <= other.rank()
    }

    /// `self == 0`, of either sign.
    pub open spec fn zero_value(self) -> bool {
        self.bits == 0 || self.bits == SIGN_BIT
    }

    /// `self > 0`.
    pub open spec fn positive(self) -> bool {
        0 < self.bits <= INF_BITS
    }

    /// `self < 0`.
    pub open spec fn negative(self) -> bool {
        SIGN_BIT < self.bits <= SIGN_BIT + INF_BITS
    }

    pub fn from_bits(bits: u32) -> (r: F32)
        ensures
            r == (F32 { bits }),
    {
        F32 { bits }
    }

    pub fn is_nan(self) -> (r: bool)
        ensures
            r == self.nan(),
    {
        if self.bits < SIGN_BIT {
            self.bits > INF_BITS
        } else {
            self.bits - SIGN_BIT > INF_BITS
        }
    }

    pub fn is_finite(self) -> (r: bool)
        ensures
            r == self.finite(),
    {
        if self.bits < SIGN_BIT {
            self.bits < INF_BITS
        } else {
            self.bits - SIGN_BIT < INF_BITS
        }
    }

    pub fn is_zero(self) -> (r: bool)
        ensures
            r == self.zero_value(),
    {
        self.bits == 0 || self.bits == SIGN_BIT
    }

    pub fn is_positive(self) -> (r: bool)
        ensures
            r == self.positive(),
    {
        0 < self.bits && self.bits <= INF_BITS
    }

    pub fn is_negative(self) -> (r: bool)
        ensures
            r == self.negative(),
    {
        SIGN_BIT < self.bits && self.bits <= 0xff80_0000
    }

    /// The integer that orders the values that are not NaN.
    pub fn to_rank(self) -> (r: i64)
        ensures
            r == self.rank(),
    {
        if self.bits < SIGN_BIT {
            self.bits as i64
        } else {
            0x8000_0000i64 - self.bits as i64
        }
    }

    /// The integer that orders all bit patterns.
    pub fn to_total_rank(self) -> (r: i64)
        ensures
            r == self.total_rank(),
    {
        if self.bits < SIGN_BIT {
            self.bits as i64
        } else {
            0x7fff_ffffi64 - self.bits as i64
        }
    }

    pub fn lt(self, other: F32) -> (r: bool)
        ensures
            r == self.spec_lt(other),
    {
        !self.is_nan() && !other.is_nan() && self.to_rank() < other.to_rank()
    }

    pub fn le(self, other: F32) -> (r: bool)
        ensures
            r == self.spec_le(other),
    {
        !self.is_nan() && !other.is_nan() && self.to_rank() <= other.to_rank()
    }
}

/// Zero, the bound that `positive` and `negative` compare with.
pub open spec fn zero() -> F32 {
    F32 { bits: 0 }
}

/// `positive` and `negative` are the comparisons with zero.
pub proof fn sign_tests_compare_with_zero(v: F32)
    ensures
        v.positive() <==> zero().spec_lt(v),
        v.negative() <==> v.spec_lt(zero()),
{
}

/// Total order ranks tell bit patterns apart.
pub proof fn total_rank_is_injective(a: F32, b: F32)
    ensures
        a.total_rank() == b.total_rank() <==> a == b,
{
}

/// On values that are not NaN the total order refines `<=`: it only adds that
/// `-0` comes before `+0`.
pub proof fn total_rank_refines_le(a: F32, b: F32)
    requires
        !a.nan(),
        !b.nan(),
    ensures
        a.spec_lt(b) ==> a.total_rank() < b.total_rank(),
        a.total_rank() <= b.total_rank() ==> a.spec_le(b),
{
}

/// The bits of positive numbers are ordered as the numbers are.
pub proof fn positive_numbers_order_by_bits(a: F32, b: F32)
    requires
        a.positive(),
        b.positive(),
    ensures
        a.spec_lt(b) <==> a.bits < b.bits,
{
}

/// Of two values that are not NaN one is at most the other, and both are only if they are equal as
/// numbers.
pub proof fn numbers_are_ordered(a: F32, b: F32)
    requires
        !a.nan(),
        !b.nan(),
    ensures
        a.spec_lt(b) || b.spec_lt(a) || a == b || a.zero_value() && b.zero_value(),
        a.spec_le(b) <==> !b.spec_lt(a),
        a.spec_lt(b) ==> a.spec_le(b) && a != b,
{
}

/// Nothing is ordered with a NaN.
pub proof fn nans_are_not_ordered(a: F32, b: F32)
    requires
        a.nan(),
    ensures
        !a.spec_lt(b) && !b.spec_lt(a) && !a.spec_le(b) && !b.spec_le(a),
        !a.positive() && !a.negative() && !a.finite() && !a.zero_value(),
{
}

/// `b` is `a` with its sign turned: signs and order turn with it.
pub proof fn turning_signs_turns_the_order(a: F32, b: F32, c: F32, d: F32)
    requires
        a.bits < SIGN_BIT,
        c.bits < SIGN_BIT,
        b.bits == a.bits + SIGN_BIT,
        d.bits == c.bits + SIGN_BIT,
    ensures
        a.positive() == b.negative(),
        !a.negative() && !b.positive(),
        a.nan() == b.nan(),
        a.finite() == b.finite(),
        a.spec_lt(c) == d.spec_lt(b),
        b.rank() == -a.rank(),
{
}

/// No number is above infinity or below its negative, and all others are finite.
pub proof fn infinity_bounds_the_numbers(a: F32)
    requires
        !a.nan(),
    ensures
        a.spec_le(F32 { bits: INF_BITS }),
        (F32 { bits: (SIGN_BIT + INF_BITS) as u32 }).spec_le(a),
        a.finite() <==> a.spec_lt(F32 { bits: INF_BITS }) && (F32 {
            bits: (SIGN_BIT + INF_BITS) as u32,
        }).spec_lt(a),
{
}

} // verus!
