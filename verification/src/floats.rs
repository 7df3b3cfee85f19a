//! IEEE-754 values held as their bit patterns.
//!
//! The library never does floating-point arithmetic: it orders, tests and moves
//! values that were computed elsewhere. All of that is integer work on the bits.

use vstd::prelude::*;

verus! {

/// A 32-bit float, as its bit pattern.
#[derive(Debug, Clone, Copy, PartialEq, Eq, Structural)]
pub struct Single {
    /// `to_bits` of the value.
    pub bits: u32,
}

/// A 64-bit float, as its bit pattern.
#[derive(Debug, Clone, Copy, PartialEq, Eq, Structural)]
pub struct Double {
    /// `to_bits` of the value.
    pub bits: u64,
}

/// Bit pattern of `1.0` in 32 bits.
pub const SINGLE_ONE: u32 = 0x3f80_0000;

/// Bit pattern of `1.0` in 64 bits.
pub const DOUBLE_ONE: u64 = 0x3ff0_0000_0000_0000;

impl Single {
    /// The sign bit is set.
    pub open spec fn negative(self) -> bool {
        self.bits >= 0x8000_0000u32
    }

    /// The bits below the sign.
    pub open spec fn magnitude(self) -> int {
        if self.negative() {
            self.bits - 0x8000_0000
        } else {
            self.bits as int
        }
    }

    /// Not a number.
    pub open spec fn nan(self) -> bool {
        self.magnitude() > 0x7f80_0000
    }

    /// Neither infinite nor not-a-number.
    pub open spec fn finite(self) -> bool {
        self.magnitude() < 0x7f80_0000
    }

    /// An integer that orders the values other than NaN as the reals they stand
    /// for; both zeros are `0`.
    pub open spec fn num(self) -> int {
        if self.negative() {
            -self.magnitude()
        } else {
            self.magnitude()
        }
    }

    /// An integer that orders every bit pattern by the IEEE total order.
    pub open spec fn order(self) -> int {
        if self.negative() {
            -self.magnitude() - 1
        } else {
            self.magnitude()
        }
    }

    /// `a > b` as floats compare: false when either is NaN.
    pub open spec fn above(self, other: Single) -> bool {
        !self.nan() && !other.nan() && self.num() > other.num()
    }

    /// `a == b` as floats compare: false when either is NaN, true of both zeros.
    pub open spec fn same_value(self, other: Single) -> bool {
        !self.nan() && !other.nan() && self.num() == other.num()
    }

    /// Positive zero.
    pub fn zero() -> (r: Single)
        ensures
            r.bits == 0,
            r.num() == 0,
            r.finite(),
    {
        Single { bits: 0 }
    }

    /// `1.0`.
    pub fn one() -> (r: Single)
        ensures
            r.bits == SINGLE_ONE,
            r.finite(),
    {
        Single { bits: SINGLE_ONE }
    }

    fn is_negative(self) -> (r: bool)
        ensures
            r == self.negative(),
    {
        self.bits >= 0x8000_0000u32
    }

    fn magnitude_bits(self) -> (r: u32)
        ensures
            r == self.magnitude(),
            r < 0x8000_0000u32,
    {
        if self.bits >= 0x8000_0000u32 {
            self.bits - 0x8000_0000u32
        } else {
            self.bits
        }
    }

    /// `true` for NaN.
    pub fn is_nan(self) -> (r: bool)
        ensures
            r == self.nan(),
    {
        self.magnitude_bits() > 0x7f80_0000u32
    }

    /// `true` unless infinite or NaN.
    pub fn is_finite(self) -> (r: bool)
        ensures
            r == self.finite(),
    {
        self.magnitude_bits() < 0x7f80_0000u32
    }

    fn signed(self) -> (r: i64)
        ensures
            r == self.num(),
    {
        let m: i64 = self.magnitude_bits() as i64;
        if self.is_negative() {
            -m
        } else {
            m
        }
    }

    /// `self > other`.
    pub fn gt(self, other: Single) -> (r: bool)
        ensures
            r == self.above(other),
    {
        !self.is_nan() && !other.is_nan() && self.signed() > other.signed()
    }

    /// `self >= other`.
    pub fn ge(self, other: Single) -> (r: bool)
        ensures
            r == (self.above(other) || self.same_value(other)),
    {
        !self.is_nan() && !other.is_nan() && self.signed() >= other.signed()
    }

    /// `self == other`.
    pub fn eq_value(self, other: Single) -> (r: bool)
        ensures
            r == self.same_value(other),
    {
        !self.is_nan() && !other.is_nan() && self.signed() == other.signed()
    }

    /// Place of the value in the IEEE total order.
    pub fn rank(self) -> (r: i64)
        ensures
            r == self.order(),
    {
        let m: i64 = self.magnitude_bits() as i64;
        if self.is_negative() {
            -m - 1
        } else {
            m
        }
    }

    /// The value with its sign turned.
    pub open spec fn negated(self) -> Single {
        Single {
            bits: if self.negative() {
                (self.bits - 0x8000_0000) as u32
            } else {
                (self.bits + 0x8000_0000) as u32
            },
        }
    }

    /// The value with its sign turned.
    pub fn neg(self) -> (r: Single)
        ensures
            r == self.negated(),
            r.num() == -self.num(),
    {
        if self.bits >= 0x8000_0000u32 {
            Single { bits: self.bits - 0x8000_0000u32 }
        } else {
            Single { bits: self.bits + 0x8000_0000u32 }
        }
    }

    /// Absolute value: the sign bit is cleared.
    pub fn abs(self) -> (r: Single)
        ensures
            r.bits == self.magnitude(),
    {
        Single { bits: self.magnitude_bits() }
    }
}

impl Double {
    /// The sign bit is set.
    pub open spec fn negative(self) -> bool {
        self.bits >= 0x8000_0000_0000_0000u64
    }

    /// The bits below the sign.
    pub open spec fn magnitude(self) -> int {
        if self.negative() {
            self.bits - 0x8000_0000_0000_0000
        } else {
            self.bits as int
        }
    }

    /// Not a number.
    pub open spec fn nan(self) -> bool {
        self.magnitude() > 0x7ff0_0000_0000_0000
    }

    /// Neither infinite nor not-a-number.
    pub open spec fn finite(self) -> bool {
        self.magnitude() < 0x7ff0_0000_0000_0000
    }

    /// An integer that orders the values other than NaN as the reals they stand
    /// for; both zeros are `0`.
    pub open spec fn num(self) -> int {
        if self.negative() {
            -self.magnitude()
        } else {
            self.magnitude()
        }
    }

    /// An integer that orders every bit pattern by the IEEE total order.
    pub open spec fn order(self) -> int {
        if self.negative() {
            -self.magnitude() - 1
        } else {
            self.magnitude()
        }
    }

    /// `a > b` as floats compare: false when either is NaN.
    pub open spec fn above(self, other: Double) -> bool {
        !self.nan() && !other.nan() && self.num() > other.num()
    }

    /// `a == b` as floats compare: false when either is NaN, true of both zeros.
    pub open spec fn same_value(self, other: Double) -> bool {
        !self.nan() && !other.nan() && self.num() == other.num()
    }

    /// Positive zero.
    pub fn zero() -> (r: Double)
        ensures
            r.bits == 0,
            r.num() == 0,
            r.finite(),
    {
        Double { bits: 0 }
    }

    /// `1.0`.
    pub fn one() -> (r: Double)
        ensures
            r.bits == DOUBLE_ONE,
            r.finite(),
    {
        Double { bits: DOUBLE_ONE }
    }

    fn is_negative(self) -> (r: bool)
        ensures
            r == self.negative(),
    {
        self.bits >= 0x8000_0000_0000_0000u64
    }

    fn magnitude_bits(self) -> (r: u64)
        ensures
            r == self.magnitude(),
            r < 0x8000_0000_0000_0000u64,
    {
        if self.bits >= 0x8000_0000_0000_0000u64 {
            self.bits - 0x8000_0000_0000_0000u64
        } else {
            self.bits
        }
    }

    /// `true` for NaN.
    pub fn is_nan(self) -> (r: bool)
        ensures
            r == self.nan(),
    {
        self.magnitude_bits() > 0x7ff0_0000_0000_0000u64
    }

    /// `true` unless infinite or NaN.
    pub fn is_finite(self) -> (r: bool)
        ensures
            r == self.finite(),
    {
        self.magnitude_bits() < 0x7ff0_0000_0000_0000u64
    }

    fn signed(self) -> (r: i64)
        ensures
            r == self.num(),
    {
        let m: i64 = self.magnitude_bits() as i64;
        if self.is_negative() {
            -m
        } else {
            m
        }
    }

    /// `self > other`.
    pub fn gt(self, other: Double) -> (r: bool)
        ensures
            r == self.above(other),
    {
        !self.is_nan() && !other.is_nan() && self.signed() > other.signed()
    }

    /// `self >= other`.
    pub fn ge(self, other: Double) -> (r: bool)
        ensures
            r == (self.above(other) || self.same_value(other)),
    {
        !self.is_nan() && !other.is_nan() && self.signed() >= other.signed()
    }

    /// `self == other`.
    pub fn eq_value(self, other: Double) -> (r: bool)
        ensures
            r == self.same_value(other),
    {
        !self.is_nan() && !other.is_nan() && self.signed() == other.signed()
    }

    /// Place of the value in the IEEE total order.
    pub fn rank(self) -> (r: i64)
        ensures
            r == self.order(),
    {
        let m: i64 = self.magnitude_bits() as i64;
        if self.is_negative() {
            -m - 1
        } else {
            m
        }
    }

    /// Absolute value: the sign bit is cleared.
    pub fn abs(self) -> (r: Double)
        ensures
            r.bits == self.magnitude(),
    {
        Double { bits: self.magnitude_bits() }
    }
}

/// The total order tells bit patterns apart.
pub proof fn single_order_is_injective(a: Single, b: Single)
    requires
        a.order() == b.order(),
    ensures
        a == b,
{
}

/// The total order refines the order of values.
pub proof fn single_order_refines_value(a: Single, b: Single)
    requires
        a.above(b),
    ensures
        a.order() > b.order(),
{
}

/// The infinities lie on either side of every finite value, nothing lies beyond
/// them, and only what is not a number differs from itself.
pub proof fn infinities_bound_the_singles(x: Single)
    ensures
        x.finite() <==> (Single { bits: 0x7f80_0000 }).above(x) && x.above(
            Single { bits: 0xff80_0000 },
        ),
        x.nan() <==> !x.same_value(x),
        !x.above(Single { bits: 0x7f80_0000 }),
        !(Single { bits: 0xff80_0000 }).above(x),
        !x.above(x),
{
}

/// The infinities lie on either side of every finite value, nothing lies beyond
/// them, and only what is not a number differs from itself.
pub proof fn infinities_bound_the_doubles(x: Double)
    ensures
        x.finite() <==> (Double { bits: 0x7ff0_0000_0000_0000 }).above(x) && x.above(
            Double { bits: 0xfff0_0000_0000_0000 },
        ),
        x.nan() <==> !x.same_value(x),
        !x.above(Double { bits: 0x7ff0_0000_0000_0000 }),
        !(Double { bits: 0xfff0_0000_0000_0000 }).above(x),
        !x.above(x),
{
}

/// Of two values that are numbers exactly one is above the other, or they are the
/// same; what is not a number is neither.
pub proof fn numbers_are_ordered(a: Double, b: Double)
    ensures
        a.nan() || b.nan() ==> !a.above(b) && !b.above(a) && !a.same_value(b),
        !a.nan() && !b.nan() ==> (a.above(b) || b.above(a) || a.same_value(b)),
        a.above(b) ==> !b.above(a) && !a.same_value(b),
{
}

/// Without their sign, larger bit patterns are larger numbers; with it, smaller
/// ones; and whatever has a sign is below whatever has none, but for the zeros,
/// which are the same.
pub proof fn signs_turn_the_order(a: Single, b: Single)
    requires
        !a.nan(),
        !b.nan(),
    ensures
        a.bits < 0x8000_0000 && b.bits < 0x8000_0000 ==> (a.above(b) <==> a.bits > b.bits),
        a.bits >= 0x8000_0000 && b.bits >= 0x8000_0000 ==> (a.above(b) <==> a.bits < b.bits),
        a.bits < 0x8000_0000 && b.bits >= 0x8000_0000 ==> (a.above(b) <==> a.bits != 0 || b.bits
            != 0x8000_0000),
        a.negated().above(b.negated()) <==> b.above(a),
        a.negated().negated() == a,
        a.negated().same_value(a) <==> a.same_value(Single { bits: 0 }),
{
}

/// Without their sign, larger bit patterns are larger numbers; with it, smaller
/// ones; and whatever has a sign is below whatever has none, but for the zeros,
/// which are the same.
pub proof fn signs_turn_the_order_of_doubles(a: Double, b: Double)
    requires
        !a.nan(),
        !b.nan(),
    ensures
        a.bits < 0x8000_0000_0000_0000 && b.bits < 0x8000_0000_0000_0000 ==> (a.above(b)
            <==> a.bits > b.bits),
        a.bits >= 0x8000_0000_0000_0000 && b.bits >= 0x8000_0000_0000_0000 ==> (a.above(b)
            <==> a.bits < b.bits),
        a.bits < 0x8000_0000_0000_0000 && b.bits >= 0x8000_0000_0000_0000 ==> (a.above(b)
            <==> a.bits != 0 || b.bits != 0x8000_0000_0000_0000),
{
}

/// The total order of the wider values refines the order of numbers and tells bit
/// patterns apart.
pub proof fn double_order_refines_value(a: Double, b: Double)
    ensures
        a.above(b) ==> a.order() > b.order(),
        a.order() == b.order() ==> a == b,
{
}

} // verus!
