//! Binary floating-point numbers held by their bit patterns.
//!
//! The library stores such numbers, compares them and sorts by them; it never
//! computes with them. A pattern splits into a sign and a magnitude, and every
//! comparison below is stated over those two.
use vstd::prelude::*;

verus! {

/// A single precision number, by its bits.
#[derive(Clone, Copy, Debug, PartialEq, Eq, Structural)]
pub struct Single {
    pub bits: u32,
}

/// A double precision number, by its bits.
#[derive(Clone, Copy, Debug, PartialEq, Eq, Structural)]
pub struct Double {
    pub bits: u64,
}

impl Single {
    /// The bits without the sign.
    pub open spec fn magnitude(self) -> int {
        self.bits as int % 0x8000_0000
    }

    /// Whether the sign bit is set.
    pub open spec fn negative(self) -> bool {
        self.bits >= 0x8000_0000
    }

    pub open spec fn is_nan_spec(self) -> bool {
        self.magnitude() > 0x7F80_0000
    }

    /// The place in the total order: negative NaN, negative infinity, the
    /// finite negative numbers, negative zero, zero, the finite positive
    /// numbers, infinity, NaN.
    pub open spec fn total_rank(self) -> int {
        if self.negative() {
            -1 - self.magnitude()
        } else {
            self.magnitude()
        }
    }

    /// The place in the numeric order, in which both zeros are one.
    pub open spec fn numeric_rank(self) -> int {
        if self.negative() {
            -self.magnitude()
        } else {
            self.magnitude()
        }
    }

    pub open spec fn below_spec(self, other: Single) -> bool {
        !self.is_nan_spec() && !other.is_nan_spec() && self.numeric_rank() < other.numeric_rank()
    }

    /// The total order as an integer: `a` sorts before `b` exactly when the
    /// integer of `a` is smaller.
    pub fn total_key(self) -> (key: i64)
        ensures
            key == self.total_rank(),
    {
        let magnitude: u32 = self.bits % 0x8000_0000;
        if self.bits >= 0x8000_0000 {
            -1 - magnitude as i64
        } else {
            magnitude as i64
        }
    }

    /// Whether the number is not a number.
    pub fn is_nan(self) -> (b: bool)
        ensures
            b == self.is_nan_spec(),
    {
        self.bits % 0x8000_0000 > 0x7F80_0000
    }

    /// Numeric `<`: false when either side is NaN.
    pub fn below(self, other: Single) -> (b: bool)
        ensures
            b == self.below_spec(other),
    {
        if self.is_nan() || other.is_nan() {
            return false;
        }
        let left: i64 = (self.bits % 0x8000_0000) as i64;
        let right: i64 = (other.bits % 0x8000_0000) as i64;
        let left: i64 = if self.bits >= 0x8000_0000 { -left } else { left };
        let right: i64 = if other.bits >= 0x8000_0000 { -right } else { right };
        left < right
    }

    /// Numeric `>=`: false when either side is NaN.
    pub fn at_least(self, other: Single) -> (b: bool)
        ensures
            b == (!self.is_nan_spec() && !other.is_nan_spec() && self.numeric_rank()
                >= other.numeric_rank()),
    {
        !self.is_nan() && !other.is_nan() && !self.below(other)
    }
}

impl Double {
    /// The bits without the sign.
    pub open spec fn magnitude(self) -> int {
        self.bits as int % 0x8000_0000_0000_0000
    }

    /// Whether the sign bit is set.
    pub open spec fn negative(self) -> bool {
        self.bits >= 0x8000_0000_0000_0000
    }

    pub open spec fn is_nan_spec(self) -> bool {
        self.magnitude() > 0x7FF0_0000_0000_0000
    }

    /// The place in the numeric order, in which both zeros are one.
    pub open spec fn numeric_rank(self) -> int {
        if self.negative() {
            -self.magnitude()
        } else {
            self.magnitude()
        }
    }

    pub open spec fn below_spec(self, other: Double) -> bool {
        !self.is_nan_spec() && !other.is_nan_spec() && self.numeric_rank() < other.numeric_rank()
    }

    pub open spec fn at_most_spec(self, other: Double) -> bool {
        !self.is_nan_spec() && !other.is_nan_spec() && self.numeric_rank() <= other.numeric_rank()
    }

    /// Whether the number is not a number.
    pub fn is_nan(self) -> (b: bool)
        ensures
            b == self.is_nan_spec(),
    {
        self.bits % 0x8000_0000_0000_0000 > 0x7FF0_0000_0000_0000
    }

    /// The numeric order as an integer.
    pub fn numeric_key(self) -> (key: i128)
        ensures
            key == self.numeric_rank(),
    {
        let magnitude: u64 = self.bits % 0x8000_0000_0000_0000;
        if self.bits >= 0x8000_0000_0000_0000 {
            -(magnitude as i128)
        } else {
            magnitude as i128
        }
    }

    /// Numeric `<`: false when either side is NaN.
    pub fn below(self, other: Double) -> (b: bool)
        ensures
            b == self.below_spec(other),
    {
        !self.is_nan() && !other.is_nan() && self.numeric_key() < other.numeric_key()
    }

    /// Numeric `<=`: false when either side is NaN.
    pub fn at_most(self, other: Double) -> (b: bool)
        ensures
            b == self.at_most_spec(other),
    {
        !self.is_nan() && !other.is_nan() && self.numeric_key() <= other.numeric_key()
    }
}

/// The total order refines the numeric one: a number below another also comes
/// before it in the total order.
pub proof fn total_order_refines_numeric(a: Single, b: Single)
    requires
        a.below_spec(b),
    ensures
        a.total_rank() < b.total_rank(),
{
}

/// Two patterns of one rank in the total order are the same pattern.
pub proof fn total_order_separates(a: Single, b: Single)
    requires
        a.total_rank() == b.total_rank(),
    ensures
        a == b,
{
}

/// In the total order a pattern without the sign comes after every pattern with
/// it; without the sign the greater pattern comes later, with it the smaller.
pub proof fn total_order_goes_by_bits(a: Single, b: Single)
    ensures
        a.bits < 0x8000_0000 <= b.bits ==> a.total_rank() > b.total_rank(),
        a.bits < b.bits < 0x8000_0000 ==> a.total_rank() < b.total_rank(),
        0x8000_0000 <= a.bits < b.bits ==> a.total_rank() > b.total_rank(),
{
}

/// What is no number is told by its bits: all of the exponent is set, and some
/// of the fraction.
pub proof fn bits_tell_what_is_no_number(a: Single, b: Double)
    ensures
        a.is_nan_spec() <==> a.bits / 0x80_0000 % 0x100 == 0xFF && a.bits % 0x80_0000 != 0,
        b.is_nan_spec() <==> b.bits / 0x10_0000_0000_0000 % 0x800 == 0x7FF && b.bits
            % 0x10_0000_0000_0000 != 0,
{
}

/// Of two numbers without a sign that with the greater pattern is greater, of
/// two with a sign that with the smaller; one without is greater than one with,
/// unless both are zero. What is no number is neither above nor below another.
pub proof fn numbers_go_by_bits(a: Single, b: Single)
    ensures
        a.is_nan_spec() || b.is_nan_spec() ==> !a.below_spec(b),
        !a.is_nan_spec() && !b.is_nan_spec() ==> {
            &&& a.bits < 0x8000_0000 && b.bits < 0x8000_0000 ==> (a.below_spec(b) <==> a.bits
                < b.bits)
            &&& a.bits >= 0x8000_0000 && b.bits >= 0x8000_0000 ==> (a.below_spec(b) <==> a.bits
                > b.bits)
            &&& a.bits >= 0x8000_0000 > b.bits ==> (a.below_spec(b) <==> !(a.bits == 0x8000_0000
                && b.bits == 0))
            &&& b.bits >= 0x8000_0000 > a.bits ==> !a.below_spec(b)
        },
{
}

/// The same of the wider numbers; and one is at most another if and only if
/// both are numbers and the other is not below it.
pub proof fn wide_numbers_go_by_bits(a: Double, b: Double)
    ensures
        a.is_nan_spec() || b.is_nan_spec() ==> !a.below_spec(b) && !a.at_most_spec(b),
        !a.is_nan_spec() && !b.is_nan_spec() ==> {
            let sign: int = 0x8000_0000_0000_0000;
            &&& a.bits < sign && b.bits < sign ==> (a.below_spec(b) <==> a.bits < b.bits)
            &&& a.bits >= sign && b.bits >= sign ==> (a.below_spec(b) <==> a.bits > b.bits)
            &&& a.bits >= sign > b.bits ==> (a.below_spec(b) <==> !(a.bits == sign && b.bits == 0))
            &&& b.bits >= sign > a.bits ==> !a.below_spec(b)
            &&& a.at_most_spec(b) <==> !b.below_spec(a)
        },
{
}

} // verus!
