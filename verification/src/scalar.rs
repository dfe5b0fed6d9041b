//! Double-precision numbers as the library sees them: bit patterns with the
//! IEEE 754 order. Callers do the arithmetic; the library compares and selects.

use vstd::prelude::*;

verus! {

/// An IEEE 754 binary64 value, held by its bit pattern (`f64::to_bits`).
#[derive(Clone, Copy, Debug, PartialEq, Eq, Structural)]
pub struct Scalar {
    pub bits: u64,
}

/// Bit pattern of positive infinity: every magnitude above it is a NaN.
pub const INFINITY_BITS: u64 = 0x7FF0_0000_0000_0000;

/// The sign bit.
pub const SIGN_BIT: u64 = 0x8000_0000_0000_0000;

/// Bit pattern of the largest finite value.
pub const MAX_BITS: u64 = 0x7FEF_FFFF_FFFF_FFFF;

/// Bit pattern of negative infinity.
pub const NEG_INFINITY_BITS: u64 = 0xFFF0_0000_0000_0000;

/// Bit pattern of one.
pub const ONE_BITS: u64 = 0x3FF0_0000_0000_0000;

/// Bit pattern of one hundred.
pub const HUNDRED_BITS: u64 = 0x4059_0000_0000_0000;

impl Scalar {
    /// The pattern with its sign removed.
    pub open spec fn magnitude(self) -> int {
        if self.bits < SIGN_BIT {
            self.bits as int
        } else {
            self.bits - SIGN_BIT
        }
    }

    /// Whether the value is not a number.
    pub open spec fn is_nan(self) -> bool {
        self.magnitude() > INFINITY_BITS
    }

    /// Whether the value is a number other than an infinity.
    pub open spec fn is_finite(self) -> bool {
        self.magnitude() < INFINITY_BITS
    }

    /// Position of a number on the real line: equal for the two zeros,
    /// increasing with the value.
    pub open spec fn key(self) -> int {
        if self.bits < SIGN_BIT {
            self.magnitude()
        } else {
            -self.magnitude()
        }
    }

    /// `self < other`, false when either is not a number.
    pub open spec fn lt(self, other: Scalar) -> bool {
        !self.is_nan() && !other.is_nan() && self.key() < other.key()
    }

    /// `self <= other`, false when either is not a number.
    pub open spec fn le(self, other: Scalar) -> bool {
        !self.is_nan() && !other.is_nan() && self.key() <= other.key()
    }

    /// The position on the real line, shifted so that it is never negative.
    pub open spec fn ordinal(self) -> int {
        self.key() + SIGN_BIT
    }

    /// The scalar with the given bit pattern.
    pub fn new(bits: u64) -> (s: Scalar)
        ensures
            s.bits == bits,
    {
        Scalar { bits }
    }

    /// Zero.
    pub fn zero() -> (s: Scalar)
        ensures
            s.bits == 0,
            !s.is_nan(),
            s.key() == 0,
    {
        Scalar { bits: 0 }
    }

    /// Whether the value is not a number.
    pub fn nan(&self) -> (r: bool)
        ensures
            r == self.is_nan(),
    {
        if self.bits < SIGN_BIT {
            self.bits > INFINITY_BITS
        } else {
            self.bits - SIGN_BIT > INFINITY_BITS
        }
    }

    /// An integer that orders numbers as their values do.
    pub fn sort_key(&self) -> (k: u64)
        requires
            !self.is_nan(),
        ensures
            k == self.ordinal(),
    {
        if self.bits < SIGN_BIT {
            SIGN_BIT + self.bits
        } else {
            SIGN_BIT - (self.bits - SIGN_BIT)
        }
    }

    /// The `<` of floating-point numbers.
    pub fn less(&self, other: &Scalar) -> (r: bool)
        ensures
            r == self.lt(*other),
    {
        if self.nan() || other.nan() {
            return false;
        }
        if self.bits < SIGN_BIT {
            if other.bits < SIGN_BIT {
                self.bits < other.bits
            } else {
                false
            }
        } else if other.bits < SIGN_BIT {
            self.bits != SIGN_BIT || other.bits != 0
        } else {
            self.bits > other.bits
        }
    }

    /// The `<=` of floating-point numbers.
    pub fn at_most(&self, other: &Scalar) -> (r: bool)
        ensures
            r == self.le(*other),
    {
        if self.nan() || other.nan() {
            return false;
        }
        !other.less(self)
    }
}

/// The value held to `[0, 1]`.
pub open spec fn unit(v: Scalar) -> Scalar {
    if v.lt(Scalar { bits: 0 }) {
        Scalar { bits: 0 }
    } else if (Scalar { bits: ONE_BITS }).lt(v) {
        Scalar { bits: ONE_BITS }
    } else {
        v
    }
}

/// The value lies in the unit range.
pub open spec fn in_unit(v: Scalar) -> bool {
    (Scalar { bits: 0 }).le(v) && v.le(Scalar { bits: ONE_BITS })
}

/// All values lie in the unit range.
pub open spec fn all_unit(data: Seq<Scalar>) -> bool {
    forall|i: int| #![trigger data[i]] 0 <= i < data.len() ==> in_unit(data[i])
}

/// Holds a value to `[0, 1]`; what is not a number stays so.
pub fn clamp_unit(v: Scalar) -> (r: Scalar)
    ensures
        r == unit(v),
{
    let zero = Scalar::new(0);
    let one = Scalar::new(ONE_BITS);
    if v.less(&zero) {
        zero
    } else if one.less(&v) {
        one
    } else {
        v
    }
}

/// A number held to `[0, 1]` lies there, and one that lies there is kept.
pub proof fn unit_bounds(v: Scalar)
    requires
        !v.is_nan(),
    ensures
        (Scalar { bits: 0 }).le(unit(v)),
        unit(v).le(Scalar { bits: ONE_BITS }),
        (Scalar { bits: 0 }).le(v) && v.le(Scalar { bits: ONE_BITS }) ==> unit(v) == v,
{
}

/// On numbers, `<` is a strict weak order: irreflexive, transitive, and any two
/// numbers are comparable by `<=`.
pub proof fn scalar_order(a: Scalar, b: Scalar, c: Scalar)
    ensures
        !a.lt(a),
        a.lt(b) && b.lt(c) ==> a.lt(c),
        a.le(b) && b.le(c) ==> a.le(c),
        !a.is_nan() && !b.is_nan() ==> (a.lt(b) <==> !b.le(a)),
        a.is_nan() || b.is_nan() ==> !a.lt(b) && !a.le(b),
{
}

/// The bits of numbers give their order: those without the sign bit ascend with
/// their bits, those with it descend, and any of the latter but the zero lies below
/// all of the former.
pub proof fn bits_give_the_order(a: Scalar, b: Scalar)
    requires
        !a.is_nan(),
        !b.is_nan(),
    ensures
        a.bits < 0x8000_0000_0000_0000 && b.bits < 0x8000_0000_0000_0000 ==> (a.lt(b) <==> a.bits
            < b.bits),
        a.bits >= 0x8000_0000_0000_0000 && b.bits >= 0x8000_0000_0000_0000 ==> (a.lt(b) <==> a.bits
            > b.bits),
        a.bits > 0x8000_0000_0000_0000 && b.bits < 0x8000_0000_0000_0000 ==> a.lt(b) && !b.lt(a),
        a.bits == 0x8000_0000_0000_0000 && b.bits == 0 ==> a.le(b) && b.le(a),
        a.le(b) <==> !b.lt(a),
{
}

/// What lies beyond the infinities, with and without the sign bit, is not a number
/// and is neither above nor below anything.
pub proof fn beyond_infinity_is_no_number(a: Scalar, b: Scalar)
    ensures
        a.is_nan() <==> 0x7FF0_0000_0000_0000 < a.bits < 0x8000_0000_0000_0000 || a.bits
            > 0xFFF0_0000_0000_0000,
        a.is_nan() || b.is_nan() ==> !a.lt(b) && !a.le(b),
{
}

} // verus!
