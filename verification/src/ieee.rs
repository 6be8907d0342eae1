//! The order of IEEE 754 numbers, read off their bit patterns.

use vstd::prelude::*;

verus! {

/// A single precision number, as its bit pattern.
#[derive(Clone, Copy, PartialEq, Eq, Structural, Debug)]
pub struct Binary32 {
    pub bits: u32,
}

/// A double precision number, as its bit pattern.
#[derive(Clone, Copy, PartialEq, Eq, Structural, Debug)]
pub struct Binary64 {
    pub bits: u64,
}

impl Binary32 {
    /// The bit pattern without the sign.
    pub open spec fn magnitude(self) -> int {
        self.bits as int % 0x8000_0000
    }

    /// Whether the pattern stands for no number.
    pub open spec fn is_nan(self) -> bool {
        self.magnitude() > 0x7f80_0000
    }

    /// An integer by which numbers are ordered. Both zeros have the same.
    pub open spec fn place(self) -> int {
        if self.bits >= 0x8000_0000 {
            -self.magnitude()
        } else {
            self.magnitude()
        }
    }

    /// Whether this number is less than another.
    pub open spec fn less(self, other: Binary32) -> bool {
        !self.is_nan() && !other.is_nan() && self.place() < other.place()
    }

    /// Whether this number is less than another; false where either is no number.
    pub fn is_less_than(&self, other: Binary32) -> (r: bool)
        ensures
            r == self.less(other),
    {
        let a: u32 = self.bits % 0x8000_0000;
        let b: u32 = other.bits % 0x8000_0000;
        if a > 0x7f80_0000 || b > 0x7f80_0000 {
            return false;
        }
        let x: i64 = if self.bits >= 0x8000_0000 { -(a as i64) } else { a as i64 };
        let y: i64 = if other.bits >= 0x8000_0000 { -(b as i64) } else { b as i64 };
        x < y
    }
}

impl Binary64 {
    /// The bit pattern without the sign.
    pub open spec fn magnitude(self) -> int {
        self.bits as int % 0x8000_0000_0000_0000
    }

    /// Whether the pattern stands for no number.
    pub open spec fn is_nan(self) -> bool {
        self.magnitude() > 0x7ff0_0000_0000_0000
    }

    /// An integer by which numbers are ordered. Both zeros have the same.
    pub open spec fn place(self) -> int {
        if self.bits >= 0x8000_0000_0000_0000 {
            -self.magnitude()
        } else {
            self.magnitude()
        }
    }

    /// Whether this number is less than another.
    pub open spec fn less(self, other: Binary64) -> bool {
        !self.is_nan() && !other.is_nan() && self.place() < other.place()
    }

    /// Whether this number is less than another; false where either is no number.
    pub fn is_less_than(&self, other: Binary64) -> (r: bool)
        ensures
            r == self.less(other),
    {
        let a: u64 = self.bits % 0x8000_0000_0000_0000;
        let b: u64 = other.bits % 0x8000_0000_0000_0000;
        if a > 0x7ff0_0000_0000_0000 || b > 0x7ff0_0000_0000_0000 {
            return false;
        }
        let x: i128 = if self.bits >= 0x8000_0000_0000_0000 { -(a as i128) } else { a as i128 };
        let y: i128 = if other.bits >= 0x8000_0000_0000_0000 { -(b as i128) } else { b as i128 };
        x < y
    }
}

/// The order of single precision numbers, read off the sign and the rest of their bit patterns: a
/// positive number is less than another if its pattern is; a negative one if its pattern is greater;
/// a negative number is less than a positive one unless both are zero; and what is no number is less
/// than nothing and greater than nothing.
pub proof fn law_single_order(x: Binary32, y: Binary32)
    ensures
        x.bits < 0x8000_0000 && y.bits < 0x8000_0000 ==> (x.less(y) <==> x.bits
            < y.bits && y.bits <= 0x7f80_0000),
        x.bits >= 0x8000_0000 && y.bits >= 0x8000_0000 ==> (x.less(y) <==> y.bits
            < x.bits && x.bits <= 0xff80_0000),
        x.bits >= 0x8000_0000 && y.bits < 0x8000_0000 ==> (x.less(y) <==> x.bits
            <= 0xff80_0000 && y.bits <= 0x7f80_0000 && !(x.bits == 0x8000_0000
            && y.bits == 0)),
        x.bits < 0x8000_0000 && y.bits >= 0x8000_0000 ==> !x.less(y),
{
}

/// The order of double precision numbers, read off the sign and the rest of their bit patterns: a
/// positive number is less than another if its pattern is; a negative one if its pattern is greater;
/// a negative number is less than a positive one unless both are zero; and what is no number is less
/// than nothing and greater than nothing.
pub proof fn law_double_order(x: Binary64, y: Binary64)
    ensures
        x.bits < 0x8000_0000_0000_0000 && y.bits < 0x8000_0000_0000_0000 ==> (x.less(y) <==> x.bits
            < y.bits && y.bits <= 0x7ff0_0000_0000_0000),
        x.bits >= 0x8000_0000_0000_0000 && y.bits >= 0x8000_0000_0000_0000 ==> (x.less(y) <==> y.bits
            < x.bits && x.bits <= 0xfff0_0000_0000_0000),
        x.bits >= 0x8000_0000_0000_0000 && y.bits < 0x8000_0000_0000_0000 ==> (x.less(y) <==> x.bits
            <= 0xfff0_0000_0000_0000 && y.bits <= 0x7ff0_0000_0000_0000 && !(x.bits == 0x8000_0000_0000_0000
            && y.bits == 0)),
        x.bits < 0x8000_0000_0000_0000 && y.bits >= 0x8000_0000_0000_0000 ==> !x.less(y),
{
}

} // verus!
