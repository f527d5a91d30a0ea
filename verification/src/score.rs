//! Scores: double-precision numbers held as their bits and compared as numbers.

use vstd::prelude::*;

verus! {

/// The bit that is set in the bits of a negative double.
pub const SIGN_BIT: u64 = 0x8000_0000_0000_0000;

/// The bits of positive infinity; a larger magnitude is not a number.
pub const INFINITY_BITS: u64 = 0x7ff0_0000_0000_0000;

/// The bits of `1.0`.
pub const ONE_BITS: u64 = 0x3ff0_0000_0000_0000;

/// An IEEE 754 double, by its bits.
#[derive(Clone, Copy, Debug, PartialEq, Eq, Structural)]
pub struct Score {
    pub bits: u64,
}

impl Score {
    /// The bits without the sign.
    pub open spec fn magnitude(self) -> int {
        if self.bits >= SIGN_BIT {
            self.bits - SIGN_BIT
        } else {
            self.bits as int
        }
    }

    /// Whether the bits stand for no number.
    pub open spec fn is_nan(self) -> bool {
        self.magnitude() > INFINITY_BITS
    }

    /// The place of a number among the doubles, zero for either zero. The magnitudes of
    /// doubles are ordered as their bits are.
    pub open spec fn rank(self) -> int {
        if self.bits >= SIGN_BIT {
            -self.magnitude()
        } else {
            self.magnitude()
        }
    }

    /// Whether the number is less than the other.
    pub open spec fn less(self, other: Score) -> bool {
        !self.is_nan() && !other.is_nan() && self.rank() < other.rank()
    }

    /// Whether the number lies between zero and one, both included.
    pub open spec fn in_unit(self) -> bool {
        !self.is_nan() && 0 <= self.rank() <= ONE_BITS
    }

    /// Whether the number is less than the other.
    pub fn is_below(&self, other: &Score) -> (below: bool)
        ensures
            below == self.less(*other),
            self.bits <= 0x7ff0_0000_0000_0000 && other.bits <= 0x7ff0_0000_0000_0000 ==> (below
                <==> self.bits < other.bits),
    {
        match (self.place(), other.place()) {
            (Some(a), Some(b)) => a < b,
            _ => false,
        }
    }

    /// Whether the number lies between zero and one, both included.
    pub fn is_in_unit(&self) -> (inside: bool)
        ensures
            inside == self.in_unit(),
            inside <==> self.bits <= 0x3ff0_0000_0000_0000 || self.bits == 0x8000_0000_0000_0000,
    {
        match self.place() {
            Some(rank) => 0 <= rank && rank <= ONE_BITS as i64,
            None => false,
        }
    }

    /// The place of a number among the doubles; nothing for what is not a number.
    fn place(&self) -> (rank: Option<i64>)
        ensures
            match rank {
                Some(r) => !self.is_nan() && r == self.rank(),
                None => self.is_nan(),
            },
    {
        let negative = self.bits >= SIGN_BIT;
        let magnitude: u64 = if negative {
            self.bits - SIGN_BIT
        } else {
            self.bits
        };
        if magnitude > INFINITY_BITS {
            None
        } else if negative {
            Some(-(magnitude as i64))
        } else {
            Some(magnitude as i64)
        }
    }
}

/// Being less is a strict order: nothing is less than itself, and what is less than a number
/// is less than every greater one.
pub proof fn lemma_less_is_strict_order(a: Score, b: Score, c: Score)
    ensures
        !a.less(a),
        a.less(b) && b.less(c) ==> a.less(c),
{
}

/// How numbers compare, by their bits: positive ones as their bits do, negative ones the other
/// way round; a negative one is less than every other unless both are zeros; and what is not a
/// number is neither less nor greater than anything. The numbers between zero and one are those
/// whose bits do not exceed those of one, and the negative zero.
pub proof fn lemma_less_by_the_bits(a: Score, b: Score)
    ensures
        a.bits <= 0x7ff0_0000_0000_0000 && b.bits <= 0x7ff0_0000_0000_0000 ==> (a.less(b)
            <==> a.bits < b.bits),
        0x8000_0000_0000_0000 <= a.bits <= 0xfff0_0000_0000_0000 && 0x8000_0000_0000_0000 <= b.bits
            <= 0xfff0_0000_0000_0000 ==> (a.less(b) <==> b.bits < a.bits),
        0x8000_0000_0000_0000 <= a.bits <= 0xfff0_0000_0000_0000 && b.bits <= 0x7ff0_0000_0000_0000
            ==> !b.less(a) && (a.less(b) <==> !(a.bits == 0x8000_0000_0000_0000 && b.bits == 0)),
        0x7ff0_0000_0000_0000 < a.bits < 0x8000_0000_0000_0000 || 0xfff0_0000_0000_0000 < a.bits
            ==> !a.less(b) && !b.less(a) && a.is_nan(),
        a.is_nan() ==> 0x7ff0_0000_0000_0000 < a.bits < 0x8000_0000_0000_0000
            || 0xfff0_0000_0000_0000 < a.bits,
        a.in_unit() <==> a.bits <= 0x3ff0_0000_0000_0000 || a.bits == 0x8000_0000_0000_0000,
{
}

}
