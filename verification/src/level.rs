//! Percentages, thresholds and prices as the bit patterns of IEEE 754 doubles.
//!
//! The order of finite doubles is the order of their bit patterns read as sign and magnitude, so
//! limits are compared exactly, without floating-point arithmetic.
use vstd::prelude::*;

verus! {

/// The bit pattern of positive infinity: the magnitudes below it are finite.
pub const INFINITE: u64 = 0x7ff0_0000_0000_0000;

/// The sign bit.
pub const SIGN: u64 = 0x8000_0000_0000_0000;

/// The bit pattern of `100`.
pub const HUNDRED: u64 = 0x4059_0000_0000_0000;

/// The bit pattern of `95`.
pub const NINETY_FIVE: u64 = 0x4057_c000_0000_0000;

/// A double-precision number, held as its bit pattern.
#[derive(Clone, Copy, Debug, PartialEq, Eq, Structural)]
pub struct Level {
    pub bits: u64,
}

impl Level {
    /// The number without its sign, in the order of magnitudes.
    pub open spec fn magnitude(self) -> int {
        if self.bits >= SIGN {
            self.bits - SIGN
        } else {
            self.bits as int
        }
    }

    /// The place of the number in the order of the numbers; both zeros stand at `0`.
    pub open spec fn rank(self) -> int {
        if self.bits >= SIGN {
            -self.magnitude()
        } else {
            self.magnitude()
        }
    }

    /// The number is neither infinite nor a NaN.
    pub open spec fn finite(self) -> bool {
        self.magnitude() < INFINITE
    }

    /// The number is finite and at least zero.
    pub open spec fn usable(self) -> bool {
        self.finite() && self.rank() >= 0
    }

    /// The number is above zero and at most 100.
    pub open spec fn threshold(self) -> bool {
        0 < self.rank() <= HUNDRED
    }

    fn place(self) -> (rank: i64)
        ensures
            rank == self.rank(),
    {
        if self.bits >= SIGN {
            -((self.bits - SIGN) as i64)
        } else {
            self.bits as i64
        }
    }

    /// Zero.
    pub fn zero() -> (level: Level)
        ensures
            level.rank() == 0,
            level.bits == 0,
    {
        Level { bits: 0 }
    }

    /// Whether the number is finite and at least zero.
    pub fn is_usable(self) -> (yes: bool)
        ensures
            yes == self.usable(),
    {
        self.bits < INFINITE || self.bits == SIGN
    }

    /// Whether the number is above zero.
    pub fn is_positive(self) -> (yes: bool)
        ensures
            yes == (self.rank() > 0),
    {
        self.place() > 0
    }

    /// Whether the number is above zero and at most 100.
    pub fn is_threshold(self) -> (yes: bool)
        ensures
            yes == self.threshold(),
    {
        let rank: i64 = self.place();
        0 < rank && rank <= HUNDRED as i64
    }

    /// Whether the number is at least `limit`.
    pub fn at_least(self, limit: Level) -> (yes: bool)
        ensures
            yes == (self.rank() >= limit.rank()),
    {
        self.place() >= limit.place()
    }
}

/// A number is usable where its bits are those of zero or of a positive finite number, and a
/// threshold where they are those of a number above 0 and up to 100.
pub proof fn numbers_are_told_by_their_bits(level: Level)
    ensures
        level.usable() <==> level.bits < 0x7ff0_0000_0000_0000 || level.bits
            == 0x8000_0000_0000_0000,
        level.threshold() <==> 0 < level.bits <= 0x4059_0000_0000_0000,
        level.bits < 0x8000_0000_0000_0000 ==> level.rank() == level.bits,
        level.bits >= 0x8000_0000_0000_0000 ==> level.rank() == 0x8000_0000_0000_0000 - level.bits,
{
}

} // verus!
