//! Unsigned 256-bit integers held as two 128-bit halves. They carry the
//! representation of a field element and the working values of the
//! algorithms that run on it.
use vstd::prelude::*;

verus! {

/// 2^128, the weight of the upper half.
pub open spec fn pow128() -> nat {
    0x1_0000_0000_0000_0000_0000_0000_0000_0000nat
}

/// An unsigned integer below 2^256.
#[derive(Clone, Copy, Debug, PartialEq, Eq, Structural)]
pub struct U256 {
    pub hi: u128,
    pub lo: u128,
}

impl View for U256 {
    type V = nat;

    open spec fn view(&self) -> nat {
        self.hi as nat * pow128() + self.lo as nat
    }
}

impl U256 {
    /// Two values with the same number are the same value.
    pub proof fn lemma_view_injective(self, other: U256)
        requires
            self@ == other@,
        ensures
            self == other,
    {
    }

    pub fn from_u64(n: u64) -> (r: U256)
        ensures
            r@ == n,
    {
        U256 { hi: 0, lo: n as u128 }
    }

    pub fn is_zero(&self) -> (r: bool)
        ensures
            r == (self@ == 0),
    {
        self.hi == 0 && self.lo == 0
    }

    pub fn is_even(&self) -> (r: bool)
        ensures
            r == (self@ % 2 == 0),
    {
        self.lo % 2 == 0
    }

    pub fn less_than(&self, other: &U256) -> (r: bool)
        ensures
            r == (self@ < other@),
    {
        self.hi < other.hi || (self.hi == other.hi && self.lo < other.lo)
    }

    /// The sum, where it fits.
    pub fn sum(&self, other: &U256) -> (r: U256)
        requires
            self@ + other@ < pow128() * pow128(),
        ensures
            r@ == self@ + other@,
    {
        let room: u128 = u128::MAX - other.lo;
        if self.lo > room {
            U256 { hi: self.hi + other.hi + 1, lo: self.lo - room - 1 }
        } else {
            U256 { hi: self.hi + other.hi, lo: self.lo + other.lo }
        }
    }

    /// The difference, where it is not negative.
    pub fn difference(&self, other: &U256) -> (r: U256)
        requires
            other@ <= self@,
        ensures
            r@ == self@ - other@,
    {
        if self.lo >= other.lo {
            U256 { hi: self.hi - other.hi, lo: self.lo - other.lo }
        } else {
            U256 { hi: self.hi - other.hi - 1, lo: u128::MAX - other.lo + self.lo + 1 }
        }
    }

    /// Half of the value, rounded down.
    pub fn half(&self) -> (r: U256)
        ensures
            r@ == self@ / 2,
    {
        let carry: u128 = if self.hi % 2 == 1 {
            0x8000_0000_0000_0000_0000_0000_0000_0000
        } else {
            0
        };
        U256 { hi: self.hi / 2, lo: self.lo / 2 + carry }
    }

    /// Quotient and remainder of the division by ten.
    pub fn div_rem_ten(&self) -> (r: (U256, u8))
        ensures
            r.0@ == self@ / 10,
            r.1 as nat == self@ % 10,
    {
        let base: u128 = 0x1_0000_0000_0000_0000;
        let d3: u128 = self.hi / base;
        let d2: u128 = self.hi % base;
        let d1: u128 = self.lo / base;
        let d0: u128 = self.lo % base;
        let q3: u128 = d3 / 10;
        let c2: u128 = (d3 % 10) * base + d2;
        let q2: u128 = c2 / 10;
        let c1: u128 = (c2 % 10) * base + d1;
        let q1: u128 = c1 / 10;
        let c0: u128 = (c1 % 10) * base + d0;
        let q0: u128 = c0 / 10;
        let rem: u128 = c0 % 10;
        let q = U256 { hi: q3 * base + q2, lo: q1 * base + q0 };
        assert(self@ == 10 * q@ + rem);
        (q, rem as u8)
    }
}

} // verus!
