use vstd::prelude::*;

verus! {

/// Smallest bit pattern of a negative binary32 value (the sign bit alone).
pub const SIGN_BIT: u32 = 0x8000_0000;

/// Bit pattern of positive infinity; every larger magnitude is not a number.
pub const INFINITY_BITS: u32 = 0x7f80_0000;

/// A price, held as the bit pattern of an IEEE-754 binary32 value that is a number.
///
/// Prices are totally ordered by [`Price::rank`]; positive and negative zero
/// share one rank and therefore one price level.
#[derive(PartialEq, Eq, Structural, Clone, Copy, Debug)]
pub struct Price {
    pub bits: u32,
}

/// The magnitude part of a binary32 bit pattern: the pattern without its sign bit.
pub open spec fn magnitude(bits: u32) -> int {
    if bits >= SIGN_BIT {
        bits - SIGN_BIT
    } else {
        bits as int
    }
}

/// Whether a binary32 bit pattern encodes a number (anything but a NaN).
pub open spec fn is_number(bits: u32) -> bool {
    magnitude(bits) <= INFINITY_BITS
}

impl Price {
    /// A price is well formed when its bit pattern encodes a number.
    pub open spec fn wf(&self) -> bool {
        is_number(self.bits)
    }

    /// The position of this price in the total order of prices: an integer that
    /// grows with the encoded value, and is zero for both zeros.
    pub open spec fn rank(&self) -> int {
        if self.bits >= SIGN_BIT {
            -magnitude(self.bits)
        } else {
            magnitude(self.bits)
        }
    }

    /// Builds a price from a binary32 bit pattern; `None` exactly when the
    /// pattern encodes a NaN.
    pub fn from_bits(bits: u32) -> (r: Option<Price>)
        ensures
            r.is_some() <==> is_number(bits),
            r matches Some(p) ==> p.bits == bits && p.wf(),
    {
        let mag: u32 = if bits >= SIGN_BIT {
            bits - SIGN_BIT
        } else {
            bits
        };
        if mag <= INFINITY_BITS {
            Some(Price { bits })
        } else {
            None
        }
    }

    /// Whether the bit pattern encodes a number.
    pub fn is_number(&self) -> (r: bool)
        ensures
            r == self.wf(),
    {
        let mag: u32 = if self.bits >= SIGN_BIT {
            self.bits - SIGN_BIT
        } else {
            self.bits
        };
        mag <= INFINITY_BITS
    }

    /// The binary32 bit pattern of this price.
    pub fn to_bits(&self) -> (r: u32)
        ensures
            r == self.bits,
    {
        self.bits
    }

    /// The rank as a machine integer.
    pub fn key(&self) -> (r: i64)
        ensures
            r == self.rank(),
    {
        if self.bits >= SIGN_BIT {
            let m: u32 = self.bits - SIGN_BIT;
            0 - (m as i64)
        } else {
            self.bits as i64
        }
    }

    /// `self <= other` in the order of prices.
    pub fn le(&self, other: &Price) -> (r: bool)
        ensures
            r == (self.rank() <= other.rank()),
    {
        self.key() <= other.key()
    }

    /// `self < other` in the order of prices.
    pub fn lt(&self, other: &Price) -> (r: bool)
        ensures
            r == (self.rank() < other.rank()),
    {
        self.key() < other.key()
    }

    /// Whether both prices name the same price level.
    pub fn same_level(&self, other: &Price) -> (r: bool)
        ensures
            r == (self.rank() == other.rank()),
    {
        self.key() == other.key()
    }
}

} // verus!
