//! Addresses as a type of their own.

use vstd::prelude::*;

verus! {

/// An address.
#[derive(Clone, Copy, Debug, PartialEq, Eq, PartialOrd, Ord, Structural)]
pub struct Addr(pub usize);

/// The bit that the rounding of an address clears: that of the page size.
pub const PG_BIT: usize = 4096;

impl Addr {
    /// The address `rhs` bytes on.
    pub fn add(self, rhs: usize) -> (sum: Addr)
        requires
            self.0 + rhs <= usize::MAX,
        ensures
            sum.0 == self.0 + rhs,
    {
        Addr(self.0 + rhs)
    }

    /// The address `rhs` bytes back.
    pub fn sub(self, rhs: usize) -> (difference: Addr)
        requires
            rhs <= self.0,
        ensures
            difference.0 == self.0 - rhs,
    {
        Addr(self.0 - rhs)
    }

    /// The address as a number.
    pub fn into(self) -> (num: usize)
        ensures
            num == self.0,
    {
        self.0
    }

    /// The number as an address.
    pub fn from(num: usize) -> (addr: Addr)
        ensures
            addr.0 == num,
    {
        Addr(num)
    }

    /// The address moved up by one byte less than a page, with the bit of
    /// the page size cleared.
    pub fn round_up_pg(self) -> (rounded: Addr)
        requires
            self.0 + 4095 <= usize::MAX,
        ensures
            rounded.0 == ((self.0 + 4095) as usize) & !PG_BIT,
    {
        Addr((self.0 + 4095) & (!4096))
    }

    /// The address with the bit of the page size cleared.
    pub fn round_down_pg(self) -> (rounded: Addr)
        ensures
            rounded.0 == self.0 & !PG_BIT,
    {
        Addr((self.0) & (!4096))
    }
}

} // verus!
