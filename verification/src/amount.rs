//! Amounts of money, in satoshis.

use vstd::prelude::*;

verus! {

/// An amount of money in satoshis.
#[derive(Clone, Copy, Debug, PartialEq, Eq, PartialOrd, Ord, Hash, Structural)]
pub struct Amount {
    pub sats: u64,
}

/// A sum of amounts is more than an amount can hold.
#[derive(Clone, Copy, Debug, PartialEq, Eq, Structural)]
pub struct AmountOverflowError;

/// A difference of amounts is less than zero.
#[derive(Clone, Copy, Debug, PartialEq, Eq, Structural)]
pub struct AmountUnderflowError;

impl Amount {
    /// The amount of `sats` satoshis.
    pub fn from_sat(sats: u64) -> (amount: Amount)
        ensures
            amount.sats == sats,
    {
        Amount { sats }
    }

    /// The amount as a number of satoshis.
    pub fn to_sat(self) -> (sats: u64)
        ensures
            sats == self.sats,
    {
        self.sats
    }

    /// The sum of two amounts, unless it is more than an amount can hold.
    pub fn checked_add(self, other: Amount) -> (sum: Option<Amount>)
        ensures
            match sum {
                Some(s) => s.sats == self.sats + other.sats,
                None => self.sats + other.sats > u64::MAX,
            },
    {
        match self.sats.checked_add(other.sats) {
            Some(sats) => Some(Amount { sats }),
            None => None,
        }
    }

    /// The difference of two amounts, unless it is less than zero.
    pub fn checked_sub(self, other: Amount) -> (difference: Option<Amount>)
        ensures
            match difference {
                Some(d) => d.sats == self.sats - other.sats,
                None => self.sats < other.sats,
            },
    {
        match self.sats.checked_sub(other.sats) {
            Some(sats) => Some(Amount { sats }),
            None => None,
        }
    }
}

} // verus!
