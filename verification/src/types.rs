//! The values the books hold and the constants that govern them.

use crate::error::Error;
use vstd::prelude::*;

verus! {

/// An account of the network.
pub type AccountId = u64;

/// A point in logical time, counted in blocks.
pub type BlockNumber = u64;

/// An amount of an asset.
pub type Balance = u128;

/// The asset an amount is denominated in.
pub type CurrencyId = u32;

/// The last refresh of one target by one pathfinder: when it happened and the fee
/// it earned, which a challenge can claw back.
#[derive(Clone, Copy, Debug, PartialEq, Eq, Structural)]
pub struct Record {
    pub update_at: BlockNumber,
    pub fee: Balance,
}

/// What a pathfinder is owed: the number of its live updates and their fees.
#[derive(Clone, Copy, Debug, PartialEq, Eq, Structural)]
pub struct Payroll {
    pub count: u32,
    pub total_fee: Balance,
}

/// What the pallet reports when it has changed the books.
#[derive(Clone, Copy, Debug, PartialEq, Eq, Structural)]
pub enum Event {
    /// Some reputations have been updated. \[pathfinder, count, fee\]
    ReputationRefreshed(AccountId, u32, Balance),
}

/// The constants of one deployment.
#[derive(Clone, Copy, Debug, PartialEq, Eq, Structural)]
pub struct Constants {
    /// The asset all stakes and fees are held in.
    pub base_token: CurrencyId,
    /// Parts per billion of a target's social balance that go to its trusted accounts.
    pub share_ratio: u32,
    /// Parts per billion of it that become the pathfinder's fee.
    pub fee_ration: u32,
    /// Parts per billion of it that return to the target.
    pub self_ration: u32,
    /// The largest batch one refresh may carry.
    pub max_update_count: u32,
    /// The stake charged for each update of a batch.
    pub update_staking_amount: Balance,
    /// For how many blocks after an update it can be challenged.
    pub confirmation_period: BlockNumber,
}

impl Record {
    /// The record that an absent entry reads as.
    pub open spec fn zero() -> Record {
        Record { update_at: 0, fee: 0 }
    }

    /// Whether a challenge at `now` still falls inside the confirmation period.
    pub open spec fn in_window(self, confirmation_period: BlockNumber, now: BlockNumber) -> bool {
        self.update_at + confirmation_period > now
    }

    /// Decides whether the record can still be challenged at `now`.
    pub fn is_challengeable(&self, confirmation_period: BlockNumber, now: BlockNumber) -> (open:
        bool)
        ensures
            open == self.in_window(confirmation_period, now),
    {
        match self.update_at.checked_add(confirmation_period) {
            Some(deadline) => deadline > now,
            None => true,
        }
    }
}

impl Default for Record {
    fn default() -> (record: Record)
        ensures
            record == Record::zero(),
    {
        Record { update_at: 0, fee: 0 }
    }
}

impl Payroll {
    /// The payroll of a pathfinder that is owed nothing.
    pub open spec fn zero() -> Payroll {
        Payroll { count: 0, total_fee: 0 }
    }

    /// Stake and fees together: what is released when the payroll is drained.
    pub open spec fn owed(self, update_staking_amount: Balance) -> int {
        update_staking_amount * self.count + self.total_fee
    }

    /// The payroll after `count` more updates earning `amount` in all.
    pub open spec fn credited(self, amount: Balance, count: u32) -> Payroll {
        Payroll {
            count: (self.count + count) as u32,
            total_fee: (self.total_fee + amount) as Balance,
        }
    }

    /// The payroll after one update earning `fee` was clawed back; both numbers stop at zero.
    pub open spec fn debited(self, fee: Balance) -> Payroll {
        Payroll {
            count: if self.count >= 1 { (self.count - 1) as u32 } else { 0 },
            total_fee: if self.total_fee >= fee { (self.total_fee - fee) as Balance } else { 0 },
        }
    }

    /// Computes the stake of every update plus the fees, or `Overflow` where that
    /// does not fit a balance.
    pub fn total_amount(&self, update_staking_amount: Balance) -> (total: Result<Balance, Error>)
        ensures
            match total {
                Ok(amount) => amount == self.owed(update_staking_amount),
                Err(e) => e == Error::Overflow && self.owed(update_staking_amount) > Balance::MAX,
            },
    {
        let count: Balance = self.count as Balance;
        match update_staking_amount.checked_mul(count) {
            Some(stake) => match stake.checked_add(self.total_fee) {
                Some(amount) => Ok(amount),
                None => Err(Error::Overflow),
            },
            None => Err(Error::Overflow),
        }
    }

    /// Adds `count` updates and their fees, or fails with `Overflow` where either
    /// number would no longer fit.
    pub fn credit(&self, amount: Balance, count: u32) -> (credited: Result<Payroll, Error>)
        ensures
            match credited {
                Ok(payroll) => {
                    &&& payroll == self.credited(amount, count)
                    &&& payroll.count == self.count + count
                    &&& payroll.total_fee == self.total_fee + amount
                },
                Err(e) => {
                    &&& e == Error::Overflow
                    &&& (self.total_fee + amount > Balance::MAX || self.count + count > u32::MAX)
                },
            },
    {
        match self.total_fee.checked_add(amount) {
            Some(total_fee) => match self.count.checked_add(count) {
                Some(count) => Ok(Payroll { count, total_fee }),
                None => Err(Error::Overflow),
            },
            None => Err(Error::Overflow),
        }
    }

    /// Takes one update and its fee back out, stopping at zero.
    pub fn debit(&self, fee: Balance) -> (debited: Payroll)
        ensures
            debited == self.debited(fee),
    {
        Payroll { count: self.count.saturating_sub(1), total_fee: self.total_fee.saturating_sub(fee) }
    }
}

impl Default for Payroll {
    fn default() -> (payroll: Payroll)
        ensures
            payroll == Payroll::zero(),
    {
        Payroll { count: 0, total_fee: 0 }
    }
}

} // verus!
