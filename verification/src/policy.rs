//! A fee policy that gives a proxy a fixed ratio of a payroll once a fixed number of
//! blocks has passed.

use crate::traits::ProxyFee;
use crate::ratio::{mul_floor, portion, BILLION};
use crate::rules::lemma_portion_is_floor;
use crate::types::{Balance, BlockNumber};
use vstd::prelude::*;

verus! {

/// The proxy's cut in parts per billion, and the blocks a proxy has to wait.
#[derive(Clone, Copy, Debug, PartialEq, Eq, Structural)]
pub struct FixedProxyFee {
    pub ratio: u32,
    pub period: BlockNumber,
}

impl FixedProxyFee {
    /// A proxy may act once `period` blocks have passed since `last`.
    pub open spec fn allowed(self, last: BlockNumber, now: BlockNumber) -> bool {
        last + self.period <= now
    }

    /// The proxy's cut of `total`: its ratio of it, rounded down.
    pub open spec fn cut(self, total: Balance) -> Balance {
        portion(self.ratio, total) as Balance
    }
}

impl ProxyFee for FixedProxyFee {
    fn is_allowed_proxy(&self, last: BlockNumber, now: BlockNumber) -> (allowed: bool)
        ensures
            allowed == self.allowed(last, now),
    {
        match last.checked_add(self.period) {
            Some(from) => from <= now,
            None => false,
        }
    }

    fn with_fee(&self, total: Balance) -> (split: (Balance, Balance))
        ensures
            split.0 == self.cut(total),
            split.1 == total - self.cut(total),
    {
        proof {
            if self.ratio <= BILLION {
                lemma_portion_is_floor(self.ratio, total);
            }
        }
        let cut = mul_floor(self.ratio, total);
        (cut, total - cut)
    }

    fn checked_with_fee(&self, total: Balance, last: BlockNumber, now: BlockNumber) -> (split:
        Option<(Balance, Balance)>)
        ensures
            self.allowed(last, now) ==> split == Some(
                (self.cut(total), (total - self.cut(total)) as Balance),
            ),
            !self.allowed(last, now) ==> split is None,
    {
        if self.is_allowed_proxy(last, now) {
            Some(self.with_fee(total))
        } else {
            None
        }
    }
}

} // verus!
