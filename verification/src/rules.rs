//! The decisions of the pallet that depend on nothing but values: each takes what a
//! collaborator answered and says what follows from it.

use crate::error::Error;
use crate::ratio::{mul_floor, portion, BILLION};
use crate::records::total;
use crate::types::{Balance, Constants};
use vstd::arithmetic::div_mod::{
    lemma_div_multiples_vanish, lemma_div_pos_is_pos, lemma_fundamental_div_mod,
};
use vstd::prelude::*;

verus! {

/// How the social balance of a refreshed target is divided.
#[derive(Clone, Copy, Debug, PartialEq, Eq, Structural)]
pub struct ShareAmounts {
    /// What goes to the accounts the target trusts.
    pub shared: Balance,
    /// What returns to the target itself.
    pub thawed: Balance,
    /// What is staked as the pathfinder's fee.
    pub fee: Balance,
}

impl Constants {
    /// Admits a batch of `len` updates, or fails with `QuantityLimitReached` where
    /// it is larger than the limit.
    pub fn batch_count(&self, len: usize) -> (count: Result<u32, Error>)
        ensures
            match count {
                Ok(n) => n == len && len <= self.max_update_count,
                Err(e) => e == Error::QuantityLimitReached && len > self.max_update_count,
            },
    {
        if len <= self.max_update_count as usize {
            Ok(len as u32)
        } else {
            Err(Error::QuantityLimitReached)
        }
    }

    /// The stake for a batch of `count` updates, given what the reputation system
    /// answered when asked whether updates are allowed: `NoUpdatesAllowed` where it
    /// answered `None`, `Overflow` where the stake does not fit a balance.
    pub fn batch_stake(&self, count: u32, status: Option<()>) -> (stake: Result<Balance, Error>)
        ensures
            match stake {
                Ok(amount) => status is Some && amount == self.update_staking_amount * count,
                Err(e) => if status is None {
                    e == Error::NoUpdatesAllowed
                } else {
                    e == Error::Overflow && self.update_staking_amount * count > Balance::MAX
                },
            },
    {
        if status.is_none() {
            return Err(Error::NoUpdatesAllowed);
        }
        let count: Balance = count as Balance;
        match self.update_staking_amount.checked_mul(count) {
            Some(amount) => Ok(amount),
            None => Err(Error::Overflow),
        }
    }

    /// The three ratios together take no more than the whole.
    pub open spec fn ratios_fit(self) -> bool {
        self.share_ratio + self.self_ration + self.fee_ration <= BILLION
    }

    /// Checks that the three ratios together take no more than the whole. Nothing
    /// enforces this of a deployment; one that fails the check hands out more of a
    /// social balance than there is.
    pub fn check_ratios(&self) -> (fit: bool)
        ensures
            fit == self.ratios_fit(),
    {
        let parts: u64 = self.share_ratio as u64 + self.self_ration as u64 + self.fee_ration as u64;
        parts <= BILLION as u64
    }

    /// What a social balance is divided into.
    pub open spec fn divided(self, total_share: Balance) -> ShareAmounts {
        ShareAmounts {
            shared: portion(self.share_ratio, total_share) as Balance,
            thawed: portion(self.self_ration, total_share) as Balance,
            fee: portion(self.fee_ration, total_share) as Balance,
        }
    }

    /// Whether `fee` is the fee part of some social balance.
    pub open spec fn earns(self, fee: Balance) -> bool {
        exists|total_share: Balance| fee == #[trigger] self.divided(total_share).fee
    }

    /// Divides the social balance of a refreshed target: each part is its ratio of
    /// the whole balance, rounded down.
    pub fn share_amounts(&self, total_share: Balance) -> (amounts: ShareAmounts)
        ensures
            amounts == self.divided(total_share),
            amounts.shared == portion(self.share_ratio, total_share),
            amounts.thawed == portion(self.self_ration, total_share),
            amounts.fee == portion(self.fee_ration, total_share),
    {
        ShareAmounts {
            shared: mul_floor(self.share_ratio, total_share),
            thawed: mul_floor(self.self_ration, total_share),
            fee: mul_floor(self.fee_ration, total_share),
        }
    }
}

/// Where the three ratios together take no more than the whole, the three parts of
/// a social balance together take no more than the balance.
pub proof fn lemma_shares_fit(constants: Constants, total_share: Balance)
    requires
        constants.ratios_fit(),
    ensures
        constants.divided(total_share).shared + constants.divided(total_share).thawed
            + constants.divided(total_share).fee <= total_share,
{
    let x = total_share as int;
    let whole = BILLION as int;
    let a = constants.share_ratio as int;
    let b = constants.self_ration as int;
    let c = constants.fee_ration as int;
    lemma_portion_is_floor(constants.share_ratio, total_share);
    lemma_portion_is_floor(constants.self_ration, total_share);
    lemma_portion_is_floor(constants.fee_ration, total_share);
    let qa = (x * a) / whole;
    let qb = (x * b) / whole;
    let qc = (x * c) / whole;
    lemma_fundamental_div_mod(x * a, whole);
    lemma_fundamental_div_mod(x * b, whole);
    lemma_fundamental_div_mod(x * c, whole);
    assert(whole * (qa + qb + qc) <= x * a + x * b + x * c) by (nonlinear_arith)
        requires
            x * a == whole * qa + (x * a) % whole,
            x * b == whole * qb + (x * b) % whole,
            x * c == whole * qc + (x * c) % whole,
            (x * a) % whole >= 0,
            (x * b) % whole >= 0,
            (x * c) % whole >= 0,
    ;
    assert(qa + qb + qc <= x) by (nonlinear_arith)
        requires
            whole * (qa + qb + qc) <= x * a + x * b + x * c,
            a + b + c <= whole,
            whole > 0,
            x >= 0,
    ;
}

/// A part of a balance is the balance times the ratio, rounded down, for every
/// ratio up to the whole; it is never more than the balance.
pub proof fn lemma_portion_is_floor(parts: u32, amount: Balance)
    requires
        parts <= BILLION,
    ensures
        portion(parts, amount) == (amount as int * parts as int) / (BILLION as int),
        0 <= portion(parts, amount) <= amount,
{
    let x = amount as int;
    let whole = BILLION as int;
    let p = parts as int;
    if parts == BILLION {
        lemma_div_multiples_vanish(x, whole);
    } else {
        lemma_fundamental_div_mod(x * p, whole);
        let q = (x * p) / whole;
        assert(x * p >= 0) by (nonlinear_arith)
            requires
                x >= 0,
                p >= 0,
        ;
        lemma_div_pos_is_pos(x * p, whole);
        assert(x * p <= x * whole) by (nonlinear_arith)
            requires
                p < whole,
                x >= 0,
        ;
        assert(q <= x) by (nonlinear_arith)
            requires
                whole * q <= x * whole,
                whole > 0,
        ;
    }
}

/// Decides whether a round can open, given whether every challenge has been
/// harvested and whether the fee policy lets a proxy act since the last refresh.
/// Outstanding challenges come first: with them the answer is `ChallengeNotClaimed`
/// whatever the timing.
pub fn round_opening(all_harvested: bool, allowed_proxy: bool) -> (opening: Result<(), Error>)
    ensures
        !all_harvested ==> opening == Err::<(), Error>(Error::ChallengeNotClaimed),
        all_harvested && !allowed_proxy ==> opening == Err::<(), Error>(Error::ChallengeTimeout),
        all_harvested && allowed_proxy ==> opening == Ok::<(), Error>(()),
{
    if !all_harvested {
        Err(Error::ChallengeNotClaimed)
    } else if !allowed_proxy {
        Err(Error::ChallengeTimeout)
    } else {
        Ok(())
    }
}

/// Decides a settlement by proxy, given what the fee policy answered: `FailedProxy`
/// where it refused the split, else the proxy's cut and the remainder as it gave them.
pub fn proxy_split(split: Option<(Balance, Balance)>) -> (shares: Result<(Balance, Balance), Error>)
    ensures
        match split {
            Some(s) => shares == Ok::<(Balance, Balance), Error>(s),
            None => shares == Err::<(Balance, Balance), Error>(Error::FailedProxy),
        },
{
    match split {
        Some(s) => Ok(s),
        None => Err(Error::FailedProxy),
    }
}

/// Adds one fee to a running sum of fees, or fails with `Overflow` where the sum
/// would no longer fit a balance.
pub fn add_fee(sum: Balance, fee: Balance) -> (next: Result<Balance, Error>)
    ensures
        match next {
            Ok(s) => s == sum + fee,
            Err(e) => e == Error::Overflow && sum + fee > Balance::MAX,
        },
{
    match sum.checked_add(fee) {
        Some(s) => Ok(s),
        None => Err(Error::Overflow),
    }
}

/// The proxy's cuts of a list of splits, in their order.
pub open spec fn cuts_of(splits: Seq<(Balance, Balance)>) -> Seq<Balance> {
    Seq::new(splits.len(), |i: int| splits[i].0)
}

/// The remainders of a list of splits, in their order.
pub open spec fn remainders_of(splits: Seq<(Balance, Balance)>) -> Seq<Balance> {
    Seq::new(splits.len(), |i: int| splits[i].1)
}

/// The fees of the first entries of a list add up to no more than those of the whole list.
pub proof fn lemma_total_prefix(fees: Seq<Balance>, len: int)
    requires
        0 <= len <= fees.len(),
    ensures
        0 <= total(fees.take(len)) <= total(fees),
    decreases fees.len(),
{
    if len == fees.len() {
        assert(fees.take(len) =~= fees);
        if fees.len() > 0 {
            lemma_total_prefix(fees.drop_last(), len - 1);
            assert(fees.drop_last().take(len - 1) =~= fees.drop_last());
        }
    } else {
        lemma_total_prefix(fees.drop_last(), len);
        assert(fees.drop_last().take(len) =~= fees.take(len));
    }
}

/// Settles a round, given the split that the fee policy answered for each payroll:
/// the remainders as they came, and the proxy's cuts added up. Fails with
/// `Overflow` exactly where the cuts together do not fit a balance.
pub fn settle(splits: &Vec<(Balance, Balance)>) -> (settled: Result<(Vec<Balance>, Balance), Error>)
    ensures
        match settled {
            Ok(shares) => {
                &&& shares.0@ == remainders_of(splits@)
                &&& shares.1 == total(cuts_of(splits@))
            },
            Err(e) => e == Error::Overflow && total(cuts_of(splits@)) > Balance::MAX,
        },
{
    let mut remainders: Vec<Balance> = Vec::new();
    let mut fee: Balance = 0;
    let mut i: usize = 0;
    while i < splits.len()
        invariant
            i <= splits@.len(),
            remainders@ == remainders_of(splits@.take(i as int)),
            fee == total(cuts_of(splits@.take(i as int))),
        decreases splits@.len() - i,
    {
        proof {
            let next = cuts_of(splits@.take(i + 1));
            assert(next.drop_last() =~= cuts_of(splits@.take(i as int)));
            assert(next.last() == splits@[i as int].0);
            assert(next =~= cuts_of(splits@).take(i + 1));
            lemma_total_prefix(cuts_of(splits@), i + 1);
        }
        fee = match add_fee(fee, splits[i].0) {
            Ok(sum) => sum,
            Err(e) => {
                return Err(e);
            },
        };
        remainders.push(splits[i].1);
        assert(remainders@ =~= remainders_of(splits@.take(i + 1)));
        i += 1;
    }
    assert(splits@.take(i as int) =~= splits@);
    Ok((remainders, fee))
}

} // verus!
