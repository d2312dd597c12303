//! The pallet: the two books, the collaborators, and the operations on them.

use crate::error::{Error, Failure};
use crate::laws::{
    balanced, fresh_batch, lemma_clawback_keeps_balance, lemma_drain_keeps_balance,
    lemma_cuts_within, lemma_empty_books_balanced, lemma_entries_owed, lemma_refresh_keeps_balance,
    owed_sum,
};
use crate::payrolls::{lists, payroll_of, Payrolls};
use crate::traits::{ChallengeInfo, Config, Currency, ProxyFee, Reputation, TrustBase};
use crate::records::{record_of, recorded, total, without_pathfinder, Records};
use crate::rules::{add_fee, cuts_of, proxy_split, round_opening, settle};
use crate::types::{AccountId, Balance, BlockNumber, Constants, Event, Payroll, Record};
use vstd::prelude::*;

verus! {

/// The targets of a batch, in the order they are refreshed.
pub open spec fn targets_of(user_scores: Seq<(AccountId, u32)>) -> Seq<AccountId> {
    Seq::new(user_scores.len(), |i: int| user_scores[i].0)
}

/// What every pathfinder of a book is owed in stake and fees fits a balance.
pub open spec fn all_fit(payrolls: Map<AccountId, Payroll>, update_staking_amount: Balance) -> bool {
    forall|p: AccountId| #[trigger]
        payrolls.contains_key(p) ==> payroll_of(payrolls, p).owed(update_staking_amount)
            <= Balance::MAX
}

/// The entries of a book that a list of pathfinders and amounts goes through.
pub open spec fn owing(list: Seq<(AccountId, Balance)>, payrolls: Map<AccountId, Payroll>) -> Seq<
    (AccountId, Payroll),
> {
    Seq::new(list.len(), |i: int| (list[i].0, payrolls[list[i].0]))
}

/// `cuts` holds one cut for each entry of the book, none more than that entry is
/// owed in stake and fees.
pub open spec fn cuts_within(
    payrolls: Map<AccountId, Payroll>,
    update_staking_amount: Balance,
    entries: Seq<(AccountId, Payroll)>,
    cuts: Seq<Balance>,
) -> bool {
    &&& lists(entries, payrolls)
    &&& cuts.len() == entries.len()
    &&& forall|i: int|
        0 <= i < cuts.len() ==> #[trigger] cuts[i] <= entries[i].1.owed(update_staking_amount)
}

/// `fee` is what settling a book gives a proxy: one cut for each entry of the book,
/// none more than the entry is owed, added up.
pub open spec fn settles(
    payrolls: Map<AccountId, Payroll>,
    update_staking_amount: Balance,
    fee: Balance,
) -> bool {
    exists|entries: Seq<(AccountId, Payroll)>, cuts: Seq<Balance>|
        #[trigger] cuts_within(payrolls, update_staking_amount, entries, cuts) && fee == total(cuts)
}

/// Settling a book can give a proxy more than fits a balance: there are cuts, one
/// for each entry and none more than the entry is owed, that add up to more.
pub open spec fn outgrows(payrolls: Map<AccountId, Payroll>, update_staking_amount: Balance) -> bool {
    exists|entries: Seq<(AccountId, Payroll)>, cuts: Seq<Balance>|
        #[trigger] cuts_within(payrolls, update_staking_amount, entries, cuts) && total(cuts)
            > Balance::MAX
}

/// A refresh of `len` updates can overflow: their stake does not fit a balance, or
/// the payroll cannot count them, or fees that such updates can earn do not fit
/// the payroll.
pub open spec fn overflowing(constants: Constants, before: Payroll, len: nat) -> bool {
    ||| constants.update_staking_amount * len > Balance::MAX
    ||| before.count + len > u32::MAX
    ||| exists|fees: Seq<Balance>|
        {
            &&& fees.len() <= len
            &&& forall|i: int| 0 <= i < fees.len() ==> constants.earns(#[trigger] fees[i])
            &&& before.total_fee + #[trigger] total(fees) > Balance::MAX
        }
}

/// One deployment: its constants, its collaborators and its books.
pub struct Pallet<T: Config> {
    pub constants: Constants,
    pub currency: T::Currency,
    pub reputation: T::Reputation,
    pub trust_base: T::TrustBase,
    pub challenge_info: T::ChallengeInfo,
    pub proxy_fee: T::ProxyFee,
    pub payrolls: Payrolls,
    pub records: Records,
}

impl<T: Config> Pallet<T> {
    /// Both books are well formed.
    pub open spec fn wf(&self) -> bool {
        self.payrolls.wf() && self.records.wf()
    }

    /// The books agree: each payroll is the count and the fees of the pathfinder's records.
    pub open spec fn balanced(&self) -> bool {
        balanced(self.payrolls@, self.records@)
    }

    /// Everything but the books is as in `other`.
    pub open spec fn same_surroundings(&self, other: &Self) -> bool {
        &&& self.constants == other.constants
        &&& self.currency == other.currency
        &&& self.reputation == other.reputation
        &&& self.trust_base == other.trust_base
        &&& self.challenge_info == other.challenge_info
        &&& self.proxy_fee == other.proxy_fee
    }

    /// A pallet with empty books.
    pub fn new(
        constants: Constants,
        currency: T::Currency,
        reputation: T::Reputation,
        trust_base: T::TrustBase,
        challenge_info: T::ChallengeInfo,
        proxy_fee: T::ProxyFee,
    ) -> (pallet: Self)
        ensures
            pallet.wf(),
            pallet.constants == constants,
            pallet.currency == currency,
            pallet.reputation == reputation,
            pallet.trust_base == trust_base,
            pallet.challenge_info == challenge_info,
            pallet.proxy_fee == proxy_fee,
            pallet.payrolls@ == Map::<AccountId, Payroll>::empty(),
            pallet.records@ == Map::<(AccountId, AccountId), Record>::empty(),
            pallet.balanced(),
    {
        proof {
            lemma_empty_books_balanced();
        }
        Pallet {
            constants,
            currency,
            reputation,
            trust_base,
            challenge_info,
            proxy_fee,
            payrolls: Payrolls::new(),
            records: Records::new(),
        }
    }

    /// What `pathfinder` is owed.
    pub fn get_payroll(&self, pathfinder: AccountId) -> (payroll: Payroll)
        requires
            self.wf(),
        ensures
            payroll == payroll_of(self.payrolls@, pathfinder),
    {
        self.payrolls.get(pathfinder)
    }

    /// The record of `target` as refreshed by `pathfinder`; the zero record where there is none.
    pub fn update_record(&self, pathfinder: AccountId, target: AccountId) -> (record: Record)
        requires
            self.wf(),
        ensures
            record == record_of(self.records@, (pathfinder, target)),
    {
        match self.records.get(pathfinder, target) {
            Some(record) => record,
            None => Record { update_at: 0, fee: 0 },
        }
    }

    /// Adds `count` updates earning `amount` in all to what `pathfinder` is owed.
    /// Fails with `Overflow`, and changes nothing, where either number would no longer fit.
    pub fn mutate_payroll(&mut self, pathfinder: AccountId, amount: Balance, count: u32) -> (done:
        Result<(), Error>)
        requires
            old(self).wf(),
        ensures
            final(self).wf(),
            final(self).same_surroundings(old(self)),
            final(self).records == old(self).records,
            match done {
                Ok(()) => {
                    let before = payroll_of(old(self).payrolls@, pathfinder);
                    &&& before.total_fee + amount <= Balance::MAX
                    &&& before.count + count <= u32::MAX
                    &&& final(self).payrolls@ == old(self).payrolls@.insert(
                        pathfinder,
                        before.credited(amount, count),
                    )
                },
                Err(e) => {
                    let before = payroll_of(old(self).payrolls@, pathfinder);
                    &&& e == Error::Overflow
                    &&& (before.total_fee + amount > Balance::MAX || before.count + count > u32::MAX)
                    &&& final(self).payrolls == old(self).payrolls
                },
            },
    {
        let before = self.payrolls.get(pathfinder);
        match before.credit(amount, count) {
            Ok(after) => {
                self.payrolls.put(pathfinder, after);
                Ok(())
            },
            Err(e) => Err(e),
        }
    }

    /// Writes the record of every update of a batch: each target as refreshed at
    /// `now` for the fee at the same place in `fees`.
    pub fn record_batch(
        &mut self,
        pathfinder: AccountId,
        user_scores: &Vec<(AccountId, u32)>,
        fees: &Vec<Balance>,
        now: BlockNumber,
    )
        requires
            old(self).wf(),
            fees@.len() == user_scores@.len(),
        ensures
            final(self).wf(),
            final(self).same_surroundings(old(self)),
            final(self).payrolls == old(self).payrolls,
            final(self).records@ == recorded(
                old(self).records@,
                pathfinder,
                targets_of(user_scores@),
                fees@,
                now,
            ),
    {
        let ghost targets = targets_of(user_scores@);
        let mut i: usize = 0;
        while i < user_scores.len()
            invariant
                self.wf(),
                i <= user_scores@.len(),
                fees@.len() == user_scores@.len(),
                targets == targets_of(user_scores@),
                self.same_surroundings(old(self)),
                self.payrolls == old(self).payrolls,
                self.records@ == recorded(
                    old(self).records@,
                    pathfinder,
                    targets.subrange(0, i as int),
                    fees@.subrange(0, i as int),
                    now,
                ),
            decreases user_scores@.len() - i,
        {
            let target = user_scores[i].0;
            let fee = fees[i];
            self.records.put(pathfinder, target, Record { update_at: now, fee });
            proof {
                let next_targets = targets.subrange(0, i + 1);
                let next_fees = fees@.subrange(0, i + 1);
                assert(next_targets.drop_last() =~= targets.subrange(0, i as int));
                assert(next_fees.drop_last() =~= fees@.subrange(0, i as int));
                assert(next_targets.last() == target);
                assert(next_fees.last() == fee);
            }
            i += 1;
        }
        proof {
            assert(targets.subrange(0, i as int) =~= targets);
            assert(fees@.subrange(0, i as int) =~= fees@);
        }
    }

    /// Settles a challenge against the refresh of `target` by `pathfinder`, given
    /// what the reputation system answered when asked whether updates are allowed.
    ///
    /// With `None` the challenge is refused as `NoUpdatesAllowed` and nothing
    /// changes. A pair without a record cannot be challenged: the challenge ends as
    /// `ChallengeTimeout` and nothing changes, so no update is clawed back twice.
    /// A record that is there leaves the book, whichever way the challenge ends.
    /// If it is still inside the confirmation period it is clawed back: the payroll
    /// loses one update and the record's fee, each stopping at zero, and the fee is
    /// returned. An older record ends the challenge as `ChallengeTimeout` with the
    /// payroll untouched.
    pub fn challenge(
        &mut self,
        status: Option<()>,
        target: AccountId,
        pathfinder: AccountId,
        now: BlockNumber,
    ) -> (outcome: Result<Balance, Error>)
        requires
            old(self).wf(),
        ensures
            final(self).wf(),
            final(self).same_surroundings(old(self)),
            status is None ==> {
                &&& outcome == Err::<Balance, Error>(Error::NoUpdatesAllowed)
                &&& final(self).payrolls == old(self).payrolls
                &&& final(self).records == old(self).records
            },
            status is Some && !old(self).records@.contains_key((pathfinder, target)) ==> {
                &&& outcome == Err::<Balance, Error>(Error::ChallengeTimeout)
                &&& final(self).payrolls == old(self).payrolls
                &&& final(self).records == old(self).records
            },
            status is Some && old(self).records@.contains_key((pathfinder, target)) ==> {
                let record = old(self).records@[(pathfinder, target)];
                let payroll = payroll_of(old(self).payrolls@, pathfinder);
                &&& final(self).records@ == old(self).records@.remove((pathfinder, target))
                &&& record.in_window(old(self).constants.confirmation_period, now) ==> {
                    &&& outcome == Ok::<Balance, Error>(record.fee)
                    &&& final(self).payrolls@ == old(self).payrolls@.insert(
                        pathfinder,
                        payroll.debited(record.fee),
                    )
                }
                &&& !record.in_window(old(self).constants.confirmation_period, now) ==> {
                    &&& outcome == Err::<Balance, Error>(Error::ChallengeTimeout)
                    &&& final(self).payrolls == old(self).payrolls
                }
            },
            outcome is Ok ==> old(self).records@.contains_key((pathfinder, target)),
            old(self).balanced() && (outcome is Ok || !old(self).records@.contains_key(
                (pathfinder, target),
            )) ==> final(self).balanced(),
    {
        if status.is_none() {
            return Err(Error::NoUpdatesAllowed);
        }
        let record = match self.records.get(pathfinder, target) {
            Some(record) => record,
            None => {
                return Err(Error::ChallengeTimeout);
            },
        };
        proof {
            if self.balanced() {
                lemma_clawback_keeps_balance(self.payrolls@, self.records@, pathfinder, target);
            }
        }
        self.records.take(pathfinder, target);
        if !record.is_challengeable(self.constants.confirmation_period, now) {
            return Err(Error::ChallengeTimeout);
        }
        let payroll = self.payrolls.get(pathfinder);
        self.payrolls.put(pathfinder, payroll.debit(record.fee));
        Ok(record.fee)
    }

    /// Takes what `pathfinder` is owed out of the payroll book and removes all its records.
    pub fn drain(&mut self, pathfinder: AccountId) -> (payroll: Payroll)
        requires
            old(self).wf(),
        ensures
            final(self).wf(),
            final(self).same_surroundings(old(self)),
            payroll == payroll_of(old(self).payrolls@, pathfinder),
            final(self).payrolls@ == old(self).payrolls@.remove(pathfinder),
            final(self).records@ == without_pathfinder(old(self).records@, pathfinder),
            old(self).balanced() ==> final(self).balanced(),
    {
        proof {
            if self.balanced() {
                lemma_drain_keeps_balance(self.payrolls@, self.records@, pathfinder);
            }
        }
        let payroll = self.payrolls.take(pathfinder);
        self.records.remove_prefix(pathfinder);
        payroll
    }
}

impl<T: Config> Pallet<T> {
    /// The books and the constants are as in `other`.
    pub open spec fn same_books(&self, other: &Self) -> bool {
        &&& self.constants == other.constants
        &&& self.payrolls == other.payrolls
        &&& self.records == other.records
    }

    /// Shares out the social balance of a refreshed account: one part among the
    /// accounts it trusts, one part back to itself, one part staked as the fee,
    /// which is returned. The first refusal of the ledger ends the operation.
    pub fn share(&mut self, user: AccountId) -> (fee: Result<Balance, Failure>)
        ensures
            final(self).same_books(old(self)),
            match fee {
                Ok(amount) => old(self).constants.earns(amount),
                Err(failure) => failure is Dispatch,
            },
    {
        let base = self.constants.base_token;
        let targets = self.trust_base.get_trust_old(user);
        let total_share = self.currency.social_balance(base, user);
        let amounts = self.constants.share_amounts(total_share);
        match self.currency.bat_share(base, user, &targets, amounts.shared) {
            Ok(()) => {},
            Err(e) => {
                return Err(Failure::Dispatch(e));
            },
        }
        match self.currency.thaw(base, user, amounts.thawed) {
            Ok(()) => {},
            Err(e) => {
                return Err(Failure::Dispatch(e));
            },
        }
        match self.currency.social_staking(base, user, amounts.fee) {
            Ok(()) => {},
            Err(e) => {
                return Err(Failure::Dispatch(e));
            },
        }
        Ok(amounts.fee)
    }

    /// Applies one score and shares out the target's social balance; returns the
    /// fee the update earned.
    pub fn do_refresh(&mut self, user_score: &(AccountId, u32)) -> (fee: Result<Balance, Failure>)
        ensures
            final(self).same_books(old(self)),
            match fee {
                Ok(amount) => old(self).constants.earns(amount),
                Err(failure) => failure is Dispatch,
            },
    {
        match self.reputation.refresh_reputation(user_score) {
            Ok(()) => {},
            Err(e) => {
                return Err(Failure::Dispatch(e));
            },
        }
        self.share(user_score.0)
    }

    /// Refreshes a batch of reputations for `pathfinder` at `now`.
    ///
    /// A batch above the limit is refused as `QuantityLimitReached` before any
    /// collaborator is asked. Then the round must be open, the stake of the whole
    /// batch is charged, and each score is applied and its fee collected, in order.
    /// Only when all of that went through are the books written: one record per
    /// update, and the payroll credited with the number of updates and the sum of
    /// their fees. Any failure leaves the books as they were.
    pub fn refresh(
        &mut self,
        pathfinder: AccountId,
        user_scores: Vec<(AccountId, u32)>,
        now: BlockNumber,
    ) -> (outcome: Result<Event, Failure>)
        requires
            old(self).wf(),
        ensures
            final(self).wf(),
            final(self).constants == old(self).constants,
            user_scores@.len() > old(self).constants.max_update_count ==> {
                &&& outcome == Err::<Event, Failure>(Failure::Rule(Error::QuantityLimitReached))
                &&& *final(self) == *old(self)
            },
            outcome is Err ==> final(self).same_books(old(self)),
            old(self).balanced() && fresh_batch(
                old(self).records@,
                pathfinder,
                targets_of(user_scores@),
            ) ==> final(self).balanced(),
            outcome == Err::<Event, Failure>(Failure::Rule(Error::Overflow)) ==> overflowing(
                old(self).constants,
                payroll_of(old(self).payrolls@, pathfinder),
                user_scores@.len(),
            ),
            outcome matches Err(Failure::Rule(e)) ==> {
                &&& e == Error::QuantityLimitReached || e == Error::NoUpdatesAllowed || e
                    == Error::Overflow
                &&& e == Error::QuantityLimitReached ==> user_scores@.len() > old(
                    self,
                ).constants.max_update_count
            },
            outcome matches Ok(event) ==> exists|fees: Seq<Balance>|
                {
                    let before = payroll_of(old(self).payrolls@, pathfinder);
                    &&& fees.len() == user_scores@.len()
                    &&& forall|i: int|
                        0 <= i < fees.len() ==> old(self).constants.earns(#[trigger] fees[i])
                    &&& before.total_fee + total(fees) <= Balance::MAX
                    &&& before.count + fees.len() <= u32::MAX
                    &&& event == Event::ReputationRefreshed(
                        pathfinder,
                        fees.len() as u32,
                        total(fees) as Balance,
                    )
                    &&& final(self).payrolls@ == old(self).payrolls@.insert(
                        pathfinder,
                        before.credited(total(fees) as Balance, fees.len() as u32),
                    )
                    &&& final(self).records@ == #[trigger] recorded(
                        old(self).records@,
                        pathfinder,
                        targets_of(user_scores@),
                        fees,
                        now,
                    )
                },
    {
        let count = match self.constants.batch_count(user_scores.len()) {
            Ok(count) => count,
            Err(e) => {
                return Err(Failure::Rule(e));
            },
        };
        let status = self.reputation.check_update_status(true);
        let amount = match self.constants.batch_stake(count, status) {
            Ok(amount) => amount,
            Err(e) => {
                return Err(Failure::Rule(e));
            },
        };
        match self.currency.staking(self.constants.base_token, pathfinder, amount) {
            Ok(()) => {},
            Err(e) => {
                return Err(Failure::Dispatch(e));
            },
        }
        let mut fees: Vec<Balance> = Vec::new();
        let mut total_fee: Balance = 0;
        let mut i: usize = 0;
        while i < user_scores.len()
            invariant
                self.wf(),
                self.same_books(old(self)),
                i <= user_scores@.len(),
                user_scores@.len() <= old(self).constants.max_update_count,
                fees@.len() == i,
                forall|j: int| 0 <= j < i ==> self.constants.earns(#[trigger] fees@[j]),
                total_fee == total(fees@),
            decreases user_scores@.len() - i,
        {
            let fee = match self.do_refresh(&user_scores[i]) {
                Ok(fee) => fee,
                Err(e) => {
                    return Err(e);
                },
            };
            proof {
                assert(fees@.push(fee).drop_last() =~= fees@);
            }
            total_fee = match add_fee(total_fee, fee) {
                Ok(sum) => sum,
                Err(e) => {
                    proof {
                        let more = fees@.push(fee);
                        assert(total(more) > Balance::MAX);
                        assert(forall|j: int|
                            0 <= j < more.len() ==> self.constants.earns(#[trigger] more[j]));
                    }
                    return Err(Failure::Rule(e));
                },
            };
            fees.push(fee);
            i += 1;
        }
        match self.mutate_payroll(pathfinder, total_fee, count) {
            Ok(()) => {},
            Err(e) => {
                proof {
                    assert(total(fees@) == total_fee);
                }
                return Err(Failure::Rule(e));
            },
        }
        self.record_batch(pathfinder, &user_scores, &fees, now);
        proof {
            let targets = targets_of(user_scores@);
            if old(self).balanced() && fresh_batch(old(self).records@, pathfinder, targets) {
                lemma_refresh_keeps_balance(
                    old(self).payrolls@,
                    old(self).records@,
                    pathfinder,
                    targets,
                    fees@,
                    now,
                );
            }
        }
        self.reputation.set_last_refresh_at();
        Ok(Event::ReputationRefreshed(pathfinder, count, total_fee))
    }

    /// What every pathfinder of the payroll book is owed in stake and fees, each
    /// pathfinder once. Fails with `Overflow` as soon as one of these amounts does
    /// not fit a balance.
    pub fn round_totals(&self) -> (totals: Result<Vec<(AccountId, Balance)>, Error>)
        requires
            self.wf(),
        ensures
            match totals {
                Ok(list) => {
                    &&& all_fit(self.payrolls@, self.constants.update_staking_amount)
                    &&& lists(owing(list@, self.payrolls@), self.payrolls@)
                    &&& forall|i: int|
                        0 <= i < list@.len() ==> (#[trigger] list@[i]).1 == self.payrolls@[list@[i].0].owed(
                            self.constants.update_staking_amount,
                        )
                },
                Err(e) => {
                    &&& e == Error::Overflow
                    &&& !all_fit(self.payrolls@, self.constants.update_staking_amount)
                },
            },
    {
        let entries = self.payrolls.entries();
        let mut list: Vec<(AccountId, Balance)> = Vec::new();
        let mut i: usize = 0;
        while i < entries.len()
            invariant
                lists(entries@, self.payrolls@),
                i <= entries@.len(),
                list@.len() == i,
                forall|j: int|
                    0 <= j < i ==> (#[trigger] list@[j]).0 == entries@[j].0 && list@[j].1
                        == entries@[j].1.owed(self.constants.update_staking_amount),
            decreases entries@.len() - i,
        {
            let amount = match entries[i].1.total_amount(self.constants.update_staking_amount) {
                Ok(amount) => amount,
                Err(e) => {
                    assert(self.payrolls@.contains_key(entries@[i as int].0));
                    return Err(e);
                },
            };
            list.push((entries[i].0, amount));
            i += 1;
        }
        proof {
            let staking = self.constants.update_staking_amount;
            let book = self.payrolls@;
            assert(owing(list@, book) =~= entries@) by {
                assert forall|j: int| 0 <= j < entries@.len() implies owing(list@, book)[j]
                    == entries@[j] by {
                    assert(list@[j].0 == entries@[j].0);
                    assert(book[entries@[j].0] == entries@[j].1);
                }
            }
            assert forall|p: AccountId| #[trigger] book.contains_key(p) implies payroll_of(book, p).owed(
                staking,
            ) <= Balance::MAX by {
                let j = choose|j: int| 0 <= j < entries@.len() && (#[trigger] entries@[j]).0 == p;
                assert(list@[j].1 == entries@[j].1.owed(staking));
            }
            assert forall|j: int| 0 <= j < list@.len() implies (#[trigger] list@[j]).1
                == book[list@[j].0].owed(staking) by {
                assert(book[entries@[j].0] == entries@[j].1);
            }
        }
        Ok(list)
    }

    /// Opens a new round on behalf of `who` at `now`, and settles every payroll.
    ///
    /// The reputation system must accept the round, every challenge must have been
    /// harvested (`ChallengeNotClaimed`), and the fee policy must let a proxy act
    /// since the last refresh (`ChallengeTimeout`). What every pathfinder is owed
    /// must fit a balance, and so must the cuts of the proxy added up (`Overflow`);
    /// both are settled before anything is released. Then each pathfinder is
    /// released what it is owed less the proxy's cut, and `who` is released the cuts
    /// added up, which is what is returned. On success the payroll book is empty and
    /// the record book untouched; any failure leaves both as they were.
    pub fn new_round(&mut self, who: AccountId, now: BlockNumber) -> (outcome: Result<
        Balance,
        Failure,
    >)
        requires
            old(self).wf(),
        ensures
            final(self).wf(),
            final(self).constants == old(self).constants,
            final(self).records == old(self).records,
            outcome is Err ==> final(self).payrolls == old(self).payrolls,
            outcome matches Err(Failure::Rule(e)) ==> e == Error::ChallengeNotClaimed || e
                == Error::ChallengeTimeout || e == Error::Overflow,
            outcome is Ok ==> final(self).payrolls@ == Map::<AccountId, Payroll>::empty(),
            outcome is Ok ==> all_fit(old(self).payrolls@, old(self).constants.update_staking_amount),
            outcome matches Ok(fee) ==> settles(
                old(self).payrolls@,
                old(self).constants.update_staking_amount,
                fee,
            ),
            outcome == Err::<Balance, Failure>(Failure::Rule(Error::Overflow)) ==> !all_fit(
                old(self).payrolls@,
                old(self).constants.update_staking_amount,
            ) || outgrows(old(self).payrolls@, old(self).constants.update_staking_amount),
            outcome matches Ok(fee) ==> fee <= owed_sum(
                old(self).payrolls@,
                old(self).constants.update_staking_amount,
            ),
    {
        match self.reputation.new_round() {
            Ok(()) => {},
            Err(e) => {
                return Err(Failure::Dispatch(e));
            },
        }
        let all_harvested = self.challenge_info.is_all_harvest();
        let last = self.reputation.get_last_refresh_at();
        let allowed_proxy = self.proxy_fee.is_allowed_proxy(last, now);
        match round_opening(all_harvested, allowed_proxy) {
            Ok(()) => {},
            Err(e) => {
                return Err(Failure::Rule(e));
            },
        }
        let totals = match self.round_totals() {
            Ok(totals) => totals,
            Err(e) => {
                return Err(Failure::Rule(e));
            },
        };
        let ghost staking = old(self).constants.update_staking_amount;
        let ghost entries = owing(totals@, old(self).payrolls@);
        let mut splits: Vec<(Balance, Balance)> = Vec::new();
        let mut i: usize = 0;
        while i < totals.len()
            invariant
                self.wf(),
                self.same_books(old(self)),
                i <= totals@.len(),
                splits@.len() == i,
                forall|j: int| 0 <= j < i ==> (#[trigger] splits@[j]).0 + splits@[j].1 == totals@[j].1,
            decreases totals@.len() - i,
        {
            let split = self.proxy_fee.with_fee(totals[i].1);
            splits.push(split);
            i += 1;
        }
        let ghost cuts = cuts_of(splits@);
        proof {
            assert forall|j: int| 0 <= j < cuts.len() implies #[trigger] cuts[j] <= entries[j].1.owed(
                staking,
            ) by {
                assert(splits@[j].0 + splits@[j].1 == totals@[j].1);
                assert(totals@[j].1 == old(self).payrolls@[totals@[j].0].owed(staking));
            }
            assert(cuts_within(old(self).payrolls@, staking, entries, cuts));
            lemma_cuts_within(entries, cuts, staking);
            lemma_entries_owed(entries, old(self).payrolls@, staking);
        }
        let (remainders, total_fee) = match settle(&splits) {
            Ok(shares) => shares,
            Err(e) => {
                return Err(Failure::Rule(e));
            },
        };
        let base = self.constants.base_token;
        let mut k: usize = 0;
        while k < totals.len()
            invariant
                self.wf(),
                self.same_books(old(self)),
                base == self.constants.base_token,
                remainders@.len() == totals@.len(),
                k <= totals@.len(),
            decreases totals@.len() - k,
        {
            match self.currency.release(base, totals[k].0, remainders[k]) {
                Ok(()) => {},
                Err(e) => {
                    return Err(Failure::Dispatch(e));
                },
            }
            k += 1;
        }
        match self.currency.release(base, who, total_fee) {
            Ok(()) => {},
            Err(e) => {
                return Err(Failure::Dispatch(e));
            },
        }
        self.payrolls.clear();
        assert(cuts_within(old(self).payrolls@, staking, entries, cuts) && total_fee == total(cuts));
        Ok(total_fee)
    }

    /// Settles the payroll of `pathfinder` at its own request, once the refresh
    /// phase has ended: releases stake and fees in full, which is what is returned,
    /// and removes the payroll and every record of the pathfinder. Any failure
    /// leaves the books as they were.
    pub fn receiver_all(&mut self, pathfinder: AccountId) -> (outcome: Result<Balance, Failure>)
        requires
            old(self).wf(),
        ensures
            final(self).wf(),
            final(self).constants == old(self).constants,
            outcome is Err ==> final(self).same_books(old(self)),
            outcome matches Err(Failure::Rule(e)) ==> {
                &&& e == Error::Overflow
                &&& payroll_of(old(self).payrolls@, pathfinder).owed(
                    old(self).constants.update_staking_amount,
                ) > Balance::MAX
            },
            outcome matches Ok(amount) ==> {
                &&& amount == payroll_of(old(self).payrolls@, pathfinder).owed(
                    old(self).constants.update_staking_amount,
                )
                &&& final(self).payrolls@ == old(self).payrolls@.remove(pathfinder)
                &&& final(self).records@ == without_pathfinder(old(self).records@, pathfinder)
            },
            old(self).balanced() ==> final(self).balanced(),
    {
        match self.reputation.end_refresh() {
            Ok(()) => {},
            Err(e) => {
                return Err(Failure::Dispatch(e));
            },
        }
        let payroll = self.payrolls.get(pathfinder);
        let amount = match payroll.total_amount(self.constants.update_staking_amount) {
            Ok(amount) => amount,
            Err(e) => {
                return Err(Failure::Rule(e));
            },
        };
        match self.currency.release(self.constants.base_token, pathfinder, amount) {
            Ok(()) => {},
            Err(e) => {
                return Err(Failure::Dispatch(e));
            },
        }
        self.drain(pathfinder);
        Ok(amount)
    }

    /// Settles the payroll of `pathfinder` at the request of `proxy`, once the
    /// refresh phase has ended and the fee policy lets a proxy act at `now`
    /// (`FailedProxy` where it does not). The proxy is released its cut and the
    /// pathfinder the remainder; the two are returned in that order and add up to
    /// what the pathfinder was owed. The payroll and every record of the pathfinder
    /// are removed. Any failure leaves the books as they were.
    pub fn receiver_all_proxy(&mut self, proxy: AccountId, pathfinder: AccountId, now: BlockNumber) -> (outcome:
        Result<(Balance, Balance), Failure>)
        requires
            old(self).wf(),
        ensures
            final(self).wf(),
            final(self).constants == old(self).constants,
            outcome is Err ==> final(self).same_books(old(self)),
            outcome matches Err(Failure::Rule(e)) ==> {
                &&& e == Error::Overflow || e == Error::FailedProxy
                &&& e == Error::Overflow <==> payroll_of(old(self).payrolls@, pathfinder).owed(
                    old(self).constants.update_staking_amount,
                ) > Balance::MAX
            },
            outcome matches Ok(shares) ==> {
                &&& shares.0 + shares.1 == payroll_of(old(self).payrolls@, pathfinder).owed(
                    old(self).constants.update_staking_amount,
                )
                &&& final(self).payrolls@ == old(self).payrolls@.remove(pathfinder)
                &&& final(self).records@ == without_pathfinder(old(self).records@, pathfinder)
            },
            old(self).balanced() ==> final(self).balanced(),
    {
        match self.reputation.end_refresh() {
            Ok(()) => {},
            Err(e) => {
                return Err(Failure::Dispatch(e));
            },
        }
        let last = self.reputation.get_last_update_at();
        let payroll = self.payrolls.get(pathfinder);
        let amount = match payroll.total_amount(self.constants.update_staking_amount) {
            Ok(amount) => amount,
            Err(e) => {
                return Err(Failure::Rule(e));
            },
        };
        let split = self.proxy_fee.checked_with_fee(amount, last, now);
        let shares = match proxy_split(split) {
            Ok(shares) => shares,
            Err(e) => {
                return Err(Failure::Rule(e));
            },
        };
        match self.currency.release(self.constants.base_token, proxy, shares.0) {
            Ok(()) => {},
            Err(e) => {
                return Err(Failure::Dispatch(e));
            },
        }
        match self.currency.release(self.constants.base_token, pathfinder, shares.1) {
            Ok(()) => {},
            Err(e) => {
                return Err(Failure::Dispatch(e));
            },
        }
        self.drain(pathfinder);
        Ok(shares)
    }

    /// Opens a challenge at `now` against the refresh of `target` by `pathfinder`:
    /// asks the reputation system whether updates are allowed and settles the
    /// challenge on its answer, as `challenge` does. Returns the fee clawed back.
    /// A pair without a record is refused and nothing is debited.
    pub fn start(&mut self, target: AccountId, pathfinder: AccountId, now: BlockNumber) -> (outcome:
        Result<Balance, Failure>)
        requires
            old(self).wf(),
        ensures
            final(self).wf(),
            final(self).constants == old(self).constants,
            outcome matches Err(failure) ==> failure is Rule,
            outcome == Err::<Balance, Failure>(Failure::Rule(Error::NoUpdatesAllowed)) ==> {
                &&& final(self).payrolls == old(self).payrolls
                &&& final(self).records == old(self).records
            },
            !old(self).records@.contains_key((pathfinder, target)) ==> {
                &&& outcome == Err::<Balance, Failure>(Failure::Rule(Error::NoUpdatesAllowed))
                    || outcome == Err::<Balance, Failure>(Failure::Rule(Error::ChallengeTimeout))
                &&& final(self).payrolls == old(self).payrolls
                &&& final(self).records == old(self).records
            },
            old(self).records@.contains_key((pathfinder, target)) && outcome != Err::<
                Balance,
                Failure,
            >(Failure::Rule(Error::NoUpdatesAllowed)) ==> {
                let record = old(self).records@[(pathfinder, target)];
                let payroll = payroll_of(old(self).payrolls@, pathfinder);
                &&& final(self).records@ == old(self).records@.remove((pathfinder, target))
                &&& record.in_window(old(self).constants.confirmation_period, now) ==> {
                    &&& outcome == Ok::<Balance, Failure>(record.fee)
                    &&& final(self).payrolls@ == old(self).payrolls@.insert(
                        pathfinder,
                        payroll.debited(record.fee),
                    )
                }
                &&& !record.in_window(old(self).constants.confirmation_period, now) ==> {
                    &&& outcome == Err::<Balance, Failure>(Failure::Rule(Error::ChallengeTimeout))
                    &&& final(self).payrolls == old(self).payrolls
                }
            },
            outcome is Ok ==> old(self).records@.contains_key((pathfinder, target)),
            old(self).balanced() && (outcome is Ok || !old(self).records@.contains_key(
                (pathfinder, target),
            )) ==> final(self).balanced(),
    {
        let status = self.reputation.check_update_status(true);
        match self.challenge(status, target, pathfinder, now) {
            Ok(fee) => Ok(fee),
            Err(e) => Err(Failure::Rule(e)),
        }
    }
}

} // verus!
