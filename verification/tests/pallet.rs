use refresh_reputation::error::{Error, Failure};
use refresh_reputation::pallet::Pallet;
use refresh_reputation::policy::FixedProxyFee;
use refresh_reputation::traits::{ChallengeInfo, Config, Currency, ProxyFee, Reputation, TrustBase};
use refresh_reputation::types::{Constants, Event, Payroll, Record};
use sp_runtime::DispatchError;

#[derive(Debug, Clone, PartialEq)]
enum Call {
    Staking(u64, u128),
    Release(u64, u128),
    BatShare(u64, Vec<u64>, u128),
    Thaw(u64, u128),
    SocialStaking(u64, u128),
}

struct Ledger {
    calls: Vec<Call>,
    social: Vec<(u64, u128)>,
    refuse: Option<Call>,
}

impl Ledger {
    fn answer(&mut self, call: Call) -> Result<(), DispatchError> {
        if self.refuse.as_ref() == Some(&call) {
            return Err(DispatchError::Other("refused"));
        }
        self.calls.push(call);
        Ok(())
    }
}

impl Currency for Ledger {
    fn staking(&mut self, _currency_id: u32, who: u64, amount: u128) -> Result<(), DispatchError> {
        self.answer(Call::Staking(who, amount))
    }

    fn release(&mut self, _currency_id: u32, who: u64, amount: u128) -> Result<(), DispatchError> {
        self.answer(Call::Release(who, amount))
    }

    fn social_balance(&self, _currency_id: u32, who: u64) -> u128 {
        for entry in self.social.iter() {
            if entry.0 == who {
                return entry.1;
            }
        }
        0
    }

    fn bat_share(
        &mut self,
        _currency_id: u32,
        from: u64,
        targets: &Vec<u64>,
        amount: u128,
    ) -> Result<(), DispatchError> {
        self.answer(Call::BatShare(from, targets.clone(), amount))
    }

    fn thaw(&mut self, _currency_id: u32, who: u64, amount: u128) -> Result<(), DispatchError> {
        self.answer(Call::Thaw(who, amount))
    }

    fn social_staking(&mut self, _currency_id: u32, who: u64, amount: u128) -> Result<(), DispatchError> {
        self.answer(Call::SocialStaking(who, amount))
    }
}

struct Scores {
    open: bool,
    ended: bool,
    accepts_round: bool,
    applied: Vec<(u64, u32)>,
    refreshes: u32,
    last_refresh_at: u64,
    last_update_at: u64,
}

impl Reputation for Scores {
    fn new_round(&mut self) -> Result<(), DispatchError> {
        if self.accepts_round {
            Ok(())
        } else {
            Err(DispatchError::Other("round already open"))
        }
    }

    fn check_update_status(&mut self, update_mode: bool) -> Option<()> {
        if self.open == update_mode {
            Some(())
        } else {
            None
        }
    }

    fn refresh_reputation(&mut self, user_score: &(u64, u32)) -> Result<(), DispatchError> {
        if user_score.1 > 1000 {
            return Err(DispatchError::Other("score out of range"));
        }
        self.applied.push(*user_score);
        Ok(())
    }

    fn set_last_refresh_at(&mut self) {
        self.refreshes += 1;
    }

    fn end_refresh(&mut self) -> Result<(), DispatchError> {
        if self.ended {
            Ok(())
        } else {
            Err(DispatchError::Other("refresh not ended"))
        }
    }

    fn get_last_refresh_at(&self) -> u64 {
        self.last_refresh_at
    }

    fn get_last_update_at(&self) -> u64 {
        self.last_update_at
    }
}

struct Graph;

impl TrustBase for Graph {
    fn get_trust_old(&self, who: u64) -> Vec<u64> {
        vec![who + 100, who + 200]
    }
}

struct Challenges {
    all_harvested: bool,
}

impl ChallengeInfo for Challenges {
    fn is_all_harvest(&self) -> bool {
        self.all_harvested
    }
}

struct FlatFee {
    fee: u128,
}

impl ProxyFee for FlatFee {
    fn is_allowed_proxy(&self, _last: u64, _now: u64) -> bool {
        true
    }

    fn with_fee(&self, total: u128) -> (u128, u128) {
        let cut = if total < self.fee { total } else { self.fee };
        (cut, total - cut)
    }

    fn checked_with_fee(&self, total: u128, _last: u64, _now: u64) -> Option<(u128, u128)> {
        Some(self.with_fee(total))
    }
}

struct FlatRuntime;

impl Config for FlatRuntime {
    type Currency = Ledger;
    type Reputation = Scores;
    type TrustBase = Graph;
    type ChallengeInfo = Challenges;
    type ProxyFee = FlatFee;
}

struct Runtime;

impl Config for Runtime {
    type Currency = Ledger;
    type Reputation = Scores;
    type TrustBase = Graph;
    type ChallengeInfo = Challenges;
    type ProxyFee = FixedProxyFee;
}

const P: u64 = 1;
const Q: u64 = 2;
const PROXY: u64 = 9;
const A: u64 = 11;
const B: u64 = 12;

fn constants() -> Constants {
    Constants {
        base_token: 0,
        share_ratio: 500_000_000,
        fee_ration: 100_000_000,
        self_ration: 250_000_000,
        max_update_count: 3,
        update_staking_amount: 10,
        confirmation_period: 20,
    }
}

fn pallet() -> Pallet<Runtime> {
    Pallet::new(
        constants(),
        Ledger { calls: Vec::new(), social: vec![(A, 1000), (B, 2005)], refuse: None },
        Scores {
            open: true,
            ended: false,
            accepts_round: true,
            applied: Vec::new(),
            refreshes: 0,
            last_refresh_at: 0,
            last_update_at: 0,
        },
        Graph,
        Challenges { all_harvested: true },
        FixedProxyFee { ratio: 100_000_000, period: 50 },
    )
}

fn calls_for(target: u64, shared: u128, thawed: u128, fee: u128) -> Vec<Call> {
    vec![
        Call::BatShare(target, vec![target + 100, target + 200], shared),
        Call::Thaw(target, thawed),
        Call::SocialStaking(target, fee),
    ]
}

fn fees_of(pallet: &Pallet<Runtime>, pathfinder: u64, targets: &[u64]) -> (u32, u128) {
    let mut count = 0;
    let mut fees = 0;
    for target in targets {
        if let Some(record) = pallet.records.get(pathfinder, *target) {
            count += 1;
            fees += record.fee;
        }
    }
    (count, fees)
}

fn assert_balanced(pallet: &Pallet<Runtime>, pathfinder: u64) {
    let payroll = pallet.get_payroll(pathfinder);
    assert_eq!(fees_of(pallet, pathfinder, &[A, B, 13, 14]), (payroll.count, payroll.total_fee));
}

#[test]
fn refresh_then_challenge_scenario() {
    let mut pallet = pallet();
    let event = pallet.refresh(P, vec![(A, 700), (B, 300)], 100);
    assert_eq!(event, Ok(Event::ReputationRefreshed(P, 2, 300)));
    assert_eq!(pallet.currency.calls[0], Call::Staking(P, 20));
    assert_eq!(pallet.update_record(P, A), Record { update_at: 100, fee: 100 });
    assert_eq!(pallet.update_record(P, B), Record { update_at: 100, fee: 200 });
    assert_eq!(pallet.get_payroll(P), Payroll { count: 2, total_fee: 300 });

    assert_eq!(pallet.start(A, P, 105), Ok(100));
    assert_eq!(pallet.get_payroll(P), Payroll { count: 1, total_fee: 200 });
    assert_eq!(pallet.records.get(P, A), None);
    assert_eq!(pallet.records.get(P, B), Some(Record { update_at: 100, fee: 200 }));

    assert_eq!(pallet.start(A, P, 105), Err(Failure::Rule(Error::ChallengeTimeout)));
    assert_eq!(pallet.get_payroll(P), Payroll { count: 1, total_fee: 200 });
}

#[test]
fn refresh_calls_the_collaborators_in_order() {
    let mut pallet = pallet();
    assert!(pallet.refresh(P, vec![(A, 700), (B, 300)], 100).is_ok());
    let mut expected = vec![Call::Staking(P, 20)];
    expected.extend(calls_for(A, 500, 250, 100));
    expected.extend(calls_for(B, 1002, 501, 200));
    assert_eq!(pallet.currency.calls, expected);
    assert_eq!(pallet.reputation.applied, vec![(A, 700), (B, 300)]);
    assert_eq!(pallet.reputation.refreshes, 1);
}

#[test]
fn refresh_accumulates_over_batches() {
    let mut pallet = pallet();
    assert_eq!(pallet.refresh(P, vec![(A, 1)], 100), Ok(Event::ReputationRefreshed(P, 1, 100)));
    assert_balanced(&pallet, P);
    assert_eq!(pallet.refresh(P, vec![(B, 2)], 101), Ok(Event::ReputationRefreshed(P, 1, 200)));
    assert_eq!(pallet.get_payroll(P), Payroll { count: 2, total_fee: 300 });
    assert_balanced(&pallet, P);
    assert_eq!(pallet.refresh(Q, vec![(B, 2)], 102), Ok(Event::ReputationRefreshed(Q, 1, 200)));
    assert_eq!(pallet.get_payroll(P), Payroll { count: 2, total_fee: 300 });
    assert_eq!(pallet.get_payroll(Q), Payroll { count: 1, total_fee: 200 });
    assert_eq!(pallet.update_record(P, B), Record { update_at: 101, fee: 200 });
    assert_eq!(pallet.update_record(Q, B), Record { update_at: 102, fee: 200 });
    assert_balanced(&pallet, P);
    assert_balanced(&pallet, Q);
}

#[test]
fn refresh_of_an_empty_batch() {
    let mut pallet = pallet();
    assert_eq!(pallet.refresh(P, Vec::new(), 100), Ok(Event::ReputationRefreshed(P, 0, 0)));
    assert_eq!(pallet.currency.calls, vec![Call::Staking(P, 0)]);
    assert_eq!(pallet.get_payroll(P), Payroll { count: 0, total_fee: 0 });
    assert_eq!(pallet.reputation.refreshes, 1);
}

#[test]
fn refresh_of_the_same_target_twice_keeps_the_later_record() {
    let mut pallet = pallet();
    assert_eq!(pallet.refresh(P, vec![(A, 1)], 100), Ok(Event::ReputationRefreshed(P, 1, 100)));
    pallet.currency.social = vec![(A, 50)];
    assert_eq!(pallet.refresh(P, vec![(A, 2)], 110), Ok(Event::ReputationRefreshed(P, 1, 5)));
    assert_eq!(pallet.update_record(P, A), Record { update_at: 110, fee: 5 });
    assert_eq!(pallet.get_payroll(P), Payroll { count: 2, total_fee: 105 });
}

#[test]
fn refresh_above_the_limit_changes_nothing() {
    let mut pallet = pallet();
    let outcome = pallet.refresh(P, vec![(A, 1), (B, 2), (13, 3), (14, 4)], 100);
    assert_eq!(outcome, Err(Failure::Rule(Error::QuantityLimitReached)));
    assert!(pallet.currency.calls.is_empty());
    assert!(pallet.reputation.applied.is_empty());
    assert_eq!(pallet.reputation.refreshes, 0);
    assert_eq!(pallet.get_payroll(P), Payroll { count: 0, total_fee: 0 });
    assert_eq!(pallet.records.get(P, A), None);
    assert!(pallet.refresh(P, vec![(A, 1), (B, 2), (13, 3)], 100).is_ok());
}

#[test]
fn refresh_above_the_limit_comes_before_a_closed_round() {
    let mut pallet = pallet();
    pallet.reputation.open = false;
    let outcome = pallet.refresh(P, vec![(A, 1), (B, 2), (13, 3), (14, 4)], 100);
    assert_eq!(outcome, Err(Failure::Rule(Error::QuantityLimitReached)));
}

#[test]
fn refresh_outside_the_update_period() {
    let mut pallet = pallet();
    pallet.reputation.open = false;
    let outcome = pallet.refresh(P, vec![(A, 1)], 100);
    assert_eq!(outcome, Err(Failure::Rule(Error::NoUpdatesAllowed)));
    assert!(pallet.currency.calls.is_empty());
    assert_eq!(pallet.get_payroll(P), Payroll { count: 0, total_fee: 0 });
}

#[test]
fn refresh_with_a_stake_that_overflows() {
    let mut pallet = pallet();
    pallet.constants.update_staking_amount = u128::MAX;
    let outcome = pallet.refresh(P, vec![(A, 1), (B, 2)], 100);
    assert_eq!(outcome, Err(Failure::Rule(Error::Overflow)));
    assert!(pallet.currency.calls.is_empty());
    assert!(pallet.reputation.applied.is_empty());
}

#[test]
fn refresh_with_fees_that_overflow() {
    let mut pallet = pallet();
    pallet.constants.fee_ration = 1_000_000_000;
    pallet.currency.social = vec![(A, u128::MAX), (B, 1)];
    let outcome = pallet.refresh(P, vec![(A, 1), (B, 2)], 100);
    assert_eq!(outcome, Err(Failure::Rule(Error::Overflow)));
    assert_eq!(pallet.get_payroll(P), Payroll { count: 0, total_fee: 0 });
    assert_eq!(pallet.records.get(P, A), None);
    assert_eq!(pallet.reputation.refreshes, 0);
}

#[test]
fn refresh_with_a_payroll_that_overflows() {
    let mut pallet = pallet();
    assert_eq!(pallet.mutate_payroll(P, u128::MAX - 99, 1), Ok(()));
    let outcome = pallet.refresh(P, vec![(A, 1)], 100);
    assert_eq!(outcome, Err(Failure::Rule(Error::Overflow)));
    assert_eq!(pallet.get_payroll(P), Payroll { count: 1, total_fee: u128::MAX - 99 });
    assert_eq!(pallet.records.get(P, A), None);
    pallet.currency.social = vec![(A, 990)];
    assert_eq!(pallet.refresh(P, vec![(A, 1)], 100), Ok(Event::ReputationRefreshed(P, 1, 99)));
    assert_eq!(pallet.get_payroll(P), Payroll { count: 2, total_fee: u128::MAX });
}

#[test]
fn refresh_hands_on_a_refused_stake() {
    let mut pallet = pallet();
    pallet.currency.refuse = Some(Call::Staking(P, 20));
    let outcome = pallet.refresh(P, vec![(A, 1), (B, 2)], 100);
    assert_eq!(outcome, Err(Failure::Dispatch(DispatchError::Other("refused"))));
    assert!(pallet.reputation.applied.is_empty());
    assert_eq!(pallet.get_payroll(P), Payroll { count: 0, total_fee: 0 });
}

#[test]
fn refresh_that_fails_midway_leaves_the_books() {
    let mut pallet = pallet();
    let outcome = pallet.refresh(P, vec![(A, 1), (B, 2000)], 100);
    assert_eq!(outcome, Err(Failure::Dispatch(DispatchError::Other("score out of range"))));
    assert_eq!(pallet.get_payroll(P), Payroll { count: 0, total_fee: 0 });
    assert_eq!(pallet.records.get(P, A), None);
    assert_eq!(pallet.reputation.refreshes, 0);

    pallet.currency.refuse = Some(Call::Thaw(B, 501));
    let outcome = pallet.refresh(P, vec![(A, 1), (B, 2)], 100);
    assert_eq!(outcome, Err(Failure::Dispatch(DispatchError::Other("refused"))));
    assert_eq!(pallet.get_payroll(P), Payroll { count: 0, total_fee: 0 });
    assert_eq!(pallet.records.get(P, A), None);
    assert_eq!(pallet.records.get(P, B), None);
}

#[test]
fn share_stops_at_the_first_refusal() {
    let mut pallet = pallet();
    pallet.currency.refuse = Some(Call::BatShare(B, vec![B + 100, B + 200], 1002));
    assert_eq!(pallet.share(B), Err(Failure::Dispatch(DispatchError::Other("refused"))));
    assert!(pallet.currency.calls.is_empty());
    pallet.currency.refuse = Some(Call::SocialStaking(B, 200));
    assert_eq!(pallet.share(B), Err(Failure::Dispatch(DispatchError::Other("refused"))));
    assert_eq!(
        pallet.currency.calls,
        vec![Call::BatShare(B, vec![B + 100, B + 200], 1002), Call::Thaw(B, 501)]
    );
    pallet.currency.refuse = None;
    pallet.currency.calls.clear();
    assert_eq!(pallet.share(B), Ok(200));
    assert_eq!(pallet.currency.calls, calls_for(B, 1002, 501, 200));
    assert_eq!(pallet.share(13), Ok(0));
}

#[test]
fn do_refresh_applies_the_score_first() {
    let mut pallet = pallet();
    assert_eq!(pallet.do_refresh(&(A, 5)), Ok(100));
    assert_eq!(pallet.reputation.applied, vec![(A, 5)]);
    assert_eq!(
        pallet.do_refresh(&(A, 5000)),
        Err(Failure::Dispatch(DispatchError::Other("score out of range")))
    );
    assert_eq!(pallet.currency.calls, calls_for(A, 500, 250, 100));
    assert_eq!(pallet.records.get(P, A), None);
}

#[test]
fn start_after_the_confirmation_period() {
    let mut pallet = pallet();
    assert!(pallet.refresh(P, vec![(A, 700), (B, 300)], 100).is_ok());
    assert_eq!(pallet.start(A, P, 120), Err(Failure::Rule(Error::ChallengeTimeout)));
    assert_eq!(pallet.records.get(P, A), None);
    assert_eq!(pallet.get_payroll(P), Payroll { count: 2, total_fee: 300 });
    assert_eq!(pallet.start(B, P, 119), Ok(200));
    assert_eq!(pallet.get_payroll(P), Payroll { count: 1, total_fee: 100 });
}

#[test]
fn start_outside_the_update_period() {
    let mut pallet = pallet();
    assert!(pallet.refresh(P, vec![(A, 700)], 100).is_ok());
    pallet.reputation.open = false;
    assert_eq!(pallet.start(A, P, 105), Err(Failure::Rule(Error::NoUpdatesAllowed)));
    assert_eq!(pallet.records.get(P, A), Some(Record { update_at: 100, fee: 100 }));
    assert_eq!(pallet.get_payroll(P), Payroll { count: 1, total_fee: 100 });
}

#[test]
fn start_is_keyed_by_pathfinder_then_target() {
    let mut pallet = pallet();
    assert!(pallet.refresh(P, vec![(A, 700)], 100).is_ok());
    assert!(pallet.refresh(Q, vec![(A, 700)], 100).is_ok());
    assert_eq!(pallet.start(A, Q, 105), Ok(100));
    assert_eq!(pallet.records.get(P, A), Some(Record { update_at: 100, fee: 100 }));
    assert_eq!(pallet.records.get(Q, A), None);
    assert_eq!(pallet.get_payroll(P), Payroll { count: 1, total_fee: 100 });
    assert_eq!(pallet.get_payroll(Q), Payroll { count: 0, total_fee: 0 });
    assert_balanced(&pallet, P);
    assert_balanced(&pallet, Q);
}

#[test]
fn start_without_a_record_debits_nothing() {
    let mut pallet = pallet();
    assert!(pallet.refresh(P, vec![(A, 700)], 10).is_ok());
    assert_eq!(pallet.start(B, P, 19), Err(Failure::Rule(Error::ChallengeTimeout)));
    assert_eq!(pallet.get_payroll(P), Payroll { count: 1, total_fee: 100 });
    assert_eq!(pallet.start(B, P, 20), Err(Failure::Rule(Error::ChallengeTimeout)));
    assert_eq!(pallet.get_payroll(P), Payroll { count: 1, total_fee: 100 });
    assert_eq!(pallet.records.get(P, A), Some(Record { update_at: 10, fee: 100 }));
    assert_balanced(&pallet, P);
}

#[test]
fn second_challenge_inside_the_period_debits_nothing() {
    let mut pallet = pallet();
    pallet.constants.confirmation_period = 10;
    pallet.currency.social = vec![(A, 40), (B, 40)];
    assert_eq!(
        pallet.refresh(P, vec![(A, 700), (B, 300)], 2),
        Ok(Event::ReputationRefreshed(P, 2, 8))
    );
    assert_eq!(pallet.start(A, P, 3), Ok(4));
    assert_eq!(pallet.get_payroll(P), Payroll { count: 1, total_fee: 4 });
    assert_eq!(pallet.start(A, P, 5), Err(Failure::Rule(Error::ChallengeTimeout)));
    assert_eq!(pallet.get_payroll(P), Payroll { count: 1, total_fee: 4 });
    assert_eq!(pallet.records.get(P, B), Some(Record { update_at: 2, fee: 4 }));
    assert_balanced(&pallet, P);
}

#[test]
fn challenge_without_a_record_leaves_the_books() {
    let mut pallet = pallet();
    pallet.constants.confirmation_period = 10;
    pallet.payrolls.put(P, Payroll { count: 1, total_fee: 4 });
    pallet.records.put(P, B, Record { update_at: 2, fee: 4 });
    assert_eq!(pallet.challenge(Some(()), A, P, 5), Err(Error::ChallengeTimeout));
    assert_eq!(pallet.challenge(Some(()), A, P, 0), Err(Error::ChallengeTimeout));
    assert_eq!(pallet.challenge(Some(()), P, B, 5), Err(Error::ChallengeTimeout));
    assert_eq!(pallet.get_payroll(P), Payroll { count: 1, total_fee: 4 });
    assert_eq!(pallet.records.get(P, B), Some(Record { update_at: 2, fee: 4 }));
    assert_eq!(pallet.records.entries().len(), 1);
    assert_eq!(pallet.payrolls.entries().len(), 1);
}

#[test]
fn challenge_debit_stops_at_zero() {
    let mut pallet = pallet();
    pallet.records.put(P, A, Record { update_at: 100, fee: 500 });
    pallet.payrolls.put(P, Payroll { count: 0, total_fee: 300 });
    assert_eq!(pallet.challenge(Some(()), A, P, 101), Ok(500));
    assert_eq!(pallet.get_payroll(P), Payroll { count: 0, total_fee: 0 });
    assert_eq!(pallet.challenge(None, A, P, 101), Err(Error::NoUpdatesAllowed));
}

#[test]
fn receiver_all_releases_stake_and_fees() {
    let mut pallet = pallet();
    assert!(pallet.refresh(P, vec![(A, 700), (B, 300)], 100).is_ok());
    assert!(pallet.refresh(Q, vec![(A, 700)], 100).is_ok());
    pallet.currency.calls.clear();
    assert_eq!(
        pallet.receiver_all(P),
        Err(Failure::Dispatch(DispatchError::Other("refresh not ended")))
    );
    assert_eq!(pallet.get_payroll(P), Payroll { count: 2, total_fee: 300 });
    pallet.reputation.ended = true;
    assert_eq!(pallet.receiver_all(P), Ok(320));
    assert_eq!(pallet.currency.calls, vec![Call::Release(P, 320)]);
    assert_eq!(pallet.get_payroll(P), Payroll { count: 0, total_fee: 0 });
    assert_eq!(pallet.records.get(P, A), None);
    assert_eq!(pallet.records.get(P, B), None);
    assert_eq!(pallet.records.get(Q, A), Some(Record { update_at: 100, fee: 100 }));
    assert_eq!(pallet.get_payroll(Q), Payroll { count: 1, total_fee: 100 });
    assert_eq!(pallet.receiver_all(P), Ok(0));
    assert_balanced(&pallet, P);
    assert_balanced(&pallet, Q);
}

#[test]
fn receiver_all_keeps_the_books_when_the_release_is_refused() {
    let mut pallet = pallet();
    assert!(pallet.refresh(P, vec![(A, 700)], 100).is_ok());
    pallet.reputation.ended = true;
    pallet.currency.refuse = Some(Call::Release(P, 110));
    assert_eq!(pallet.receiver_all(P), Err(Failure::Dispatch(DispatchError::Other("refused"))));
    assert_eq!(pallet.get_payroll(P), Payroll { count: 1, total_fee: 100 });
    assert_eq!(pallet.records.get(P, A), Some(Record { update_at: 100, fee: 100 }));
}

#[test]
fn receiver_all_with_an_amount_that_overflows() {
    let mut pallet = pallet();
    assert_eq!(pallet.mutate_payroll(P, u128::MAX - 5, 1), Ok(()));
    pallet.reputation.ended = true;
    assert_eq!(pallet.receiver_all(P), Err(Failure::Rule(Error::Overflow)));
    assert_eq!(pallet.receiver_all_proxy(PROXY, P, 1000), Err(Failure::Rule(Error::Overflow)));
    assert_eq!(pallet.new_round(PROXY, 1000), Err(Failure::Rule(Error::Overflow)));
    assert_eq!(pallet.get_payroll(P), Payroll { count: 1, total_fee: u128::MAX - 5 });
    assert!(pallet.currency.calls.is_empty());
}

#[test]
fn receiver_all_proxy_waits_for_the_policy() {
    let mut pallet = pallet();
    assert!(pallet.refresh(P, vec![(A, 700), (B, 300)], 100).is_ok());
    pallet.currency.calls.clear();
    pallet.reputation.ended = true;
    pallet.reputation.last_update_at = 100;
    assert_eq!(pallet.receiver_all_proxy(PROXY, P, 149), Err(Failure::Rule(Error::FailedProxy)));
    assert_eq!(pallet.get_payroll(P), Payroll { count: 2, total_fee: 300 });
    assert_eq!(pallet.records.get(P, A), Some(Record { update_at: 100, fee: 100 }));
    assert!(pallet.currency.calls.is_empty());

    assert_eq!(pallet.receiver_all_proxy(PROXY, P, 150), Ok((32, 288)));
    assert_eq!(pallet.currency.calls, vec![Call::Release(PROXY, 32), Call::Release(P, 288)]);
    assert_eq!(pallet.get_payroll(P), Payroll { count: 0, total_fee: 0 });
    assert_eq!(pallet.records.get(P, A), None);
    assert_eq!(pallet.records.get(P, B), None);
}

#[test]
fn receiver_all_proxy_before_the_refresh_has_ended() {
    let mut pallet = pallet();
    assert!(pallet.refresh(P, vec![(A, 700)], 100).is_ok());
    assert_eq!(
        pallet.receiver_all_proxy(PROXY, P, 1000),
        Err(Failure::Dispatch(DispatchError::Other("refresh not ended")))
    );
    pallet.reputation.ended = true;
    pallet.currency.refuse = Some(Call::Release(P, 99));
    assert_eq!(
        pallet.receiver_all_proxy(PROXY, P, 1000),
        Err(Failure::Dispatch(DispatchError::Other("refused")))
    );
    assert_eq!(pallet.get_payroll(P), Payroll { count: 1, total_fee: 100 });
}

#[test]
fn new_round_settles_every_payroll() {
    let mut pallet = pallet();
    assert!(pallet.refresh(P, vec![(A, 700), (B, 300)], 100).is_ok());
    assert!(pallet.refresh(Q, vec![(A, 700)], 100).is_ok());
    pallet.currency.calls.clear();
    pallet.reputation.last_refresh_at = 100;
    assert_eq!(pallet.new_round(PROXY, 150), Ok(43));
    assert_eq!(
        pallet.currency.calls,
        vec![Call::Release(P, 288), Call::Release(Q, 99), Call::Release(PROXY, 43)]
    );
    assert_eq!(pallet.get_payroll(P), Payroll { count: 0, total_fee: 0 });
    assert_eq!(pallet.get_payroll(Q), Payroll { count: 0, total_fee: 0 });
    assert!(pallet.payrolls.entries().is_empty());
    assert_eq!(pallet.records.get(P, A), Some(Record { update_at: 100, fee: 100 }));
    assert_eq!(pallet.records.get(P, B), Some(Record { update_at: 100, fee: 200 }));
    assert_eq!(pallet.records.get(Q, A), Some(Record { update_at: 100, fee: 100 }));
    assert_eq!(pallet.new_round(PROXY, 150), Ok(0));
}

#[test]
fn new_round_releases_nothing_when_a_payroll_overflows() {
    let mut pallet = pallet();
    assert!(pallet.refresh(P, vec![(A, 700), (B, 300)], 100).is_ok());
    assert_eq!(pallet.mutate_payroll(Q, u128::MAX - 9, 1), Ok(()));
    pallet.currency.calls.clear();
    pallet.reputation.last_refresh_at = 100;
    assert_eq!(pallet.new_round(PROXY, 150), Err(Failure::Rule(Error::Overflow)));
    assert!(pallet.currency.calls.is_empty());
    assert_eq!(pallet.get_payroll(P), Payroll { count: 2, total_fee: 300 });
    assert_eq!(pallet.get_payroll(Q), Payroll { count: 1, total_fee: u128::MAX - 9 });
    assert_eq!(pallet.payrolls.entries().len(), 2);
}

#[test]
fn new_round_releases_nothing_when_the_cuts_overflow() {
    let mut pallet = pallet();
    pallet.proxy_fee.ratio = 1_000_000_000;
    pallet.constants.update_staking_amount = 0;
    assert_eq!(pallet.mutate_payroll(P, u128::MAX, 1), Ok(()));
    assert_eq!(pallet.mutate_payroll(Q, 1, 1), Ok(()));
    assert_eq!(pallet.new_round(PROXY, 150), Err(Failure::Rule(Error::Overflow)));
    assert!(pallet.currency.calls.is_empty());
    assert_eq!(pallet.payrolls.entries().len(), 2);
    assert_eq!(pallet.round_totals(), Ok(vec![(P, u128::MAX), (Q, 1)]));
}

#[test]
fn round_totals_are_stake_plus_fees() {
    let mut pallet = pallet();
    assert_eq!(pallet.round_totals(), Ok(Vec::new()));
    assert!(pallet.refresh(P, vec![(A, 700), (B, 300)], 100).is_ok());
    assert!(pallet.refresh(Q, vec![(A, 700)], 100).is_ok());
    assert_eq!(pallet.round_totals(), Ok(vec![(P, 320), (Q, 110)]));
    assert_eq!(pallet.mutate_payroll(Q, u128::MAX - 100, 1), Ok(()));
    assert_eq!(pallet.round_totals(), Err(Error::Overflow));
}

#[test]
fn new_round_over_unharvested_challenges() {
    let mut pallet = pallet();
    assert!(pallet.refresh(P, vec![(A, 700)], 100).is_ok());
    pallet.currency.calls.clear();
    pallet.challenge_info.all_harvested = false;
    pallet.reputation.last_refresh_at = 100;
    assert_eq!(pallet.new_round(PROXY, 100), Err(Failure::Rule(Error::ChallengeNotClaimed)));
    assert_eq!(pallet.new_round(PROXY, 149), Err(Failure::Rule(Error::ChallengeNotClaimed)));
    assert_eq!(pallet.new_round(PROXY, 150), Err(Failure::Rule(Error::ChallengeNotClaimed)));
    assert_eq!(pallet.new_round(PROXY, u64::MAX), Err(Failure::Rule(Error::ChallengeNotClaimed)));
    assert_eq!(pallet.get_payroll(P), Payroll { count: 1, total_fee: 100 });
    assert!(pallet.currency.calls.is_empty());
}

#[test]
fn new_round_too_soon_after_the_last_refresh() {
    let mut pallet = pallet();
    assert!(pallet.refresh(P, vec![(A, 700)], 100).is_ok());
    pallet.currency.calls.clear();
    pallet.reputation.last_refresh_at = 100;
    assert_eq!(pallet.new_round(PROXY, 149), Err(Failure::Rule(Error::ChallengeTimeout)));
    assert_eq!(pallet.get_payroll(P), Payroll { count: 1, total_fee: 100 });
    assert!(pallet.currency.calls.is_empty());
}

#[test]
fn new_round_refused_by_the_reputation_system() {
    let mut pallet = pallet();
    pallet.reputation.accepts_round = false;
    pallet.challenge_info.all_harvested = false;
    assert_eq!(
        pallet.new_round(PROXY, 150),
        Err(Failure::Dispatch(DispatchError::Other("round already open")))
    );
}

#[test]
fn new_round_keeps_the_payrolls_when_a_release_is_refused() {
    let mut pallet = pallet();
    assert!(pallet.refresh(P, vec![(A, 700), (B, 300)], 100).is_ok());
    assert!(pallet.refresh(Q, vec![(A, 700)], 100).is_ok());
    pallet.reputation.last_refresh_at = 100;
    pallet.currency.refuse = Some(Call::Release(Q, 99));
    assert_eq!(pallet.new_round(PROXY, 150), Err(Failure::Dispatch(DispatchError::Other("refused"))));
    assert_eq!(pallet.get_payroll(P), Payroll { count: 2, total_fee: 300 });
    assert_eq!(pallet.get_payroll(Q), Payroll { count: 1, total_fee: 100 });
    pallet.currency.refuse = Some(Call::Release(PROXY, 43));
    assert_eq!(pallet.new_round(PROXY, 150), Err(Failure::Dispatch(DispatchError::Other("refused"))));
    assert_eq!(pallet.get_payroll(P), Payroll { count: 2, total_fee: 300 });
}

#[test]
fn books_agree_through_a_round() {
    let mut pallet = pallet();
    assert_balanced(&pallet, P);
    assert!(pallet.refresh(P, vec![(A, 1), (B, 2), (13, 3)], 100).is_ok());
    assert_balanced(&pallet, P);
    assert!(pallet.refresh(P, vec![(14, 1)], 101).is_ok());
    assert_balanced(&pallet, P);
    assert_eq!(pallet.start(B, P, 110), Ok(200));
    assert_balanced(&pallet, P);
    assert_eq!(pallet.get_payroll(P), Payroll { count: 3, total_fee: 100 });
    pallet.reputation.ended = true;
    pallet.reputation.last_update_at = 101;
    assert_eq!(pallet.receiver_all_proxy(PROXY, P, 151), Ok((13, 117)));
    assert_balanced(&pallet, P);
    assert_eq!(pallet.get_payroll(P), Payroll { count: 0, total_fee: 0 });
}

#[test]
fn record_batch_writes_one_record_per_update() {
    let mut pallet = pallet();
    pallet.record_batch(P, &vec![(A, 1), (B, 2), (A, 3)], &vec![5, 6, 7], 42);
    assert_eq!(pallet.update_record(P, A), Record { update_at: 42, fee: 7 });
    assert_eq!(pallet.update_record(P, B), Record { update_at: 42, fee: 6 });
    assert_eq!(pallet.update_record(Q, A), Record { update_at: 0, fee: 0 });
    assert_eq!(pallet.drain(P), Payroll { count: 0, total_fee: 0 });
    assert_eq!(pallet.records.get(P, A), None);
}

#[test]
fn new_round_under_a_flat_fee() {
    let mut pallet: Pallet<FlatRuntime> = Pallet::new(
        constants(),
        Ledger { calls: Vec::new(), social: Vec::new(), refuse: None },
        Scores {
            open: true,
            ended: true,
            accepts_round: true,
            applied: Vec::new(),
            refreshes: 0,
            last_refresh_at: 0,
            last_update_at: 0,
        },
        Graph,
        Challenges { all_harvested: true },
        FlatFee { fee: 7 },
    );
    assert_eq!(pallet.mutate_payroll(P, 20, 1), Ok(()));
    assert_eq!(pallet.mutate_payroll(Q, 0, 0), Ok(()));
    assert_eq!(pallet.mutate_payroll(PROXY, 3, 0), Ok(()));
    assert_eq!(pallet.new_round(A, 1), Ok(10));
    assert_eq!(
        pallet.currency.calls,
        vec![
            Call::Release(P, 23),
            Call::Release(Q, 0),
            Call::Release(PROXY, 0),
            Call::Release(A, 10)
        ]
    );
    assert!(pallet.payrolls.entries().is_empty());
}
