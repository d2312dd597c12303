//! The collaborators of the pallet, each reduced to the calls the pallet makes.
//!
//! Nothing is assumed of what a collaborator answers, with one exception: a fee
//! split hands out exactly the amount it was given.

use crate::types::{AccountId, Balance, BlockNumber, CurrencyId};
use sp_runtime::DispatchError;
use vstd::prelude::*;

verus! {

/// The multi-asset ledger that holds stakes and social balances.
pub trait Currency {
    /// Stakes `amount` of `who`.
    fn staking(&mut self, currency_id: CurrencyId, who: AccountId, amount: Balance) -> Result<
        (),
        DispatchError,
    >;

    /// Releases `amount` of what is staked to `who`.
    fn release(&mut self, currency_id: CurrencyId, who: AccountId, amount: Balance) -> Result<
        (),
        DispatchError,
    >;

    /// The social balance of `who` that can be shared out.
    fn social_balance(&self, currency_id: CurrencyId, who: AccountId) -> Balance;

    /// Shares `amount` of the social balance of `from` among `targets`.
    fn bat_share(
        &mut self,
        currency_id: CurrencyId,
        from: AccountId,
        targets: &Vec<AccountId>,
        amount: Balance,
    ) -> Result<(), DispatchError>;

    /// Returns `amount` of the social balance of `who` to its free balance.
    fn thaw(&mut self, currency_id: CurrencyId, who: AccountId, amount: Balance) -> Result<
        (),
        DispatchError,
    >;

    /// Moves `amount` of the social balance of `who` into the stake.
    fn social_staking(&mut self, currency_id: CurrencyId, who: AccountId, amount: Balance) -> Result<
        (),
        DispatchError,
    >;
}

/// The reputation system: it owns the round and applies the scores.
pub trait Reputation {
    /// Opens a new round.
    fn new_round(&mut self) -> Result<(), DispatchError>;

    /// Answers `Some` where the round is in the asked-for state: with `true`, open for updates.
    fn check_update_status(&mut self, update_mode: bool) -> Option<()>;

    /// Applies one score to one account.
    fn refresh_reputation(&mut self, user_score: &(AccountId, u32)) -> Result<(), DispatchError>;

    /// Notes that a refresh has just been completed.
    fn set_last_refresh_at(&mut self);

    /// Ends the refresh phase, or fails where it cannot end yet.
    fn end_refresh(&mut self) -> Result<(), DispatchError>;

    /// When the last refresh was completed.
    fn get_last_refresh_at(&self) -> BlockNumber;

    /// When the last score was applied.
    fn get_last_update_at(&self) -> BlockNumber;
}

/// The trust graph.
pub trait TrustBase {
    /// The accounts that `who` trusts.
    fn get_trust_old(&self, who: AccountId) -> Vec<AccountId>;
}

/// The tracker of outstanding challenges.
pub trait ChallengeInfo {
    /// Whether every challenge of the last round has been harvested.
    fn is_all_harvest(&self) -> bool;
}

/// The policy that splits a payroll between a proxy and the pathfinder.
pub trait ProxyFee {
    /// Whether a proxy may act at `now` for something last touched at `last`.
    fn is_allowed_proxy(&self, last: BlockNumber, now: BlockNumber) -> bool;

    /// Splits `total` into the proxy's cut and the remainder.
    fn with_fee(&self, total: Balance) -> (split: (Balance, Balance))
        ensures
            split.0 + split.1 == total,
    ;

    /// Splits `total` as `with_fee` does, or answers `None` where a proxy may not act yet.
    fn checked_with_fee(&self, total: Balance, last: BlockNumber, now: BlockNumber) -> (split:
        Option<(Balance, Balance)>)
        ensures
            split matches Some(s) ==> s.0 + s.1 == total,
    ;
}

/// The collaborators one deployment is wired to.
pub trait Config {
    type Currency: Currency;

    type Reputation: Reputation;

    type TrustBase: TrustBase;

    type ChallengeInfo: ChallengeInfo;

    type ProxyFee: ProxyFee;
}

} // verus!
