//! The interface of a challenge game, as an application of the network sees it.

use sp_runtime::DispatchError;
use vstd::prelude::*;

verus! {

/// The steps of a challenge against a claim made inside one application. Nothing
/// is assumed of an implementation.
pub trait ChallengeBase<AccountId, AppId, Balance, BlockNumber> {
    /// Whether every challenge of the application has been harvested.
    fn is_all_harvest(app_id: &AppId) -> bool;

    /// Whether every challenge of the application has run out of time at `now`.
    fn is_all_timeout(app_id: &AppId, now: &BlockNumber) -> bool;

    /// Opens a challenge by `who` against what `path_finder` claimed of `target`.
    fn new(
        app_id: &AppId,
        who: &AccountId,
        path_finder: &AccountId,
        fee: Balance,
        staking: Balance,
        target: &AccountId,
        quantity: u32,
        score: u64,
    ) -> Result<(), DispatchError>;

    /// Takes the next step of a challenge; `up` computes the new state of the game.
    fn next(
        app_id: &AppId,
        who: &AccountId,
        target: &AccountId,
        count: &u32,
        up: impl FnMut(u64, u32, bool) -> Result<(u64, u32), DispatchError>,
    ) -> Result<(), DispatchError>;

    /// Asks for the item at `index` to be examined.
    fn examine(app_id: &AppId, who: AccountId, target: &AccountId, index: u32) -> Result<
        (),
        DispatchError,
    >;

    /// Replies to an examination; `up` accepts or refuses the reply.
    fn reply(
        app_id: &AppId,
        who: &AccountId,
        target: &AccountId,
        total: u32,
        count: u32,
        up: impl Fn(bool, u32) -> Result<(), DispatchError>,
    ) -> Result<(), DispatchError>;

    /// Presents evidence; `up` judges it.
    fn evidence(
        app_id: &AppId,
        who: &AccountId,
        target: &AccountId,
        up: impl Fn(u32, u64) -> Result<bool, DispatchError>,
    ) -> Result<Option<u64>, DispatchError>;

    /// Calls for arbitration; `up` decides it.
    fn arbitral(
        app_id: &AppId,
        who: &AccountId,
        target: &AccountId,
        up: impl Fn(u64) -> Result<(bool, bool, u64), DispatchError>,
    ) -> Result<(), DispatchError>;

    /// Collects what a finished challenge yields.
    fn harvest(who: &AccountId, app_id: &AppId, target: &AccountId) -> Result<
        Option<u64>,
        DispatchError,
    >;

    /// Settles a challenge with the given outcome.
    fn settle(
        app_id: &AppId,
        target: &AccountId,
        joint_benefits: bool,
        restart: bool,
        score: u64,
    ) -> Result<(), DispatchError>;
}

} // verus!
