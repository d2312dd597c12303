//! The failures an operation can end in.

use sp_runtime::DispatchError;
use vstd::prelude::*;

verus! {

/// The dispatch error of the runtime, carried through unchanged and never inspected.
#[verifier::external_type_specification]
#[verifier::external_body]
pub struct ExDispatchError(DispatchError);

/// The rules of this pallet that an operation can break.
#[derive(Clone, Copy, Debug, PartialEq, Eq, Structural)]
pub enum Error {
    /// Quantity reaches limit.
    QuantityLimitReached,
    /// Not in the update period.
    NoUpdatesAllowed,
    /// Error getting fee.
    ErrorFee,
    /// Challenge timeout.
    ChallengeTimeout,
    /// Calculation overflow.
    Overflow,
    /// The proxy is not yet entitled to settle for the pathfinder.
    FailedProxy,
    /// The presence of unharvested challenges.
    ChallengeNotClaimed,
}

/// Why an operation failed: a rule of this pallet, or a collaborator's own error,
/// which is handed on exactly as it was received.
#[derive(Debug, PartialEq, Eq)]
pub enum Failure {
    Rule(Error),
    Dispatch(DispatchError),
}

} // verus!
