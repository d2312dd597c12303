//! Reputation refresh with challenge-bonded fee settlement.
//!
//! Pathfinders stake collateral to submit reputation updates, earn a fee for each
//! update, and can have any single update disputed within a confirmation period.
//! A payroll book holds what each pathfinder is owed, a record book holds the last
//! refresh of each target by each pathfinder. Both books, every rule that changes
//! them, and the agreement between them are verified; the ledger, the reputation
//! system, the trust graph, the challenge tracker and the fee policy are
//! collaborators behind traits.

pub mod challenges;
pub mod error;
pub mod laws;
pub mod pallet;
pub mod payrolls;
pub mod policy;
pub mod ratio;
pub mod records;
pub mod rules;
pub mod traits;
pub mod types;

pub use challenges::ChallengeBase;
pub use error::{Error, Failure};
pub use pallet::Pallet;
pub use traits::Config;
pub use types::{Event, Payroll, Record};
