//! Parts-per-billion proportions of a balance.

use sp_runtime::Perbill;
use vstd::prelude::*;

verus! {

/// One billion: the number of parts that make a whole.
pub const BILLION: u32 = 1_000_000_000;

/// The share of `amount` that `parts` billionths make, rounded down.
/// More than a billion parts count as the whole.
pub open spec fn portion(parts: u32, amount: u128) -> int {
    if parts >= BILLION {
        amount as int
    } else {
        (amount as int * parts as int) / (BILLION as int)
    }
}

/// Calls `Perbill::from_parts` and `Perbill::mul_floor`: the result is `amount`
/// times the proportion, rounded down, where a proportion above one is taken as one.
#[verifier::external_body]
pub(crate) fn mul_floor(parts: u32, amount: u128) -> (part: u128)
    ensures
        part as int == portion(parts, amount),
{
    Perbill::from_parts(parts).mul_floor(amount)
}

} // verus!
