//! The pool's error type. Every error aborts the whole call: an operation
//! that fails leaves the pool unchanged.

use vstd::prelude::*;

verus! {

#[derive(Clone, Debug, PartialEq, Eq, Structural)]
pub enum ContractError {
    /// A caller other than the owner used an owner-only operation.
    Unauthorized {},
    /// Shares were sent through a token other than the pool's derivative.
    InvalidToken {},
    /// The liquidity discount must be below fifty percent.
    InvalidLiquidityDiscount {},
    /// Reinvest can run only once per epoch.
    EpochNotReached { next_epoch: u64 },
    /// Validator weights must add up to one.
    InvalidValidatorWeights {},
    /// The commission must lie between zero and fifty percent.
    InvalidCommission {},
    /// No matured claim could be paid.
    NothingToClaim {},
    /// The epoch period must lie between one hour and one year.
    InvalidEpochPeriod {},
    /// The unbonding period must lie between one hour and one year.
    InvalidUnbondPeriod {},
    /// At least one concurrent unbonding bucket must be allowed.
    InvalidMaxConcurrentUnbondings {},
    /// A stored ledger from an older layout still holds unbonding entries.
    MigrationFailed {},
    /// An unbonding maturity lies too close to now to tell a slash from an
    /// undelegation in flight.
    UnbondingTooClose {},
    /// The commission cap must lie above zero and at most one.
    InvalidMaxCommission {},
    /// A checked arithmetic step overflowed or underflowed.
    Overflow {},
}

} // verus!
