//! Splitting the legacy stored supply, which carried the bonded balances
//! and the unbonding entries inline, into the current ledgers.

use vstd::prelude::*;

use crate::error::ContractError;
use crate::supply::Supply;

verus! {

/// A pending undelegation as the legacy layout stored it.
#[derive(Clone, Debug, PartialEq, Eq)]
pub struct OldUnbonding {
    pub amount: u128,
    pub release_at: u64,
    pub validator: String,
}

/// The legacy supply record.
pub struct OldSupply {
    pub issued: u128,
    pub total_bonded: u128,
    pub bonded: Vec<(String, u128)>,
    pub claims: u128,
    pub unbonding: Vec<OldUnbonding>,
    pub total_unbonding: u128,
}

/// Splits a legacy supply into the current totals and the bonded ledger.
/// Refused while legacy unbonding entries remain: those cannot be carried
/// into the time-bucketed queue without their buckets.
pub fn split_legacy_supply(old_supply: OldSupply) -> (r: Result<
    (Supply, Vec<(String, u128)>),
    ContractError,
>)
    ensures
        old_supply.unbonding@.len() != 0 ==> r == Err::<
            (Supply, Vec<(String, u128)>),
            ContractError,
        >(ContractError::MigrationFailed {}),
        old_supply.unbonding@.len() == 0 ==> (r is Ok),
        r is Ok ==> (r->Ok_0).0 == (Supply {
            issued: old_supply.issued,
            total_bonded: old_supply.total_bonded,
            claims: old_supply.claims,
            total_unbonding: old_supply.total_unbonding,
        }),
        r is Ok ==> (r->Ok_0).1 == old_supply.bonded,
{
    if old_supply.unbonding.len() != 0 {
        return Err(ContractError::MigrationFailed {});
    }
    let supply = Supply {
        issued: old_supply.issued,
        total_bonded: old_supply.total_bonded,
        claims: old_supply.claims,
        total_unbonding: old_supply.total_unbonding,
    };
    Ok((supply, old_supply.bonded))
}

} // verus!
