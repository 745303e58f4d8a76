//! The bond router's decisions: split a payment between swapping on the
//! pair and bonding at the hub, and simulate what a payment yields. The
//! router's price prediction itself comes from the pair contract; these
//! functions take its answer as an input.

use vstd::prelude::*;

use crate::error::ContractError;
use crate::rate::{Rate, RATE_ONE};

verus! {

/// Ask the router to bond the payment it receives.
#[derive(Clone, Debug, PartialEq, Eq, Structural)]
pub enum ExecuteMsg {
    Bond {},
}

/// The router's configuration, as its queries report it.
#[derive(Clone, Debug, PartialEq, Eq)]
pub struct ConfigResponse {
    /// Address of the hub this router bonds at.
    pub hub: String,
    /// Address of the swap pool it trades on.
    pub pair: String,
    /// The denomination it stakes and accepts.
    pub bond_denom: String,
    /// The derivative token its users receive.
    pub lsd_token: String,
}

/// How a payment is used: so much swapped on the pair, the rest bonded.
pub struct BondSplit {
    pub swap: u128,
    pub bond: u128,
}

/// Splits a payment between the swap the pair offered and a bond of the
/// rest. The pair never offers to take more than the payment.
pub fn split_bond(pay: u128, trade: Option<u128>) -> (r: BondSplit)
    requires
        trade is Some ==> trade->0 <= pay,
    ensures
        r.swap == (if trade is Some {
            trade->0
        } else {
            0u128
        }),
        r.swap + r.bond == pay,
{
    match trade {
        Some(to_swap) => BondSplit { swap: to_swap, bond: pay - to_swap },
        None => BondSplit { swap: 0, bond: pay },
    }
}

/// The derivative amount a payment yields: the bonded part divided by the
/// exchange rate, rounded down, plus whatever the simulated swap returns.
pub fn simulate_lsd_value(bond: u128, trade: Option<u128>, exchange_rate: Rate, swap_return: u128)
    -> (r: Result<u128, ContractError>)
    requires
        exchange_rate.atomics > 0,
        trade is Some ==> trade->0 <= bond,
    ensures
        r is Ok ==> r->Ok_0 == ((bond - (if trade is Some {
            trade->0
        } else {
            0u128
        })) * RATE_ONE) / (exchange_rate.atomics as int) + swap_return,
        r is Err ==> (r->Err_0 == ContractError::Overflow {}),
        ({
            let kept = bond - (if trade is Some {
                trade->0
            } else {
                0u128
            });
            kept * RATE_ONE <= u128::MAX && (kept * RATE_ONE) / (exchange_rate.atomics as int)
                + swap_return <= u128::MAX
        }) ==> (r is Ok),
{
    let kept = match trade {
        Some(t) => bond - t,
        None => bond,
    };
    let scaled = match kept.checked_mul(RATE_ONE) {
        Some(v) => v,
        None => {
            return Err(ContractError::Overflow {});
        },
    };
    let base = scaled / exchange_rate.atomics;
    proof {
        assert(base <= scaled) by (nonlinear_arith)
            requires
                base == scaled as int / (exchange_rate.atomics as int),
                exchange_rate.atomics > 0,
                scaled >= 0,
        ;
    }
    match base.checked_add(swap_return) {
        Some(v) => Ok(v),
        None => Err(ContractError::Overflow {}),
    }
}

} // verus!
