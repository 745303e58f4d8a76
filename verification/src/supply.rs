//! The supply ledger: the single source of truth for issued shares, bonded
//! assets, reserved claims and in-flight unbonding, and the exchange rate
//! they define.

use vstd::prelude::*;

use crate::error::ContractError;
use crate::rate::{checked_mul_floor, ratio_spec, Rate, RATE_ONE};

verus! {

/// Tracks the pool's totals. The backing assets are
/// `total_bonded + total_unbonding + bank balance - claims`; the exchange
/// rate is backing assets over issued shares, or one while nothing is issued.
#[derive(Clone, Copy, Debug, PartialEq, Eq, Structural)]
pub struct Supply {
    /// How many derivative shares the pool has issued.
    pub issued: u128,
    /// How many native tokens are bonded to validators in total.
    pub total_bonded: u128,
    /// How many native tokens are reserved to pay holders who unbonded.
    pub claims: u128,
    /// How many native tokens are currently unbonding.
    pub total_unbonding: u128,
}

/// The assets backing the issued shares, given the pool's bank balance.
pub open spec fn assets_spec(s: Supply, balance: u128) -> int {
    s.total_bonded + s.total_unbonding + balance - s.claims
}

/// The claims are covered by bonded, unbonding and liquid assets together.
pub open spec fn solvent(s: Supply, balance: u128) -> bool {
    assets_spec(s, balance) >= 0
}

/// The three totals and the balance together fit in the amount type, so sums
/// over them cannot overflow.
pub open spec fn totals_fit(s: Supply, balance: u128) -> bool {
    s.total_bonded + s.total_unbonding + balance <= u128::MAX
}

/// Atomics of the rate `tokens_per_share`: backing assets over issued
/// shares, or one while nothing is issued.
pub open spec fn tokens_per_share_spec(s: Supply, balance: u128) -> int {
    if s.issued == 0 {
        RATE_ONE as int
    } else {
        ratio_spec(assets_spec(s, balance), s.issued as int)
    }
}

/// Atomics of the rate `shares_per_token`: issued shares over backing
/// assets, or one while nothing is backed.
pub open spec fn shares_per_token_spec(s: Supply, balance: u128) -> int {
    if assets_spec(s, balance) == 0 {
        RATE_ONE as int
    } else {
        ratio_spec(s.issued as int, assets_spec(s, balance))
    }
}

/// The shares issued for a payment of `paid`, at the rate taken on the
/// balance excluding the payment itself.
pub open spec fn bond_shares_spec(s: Supply, paid: u128, balance_before: u128) -> int {
    (paid * shares_per_token_spec(s, balance_before)) / (RATE_ONE as int)
}

/// The native tokens owed for `shares`, at the current rate.
pub open spec fn unbond_native_spec(s: Supply, shares: u128, balance: u128) -> int {
    (shares * tokens_per_share_spec(s, balance)) / (RATE_ONE as int)
}

/// No step of `Supply::bond` overflows on these inputs.
pub open spec fn bond_fits(s: Supply, paid: u128, balance_before: u128) -> bool {
    &&& s.issued * RATE_ONE <= u128::MAX
    &&& paid * shares_per_token_spec(s, balance_before) <= u128::MAX
    &&& s.issued + bond_shares_spec(s, paid, balance_before) <= u128::MAX
}

/// No step of `Supply::unbond` overflows on these inputs.
pub open spec fn unbond_fits(s: Supply, shares: u128, balance: u128) -> bool {
    &&& shares <= s.issued
    &&& assets_spec(s, balance) * RATE_ONE <= u128::MAX
    &&& shares * tokens_per_share_spec(s, balance) <= u128::MAX
    &&& s.claims + unbond_native_spec(s, shares, balance) <= u128::MAX
}

impl Supply {
    pub fn new() -> (s: Supply)
        ensures
            s == (Supply { issued: 0, total_bonded: 0, claims: 0, total_unbonding: 0 }),
    {
        Supply { issued: 0, total_bonded: 0, claims: 0, total_unbonding: 0 }
    }

    /// Removes a paid-out amount from the reserved claims.
    /// Fails, changing nothing, when it would push the claims negative.
    pub fn claim(&mut self, amount: u128) -> (r: Result<(), ContractError>)
        ensures
            amount <= old(self).claims ==> (r is Ok) && *final(self) == (Supply {
                claims: (old(self).claims - amount) as u128,
                ..*old(self)
            }),
            amount > old(self).claims ==> r == Err::<(), ContractError>(ContractError::Overflow {})
                && *final(self) == *old(self),
    {
        match self.claims.checked_sub(amount) {
            Some(rest) => {
                self.claims = rest;
                Ok(())
            },
            None => Err(ContractError::Overflow {}),
        }
    }

    /// The total native tokens backing the issued shares.
    pub fn assets(&self, balance: u128) -> (a: u128)
        requires
            solvent(*self, balance),
            totals_fit(*self, balance),
        ensures
            a == assets_spec(*self, balance),
    {
        self.total_bonded + self.total_unbonding + balance - self.claims
    }

    /// The ratio of backing assets to issued shares, one while nothing is
    /// issued. `None` when the scaled assets do not fit in the rate type.
    pub fn tokens_per_share(&self, balance: u128) -> (r: Option<Rate>)
        requires
            solvent(*self, balance),
            totals_fit(*self, balance),
        ensures
            r is Some <==> (self.issued == 0 || assets_spec(*self, balance) * RATE_ONE
                <= u128::MAX),
            r is Some ==> r->0.atomics == tokens_per_share_spec(*self, balance),
    {
        if self.issued == 0 {
            Some(Rate::one())
        } else {
            let assets = self.assets(balance);
            Rate::checked_from_ratio(assets, self.issued)
        }
    }

    /// The inverse ratio, one while nothing is backed. Computed directly from
    /// the totals rather than by inverting, to avoid rounding twice.
    /// `None` when the scaled issued shares do not fit in the rate type.
    pub fn shares_per_token(&self, balance: u128) -> (r: Option<Rate>)
        requires
            solvent(*self, balance),
            totals_fit(*self, balance),
        ensures
            r is Some <==> (assets_spec(*self, balance) == 0 || self.issued * RATE_ONE
                <= u128::MAX),
            r is Some ==> r->0.atomics == shares_per_token_spec(*self, balance),
    {
        let assets = self.assets(balance);
        if assets == 0 {
            Some(Rate::one())
        } else {
            Rate::checked_from_ratio(self.issued, assets)
        }
    }

    /// Removes `shares` from the issued shares, reserves the corresponding
    /// native amount as a claim, and returns that amount.
    /// `balance` is the pool's current bank balance.
    /// Fails, changing nothing, when more shares are returned than are
    /// issued or when a step overflows.
    pub fn unbond(&mut self, shares: u128, balance: u128) -> (r: Result<u128, ContractError>)
        requires
            solvent(*old(self), balance),
            totals_fit(*old(self), balance),
        ensures
            r is Ok ==> shares <= old(self).issued,
            r is Ok ==> r->Ok_0 == unbond_native_spec(*old(self), shares, balance),
            r is Ok ==> *final(self) == (Supply {
                issued: (old(self).issued - shares) as u128,
                claims: (old(self).claims + r->Ok_0) as u128,
                ..*old(self)
            }),
            r is Ok ==> old(self).claims + r->Ok_0 <= u128::MAX,
            r is Err ==> (r->Err_0 == ContractError::Overflow {}) && *final(self) == *old(self),
            unbond_fits(*old(self), shares, balance) ==> (r is Ok),
    {
        let rate = match self.tokens_per_share(balance) {
            Some(rate) => rate,
            None => {
                return Err(ContractError::Overflow {});
            },
        };
        let native = match checked_mul_floor(shares, rate) {
            Some(native) => native,
            None => {
                return Err(ContractError::Overflow {});
            },
        };
        let new_issued = match self.issued.checked_sub(shares) {
            Some(v) => v,
            None => {
                return Err(ContractError::Overflow {});
            },
        };
        let new_claims = match self.claims.checked_add(native) {
            Some(v) => v,
            None => {
                return Err(ContractError::Overflow {});
            },
        };
        self.issued = new_issued;
        self.claims = new_claims;
        Ok(native)
    }

    /// The shares to issue for a payment of `paid`, at the rate taken on
    /// `balance_before`, the bank balance excluding the payment itself — so
    /// a deposit cannot move its own rate. Adds them to the issued shares.
    /// Fails, changing nothing, when a step overflows.
    pub fn bond(&mut self, paid: u128, balance_before: u128) -> (r: Result<u128, ContractError>)
        requires
            solvent(*old(self), balance_before),
            totals_fit(*old(self), balance_before),
        ensures
            r is Ok ==> r->Ok_0 == bond_shares_spec(*old(self), paid, balance_before),
            r is Ok ==> *final(self) == (Supply {
                issued: (old(self).issued + r->Ok_0) as u128,
                ..*old(self)
            }),
            r is Ok ==> old(self).issued + r->Ok_0 <= u128::MAX,
            r is Err ==> (r->Err_0 == ContractError::Overflow {}) && *final(self) == *old(self),
            bond_fits(*old(self), paid, balance_before) ==> (r is Ok),
    {
        let rate = match self.shares_per_token(balance_before) {
            Some(rate) => rate,
            None => {
                return Err(ContractError::Overflow {});
            },
        };
        let issue = match checked_mul_floor(paid, rate) {
            Some(issue) => issue,
            None => {
                return Err(ContractError::Overflow {});
            },
        };
        let new_issued = match self.issued.checked_add(issue) {
            Some(v) => v,
            None => {
                return Err(ContractError::Overflow {});
            },
        };
        self.issued = new_issued;
        Ok(issue)
    }
}

} // verus!
