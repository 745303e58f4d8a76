//! Pool configuration and the epoch scheduler.
//!
//! Two independent monotonic timers gate the reinvest cycle and the
//! undelegation cycle. Each advances by the catch-up rule: a late call never
//! drifts the schedule to the call time, the timer always returns to its
//! original rhythm.

use vstd::prelude::*;

use crate::error::ContractError;
use crate::rate::Rate;

verus! {

/// Divides `numerator` by `denominator` and rounds up the result.
pub fn div_ceil(numerator: u64, denominator: u64) -> (r: u64)
    requires
        denominator != 0,
    ensures
        r == (numerator + denominator - 1) / (denominator as int),
{
    let d = numerator / denominator;
    let r = numerator % denominator;
    if r > 0 {
        proof {
            assert(d + 1 == (numerator + denominator - 1) / (denominator as int) && d
                < u64::MAX) by (nonlinear_arith)
                requires
                    denominator > 0,
                    d == numerator as int / denominator as int,
                    r == numerator as int % denominator as int,
                    r > 0,
                    numerator <= u64::MAX,
            ;
        }
        d + 1
    } else {
        proof {
            assert(d == (numerator + denominator - 1) / (denominator as int)) by (nonlinear_arith)
                requires
                    denominator > 0,
                    d == numerator as int / denominator as int,
                    numerator as int % denominator as int == 0,
            ;
        }
        d
    }
}

/// Fixed at instantiation except for the two schedule timers, the validator
/// set and the liquidity discount.
#[derive(Clone, Debug)]
pub struct Config {
    /// Owner of the pool, allowed to set the validator set.
    pub owner: String,
    /// The derivative-token ledger this pool mints and burns on.
    pub token_contract: String,
    /// Receives the commission on staking rewards.
    pub treasury: String,
    /// The proportion of the staking rewards that goes to the treasury.
    pub commission: Rate,
    /// How often reinvest may run, in seconds.
    pub epoch_period: u64,
    /// The staking module's unbonding time, in seconds.
    pub unbond_period: u64,
    /// Maximum number of concurrent unbonding-queue buckets.
    pub max_concurrent_unbondings: u64,
    /// Next time (in seconds) at which reinvest may run.
    pub next_epoch: u64,
    /// Next time (in seconds) at which new undelegations may be issued.
    pub next_unbond: u64,
    /// Minimum relative shortfall between stored and observed delegations
    /// needed to treat a validator as slashed.
    pub tombstone_treshold: Rate,
    /// Safety margin (in seconds) around unbonding maturities inside which
    /// slashing detection is refused.
    pub slashing_safety_margin: u64,
    /// Discount applied to the exchange rate in the target-value query.
    pub liquidity_discount: Rate,
}

/// The catch-up rule shared by both timers: the smallest timestamp of the
/// form `current + k * period` (k >= 1) that lies strictly after `now`.
pub open spec fn advanced_timer(current: u64, period: u64, now: u64) -> int
    recommends
        period > 0,
        current <= now,
{
    current + ((now - current) / (period as int) + 1) * period
}

/// The advanced timer stays within one period of `now` and lands after it.
pub proof fn lemma_advanced_timer_bounds(current: u64, period: u64, now: u64)
    requires
        period > 0,
        current <= now,
    ensures
        now < advanced_timer(current, period, now),
        advanced_timer(current, period, now) <= now + period,
{
    let e = now - current;
    let k = e / (period as int);
    assert(k * period <= e < (k + 1) * period) by (nonlinear_arith)
        requires
            period > 0,
            e >= 0,
            k == e / (period as int),
    ;
    assert((k + 1) * period == k * period + period) by (nonlinear_arith);
}

impl Config {
    pub open spec fn wf(self) -> bool {
        &&& self.epoch_period > 0
        &&& self.max_concurrent_unbondings > 0
        &&& self.unbond_period > 0
        &&& self.commission.atomics <= crate::rate::RATE_ONE
        &&& self.liquidity_discount.atomics <= crate::rate::RATE_ONE
    }

    /// A copy of the configuration.
    pub fn duplicate(&self) -> (c: Config)
        ensures
            c == *self,
    {
        Config {
            owner: self.owner.clone(),
            token_contract: self.token_contract.clone(),
            treasury: self.treasury.clone(),
            commission: self.commission,
            epoch_period: self.epoch_period,
            unbond_period: self.unbond_period,
            max_concurrent_unbondings: self.max_concurrent_unbondings,
            next_epoch: self.next_epoch,
            next_unbond: self.next_unbond,
            tombstone_treshold: self.tombstone_treshold,
            slashing_safety_margin: self.slashing_safety_margin,
            liquidity_discount: self.liquidity_discount,
        }
    }

    /// The cadence of the undelegation timer:
    /// `ceil(unbond_period / max_concurrent_unbondings)`.
    pub open spec fn spec_unbond_epoch(self) -> int {
        (self.unbond_period + self.max_concurrent_unbondings - 1) / (
        self.max_concurrent_unbondings as int)
    }

    pub fn unbond_epoch(&self) -> (r: u64)
        requires
            self.wf(),
        ensures
            r == self.spec_unbond_epoch(),
            r > 0,
    {
        let r = div_ceil(self.unbond_period, self.max_concurrent_unbondings);
        proof {
            assert(r > 0) by (nonlinear_arith)
                requires
                    r == (self.unbond_period + self.max_concurrent_unbondings - 1) / (
                    self.max_concurrent_unbondings as int),
                    self.unbond_period > 0,
                    self.max_concurrent_unbondings > 0,
            ;
        }
        r
    }

    /// Advances the reinvest timer to the next epoch after `now`, keeping the
    /// original rhythm, and returns the new timer.
    /// Fails, changing nothing, while the current epoch has not been reached.
    pub fn next_epoch_after(&mut self, now: u64) -> (r: Result<u64, ContractError>)
        requires
            old(self).wf(),
            now <= u64::MAX - old(self).epoch_period,
        ensures
            final(self).wf(),
            now < old(self).next_epoch ==> r == Err::<u64, ContractError>(
                ContractError::EpochNotReached { next_epoch: old(self).next_epoch },
            ) && *final(self) == *old(self),
            now >= old(self).next_epoch ==> r == Ok::<u64, ContractError>(final(self).next_epoch),
            now >= old(self).next_epoch ==> final(self).next_epoch == advanced_timer(
                old(self).next_epoch,
                old(self).epoch_period,
                now,
            ),
            now >= old(self).next_epoch ==> *final(self) == (Config {
                next_epoch: final(self).next_epoch,
                ..*old(self)
            }),
            now >= old(self).next_epoch ==> now < final(self).next_epoch <= now + old(
                self,
            ).epoch_period,
    {
        if now < self.next_epoch {
            Err(ContractError::EpochNotReached { next_epoch: self.next_epoch })
        } else {
            proof {
                lemma_advanced_timer_bounds(self.next_epoch, self.epoch_period, now);
            }
            let epochs_until_then = (now - self.next_epoch) / self.epoch_period;
            self.next_epoch = self.next_epoch + (epochs_until_then + 1) * self.epoch_period;
            Ok(self.next_epoch)
        }
    }

    /// Advances the undelegation timer to its next slot after `now`, keeping
    /// the original rhythm, and returns the new timer.
    /// Fails, changing nothing, while the current slot has not been reached.
    pub fn next_unbond_after(&mut self, now: u64) -> (r: Result<u64, ContractError>)
        requires
            old(self).wf(),
            now <= u64::MAX - old(self).spec_unbond_epoch(),
        ensures
            final(self).wf(),
            now < old(self).next_unbond ==> r == Err::<u64, ContractError>(
                ContractError::EpochNotReached { next_epoch: old(self).next_unbond },
            ) && *final(self) == *old(self),
            now >= old(self).next_unbond ==> r == Ok::<u64, ContractError>(final(self).next_unbond),
            now >= old(self).next_unbond ==> final(self).next_unbond == advanced_timer(
                old(self).next_unbond,
                old(self).spec_unbond_epoch() as u64,
                now,
            ),
            now >= old(self).next_unbond ==> *final(self) == (Config {
                next_unbond: final(self).next_unbond,
                ..*old(self)
            }),
            now >= old(self).next_unbond ==> now < final(self).next_unbond <= now + old(
                self,
            ).spec_unbond_epoch(),
    {
        if now < self.next_unbond {
            Err(ContractError::EpochNotReached { next_epoch: self.next_unbond })
        } else {
            let epoch_period = self.unbond_epoch();
            proof {
                lemma_advanced_timer_bounds(self.next_unbond, epoch_period, now);
            }
            let epochs_until_then = (now - self.next_unbond) / epoch_period;
            self.next_unbond = self.next_unbond + (epochs_until_then + 1) * epoch_period;
            Ok(self.next_unbond)
        }
    }
}

} // verus!
