//! The pool itself: one state object tying the supply ledger, the claims
//! ledger, the unbonding queue, the validator weights and the schedule
//! together, with one operation per command.
//!
//! The host performs the staking and bank messages an operation returns and
//! hands in plain values: the current time and the pool's bank balance.
//! Every operation either returns `Ok` and commits, or returns an error and
//! leaves the pool exactly as it was.

use vstd::prelude::*;

use crate::claims::{settle_left, settle_paid, Claim, Claims};
use crate::config::Config;
use crate::error::ContractError;
use crate::rate::{checked_mul_floor, mul_floor_spec, Rate, RATE_ONE};
use crate::supply::{
    assets_spec, bond_fits, bond_shares_spec, solvent, totals_fit, tokens_per_share_spec,
    unbond_fits, unbond_native_spec, Supply,
};
use crate::sums::{key_in, keys_unique, sum_bal};
use crate::unbonding::{mature_total, remaining_after, UnbondingQueue};
use crate::valset::{
    msg_given, msg_received, valset_change_redelegation_messages, wkey_in, wkeys_unique,
    some_target_overflows, Redelegation,
};

verus! {

/// Epoch and unbonding periods must lie between one hour and one year.
pub const MIN_PERIOD: u64 = 3_600;

pub const MAX_PERIOD: u64 = 31_536_000;

/// The whole pool.
pub struct Hub {
    pub config: Config,
    pub supply: Supply,
    /// The target validator weights.
    pub validators: Vec<(String, Rate)>,
    /// How many tokens are bonded to each validator, undelegations excluded.
    pub bonded: Vec<(String, u128)>,
    /// Undelegations awaiting maturity.
    pub unbonding: UnbondingQueue,
    pub claims: Claims,
    /// Bank balance snapshot taken when a reinvest cycle starts, consumed by
    /// the rebalance continuation.
    pub tmp_balance: Option<u128>,
}

impl Hub {
    /// Ledger consistency: each ledger's sum equals the matching supply
    /// total, and each map's keys are unique.
    pub open spec fn wf(self) -> bool {
        &&& self.config.wf()
        &&& keys_unique(self.bonded@)
        &&& sum_bal(self.bonded@) == self.supply.total_bonded
        &&& self.unbonding.wf()
        &&& self.unbonding.spec_total() == self.supply.total_unbonding
        &&& self.claims.wf()
        &&& self.claims.spec_total() == self.supply.claims
        &&& wkeys_unique(self.validators@)
    }

    /// The supply as it stands once buckets mature at `now` are freed.
    pub open spec fn cleaned_supply(self, now: u64) -> Supply {
        Supply {
            total_unbonding: (self.supply.total_unbonding - mature_total(
                self.unbonding.entries@,
                now,
            )) as u128,
            ..self.supply
        }
    }

    /// Frees every unbonding bucket mature at `now`, keeping the ledgers
    /// consistent. Returns the freed amount.
    fn cleanup(&mut self, now: u64)
        requires
            old(self).wf(),
        ensures
            final(self).wf(),
            final(self).supply == old(self).cleaned_supply(now),
            *final(self) == (Hub {
                supply: final(self).supply,
                unbonding: final(self).unbonding,
                ..*old(self)
            }),
            final(self).unbonding.entries@ == remaining_after(old(self).unbonding.entries@, now),
            final(self).unbonding.entries@.len() <= old(self).unbonding.entries@.len(),
            forall|i: int|
                0 <= i < final(self).unbonding.entries@.len()
                    ==> #[trigger] final(self).unbonding.entries@[i].0 > now,
            forall|i: int|
                0 <= i < final(self).unbonding.entries@.len()
                    ==> final(self).unbonding.entries@[i] == old(self).unbonding.entries@[i + old(
                    self,
                ).unbonding.entries@.len() - final(self).unbonding.entries@.len()],
    {
        proof {
            crate::unbonding::lemma_mature_le_total(self.unbonding.entries@, now);
        }
        let freed = self.unbonding.clean(now);
        self.supply.total_unbonding = self.supply.total_unbonding - freed;
    }

    /// Drops emptied validators from the bonded ledger. Every balance reads
    /// the same afterwards: a dropped entry held zero.
    fn drop_zero_bonded(&mut self)
        requires
            keys_unique(old(self).bonded@),
        ensures
            keys_unique(final(self).bonded@),
            crate::sums::sum_bal(final(self).bonded@) == crate::sums::sum_bal(
                old(self).bonded@,
            ),
            forall|k: Seq<char>|
                #![trigger crate::sums::bal_of(final(self).bonded@, k)]
                crate::sums::bal_of(final(self).bonded@, k) == crate::sums::bal_of(
                    old(self).bonded@,
                    k,
                ),
            forall|i: int|
                0 <= i < final(self).bonded@.len() ==> (#[trigger] final(self).bonded@[i].1) > 0,
            *final(self) == (Hub { bonded: final(self).bonded, ..*old(self) }),
    {
        let ghost bonded0 = self.bonded@;
        let nb = crate::sums::filter_positive(&self.bonded);
        proof {
            crate::sums::lemma_positive_keys_unique(bonded0);
            crate::sums::lemma_positive_sum(bonded0);
            crate::sums::lemma_positive_all_pos(bonded0);
            crate::sums::lemma_match_sum(nb@, crate::sums::positive_payments(bonded0));
            assert(keys_unique(nb@)) by {
                assert forall|a: int, b: int|
                    0 <= a < b < nb@.len() implies nb@[a].0@ != nb@[b].0@ by {
                    assert(nb@[a].0@ == crate::sums::positive_payments(bonded0)[a].0@);
                    assert(nb@[b].0@ == crate::sums::positive_payments(bonded0)[b].0@);
                }
            }
            assert forall|k: Seq<char>|
                #![trigger crate::sums::bal_of(nb@, k)]
                crate::sums::bal_of(nb@, k) == crate::sums::bal_of(bonded0, k) by {
                crate::sums::lemma_match_bal_of(nb@, crate::sums::positive_payments(bonded0), k);
                crate::sums::lemma_positive_bal_of(bonded0, k);
            }
            assert forall|i: int|
                0 <= i < nb@.len() implies (#[trigger] nb@[i].1) > 0 by {
                assert(nb@[i].1 == crate::sums::positive_payments(bonded0)[i].1);
            }
        }
        self.bonded = nb;
    }

    /// Sets up the pool: validates the configuration and starts both timers
    /// one epoch from `now`. The derivative-token address is filled in later,
    /// once the host has created that contract.
    /// Succeeds exactly on a valid setup; each rejection names its cause.
    pub fn instantiate(
        owner: String,
        treasury: String,
        commission: Rate,
        validators: Vec<(String, Rate)>,
        epoch_period: u64,
        unbond_period: u64,
        max_concurrent_unbondings: u64,
        liquidity_discount: Rate,
        tombstone_treshold: Rate,
        slashing_safety_margin: u64,
        now: u64,
    ) -> (r: Result<Hub, ContractError>)
        requires
            wkeys_unique(validators@),
            now <= u64::MAX - MAX_PERIOD,
        ensures
            commission.atomics > RATE_ONE / 2 ==> r == Err::<Hub, ContractError>(
                ContractError::InvalidCommission {},
            ),
            r is Ok ==> r->Ok_0.wf(),
            r is Ok ==> weights_total(r->Ok_0.validators@) == RATE_ONE,
            r is Ok ==> r->Ok_0.supply == (Supply {
                issued: 0,
                total_bonded: 0,
                claims: 0,
                total_unbonding: 0,
            }),
            r is Ok ==> r->Ok_0.config.next_epoch == now + epoch_period
                && r->Ok_0.config.next_unbond == now + epoch_period,
            r is Ok ==> r->Ok_0.config.epoch_period == epoch_period
                && r->Ok_0.config.unbond_period == unbond_period
                && r->Ok_0.config.max_concurrent_unbondings == max_concurrent_unbondings
                && r->Ok_0.config.commission == commission && r->Ok_0.config.liquidity_discount
                == liquidity_discount && r->Ok_0.config.owner@ == owner@
                && r->Ok_0.config.treasury@ == treasury@ && r->Ok_0.config.token_contract@ == Seq::<
                char,
            >::empty(),
            r is Ok ==> r->Ok_0.validators == validators,
            r is Ok ==> r->Ok_0.unbonding.entries@.len() == 0 && r->Ok_0.claims.spec_total() == 0
                && r->Ok_0.tmp_balance is None,
            (r is Ok) <==> valid_setup(
                commission,
                validators@,
                epoch_period,
                unbond_period,
                max_concurrent_unbondings,
                liquidity_discount,
            ),
            commission.atomics <= RATE_ONE / 2 && weights_total(validators@) != RATE_ONE ==> r
                == Err::<Hub, ContractError>(ContractError::InvalidValidatorWeights {}),
            commission.atomics <= RATE_ONE / 2 && weights_total(validators@) == RATE_ONE
                && liquidity_discount.atomics >= RATE_ONE / 2 ==> r == Err::<Hub, ContractError>(
                ContractError::InvalidLiquidityDiscount {},
            ),
            commission.atomics <= RATE_ONE / 2 && weights_total(validators@) == RATE_ONE
                && liquidity_discount.atomics < RATE_ONE / 2 && !(MIN_PERIOD <= epoch_period
                <= MAX_PERIOD) ==> r == Err::<Hub, ContractError>(
                ContractError::InvalidEpochPeriod {},
            ),
            commission.atomics <= RATE_ONE / 2 && weights_total(validators@) == RATE_ONE
                && liquidity_discount.atomics < RATE_ONE / 2 && MIN_PERIOD <= epoch_period
                <= MAX_PERIOD && !(MIN_PERIOD <= unbond_period <= MAX_PERIOD) ==> r == Err::<
                Hub,
                ContractError,
            >(ContractError::InvalidUnbondPeriod {}),
            commission.atomics <= RATE_ONE / 2 && weights_total(validators@) == RATE_ONE
                && liquidity_discount.atomics < RATE_ONE / 2 && MIN_PERIOD <= epoch_period
                <= MAX_PERIOD && MIN_PERIOD <= unbond_period <= MAX_PERIOD
                && max_concurrent_unbondings == 0 ==> r == Err::<Hub, ContractError>(
                ContractError::InvalidMaxConcurrentUnbondings {},
            ),
    {
        let half = Rate { atomics: RATE_ONE / 2 };
        if half.lt(&commission) {
            return Err(ContractError::InvalidCommission {});
        }
        let total_weight = match sum_weights(&validators) {
            Some(w) => w,
            None => {
                return Err(ContractError::InvalidValidatorWeights {});
            },
        };
        if total_weight != RATE_ONE {
            return Err(ContractError::InvalidValidatorWeights {});
        }
        if !liquidity_discount.lt(&half) {
            return Err(ContractError::InvalidLiquidityDiscount {});
        }
        if !(epoch_period >= MIN_PERIOD && epoch_period <= MAX_PERIOD) {
            return Err(ContractError::InvalidEpochPeriod {});
        }
        if !(unbond_period >= MIN_PERIOD && unbond_period <= MAX_PERIOD) {
            return Err(ContractError::InvalidUnbondPeriod {});
        }
        if max_concurrent_unbondings == 0 {
            return Err(ContractError::InvalidMaxConcurrentUnbondings {});
        }
        let next_epoch = now + epoch_period;
        let config = Config {
            owner,
            token_contract: String::new(),
            treasury,
            commission,
            epoch_period,
            unbond_period,
            max_concurrent_unbondings,
            next_epoch,
            next_unbond: next_epoch,
            tombstone_treshold,
            slashing_safety_margin,
            liquidity_discount,
        };
        Ok(
            Hub {
                config,
                supply: Supply::new(),
                validators,
                bonded: Vec::new(),
                unbonding: UnbondingQueue::new(),
                claims: Claims::new(),
                tmp_balance: None,
            },
        )
    }

    /// Records the derivative-token contract once the host has created it.
    pub fn set_token_contract(&mut self, token_contract: String)
        requires
            old(self).wf(),
        ensures
            final(self).wf(),
            *final(self) == (Hub {
                config: Config { token_contract, ..old(self).config },
                ..*old(self)
            }),
    {
        self.config.token_contract = token_contract;
    }

    /// Issues shares for a payment of `paid` native tokens. `balance` is the
    /// pool's bank balance including the payment; the rate is taken on the
    /// balance without it, so a deposit cannot move its own rate.
    /// Returns the shares to mint for the sender.
    pub fn bond(&mut self, now: u64, paid: u128, balance: u128) -> (r: Result<u128, ContractError>)
        requires
            old(self).wf(),
            paid <= balance,
            solvent(old(self).cleaned_supply(now), (balance - paid) as u128),
            totals_fit(old(self).cleaned_supply(now), balance),
        ensures
            r is Ok ==> r->Ok_0 == bond_shares_spec(
                old(self).cleaned_supply(now),
                paid,
                (balance - paid) as u128,
            ),
            r is Ok ==> final(self).supply == (Supply {
                issued: (old(self).cleaned_supply(now).issued + r->Ok_0) as u128,
                ..old(self).cleaned_supply(now)
            }),
            r is Ok ==> final(self).wf(),
            r is Ok ==> final(self).unbonding.entries@ == remaining_after(
                old(self).unbonding.entries@,
                now,
            ),
            r is Ok ==> *final(self) == (Hub {
                supply: final(self).supply,
                unbonding: final(self).unbonding,
                ..*old(self)
            }),
            r is Err ==> (r->Err_0 == ContractError::Overflow {}) && *final(self) == *old(self),
            bond_fits(old(self).cleaned_supply(now), paid, (balance - paid) as u128) ==> (
            r is Ok),
    {
        let freed = self.unbonding.count_mature(now);
        proof {
            crate::unbonding::lemma_mature_le_total(self.unbonding.entries@, now);
        }
        let mut supply = self.supply;
        supply.total_unbonding = supply.total_unbonding - freed;
        let issue = match supply.bond(paid, balance - paid) {
            Ok(issue) => issue,
            Err(e) => {
                return Err(e);
            },
        };
        self.cleanup(now);
        self.supply = supply;
        Ok(issue)
    }

    /// Burns `shares` of the derivative and reserves the corresponding
    /// native amount as a claim for `holder`, maturing one unbonding period
    /// after the later of the two schedule timers. `token_sender` must be
    /// the derivative-token contract: shares can only arrive through it.
    /// Returns the native amount reserved.
    pub fn unbond(
        &mut self,
        now: u64,
        token_sender: &String,
        shares: u128,
        holder: &String,
        balance: u128,
    ) -> (r: Result<u128, ContractError>)
        requires
            old(self).wf(),
            solvent(old(self).cleaned_supply(now), balance),
            totals_fit(old(self).cleaned_supply(now), balance),
            old(self).config.next_unbond <= u64::MAX - old(self).config.unbond_period,
            old(self).config.next_epoch <= u64::MAX - old(self).config.unbond_period,
        ensures
            token_sender@ != old(self).config.token_contract@ ==> r == Err::<u128, ContractError>(
                ContractError::InvalidToken {},
            ) && *final(self) == *old(self),
            r is Err ==> *final(self) == *old(self) && (r->Err_0 == ContractError::InvalidToken {}
                || r->Err_0 == ContractError::Overflow {}),
            token_sender@ == old(self).config.token_contract@ && (r is Err) ==> (r->Err_0
                == ContractError::Overflow {}),
            r is Ok ==> token_sender@ == old(self).config.token_contract@,
            r is Ok ==> r->Ok_0 == unbond_native_spec(old(self).cleaned_supply(now), shares, balance),
            r is Ok ==> final(self).supply == (Supply {
                issued: (old(self).cleaned_supply(now).issued - shares) as u128,
                claims: (old(self).cleaned_supply(now).claims + r->Ok_0) as u128,
                ..old(self).cleaned_supply(now)
            }),
            r is Ok ==> final(self).claims.spec_claims_of(holder@) == old(
                self,
            ).claims.spec_claims_of(holder@).push(
                Claim {
                    amount: r->Ok_0,
                    release_at: (max_u64_spec(
                        old(self).config.next_unbond,
                        old(self).config.next_epoch,
                    ) + old(self).config.unbond_period) as u64,
                },
            ),
            r is Ok ==> forall|h: Seq<char>|
                h != holder@ ==> final(self).claims.spec_claims_of(h) == old(
                    self,
                ).claims.spec_claims_of(h),
            r is Ok ==> final(self).wf(),
            r is Ok ==> final(self).unbonding.entries@ == remaining_after(
                old(self).unbonding.entries@,
                now,
            ),
            r is Ok ==> final(self).config == old(self).config && final(self).validators == old(
                self,
            ).validators && final(self).bonded == old(self).bonded && final(self).tmp_balance == old(
                self,
            ).tmp_balance,
            token_sender@ == old(self).config.token_contract@ && unbond_fits(
                old(self).cleaned_supply(now),
                shares,
                balance,
            ) ==> (r is Ok),
    {
        if !token_sender.eq(&self.config.token_contract) {
            return Err(ContractError::InvalidToken {});
        }
        let freed = self.unbonding.count_mature(now);
        proof {
            crate::unbonding::lemma_mature_le_total(self.unbonding.entries@, now);
        }
        let mut supply = self.supply;
        supply.total_unbonding = supply.total_unbonding - freed;
        let native = match supply.unbond(shares, balance) {
            Ok(native) => native,
            Err(e) => {
                return Err(e);
            },
        };
        // The claim matures one unbonding period after the next chance to
        // undelegate; undelegation waits at least until the next epoch.
        let next_unbond = max_u64(self.config.next_unbond, self.config.next_epoch);
        let release_at = next_unbond + self.config.unbond_period;
        self.cleanup(now);
        self.supply = supply;
        self.claims.create_claim(holder, native, release_at);
        Ok(native)
    }

    /// Pays out the holder's matured claims, as far as the pool's bank
    /// balance covers them, and removes them from the ledger.
    /// Fails with `NothingToClaim`, changing nothing, when no claim could be
    /// paid. Returns the amount to send to the holder.
    pub fn claim(&mut self, holder: &String, now: u64, balance: u128) -> (r: Result<u128, ContractError>)
        requires
            old(self).wf(),
        ensures
            r is Err ==> r == Err::<u128, ContractError>(ContractError::NothingToClaim {})
                && *final(self) == *old(self),
            r is Err <==> settle_paid(old(self).claims.spec_claims_of(holder@), now, balance, 0)
                == 0,
            r is Ok ==> r->Ok_0 == settle_paid(
                old(self).claims.spec_claims_of(holder@),
                now,
                balance,
                0,
            ) && r->Ok_0 > 0 && r->Ok_0 <= balance,
            r is Ok ==> final(self).claims.spec_claims_of(holder@) == settle_left(
                old(self).claims.spec_claims_of(holder@),
                now,
                balance,
                0,
            ),
            r is Ok ==> forall|h: Seq<char>|
                h != holder@ ==> final(self).claims.spec_claims_of(h) == old(
                    self,
                ).claims.spec_claims_of(h),
            r is Ok ==> final(self).supply == (Supply {
                claims: (old(self).supply.claims - r->Ok_0) as u128,
                ..old(self).supply
            }),
            r is Ok ==> final(self).wf(),
            r is Ok ==> *final(self) == (Hub {
                supply: final(self).supply,
                claims: final(self).claims,
                ..*old(self)
            }),
    {
        let preview = self.claims.settle_preview(holder, now, balance);
        if preview == 0 {
            return Err(ContractError::NothingToClaim {});
        }
        proof {
            crate::claims::lemma_claims_of_le_total(self.claims.entries@, holder@);
            crate::claims::lemma_settle_conserves(
                self.claims.spec_claims_of(holder@),
                now,
                balance,
                0,
            );
            crate::claims::lemma_sum_claims_nonneg(
                settle_left(self.claims.spec_claims_of(holder@), now, balance, 0),
            );
        }
        let to_send = self.claims.claim_tokens(holder, now, balance);
        match self.supply.claim(to_send) {
            Ok(()) => Ok(to_send),
            Err(_) => {
                proof {
                    assert(false);
                }
                Err(ContractError::NothingToClaim {})
            },
        }
    }

    /// Lowers the liquidity discount used by the target-value query.
    /// Owner only; the discount must stay below fifty percent.
    pub fn update_liquidity_discount(&mut self, sender: &String, new_discount: Rate) -> (r: Result<(), ContractError>)
        requires
            old(self).wf(),
        ensures
            sender@ != old(self).config.owner@ ==> r == Err::<(), ContractError>(
                ContractError::Unauthorized {},
            ),
            sender@ == old(self).config.owner@ && new_discount.atomics >= RATE_ONE / 2 ==> r
                == Err::<(), ContractError>(ContractError::InvalidLiquidityDiscount {}),
            r is Err ==> *final(self) == *old(self),
            r is Ok <==> (sender@ == old(self).config.owner@ && new_discount.atomics < RATE_ONE
                / 2),
            r is Ok ==> *final(self) == (Hub {
                config: Config { liquidity_discount: new_discount, ..old(self).config },
                ..*old(self)
            }),
            final(self).wf(),
    {
        if !sender.eq(&self.config.owner) {
            return Err(ContractError::Unauthorized {});
        }
        let half = Rate { atomics: RATE_ONE / 2 };
        if !new_discount.lt(&half) {
            return Err(ContractError::InvalidLiquidityDiscount {});
        }
        self.config.liquidity_discount = new_discount;
        Ok(())
    }

    /// Replaces the validator weight set. Owner only. While anything is
    /// bonded, the planner's redelegations are issued and the bonded ledger
    /// moves onto the new weights; the total bonded amount is conserved.
    pub fn set_validators(
        &mut self,
        sender: &String,
        now: u64,
        new_validators: Vec<(String, Rate)>,
    ) -> (r: Result<Vec<Redelegation>, ContractError>)
        requires
            old(self).wf(),
            wkeys_unique(new_validators@),
        ensures
            sender@ != old(self).config.owner@ ==> r == Err::<Vec<Redelegation>, ContractError>(
                ContractError::Unauthorized {},
            ),
            r is Err ==> *final(self) == *old(self) && (r->Err_0 == ContractError::Unauthorized {}
                || r->Err_0 == ContractError::Overflow {}),
            sender@ == old(self).config.owner@ && old(self).supply.total_bonded != 0 ==> ((
            r is Err) <==> (r == Err::<Vec<Redelegation>, ContractError>(
                ContractError::Overflow {},
            ) && some_target_overflows(old(self).supply.total_bonded, new_validators@))),
            sender@ == old(self).config.owner@ && old(self).supply.total_bonded == 0 ==> (r is Ok),
            r is Ok ==> final(self).wf(),
            r is Ok ==> final(self).unbonding.entries@ == remaining_after(
                old(self).unbonding.entries@,
                now,
            ),
            r is Ok ==> final(self).validators == new_validators,
            r is Ok ==> final(self).supply == old(self).cleaned_supply(now),
            r is Ok ==> final(self).supply.total_bonded == old(self).supply.total_bonded,
            r is Ok ==> final(self).config == old(self).config && final(self).claims == old(
                self,
            ).claims && final(self).tmp_balance == old(self).tmp_balance,
            r is Ok ==> old(self).supply.total_bonded == 0 ==> final(self).bonded == old(
                self,
            ).bonded && r->Ok_0@.len() == 0,
            r is Ok ==> forall|m: int|
                0 <= m < r->Ok_0@.len() ==> (#[trigger] r->Ok_0@[m].amount) > 0 && key_in(
                    old(self).bonded@,
                    r->Ok_0@[m].src_validator@,
                ) && (key_in(old(self).bonded@, r->Ok_0@[m].dst_validator@) || wkey_in(
                    new_validators@,
                    r->Ok_0@[m].dst_validator@,
                )),
            r is Ok ==> forall|i: int|
                0 <= i < final(self).bonded@.len() ==> key_in(
                    old(self).bonded@,
                    (#[trigger] final(self).bonded@[i].0)@,
                ) || wkey_in(new_validators@, final(self).bonded@[i].0@),
            r is Ok ==> forall|k: Seq<char>|
                #![trigger crate::sums::bal_of(final(self).bonded@, k)]
                crate::sums::bal_of(final(self).bonded@, k) == crate::sums::bal_of(
                    old(self).bonded@,
                    k,
                ) + msg_received(r->Ok_0@, k) - msg_given(r->Ok_0@, k),
            r is Ok ==> old(self).supply.total_bonded != 0 ==> forall|i: int|
                0 <= i < final(self).bonded@.len() ==> (#[trigger] final(self).bonded@[i].1) > 0,
            r is Ok ==> crate::valset::allocation_met(
                old(self).bonded@,
                old(self).supply.total_bonded,
                new_validators@,
            ) ==> r->Ok_0@.len() == 0,
    {
        if !sender.eq(&self.config.owner) {
            return Err(ContractError::Unauthorized {});
        }
        if self.supply.total_bonded != 0 {
            let change = match valset_change_redelegation_messages(
                self.supply.total_bonded,
                &self.bonded,
                &new_validators,
            ) {
                Ok(change) => change,
                Err(e) => {
                    return Err(e);
                },
            };
            self.cleanup(now);
            self.bonded = change.new_balances;
            self.validators = new_validators;
            Ok(change.messages)
        } else {
            self.cleanup(now);
            self.validators = new_validators;
            let messages: Vec<Redelegation> = Vec::new();
            proof {
                assert forall|k: Seq<char>|
                    #![trigger crate::sums::bal_of(self.bonded@, k)]
                    crate::sums::bal_of(self.bonded@, k) == crate::sums::bal_of(
                    old(self).bonded@,
                    k,
                ) + msg_received(messages@, k) - msg_given(messages@, k) by {
                    assert(messages@ =~= Seq::<Redelegation>::empty());
                    assert(msg_received(messages@, k) == 0);
                    assert(msg_given(messages@, k) == 0);
                }
            }
            Ok(messages)
        }
    }

    /// The exchange rate: backing assets over issued shares, after counting
    /// matured unbonding as liquid. One while nothing is issued.
    pub fn exchange_rate(&self, now: u64, balance: u128) -> (r: Result<Rate, ContractError>)
        requires
            self.wf(),
            solvent(self.cleaned_supply(now), balance),
            totals_fit(self.cleaned_supply(now), balance),
        ensures
            r is Ok ==> r->Ok_0.atomics == tokens_per_share_spec(self.cleaned_supply(now), balance),
            r is Err ==> (r->Err_0 == ContractError::Overflow {}),
            assets_spec(self.cleaned_supply(now), balance) * RATE_ONE <= u128::MAX ==> (r is Ok),
    {
        let freed = self.unbonding.count_mature(now);
        proof {
            crate::unbonding::lemma_mature_le_total(self.unbonding.entries@, now);
        }
        let mut supply = self.supply;
        supply.total_unbonding = supply.total_unbonding - freed;
        match supply.tokens_per_share(balance) {
            Some(rate) => Ok(rate),
            None => Err(ContractError::Overflow {}),
        }
    }

    /// The exchange rate discounted by the liquidity discount.
    pub fn target_value(&self, now: u64, balance: u128) -> (r: Result<Rate, ContractError>)
        requires
            self.wf(),
            solvent(self.cleaned_supply(now), balance),
            totals_fit(self.cleaned_supply(now), balance),
        ensures
            r is Ok ==> r->Ok_0.atomics == (tokens_per_share_spec(self.cleaned_supply(now), balance)
                * (RATE_ONE - self.config.liquidity_discount.atomics)) / (RATE_ONE as int),
            r is Err ==> (r->Err_0 == ContractError::Overflow {}),
            assets_spec(self.cleaned_supply(now), balance) * RATE_ONE <= u128::MAX
                && tokens_per_share_spec(self.cleaned_supply(now), balance) * (RATE_ONE
                - self.config.liquidity_discount.atomics) <= u128::MAX ==> (r is Ok),
    {
        let rate = match self.exchange_rate(now, balance) {
            Ok(rate) => rate,
            Err(e) => {
                return Err(e);
            },
        };
        let complement = match self.config.liquidity_discount.complement() {
            Some(c) => c,
            None => {
                return Err(ContractError::Overflow {});
            },
        };
        match rate.checked_mul(&complement) {
            Some(v) => Ok(v),
            None => Err(ContractError::Overflow {}),
        }
    }

    /// The rewards withdrawn since the reinvest cycle started.
    pub open spec fn spec_rewards(self, balance: u128) -> int {
        balance - self.tmp_balance->0
    }

    /// The treasury's floored share of those rewards.
    pub open spec fn spec_commission(self, balance: u128) -> int {
        mul_floor_spec(self.spec_rewards(balance), self.config.commission)
    }

    /// The bank balance once the commission has left.
    pub open spec fn spec_balance2(self, balance: u128) -> int {
        balance - self.spec_commission(balance)
    }

    /// What is available, now or after unbonding matures, to pay claims.
    pub open spec fn spec_coverage(self, now: u64, balance: u128) -> int {
        self.spec_balance2(balance) + self.cleaned_supply(now).total_unbonding
    }

    /// Nothing arrived and nothing is bonded: the round has nothing to do.
    pub open spec fn idle_case(self, balance: u128) -> bool {
        balance == 0 && self.supply.total_bonded == 0
    }

    /// The coverage exceeds the claims: the difference is delegated.
    pub open spec fn surplus_case(self, now: u64, balance: u128) -> bool {
        !self.idle_case(balance) && self.spec_coverage(now, balance) > self.supply.claims
    }

    pub open spec fn spec_surplus(self, now: u64, balance: u128) -> int {
        self.spec_coverage(now, balance) - self.supply.claims
    }

    /// The claims exceed the coverage: the difference is undelegated, but
    /// only when the undelegation timer is due.
    pub open spec fn deficit_case(self, now: u64, balance: u128) -> bool {
        !self.idle_case(balance) && self.spec_coverage(now, balance) < self.supply.claims
    }

    pub open spec fn deficit_due(self, now: u64, balance: u128) -> bool {
        self.deficit_case(now, balance) && now >= self.config.next_unbond
    }

    pub open spec fn spec_missing(self, now: u64, balance: u128) -> int {
        self.supply.claims - self.spec_coverage(now, balance)
    }

    /// The undelegations a due deficit round issues: floored weight shares
    /// of the missing liquidity, topped up from the rounding remainder as
    /// far as each validator's bonded stake allows.
    pub open spec fn spec_deficit_placed(self, now: u64, balance: u128) -> Seq<(String, u128)> {
        let nz = nonzero_weights(self.validators@);
        let base = floor_payments(self.spec_missing(now, balance) as u128, nz);
        place_remainder(
            base,
            self.bonded@,
            self.spec_missing(now, balance) - crate::sums::sum_bal(base),
        )
    }

    /// Every nonzero-weight validator is bonded and covers its floored
    /// share of the missing liquidity.
    pub open spec fn deficit_feasible(self, now: u64, balance: u128) -> bool {
        let nz = nonzero_weights(self.validators@);
        let base = floor_payments(self.spec_missing(now, balance) as u128, nz);
        forall|i: int|
            0 <= i < base.len() ==> key_in(self.bonded@, (#[trigger] base[i].0)@) && base[i].1
                <= crate::sums::bal_of(self.bonded@, base[i].0@)
    }

    /// No arithmetic step of a rebalance overflows on these inputs: the
    /// commission product fits, every weight's share fits, and the floored
    /// shares never sum past what is distributed — which holds whenever the
    /// weights sum to at most one.
    pub open spec fn rebalance_fits(self, now: u64, balance: u128) -> bool {
        let nz = nonzero_weights(self.validators@);
        &&& !self.idle_case(balance) ==> self.spec_rewards(balance) * self.config.commission.atomics
            <= u128::MAX
        &&& self.surplus_case(now, balance) ==> (floors_fit(
            self.spec_surplus(now, balance) as u128,
            nz,
        ) && crate::sums::sum_bal(floor_payments(self.spec_surplus(now, balance) as u128, nz))
            <= self.spec_surplus(now, balance))
        &&& self.deficit_due(now, balance) ==> (floors_fit(
            self.spec_missing(now, balance) as u128,
            nz,
        ) && crate::sums::sum_bal(floor_payments(self.spec_missing(now, balance) as u128, nz))
            <= self.spec_missing(now, balance))
    }

    /// Starts a reinvest cycle: advances the epoch timer, snapshots the bank
    /// balance for the continuation, and returns the validators whose
    /// rewards the host should withdraw. The list is empty while nothing is
    /// bonded: the host then runs the continuation at once.
    pub fn reinvest_start(&mut self, now: u64, balance: u128) -> (r: Result<
        Vec<String>,
        ContractError,
    >)
        requires
            old(self).wf(),
            now <= u64::MAX - old(self).config.epoch_period,
        ensures
            now < old(self).config.next_epoch ==> r == Err::<Vec<String>, ContractError>(
                ContractError::EpochNotReached { next_epoch: old(self).config.next_epoch },
            ) && *final(self) == *old(self),
            r is Err ==> *final(self) == *old(self),
            r is Ok <==> now >= old(self).config.next_epoch,
            r is Ok ==> final(self).wf(),
            r is Ok ==> final(self).config == (Config {
                next_epoch: final(self).config.next_epoch,
                ..old(self).config
            }) && final(self).config.next_epoch == crate::config::advanced_timer(
                old(self).config.next_epoch,
                old(self).config.epoch_period,
                now,
            ),
            r is Ok ==> *final(self) == (Hub {
                config: final(self).config,
                tmp_balance: Some(balance),
                ..*old(self)
            }),
            r is Ok ==> old(self).supply.total_bonded == 0 ==> r->Ok_0@.len() == 0,
            r is Ok ==> old(self).supply.total_bonded != 0 ==> (r->Ok_0@.len() == nonzero_weights(
                old(self).validators@,
            ).len() && (forall|i: int|
                0 <= i < r->Ok_0@.len() ==> (#[trigger] r->Ok_0@[i])@ == nonzero_weights(
                    old(self).validators@,
                )[i].0@)),
    {
        match self.config.next_epoch_after(now) {
            Ok(_) => {},
            Err(e) => {
                return Err(e);
            },
        }
        self.tmp_balance = Some(balance);
        if self.supply.total_bonded == 0 {
            return Ok(Vec::new());
        }
        let vals = filter_nonzero(&self.validators);
        let mut names: Vec<String> = Vec::new();
        let n = vals.len();
        let mut i: usize = 0;
        while i < n
            invariant
                0 <= i <= n,
                n == vals@.len(),
                names@.len() == i,
                forall|t: int| 0 <= t < i ==> (#[trigger] names@[t])@ == vals@[t].0@,
            decreases n - i,
        {
            names.push(vals[i].0.clone());
            i = i + 1;
        }
        Ok(names)
    }

    /// The reinvest continuation, run once the host knows the outcome of the
    /// reward withdrawals. Takes the commission out of the withdrawn
    /// rewards, then compares what covers the claims with the claims:
    /// a surplus is delegated across the nonzero-weight validators by
    /// weight, the rounding remainder going to the first of them; a deficit
    /// is undelegated the same way, the remainder topped up where stake
    /// allows, but only when the undelegation timer is due — else the round
    /// ends quietly. Matured unbonding buckets are freed first.
    ///
    /// Whatever the round does, the backing assets change by exactly the
    /// rewards kept, and the issued shares and claims do not move: the
    /// exchange rate cannot fall while no validator is slashed.
    pub fn rebalance(&mut self, now: u64, balance: u128) -> (r: Result<
        RebalanceOutcome,
        ContractError,
    >)
        requires
            old(self).wf(),
            old(self).tmp_balance is Some,
            old(self).tmp_balance->0 <= balance,
            totals_fit(old(self).cleaned_supply(now), balance),
            now <= u64::MAX - old(self).config.unbond_period,
            old(self).surplus_case(now, balance) ==> nonzero_weights(
                old(self).validators@,
            ).len() > 0,
            old(self).deficit_due(now, balance) ==> old(self).deficit_feasible(now, balance),
            forall|i: int|
                0 <= i < old(self).unbonding.entries@.len()
                    ==> (#[trigger] old(self).unbonding.entries@[i].0) < now + old(
                    self,
                ).config.unbond_period,
        ensures
            r is Err ==> (r->Err_0 == ContractError::Overflow {}) && *final(self) == *old(self),
            old(self).rebalance_fits(now, balance) ==> (r is Ok),
            r is Ok ==> final(self).wf(),
            r is Ok ==> final(self).supply.issued == old(self).supply.issued
                && final(self).supply.claims == old(self).supply.claims,
            r is Ok ==> final(self).validators == old(self).validators
                && final(self).claims == old(self).claims && final(self).tmp_balance == old(
                self,
            ).tmp_balance,
            r is Ok ==> old(self).idle_case(balance) ==> (r->Ok_0.commission == 0
                && r->Ok_0.delegations@.len() == 0 && r->Ok_0.undelegations@.len() == 0 && (
            r->Ok_0.unbond_time is None) && final(self).supply == old(self).cleaned_supply(now)
                && final(self).bonded == old(self).bonded && final(self).config == old(
                self,
            ).config),
            r is Ok ==> !old(self).idle_case(balance) ==> r->Ok_0.commission == old(
                self,
            ).spec_commission(balance),
            r is Ok ==> old(self).surplus_case(now, balance) ==> (crate::sums::payments_match(
                r->Ok_0.delegations@,
                crate::sums::positive_payments(
                    surplus_payments(
                        old(self).spec_surplus(now, balance) as u128,
                        nonzero_weights(old(self).validators@),
                    ),
                ),
            ) && r->Ok_0.undelegations@.len() == 0 && (r->Ok_0.unbond_time is None)
                && final(self).supply.total_bonded == old(self).cleaned_supply(now).total_bonded + old(
                self,
            ).spec_surplus(now, balance) && final(self).supply.total_unbonding == old(
                self,
            ).cleaned_supply(now).total_unbonding && final(self).config == old(self).config),
            r is Ok ==> old(self).deficit_due(now, balance) ==> (crate::sums::payments_match(
                r->Ok_0.undelegations@,
                crate::sums::positive_payments(old(self).spec_deficit_placed(now, balance)),
            ) && r->Ok_0.delegations@.len() == 0 && r->Ok_0.unbond_time == Some(
                (now + old(self).config.unbond_period) as u64,
            ) && final(self).supply.total_bonded == old(self).cleaned_supply(now).total_bonded
                - crate::sums::sum_bal(old(self).spec_deficit_placed(now, balance))
                && final(self).supply.total_unbonding == old(
                self,
            ).cleaned_supply(now).total_unbonding + crate::sums::sum_bal(
                old(self).spec_deficit_placed(now, balance),
            ) && final(self).config == (Config {
                next_unbond: final(self).config.next_unbond,
                ..old(self).config
            })),
            r is Ok ==> (old(self).deficit_case(now, balance) && !old(self).deficit_due(
                now,
                balance,
            )) ==> (r->Ok_0.delegations@.len() == 0
                && r->Ok_0.undelegations@.len() == 0 && (r->Ok_0.unbond_time is None)
                && final(self).supply == old(self).cleaned_supply(now) && final(self).config
                == old(self).config),
            r is Ok ==> (!old(self).idle_case(balance) && !old(self).surplus_case(now, balance)
                && !old(self).deficit_case(now, balance)) ==> (r->Ok_0.delegations@.len() == 0
                && r->Ok_0.undelegations@.len() == 0 && final(self).supply == old(
                self,
            ).cleaned_supply(now)),
            r is Ok ==> !old(self).idle_case(balance) ==> (forall|i: int|
                0 <= i < final(self).bonded@.len() ==> (#[trigger] final(self).bonded@[i].1) > 0),
            r is Ok ==> !old(self).deficit_due(now, balance) ==> final(self).unbonding.entries@
                == remaining_after(old(self).unbonding.entries@, now),
            r is Ok ==> old(self).deficit_due(now, balance) ==> (final(self).unbonding.entries@.len()
                == remaining_after(old(self).unbonding.entries@, now).len() + 1
                && final(self).unbonding.entries@.drop_last() =~= remaining_after(
                old(self).unbonding.entries@,
                now,
            ) && final(self).unbonding.entries@.last().0 == now + old(self).config.unbond_period
                && bucket_matches_payments(
                final(self).unbonding.entries@.last().1@,
                r->Ok_0.undelegations@,
            )),
            r is Ok ==> old(self).surplus_case(now, balance) ==> (forall|k: Seq<char>|
                #![trigger crate::sums::bal_of(final(self).bonded@, k)]
                crate::sums::bal_of(final(self).bonded@, k) == crate::sums::bal_of(
                    old(self).bonded@,
                    k,
                ) + crate::sums::bal_of(
                    surplus_payments(
                        old(self).spec_surplus(now, balance) as u128,
                        nonzero_weights(old(self).validators@),
                    ),
                    k,
                )),
            r is Ok ==> old(self).deficit_due(now, balance) ==> (forall|k: Seq<char>|
                #![trigger crate::sums::bal_of(final(self).bonded@, k)]
                crate::sums::bal_of(final(self).bonded@, k) == crate::sums::bal_of(
                    old(self).bonded@,
                    k,
                ) - crate::sums::bal_of(old(self).spec_deficit_placed(now, balance), k)),
            r is Ok ==> (!old(self).idle_case(balance) && !old(self).surplus_case(now, balance)
                && !old(self).deficit_due(now, balance)) ==> (forall|k: Seq<char>|
                #![trigger crate::sums::bal_of(final(self).bonded@, k)]
                crate::sums::bal_of(final(self).bonded@, k) == crate::sums::bal_of(
                    old(self).bonded@,
                    k,
                )),
            r is Ok ==> r->Ok_0.commission <= balance,
            r is Ok ==> final(self).supply.total_bonded + final(self).supply.total_unbonding
                + balance - r->Ok_0.commission - crate::sums::sum_bal(r->Ok_0.delegations@)
                - final(self).supply.claims == assets_spec(old(self).cleaned_supply(now), balance)
                - r->Ok_0.commission,
    {
        let ghost old_self = *self;
        let freed = self.unbonding.count_mature(now);
        proof {
            crate::unbonding::lemma_mature_le_total(self.unbonding.entries@, now);
        }
        let mut supply = self.supply;
        supply.total_unbonding = supply.total_unbonding - freed;
        proof {
            assert(supply == old_self.cleaned_supply(now));
        }
        if balance == 0 && self.supply.total_bonded == 0 {
            self.cleanup(now);
            let outcome = RebalanceOutcome {
                commission: 0,
                delegations: Vec::new(),
                undelegations: Vec::new(),
                unbond_time: None,
            };
            proof {
                assert(crate::sums::sum_bal(outcome.delegations@) == 0) by {
                    assert(outcome.delegations@ =~= Seq::<(String, u128)>::empty());
                }
            }
            return Ok(outcome);
        }
        let tmp = match self.tmp_balance {
            Some(t) => t,
            None => {
                proof {
                    assert(false);
                }
                0
            },
        };
        let rewards = balance - tmp;
        let commission = match checked_mul_floor(rewards, self.config.commission) {
            Some(c) => c,
            None => {
                proof {
                    assert(rewards == old_self.spec_rewards(balance));
                    assert(!old_self.rebalance_fits(now, balance));
                }
                return Err(ContractError::Overflow {});
            },
        };
        proof {
            crate::rate::lemma_mul_floor_le(rewards as int, self.config.commission);
            assert(commission == old_self.spec_commission(balance));
        }
        let balance2 = balance - commission;
        let coverage = balance2 + supply.total_unbonding;
        proof {
            assert(coverage == old_self.spec_coverage(now, balance));
        }
        if coverage > supply.claims {
            // Surplus: delegate it across the nonzero-weight validators.
            let surplus = coverage - supply.claims;
            let ghost nz = nonzero_weights(old_self.validators@);
            proof {
                assert(old_self.surplus_case(now, balance));
                assert(surplus == old_self.spec_surplus(now, balance));
            }
            let vals = filter_nonzero(&self.validators);
            let ghost spec_base = floor_payments(surplus, nz);
            proof {
                assert(crate::sums::payments_match(floor_payments(surplus, vals@), spec_base)) by {
                    assert forall|t: int|
                        0 <= t < vals@.len() implies (#[trigger] floor_payments(
                        surplus,
                        vals@,
                    )[t].0)@ == spec_base[t].0@ && floor_payments(surplus, vals@)[t].1
                        == spec_base[t].1 by {
                        assert(vals@[t].0@ == nz[t].0@ && vals@[t].1 == nz[t].1);
                    }
                }
                crate::sums::lemma_match_sum(floor_payments(surplus, vals@), spec_base);
            }
            let (mut payments, pay_sum) = match build_floor_payments(surplus, &vals) {
                Some(p) => p,
                None => {
                    proof {
                        if !floors_fit(surplus, vals@) {
                            let w = choose|w: int|
                                0 <= w < vals@.len() && surplus * (#[trigger] vals@[w].1).atomics
                                    > u128::MAX;
                            assert(surplus * nz[w].1.atomics > u128::MAX);
                            assert(!floors_fit(surplus, nz));
                        }
                        assert(!old_self.rebalance_fits(now, balance));
                    }
                    return Err(ContractError::Overflow {});
                },
            };
            let rem = match surplus.checked_sub(pay_sum) {
                Some(r) => r,
                None => {
                    proof {
                        assert(crate::sums::sum_bal(spec_base) == pay_sum) by {
                            crate::sums::lemma_match_sum(payments@, spec_base);
                        }
                        assert(!old_self.rebalance_fits(now, balance));
                    }
                    return Err(ContractError::Overflow {});
                },
            };
            proof {
                assert(vals@.len() == nz.len());
                assert(crate::sums::payments_match(payments@, spec_base)) by {
                    assert forall|t: int|
                        0 <= t < payments@.len() implies (#[trigger] payments@[t].0)@
                        == spec_base[t].0@ && payments@[t].1 == spec_base[t].1 by {
                        assert(payments@[t].0@ == floor_payments(surplus, vals@)[t].0@);
                        assert(vals@[t].0@ == nz[t].0@ && vals@[t].1 == nz[t].1);
                    }
                }
                crate::sums::lemma_match_sum(payments@, spec_base);
                crate::sums::lemma_sum_bal_entry_le(payments@, 0);
                crate::sums::lemma_sum_bal_nonneg(payments@);
            }
            let first_amt = payments[0].1;
            let ghost payments_base = payments@;
            crate::sums::set_bal(&mut payments, 0, first_amt + rem);
            let ghost spec_pay = surplus_payments(surplus, nz);
            proof {
                crate::sums::lemma_sum_bal_update(
                    payments_base,
                    0,
                    (payments_base[0].0, (first_amt + rem) as u128),
                );
                assert(crate::sums::sum_bal(payments@) == surplus);
                assert(crate::sums::payments_match(payments@, spec_pay)) by {
                    assert(crate::sums::sum_bal(spec_base) == pay_sum);
                    assert forall|t: int|
                        0 <= t < payments@.len() implies (#[trigger] payments@[t].0)@
                        == spec_pay[t].0@ && payments@[t].1 == spec_pay[t].1 by {
                        if t > 0 {
                            assert(payments@[t] == payments_base[t]);
                        }
                    }
                }
                crate::sums::lemma_positive_match(payments@, spec_pay);
            }
            let delegations = crate::sums::filter_positive(&payments);
            proof {
                crate::sums::lemma_match_sum(
                    delegations@,
                    crate::sums::positive_payments(payments@),
                );
                crate::sums::lemma_positive_sum(payments@);
                assert(crate::sums::sum_bal(delegations@) == surplus);
                assert(crate::sums::payments_match(
                    delegations@,
                    crate::sums::positive_payments(spec_pay),
                )) by {
                    assert(crate::sums::payments_match(
                        delegations@,
                        crate::sums::positive_payments(payments@),
                    ));
                    assert(crate::sums::payments_match(
                        crate::sums::positive_payments(payments@),
                        crate::sums::positive_payments(spec_pay),
                    ));
                }
            }
            // Nothing can fail from here on: commit.
            self.cleanup(now);
            let ghost self_mid = *self;
            let ghost bonded0 = self.bonded@;
            let np = payments.len();
            let mut t: usize = 0;
            proof {
                assert(payments@.subrange(0, 0) =~= Seq::<(String, u128)>::empty());
                crate::sums::lemma_sum_bal_nonneg(bonded0);
                assert(bonded0 == old_self.bonded@);
                lemma_nonzero_unique(old_self.validators@);
                assert forall|a: int, b: int|
                    0 <= a < b < payments@.len() implies (#[trigger] payments@[a].0)@ != (
                #[trigger] payments@[b].0)@ by {
                    assert(payments@[a].0@ == spec_pay[a].0@ && spec_pay[a].0@ == nz[a].0@);
                    assert(payments@[b].0@ == spec_pay[b].0@ && spec_pay[b].0@ == nz[b].0@);
                }
            }
            while t < np
                invariant
                    0 <= t <= np,
                    np == payments@.len(),
                    self.config == self_mid.config,
                    self.supply == self_mid.supply,
                    self.validators == self_mid.validators,
                    self.unbonding == self_mid.unbonding,
                    self.claims == self_mid.claims,
                    self.tmp_balance == self_mid.tmp_balance,
                    keys_unique(self.bonded@),
                    crate::sums::sum_bal(self.bonded@) == crate::sums::sum_bal(bonded0)
                        + crate::sums::sum_bal(payments@.subrange(0, t as int)),
                    crate::sums::sum_bal(bonded0) + crate::sums::sum_bal(payments@) <= u128::MAX,
                    crate::sums::sum_bal(payments@) <= u128::MAX,
                    forall|a: int, b: int|
                        0 <= a < b < payments@.len() ==> (#[trigger] payments@[a].0)@ != (
                        #[trigger] payments@[b].0)@,
                    forall|a: int|
                        0 <= a < t ==> crate::sums::bal_of(
                            self.bonded@,
                            (#[trigger] payments@[a].0)@,
                        ) == crate::sums::bal_of(bonded0, payments@[a].0@) + payments@[a].1,
                    forall|a: int|
                        t <= a < np ==> crate::sums::bal_of(
                            self.bonded@,
                            (#[trigger] payments@[a].0)@,
                        ) == crate::sums::bal_of(bonded0, payments@[a].0@),
                    forall|k: Seq<char>|
                        #![trigger crate::sums::bal_of(self.bonded@, k)]
                        (forall|a: int| 0 <= a < np ==> (#[trigger] payments@[a].0)@ != k)
                            ==> crate::sums::bal_of(self.bonded@, k) == crate::sums::bal_of(
                            bonded0,
                            k,
                        ),
                decreases np - t,
            {
                proof {
                    assert(payments@.subrange(0, t + 1).drop_last() =~= payments@.subrange(
                        0,
                        t as int,
                    ));
                    crate::sums::lemma_sum_bal_split(payments@.subrange(0, t + 1), t as int);
                    assert(payments@.subrange(0, t + 1).subrange(0, t as int) =~= payments@.subrange(
                        0,
                        t as int,
                    ));
                    assert(payments@.subrange(0, t + 1).subrange(t as int, t + 1) =~= seq![
                        payments@[t as int],
                    ]);
                    crate::sums::lemma_sum_bal_singleton(payments@[t as int]);
                    crate::sums::lemma_sum_bal_split(payments@, t + 1);
                    crate::sums::lemma_sum_bal_nonneg(
                        payments@.subrange(t + 1, payments@.len() as int),
                    );
                    assert(payments@.subrange(0, payments@.len() as int) =~= payments@);
                }
                let name = payments[t].0.clone();
                let amt = payments[t].1;
                crate::sums::credit(&mut self.bonded, &name, amt);
                t = t + 1;
            }
            proof {
                assert(payments@.subrange(0, np as int) =~= payments@);
            }
            let new_total_bonded = supply.total_bonded + surplus;
            supply.total_bonded = new_total_bonded;
            self.supply = supply;
            self.drop_zero_bonded();
            proof {
                assert(keys_unique(spec_pay)) by {
                    assert forall|a: int, b: int|
                        0 <= a < b < spec_pay.len() implies spec_pay[a].0@ != spec_pay[b].0@ by {
                        assert(payments@[a].0@ == spec_pay[a].0@);
                        assert(payments@[b].0@ == spec_pay[b].0@);
                    }
                }
                assert forall|k: Seq<char>|
                    #![trigger crate::sums::bal_of(self.bonded@, k)]
                    crate::sums::bal_of(self.bonded@, k) == crate::sums::bal_of(old_self.bonded@, k)
                    + crate::sums::bal_of(spec_pay, k) by {
                    if exists|a: int| 0 <= a < payments@.len() && (#[trigger] payments@[a].0)@
                        == k {
                        let a = choose|a: int|
                            0 <= a < payments@.len() && (#[trigger] payments@[a].0)@ == k;
                        crate::sums::lemma_bal_of_at(spec_pay, a);
                        assert(spec_pay[a].0@ == k && spec_pay[a].1 == payments@[a].1);
                    } else {
                        assert(!key_in(spec_pay, k)) by {
                            if key_in(spec_pay, k) {
                                let w = choose|w: int|
                                    0 <= w < spec_pay.len() && spec_pay[w].0@ == k;
                                assert(payments@[w].0@ == k);
                            }
                        }
                        crate::sums::lemma_bal_of_absent(spec_pay, k);
                    }
                }
            }
            Ok(
                RebalanceOutcome {
                    commission,
                    delegations,
                    undelegations: Vec::new(),
                    unbond_time: None,
                },
            )
        } else if coverage < supply.claims {
            proof {
                assert(old_self.deficit_case(now, balance));
            }
            let mut config2 = self.config.duplicate();
            proof {
                assert(config2.spec_unbond_epoch() <= config2.unbond_period) by (nonlinear_arith)
                    requires
                        config2.spec_unbond_epoch() == (config2.unbond_period
                            + config2.max_concurrent_unbondings - 1) / (
                        config2.max_concurrent_unbondings as int),
                        config2.unbond_period > 0,
                        config2.max_concurrent_unbondings > 0,
                ;
            }
            match config2.next_unbond_after(now) {
                Err(_) => {
                    // Not due yet: the deficit waits for the next slot.
                    self.cleanup(now);
                    proof {
                        assert(self.bonded@ == old_self.bonded@);
                    }
                    self.drop_zero_bonded();
                    let outcome = RebalanceOutcome {
                        commission,
                        delegations: Vec::new(),
                        undelegations: Vec::new(),
                        unbond_time: None,
                    };
                    proof {
                        assert(crate::sums::sum_bal(outcome.delegations@) == 0) by {
                            assert(outcome.delegations@ =~= Seq::<(String, u128)>::empty());
                        }
                    }
                    Ok(outcome)
                },
                Ok(_) => {
                    let missing = supply.claims - coverage;
                    let ghost nz = nonzero_weights(old_self.validators@);
                    proof {
                        assert(old_self.deficit_due(now, balance));
                        assert(missing == old_self.spec_missing(now, balance));
                    }
                    let vals = filter_nonzero(&self.validators);
                    let ghost spec_base = floor_payments(missing, nz);
                    proof {
                        assert(crate::sums::payments_match(
                            floor_payments(missing, vals@),
                            spec_base,
                        )) by {
                            assert forall|t: int|
                                0 <= t < vals@.len() implies (#[trigger] floor_payments(
                                missing,
                                vals@,
                            )[t].0)@ == spec_base[t].0@ && floor_payments(missing, vals@)[t].1
                                == spec_base[t].1 by {
                                assert(vals@[t].0@ == nz[t].0@ && vals@[t].1 == nz[t].1);
                            }
                        }
                        crate::sums::lemma_match_sum(floor_payments(missing, vals@), spec_base);
                    }
                    let (payments, pay_sum) = match build_floor_payments(missing, &vals) {
                        Some(p) => p,
                        None => {
                            proof {
                                if !floors_fit(missing, vals@) {
                                    let w = choose|w: int|
                                        0 <= w < vals@.len() && missing * (
                                        #[trigger] vals@[w].1).atomics > u128::MAX;
                                    assert(missing * nz[w].1.atomics > u128::MAX);
                                    assert(!floors_fit(missing, nz));
                                }
                                assert(!old_self.rebalance_fits(now, balance));
                            }
                            return Err(ContractError::Overflow {});
                        },
                    };
                    let rem = match missing.checked_sub(pay_sum) {
                        Some(r) => r,
                        None => {
                            proof {
                                assert(crate::sums::sum_bal(spec_base) == pay_sum) by {
                                    crate::sums::lemma_match_sum(payments@, spec_base);
                                }
                                assert(!old_self.rebalance_fits(now, balance));
                            }
                            return Err(ContractError::Overflow {});
                        },
                    };
                    proof {
                        assert(crate::sums::payments_match(payments@, spec_base)) by {
                            assert forall|w: int|
                                0 <= w < payments@.len() implies (#[trigger] payments@[w].0)@
                                == spec_base[w].0@ && payments@[w].1 == spec_base[w].1 by {
                                assert(payments@[w].0@ == floor_payments(missing, vals@)[w].0@);
                                assert(vals@[w].0@ == nz[w].0@ && vals@[w].1 == nz[w].1);
                            }
                        }
                        crate::sums::lemma_match_sum(payments@, spec_base);
                        assert forall|w: int|
                            0 <= w < payments@.len() implies key_in(
                            self.bonded@,
                            (#[trigger] payments@[w].0)@,
                        ) && payments@[w].1 <= crate::sums::bal_of(
                            self.bonded@,
                            payments@[w].0@,
                        ) by {
                            assert(spec_base[w].0@ == payments@[w].0@);
                            assert(key_in(self.bonded@, spec_base[w].0@));
                        }
                    }
                    let placed = place_remainder_exec(&payments, &self.bonded, rem);
                    let ghost spec_placed = old_self.spec_deficit_placed(now, balance);
                    proof {
                        assert(crate::sums::sum_bal(placed@) <= missing);
                        lemma_place_match(payments@, spec_base, self.bonded@, rem as int);
                        assert(crate::sums::payments_match(placed@, spec_placed)) by {
                            assert(crate::sums::payments_match(
                                placed@,
                                place_remainder(payments@, self.bonded@, rem as int),
                            ));
                            assert(crate::sums::payments_match(
                                place_remainder(payments@, self.bonded@, rem as int),
                                place_remainder(spec_base, self.bonded@, rem as int),
                            ));
                        }
                        crate::sums::lemma_positive_match(placed@, spec_placed);
                        assert(wkeys_unique(nz)) by {
                            lemma_nonzero_unique(old_self.validators@);
                        }
                        assert forall|a: int, b: int|
                            0 <= a < b < placed@.len() implies placed@[a].0@ != placed@[b].0@ by {
                            assert(placed@[a].0@ == payments@[a].0@);
                            assert(placed@[b].0@ == payments@[b].0@);
                            assert(payments@[a].0@ == spec_base[a].0@);
                            assert(payments@[b].0@ == spec_base[b].0@);
                            assert(spec_base[a].0 == nz[a].0);
                            assert(spec_base[b].0 == nz[b].0);
                            assert(nz[a].0@ != nz[b].0@);
                        }
                    }
                    // Nothing can fail from here on: commit.
                    self.config = config2;
                    self.cleanup(now);
                    let ghost self_mid = *self;
                    let ghost bonded0 = self.bonded@;
                    proof {
                        assert(bonded0 == old_self.bonded@);
                    }
                    let np = placed.len();
                    let mut t: usize = 0;
                    let mut undel_total: u128 = 0;
                    proof {
                        assert(placed@.subrange(0, 0) =~= Seq::<(String, u128)>::empty());
                        crate::sums::lemma_sum_bal_nonneg(placed@);
                    }
                    while t < np
                        invariant
                            0 <= t <= np,
                            np == placed@.len(),
                            self.config == self_mid.config,
                            self.supply == self_mid.supply,
                            self.validators == self_mid.validators,
                            self.unbonding == self_mid.unbonding,
                            self.claims == self_mid.claims,
                            self.tmp_balance == self_mid.tmp_balance,
                            keys_unique(self.bonded@),
                            crate::sums::sum_bal(self.bonded@) == crate::sums::sum_bal(bonded0)
                                - crate::sums::sum_bal(placed@.subrange(0, t as int)),
                            undel_total == crate::sums::sum_bal(placed@.subrange(0, t as int)),
                            crate::sums::sum_bal(placed@) <= u128::MAX,
                            forall|a: int|
                                0 <= a < t ==> crate::sums::bal_of(
                                    self.bonded@,
                                    (#[trigger] placed@[a].0)@,
                                ) == crate::sums::bal_of(bonded0, placed@[a].0@) - placed@[a].1,
                            forall|a: int|
                                t <= a < np ==> crate::sums::bal_of(
                                    self.bonded@,
                                    (#[trigger] placed@[a].0)@,
                                ) == crate::sums::bal_of(bonded0, placed@[a].0@),
                            forall|k: Seq<char>|
                                #![trigger crate::sums::bal_of(self.bonded@, k)]
                                (forall|a: int| 0 <= a < np ==> (#[trigger] placed@[a].0)@ != k)
                                    ==> crate::sums::bal_of(self.bonded@, k)
                                    == crate::sums::bal_of(bonded0, k),
                            forall|w: int|
                                t <= w < np ==> key_in(self.bonded@, (#[trigger] placed@[w].0)@)
                                    && placed@[w].1 <= crate::sums::bal_of(
                                    self.bonded@,
                                    placed@[w].0@,
                                ),
                            forall|a: int, b: int|
                                0 <= a < b < placed@.len() ==> (#[trigger] placed@[a].0)@ != (
                                #[trigger] placed@[b].0)@,
                        decreases np - t,
                    {
                        proof {
                            assert(placed@.subrange(0, t + 1).drop_last() =~= placed@.subrange(
                                0,
                                t as int,
                            ));
                            crate::sums::lemma_sum_bal_split(placed@.subrange(0, t + 1), t as int);
                            assert(placed@.subrange(0, t + 1).subrange(0, t as int)
                                =~= placed@.subrange(0, t as int));
                            assert(placed@.subrange(0, t + 1).subrange(t as int, t + 1) =~= seq![
                                placed@[t as int],
                            ]);
                            crate::sums::lemma_sum_bal_singleton(placed@[t as int]);
                            crate::sums::lemma_sum_bal_split(placed@, t + 1);
                            crate::sums::lemma_sum_bal_nonneg(
                                placed@.subrange(t + 1, placed@.len() as int),
                            );
                            assert(placed@.subrange(0, placed@.len() as int) =~= placed@);
                        }
                        let name = placed[t].0.clone();
                        let amt = placed[t].1;
                        let ghost bonded_before = self.bonded@;
                        crate::sums::debit(&mut self.bonded, &name, amt);
                        proof {
                            assert forall|w: int|
                                t + 1 <= w < np implies key_in(
                                self.bonded@,
                                (#[trigger] placed@[w].0)@,
                            ) && placed@[w].1 <= crate::sums::bal_of(
                                self.bonded@,
                                placed@[w].0@,
                            ) by {
                                assert(placed@[w].0@ != placed@[t as int].0@);
                                let x = choose|x: int|
                                    0 <= x < bonded_before.len() && bonded_before[x].0@
                                        == placed@[w].0@;
                                assert(self.bonded@[x].0@ == bonded_before[x].0@);
                            }
                        }
                        undel_total = undel_total + amt;
                        t = t + 1;
                    }
                    proof {
                        assert(placed@.subrange(0, np as int) =~= placed@);
                        crate::sums::lemma_sum_bal_nonneg(self.bonded@);
                    }
                    let new_total_bonded = supply.total_bonded - undel_total;
                    supply.total_bonded = new_total_bonded;
                    let new_total_unbonding = supply.total_unbonding + undel_total;
                    supply.total_unbonding = new_total_unbonding;
                    self.supply = supply;
                    self.drop_zero_bonded();
                    proof {
                        assert(keys_unique(spec_placed)) by {
                            assert forall|a: int, b: int|
                                0 <= a < b < spec_placed.len() implies spec_placed[a].0@
                                != spec_placed[b].0@ by {
                                assert(placed@[a].0@ == spec_placed[a].0@);
                                assert(placed@[b].0@ == spec_placed[b].0@);
                            }
                        }
                        assert forall|k: Seq<char>|
                            #![trigger crate::sums::bal_of(self.bonded@, k)]
                            crate::sums::bal_of(self.bonded@, k) == crate::sums::bal_of(
                            old_self.bonded@,
                            k,
                        ) - crate::sums::bal_of(spec_placed, k) by {
                            if exists|a: int|
                                0 <= a < placed@.len() && (#[trigger] placed@[a].0)@ == k {
                                let a = choose|a: int|
                                    0 <= a < placed@.len() && (#[trigger] placed@[a].0)@ == k;
                                crate::sums::lemma_bal_of_at(spec_placed, a);
                                assert(spec_placed[a].0@ == k && spec_placed[a].1 == placed@[a].1);
                            } else {
                                assert(!key_in(spec_placed, k)) by {
                                    if key_in(spec_placed, k) {
                                        let w = choose|w: int|
                                            0 <= w < spec_placed.len() && spec_placed[w].0@ == k;
                                        assert(placed@[w].0@ == k);
                                    }
                                }
                                crate::sums::lemma_bal_of_absent(spec_placed, k);
                            }
                        }
                    }
                    let undelegations = crate::sums::filter_positive(&placed);
                    proof {
                        crate::sums::lemma_match_sum(
                            undelegations@,
                            crate::sums::positive_payments(placed@),
                        );
                        crate::sums::lemma_positive_sum(placed@);
                    }
                    // Record the new unbonding bucket.
                    proof {
                        assert(self.config.unbond_period == old_self.config.unbond_period);
                    }
                    let unbond_time = now + self.config.unbond_period;
                    let mut items: Vec<crate::unbonding::Unbonding> = Vec::new();
                    let nu = undelegations.len();
                    let mut t: usize = 0;
                    while t < nu
                        invariant
                            0 <= t <= nu,
                            nu == undelegations@.len(),
                            items@.len() == t,
                            forall|w: int|
                                0 <= w < t ==> (#[trigger] items@[w].validator)@
                                    == undelegations@[w].0@ && items@[w].amount
                                    == undelegations@[w].1,
                            crate::unbonding::sum_unb(items@) == crate::sums::sum_bal(
                                undelegations@.subrange(0, t as int),
                            ),
                        decreases nu - t,
                    {
                        proof {
                            assert(undelegations@.subrange(0, t + 1).drop_last()
                                =~= undelegations@.subrange(0, t as int));
                            crate::sums::lemma_sum_bal_split(
                                undelegations@.subrange(0, t + 1),
                                t as int,
                            );
                            assert(undelegations@.subrange(0, t + 1).subrange(0, t as int)
                                =~= undelegations@.subrange(0, t as int));
                            assert(undelegations@.subrange(0, t + 1).subrange(t as int, t + 1)
                                =~= seq![undelegations@[t as int]]);
                            crate::sums::lemma_sum_bal_singleton(undelegations@[t as int]);
                            let ghost e = crate::unbonding::Unbonding {
                                amount: undelegations@[t as int].1,
                                validator: undelegations@[t as int].0,
                            };
                            crate::unbonding::lemma_sum_unb_push(items@, e);
                        }
                        let ghost items_before = items@;
                        items.push(
                            crate::unbonding::Unbonding {
                                amount: undelegations[t].1,
                                validator: undelegations[t].0.clone(),
                            },
                        );
                        proof {
                            crate::unbonding::lemma_sum_unb_push(
                                items_before,
                                items@[t as int],
                            );
                            assert(items@ =~= items_before.push(items@[t as int]));
                        }
                        t = t + 1;
                    }
                    proof {
                        assert(undelegations@.subrange(0, nu as int) =~= undelegations@);
                        assert forall|w: int|
                            0 <= w < self.unbonding.entries@.len() implies (
                        #[trigger] self.unbonding.entries@[w].0) < unbond_time by {
                            assert(self.unbonding.entries@[w] == old_self.unbonding.entries@[w
                                + old_self.unbonding.entries@.len()
                                - self.unbonding.entries@.len()]);
                        }
                    }
                    self.unbonding.push_bucket(unbond_time, items);
                    proof {
                        crate::sums::lemma_match_sum(placed@, spec_placed);
                        assert(crate::sums::sum_bal(Seq::<(String, u128)>::empty()) == 0);
                        assert(self.unbonding.entries@.drop_last() =~= remaining_after(
                            old_self.unbonding.entries@,
                            now,
                        ));
                        assert(bucket_matches_payments(
                            self.unbonding.entries@.last().1@,
                            undelegations@,
                        ));
                    }
                    let outcome = RebalanceOutcome {
                        commission,
                        delegations: Vec::new(),
                        undelegations,
                        unbond_time: Some(unbond_time),
                    };
                    proof {
                        assert(crate::sums::sum_bal(outcome.delegations@) == 0) by {
                            assert(outcome.delegations@ =~= Seq::<(String, u128)>::empty());
                        }
                    }
                    Ok(outcome)
                },
            }
        } else {
            // Coverage and claims agree: only the cleanup and the
            // commission remain.
            self.cleanup(now);
            proof {
                assert(self.bonded@ == old_self.bonded@);
            }
            self.drop_zero_bonded();
            let outcome = RebalanceOutcome {
                commission,
                delegations: Vec::new(),
                undelegations: Vec::new(),
                unbond_time: None,
            };
            proof {
                assert(crate::sums::sum_bal(outcome.delegations@) == 0) by {
                    assert(outcome.delegations@ =~= Seq::<(String, u128)>::empty());
                }
            }
            Ok(outcome)
        }
    }

    /// The ledger expects more stake on the validator at `i` than the host
    /// observes, by a relative shortfall above the tombstone threshold.
    pub open spec fn slashed_at(self, observed: Seq<(String, u128)>, i: int) -> bool {
        let expected = self.bonded@[i].1;
        let obs = crate::sums::bal_of(observed, self.bonded@[i].0@);
        &&& expected > 0
        &&& obs < expected
        &&& crate::rate::ratio_spec(expected - obs, expected as int)
            > self.config.tombstone_treshold.atomics
    }

    /// The ratio of observed to expected stake for the validator at `i`.
    pub open spec fn slash_multiplier_at(self, observed: Seq<(String, u128)>, i: int) -> Rate {
        Rate {
            atomics: crate::rate::ratio_spec(
                crate::sums::bal_of(observed, self.bonded@[i].0@),
                self.bonded@[i].1 as int,
            ) as u128,
        }
    }

    /// Some unbonding bucket within the safety margin of `now` holds an
    /// undelegation from the validator.
    pub open spec fn unbonding_near(self, k: Seq<char>, now: u64) -> bool {
        exists|b: int|
            0 <= b < self.unbonding.entries@.len() && crate::unbonding::in_margin(
                #[trigger] self.unbonding.entries@[b].0,
                now,
                self.config.slashing_safety_margin,
            ) && crate::unbonding::bucket_has_validator(self.unbonding.entries@[b].1@, k)
    }

    /// Reconciles the ledger with the stake the host observes. A validator
    /// whose relative shortfall exceeds the tombstone threshold is taken as
    /// slashed: its bonded entry, its queued undelegations and every claim
    /// are scaled down by the observed-to-expected ratio, rounding down.
    /// The check is refused while an unbonding bucket matures within the
    /// safety margin of `now` for that validator: a deliberate undelegation
    /// in flight would look like a slash.
    pub fn check_slash(&mut self, now: u64, observed: &Vec<(String, u128)>) -> (r: Result<(), ContractError>)
        requires
            old(self).wf(),
            forall|i: int|
                0 <= i < old(self).bonded@.len() ==> (#[trigger] old(self).bonded@[i].1) * RATE_ONE
                    <= u128::MAX,
            forall|b: int, t: int|
                0 <= b < old(self).unbonding.entries@.len() && 0 <= t < old(
                    self,
                ).unbonding.entries@[b].1@.len() ==> (
                #[trigger] old(self).unbonding.entries@[b].1@[t]).amount * RATE_ONE <= u128::MAX,
            forall|x: int, j: int|
                0 <= x < old(self).claims.entries@.len() && 0 <= j < old(
                    self,
                ).claims.entries@[x].1@.len() ==> (
                #[trigger] old(self).claims.entries@[x].1@[j]).amount * RATE_ONE <= u128::MAX,
        ensures
            r is Err ==> *final(self) == *old(self),
            r is Err ==> r == Err::<(), ContractError>(ContractError::UnbondingTooClose {})
                && (exists|i: int|
                0 <= i < old(self).bonded@.len() && #[trigger] old(self).slashed_at(observed@, i)
                    && old(self).unbonding_near(old(self).bonded@[i].0@, now)),
            (exists|i: int|
                0 <= i < old(self).bonded@.len() && #[trigger] old(self).slashed_at(observed@, i)
                    && old(self).unbonding_near(old(self).bonded@[i].0@, now)) ==> (r is Err),
            r is Ok ==> final(self).wf(),
            r is Ok ==> final(self).bonded@.len() == old(self).bonded@.len(),
            r is Ok ==> forall|t: int|
                0 <= t < old(self).bonded@.len() ==> (#[trigger] final(self).bonded@[t].0)@ == old(
                    self,
                ).bonded@[t].0@,
            r is Ok ==> forall|t: int|
                0 <= t < old(self).bonded@.len() ==> (#[trigger] final(self).bonded@[t].1) == (
                if old(self).slashed_at(observed@, t) {
                    mul_floor_spec(
                        old(self).bonded@[t].1 as int,
                        old(self).slash_multiplier_at(observed@, t),
                    ) as u128
                } else {
                    old(self).bonded@[t].1
                }),
            r is Ok ==> final(self).config == old(self).config && final(self).validators == old(
                self,
            ).validators && final(self).tmp_balance == old(self).tmp_balance,
            r is Ok ==> final(self).supply.issued == old(self).supply.issued,
            r is Ok ==> (forall|i: int|
                0 <= i < old(self).bonded@.len() ==> !old(self).slashed_at(observed@, i))
                ==> *final(self) == *old(self),
            r is Ok ==> forall|d: int|
                (0 <= d < old(self).bonded@.len() && old(self).slashed_at(observed@, d) && (forall|
                    j: int,
                |
                    0 <= j < old(self).bonded@.len() && old(self).slashed_at(observed@, j) ==> j
                        == d)) ==> #[trigger] single_slash_applied(
                    *old(self),
                    *final(self),
                    observed@,
                    d,
                ),
    {
        let ghost old_self = *self;
        let n = self.bonded.len();
        let mut bonded_new: Vec<(String, u128)> = Vec::new();
        let mut c: usize = 0;
        while c < n
            invariant
                0 <= c <= n,
                n == self.bonded@.len(),
                bonded_new@.len() == c,
                forall|t: int| 0 <= t < c ==> (#[trigger] bonded_new@[t].0)@ == self.bonded@[t].0@,
                forall|t: int| 0 <= t < c ==> (#[trigger] bonded_new@[t].1) == self.bonded@[t].1,
                crate::sums::sum_bal(bonded_new@) == crate::sums::sum_bal(
                    self.bonded@.subrange(0, c as int),
                ),
            decreases n - c,
        {
            proof {
                assert(self.bonded@.subrange(0, c + 1).drop_last() =~= self.bonded@.subrange(
                    0,
                    c as int,
                ));
                crate::sums::lemma_sum_bal_split(self.bonded@.subrange(0, c + 1), c as int);
                assert(self.bonded@.subrange(0, c + 1).subrange(0, c as int)
                    =~= self.bonded@.subrange(0, c as int));
                assert(self.bonded@.subrange(0, c + 1).subrange(c as int, c + 1) =~= seq![
                    self.bonded@[c as int],
                ]);
                crate::sums::lemma_sum_bal_singleton(self.bonded@[c as int]);
            }
            let ghost pre = bonded_new@;
            bonded_new.push((self.bonded[c].0.clone(), self.bonded[c].1));
            proof {
                crate::sums::lemma_sum_bal_push(pre, bonded_new@[c as int]);
                assert(bonded_new@ =~= pre.push(bonded_new@[c as int]));
            }
            c = c + 1;
        }
        proof {
            assert(self.bonded@.subrange(0, n as int) =~= self.bonded@);
        }
        let mut new_total_bonded: u128 = self.supply.total_bonded;
        let mut queue_new: Option<UnbondingQueue> = None;
        let mut claims_new: Option<(Claims, u128)> = None;
        let ghost mut det_count: int = 0;
        let ghost mut det_idx: int = 0;
        let ghost mut det_idx2: int = 0;
        let mut i: usize = 0;
        while i < n
            invariant
                0 <= i <= n,
                n == old_self.bonded@.len(),
                *self == old_self,
                old_self.wf(),
                bonded_new@.len() == n,
                forall|t: int|
                    0 <= t < n ==> (#[trigger] bonded_new@[t].0)@ == old_self.bonded@[t].0@,
                crate::sums::sum_bal(bonded_new@) == new_total_bonded,
                forall|t: int|
                    i <= t < n ==> (#[trigger] bonded_new@[t].1) == old_self.bonded@[t].1,
                forall|t: int|
                    0 <= t < i ==> (#[trigger] bonded_new@[t].1) == (if old_self.slashed_at(
                        observed@,
                        t,
                    ) {
                        mul_floor_spec(
                            old_self.bonded@[t].1 as int,
                            old_self.slash_multiplier_at(observed@, t),
                        ) as u128
                    } else {
                        old_self.bonded@[t].1
                    }),
                forall|t: int|
                    0 <= t < n ==> (#[trigger] old_self.bonded@[t].1) * RATE_ONE <= u128::MAX,
                forall|b: int, t: int|
                    0 <= b < old_self.unbonding.entries@.len() && 0 <= t
                        < old_self.unbonding.entries@[b].1@.len() ==> (
                    #[trigger] old_self.unbonding.entries@[b].1@[t]).amount * RATE_ONE
                        <= u128::MAX,
                forall|x: int, j: int|
                    0 <= x < old_self.claims.entries@.len() && 0 <= j
                        < old_self.claims.entries@[x].1@.len() ==> (
                    #[trigger] old_self.claims.entries@[x].1@[j]).amount * RATE_ONE <= u128::MAX,
                det_count >= 0,
                det_count == 0 ==> (forall|t: int|
                    0 <= t < i ==> !old_self.slashed_at(observed@, t)),
                det_count == 0 ==> (forall|t: int|
                    0 <= t < n ==> (#[trigger] bonded_new@[t].1) == old_self.bonded@[t].1) && (
                queue_new is None) && (claims_new is None) && new_total_bonded
                    == old_self.supply.total_bonded,
                det_count == 1 ==> 0 <= det_idx < i && old_self.slashed_at(observed@, det_idx) && (
                forall|t: int| 0 <= t < i && old_self.slashed_at(observed@, t) ==> t == det_idx),
                det_count == 1 ==> single_slash_staged(
                    old_self,
                    observed@,
                    det_idx,
                    bonded_new@,
                    queue_new,
                    claims_new,
                    new_total_bonded,
                ),
                det_count >= 2 ==> 0 <= det_idx < det_idx2 < i && old_self.slashed_at(
                    observed@,
                    det_idx,
                ) && old_self.slashed_at(observed@, det_idx2),
                det_count >= 2 ==> (queue_new is Some) && (claims_new is Some),
                forall|t: int|
                    0 <= t < i && #[trigger] old_self.slashed_at(observed@, t)
                        ==> !old_self.unbonding_near(old_self.bonded@[t].0@, now),
                queue_new is Some ==> (queue_new->0.wf() && queue_new->0.spec_total()
                    <= old_self.supply.total_unbonding && (forall|b: int|
                    0 <= b < queue_new->0.entries@.len()
                        ==> #[trigger] queue_new->0.entries@[b].0
                        == old_self.unbonding.entries@[b].0) && queue_new->0.entries@.len()
                    == old_self.unbonding.entries@.len()),
                queue_new is Some ==> (forall|b: int|
                    0 <= b < old_self.unbonding.entries@.len()
                        ==> #[trigger] queue_new->0.entries@[b].1@.len()
                        == old_self.unbonding.entries@[b].1@.len()),
                queue_new is Some ==> (forall|b: int, t: int|
                    0 <= b < old_self.unbonding.entries@.len() && 0 <= t
                        < old_self.unbonding.entries@[b].1@.len() ==> ((
                    #[trigger] queue_new->0.entries@[b].1@[t]).amount
                        <= old_self.unbonding.entries@[b].1@[t].amount
                        && queue_new->0.entries@[b].1@[t].validator@
                        == old_self.unbonding.entries@[b].1@[t].validator@)),
                claims_new is Some ==> ((claims_new->0).0.wf() && (claims_new->0).1
                    == crate::claims::total_claims((claims_new->0).0.entries@) && (claims_new->0).1
                    <= old_self.supply.claims),
                claims_new is Some ==> ((claims_new->0).0.entries@.len()
                    == old_self.claims.entries@.len() && (forall|x: int|
                    0 <= x < old_self.claims.entries@.len()
                        ==> #[trigger] (claims_new->0).0.entries@[x].1@.len()
                        == old_self.claims.entries@[x].1@.len()) && (forall|x: int, j: int|
                    0 <= x < old_self.claims.entries@.len() && 0 <= j
                        < old_self.claims.entries@[x].1@.len() ==> (
                    #[trigger] (claims_new->0).0.entries@[x].1@[j]).amount
                        <= old_self.claims.entries@[x].1@[j].amount)),
            decreases n - i,
        {
            let expected = self.bonded[i].1;
            let name = self.bonded[i].0.clone();
            proof {
                assert(name@ == old_self.bonded@[i as int].0@);
            }
            let obs = match crate::sums::find_key(observed, &name) {
                Some(oi) => {
                    proof {
                        crate::sums::lemma_bal_of_first(observed@, oi as int, name@);
                    }
                    observed[oi].1
                },
                None => {
                    proof {
                        crate::sums::lemma_bal_of_absent(observed@, name@);
                    }
                    0
                },
            };
            proof {
                assert(obs == crate::sums::bal_of(observed@, old_self.bonded@[i as int].0@));
            }
            let mut detected = false;
            if expected > 0 && obs < expected {
                let short = match Rate::checked_from_ratio(expected - obs, expected) {
                    Some(s) => s,
                    None => {
                        proof {
                            assert((expected - obs) * RATE_ONE <= expected * RATE_ONE)
                                by (nonlinear_arith)
                                requires
                                    0 <= obs < expected,
                                    RATE_ONE > 0,
                            ;
                            assert(false);
                        }
                        Rate::zero()
                    },
                };
                if self.config.tombstone_treshold.lt(&short) {
                    detected = true;
                }
            }
            proof {
                assert(detected == old_self.slashed_at(observed@, i as int));
            }
            if detected {
                if self.unbonding.has_maturity_near(
                    &name,
                    now,
                    self.config.slashing_safety_margin,
                ) {
                    proof {
                        assert(old_self.unbonding_near(old_self.bonded@[i as int].0@, now));
                        assert(old_self.slashed_at(observed@, i as int));
                    }
                    return Err(ContractError::UnbondingTooClose {});
                }
                let m = match Rate::checked_from_ratio(obs, expected) {
                    Some(m) => m,
                    None => {
                        proof {
                            assert(obs * RATE_ONE <= expected * RATE_ONE) by (nonlinear_arith)
                                requires
                                    0 <= obs < expected,
                                    RATE_ONE > 0,
                            ;
                            assert(false);
                        }
                        Rate::zero()
                    },
                };
                proof {
                    assert(m == old_self.slash_multiplier_at(observed@, i as int));
                    assert(m.atomics <= RATE_ONE) by (nonlinear_arith)
                        requires
                            m.atomics == obs * RATE_ONE / (expected as int),
                            0 <= obs < expected,
                            RATE_ONE > 0,
                    ;
                }
                let scaled = match checked_mul_floor(expected, m) {
                    Some(v) => v,
                    None => {
                        proof {
                            assert(expected * m.atomics <= expected * RATE_ONE)
                                by (nonlinear_arith)
                                requires
                                    m.atomics <= RATE_ONE,
                                    expected >= 0,
                            ;
                            assert(false);
                        }
                        0
                    },
                };
                proof {
                    crate::rate::lemma_mul_floor_le(expected as int, m);
                    crate::sums::lemma_sum_bal_entry_le(bonded_new@, i as int);
                    crate::sums::lemma_sum_bal_nonneg(bonded_new@);
                    assert(bonded_new@[i as int].1 <= new_total_bonded);
                }
                let ghost bn_before = bonded_new@;
                let cur_amt = bonded_new[i].1;
                crate::sums::set_bal(&mut bonded_new, i, scaled);
                proof {
                    crate::sums::lemma_sum_bal_update(
                        bn_before,
                        i as int,
                        (bn_before[i as int].0, scaled),
                    );
                }
                new_total_bonded = new_total_bonded - (cur_amt - scaled);
                let ghost src_entries: Seq<(u64, Vec<crate::unbonding::Unbonding>)> = (
                if queue_new is Some {
                    queue_new->0.entries@
                } else {
                    self.unbonding.entries@
                });
                let q2 = match &queue_new {
                    Some(q) => crate::unbonding::scaled_for_validator(q, &name, m),
                    None => crate::unbonding::scaled_for_validator(&self.unbonding, &name, m),
                };
                let q2 = match q2 {
                    Some(q) => q,
                    None => {
                        proof {
                            match &queue_new {
                                Some(qq) => {
                                    assert forall|b: int, t: int|
                                        0 <= b < qq.entries@.len() && 0 <= t
                                            < qq.entries@[b].1@.len() implies (
                                    #[trigger] qq.entries@[b].1@[t]).amount * m.atomics
                                        <= u128::MAX by {
                                        assert(qq.entries@[b].1@[t].amount
                                            <= old_self.unbonding.entries@[b].1@[t].amount);
                                        assert(qq.entries@[b].1@[t].amount * m.atomics
                                            <= old_self.unbonding.entries@[b].1@[t].amount
                                            * RATE_ONE) by (nonlinear_arith)
                                            requires
                                                0 <= qq.entries@[b].1@[t].amount
                                                    <= old_self.unbonding.entries@[b].1@[t].amount,
                                                0 <= m.atomics <= RATE_ONE,
                                        ;
                                    }
                                },
                                None => {
                                    assert forall|b: int, t: int|
                                        0 <= b < old_self.unbonding.entries@.len() && 0 <= t
                                            < old_self.unbonding.entries@[b].1@.len() implies (
                                    #[trigger] old_self.unbonding.entries@[b].1@[t]).amount
                                        * m.atomics <= u128::MAX by {
                                        assert(old_self.unbonding.entries@[b].1@[t].amount
                                            * m.atomics
                                            <= old_self.unbonding.entries@[b].1@[t].amount
                                            * RATE_ONE) by (nonlinear_arith)
                                            requires
                                                0 <= old_self.unbonding.entries@[b].1@[t].amount,
                                                0 <= m.atomics <= RATE_ONE,
                                        ;
                                    }
                                },
                            }
                            assert(false);
                        }
                        UnbondingQueue { entries: Vec::new() }
                    },
                };
                proof {
                    crate::unbonding::lemma_scaled_queue_le(src_entries, q2.entries@, name@, m);
                    assert(crate::unbonding::scaled_queue_matches(
                        src_entries,
                        q2.entries@,
                        name@,
                        m,
                    ));
                    assert forall|b: int, t: int|
                        0 <= b < old_self.unbonding.entries@.len() && 0 <= t
                            < old_self.unbonding.entries@[b].1@.len() implies ((
                    #[trigger] q2.entries@[b].1@[t]).amount
                        <= old_self.unbonding.entries@[b].1@[t].amount
                        && q2.entries@[b].1@[t].validator@
                        == old_self.unbonding.entries@[b].1@[t].validator@) by {
                        assert(src_entries[b].1@[t].amount
                            <= old_self.unbonding.entries@[b].1@[t].amount);
                        assert(src_entries[b].1@[t].validator@
                            == old_self.unbonding.entries@[b].1@[t].validator@);
                        if src_entries[b].1@[t].validator@ == name@ {
                            crate::rate::lemma_mul_floor_le(src_entries[b].1@[t].amount as int, m);
                        }
                    }
                }
                queue_new = Some(q2);
                let ghost src_claims: Claims = (if claims_new is Some {
                    (claims_new->0).0
                } else {
                    self.claims
                });
                let cl2 = match &claims_new {
                    Some(pair) => pair.0.scale_all(m),
                    None => self.claims.scale_all(m),
                };
                let cl2 = match cl2 {
                    Some(c) => c,
                    None => {
                        proof {
                            match &claims_new {
                                Some(pair) => {
                                    assert forall|x: int, j: int|
                                        0 <= x < pair.0.entries@.len() && 0 <= j
                                            < pair.0.entries@[x].1@.len() implies (
                                    #[trigger] pair.0.entries@[x].1@[j]).amount * m.atomics
                                        <= u128::MAX by {
                                        assert(pair.0.entries@[x].1@[j].amount
                                            <= old_self.claims.entries@[x].1@[j].amount);
                                        assert(pair.0.entries@[x].1@[j].amount * m.atomics
                                            <= old_self.claims.entries@[x].1@[j].amount
                                            * RATE_ONE) by (nonlinear_arith)
                                            requires
                                                0 <= pair.0.entries@[x].1@[j].amount
                                                    <= old_self.claims.entries@[x].1@[j].amount,
                                                0 <= m.atomics <= RATE_ONE,
                                        ;
                                    }
                                },
                                None => {
                                    assert forall|x: int, j: int|
                                        0 <= x < old_self.claims.entries@.len() && 0 <= j
                                            < old_self.claims.entries@[x].1@.len() implies (
                                    #[trigger] old_self.claims.entries@[x].1@[j]).amount
                                        * m.atomics <= u128::MAX by {
                                        assert(old_self.claims.entries@[x].1@[j].amount * m.atomics
                                            <= old_self.claims.entries@[x].1@[j].amount
                                            * RATE_ONE) by (nonlinear_arith)
                                            requires
                                                0 <= old_self.claims.entries@[x].1@[j].amount,
                                                0 <= m.atomics <= RATE_ONE,
                                        ;
                                    }
                                },
                            }
                            assert(false);
                        }
                        (Claims::new(), 0u128)
                    },
                };
                proof {
                    assert(crate::claims::ledger_scaled(src_claims, cl2.0, m));
                    assert forall|x: int, j: int|
                        0 <= x < old_self.claims.entries@.len() && 0 <= j
                            < old_self.claims.entries@[x].1@.len() implies (
                    #[trigger] cl2.0.entries@[x].1@[j]).amount
                        <= old_self.claims.entries@[x].1@[j].amount by {
                        assert(src_claims.entries@[x].1@[j].amount
                            <= old_self.claims.entries@[x].1@[j].amount);
                        crate::rate::lemma_mul_floor_le(src_claims.entries@[x].1@[j].amount as int, m);
                        assert(cl2.0.entries@[x].1@[j] == (crate::claims::Claim {
                            amount: mul_floor_spec(src_claims.entries@[x].1@[j].amount as int, m)
                                as u128,
                            release_at: src_claims.entries@[x].1@[j].release_at,
                        }));
                    }
                }
                claims_new = Some(cl2);
                proof {
                    if det_count == 0 {
                        det_idx = i as int;
                    } else if det_count == 1 {
                        det_idx2 = i as int;
                    }
                    det_count = det_count + 1;
                    if det_count == 1 {
                        let mm = old_self.slash_multiplier_at(observed@, det_idx);
                        assert(mm == m);
                        assert forall|t: int|
                            0 <= t < bonded_new@.len() implies (#[trigger] bonded_new@[t].1) == (
                        if t == det_idx {
                            mul_floor_spec(old_self.bonded@[t].1 as int, mm) as u128
                        } else {
                            old_self.bonded@[t].1
                        }) by {
                            if t != i as int {
                                assert(bonded_new@[t] == bn_before[t]);
                            }
                        }
                        assert(new_total_bonded == old_self.supply.total_bonded - (
                        old_self.bonded@[det_idx].1 - mul_floor_spec(
                            old_self.bonded@[det_idx].1 as int,
                            mm,
                        )));
                        assert(crate::unbonding::scaled_queue_matches(
                            old_self.unbonding.entries@,
                            queue_new->0.entries@,
                            old_self.bonded@[det_idx].0@,
                            mm,
                        ));
                        assert(crate::claims::ledger_scaled(
                            old_self.claims,
                            (claims_new->0).0,
                            mm,
                        ));
                        assert(single_slash_staged(
                            old_self,
                            observed@,
                            det_idx,
                            bonded_new@,
                            queue_new,
                            claims_new,
                            new_total_bonded,
                        ));
                    }
                }
            }
            i = i + 1;
        }
        match (queue_new, claims_new) {
            (Some(q), Some((cl, ct))) => {
                let qt = q.total();
                proof {
                    assert(keys_unique(bonded_new@)) by {
                        assert forall|a: int, b: int|
                            0 <= a < b < bonded_new@.len() implies bonded_new@[a].0@
                            != bonded_new@[b].0@ by {
                            assert(bonded_new@[a].0@ == old_self.bonded@[a].0@);
                            assert(bonded_new@[b].0@ == old_self.bonded@[b].0@);
                        }
                    }
                }
                self.bonded = bonded_new;
                self.supply.total_bonded = new_total_bonded;
                self.unbonding = q;
                self.supply.total_unbonding = qt;
                self.claims = cl;
                self.supply.claims = ct;
                Ok(())
            },
            _ => {
                proof {
                    assert(det_count == 0);
                }
                Ok(())
            },
        }
    }

    /// The current supply totals.
    pub fn supply(&self) -> (s: Supply)
        ensures
            s == self.supply,
    {
        self.supply
    }
}

/// What one reinvest continuation returns: the commission to send to the
/// treasury, the delegations or undelegations to issue, and the maturity of
/// the new unbonding bucket, if one was created.
pub struct RebalanceOutcome {
    pub commission: u128,
    pub delegations: Vec<(String, u128)>,
    pub undelegations: Vec<(String, u128)>,
    pub unbond_time: Option<u64>,
}

/// The validators with a nonzero weight, in order.
pub open spec fn nonzero_weights(ws: Seq<(String, Rate)>) -> Seq<(String, Rate)>
    decreases ws.len(),
{
    if ws.len() == 0 {
        Seq::empty()
    } else if ws[0].1.atomics != 0 {
        nonzero_weights(ws.drop_first()).insert(0, ws[0])
    } else {
        nonzero_weights(ws.drop_first())
    }
}

/// Two weight lists agree entry by entry: same names (by view), same rates.
pub open spec fn pairs_match(actual: Seq<(String, Rate)>, expected: Seq<(String, Rate)>) -> bool {
    &&& actual.len() == expected.len()
    &&& forall|i: int| 0 <= i < actual.len() ==> (#[trigger] actual[i].0)@ == expected[i].0@
    &&& forall|i: int| 0 <= i < actual.len() ==> (#[trigger] actual[i].1) == expected[i].1
}

/// Each validator's floored share of `amount` under its weight.
pub open spec fn floor_payments(amount: u128, vals: Seq<(String, Rate)>) -> Seq<(String, u128)> {
    vals.map_values(|p: (String, Rate)| (p.0, mul_floor_spec(amount as int, p.1) as u128))
}

/// Every weight's product with `amount` fits the amount type.
pub open spec fn floors_fit(amount: u128, vals: Seq<(String, Rate)>) -> bool {
    forall|i: int| 0 <= i < vals.len() ==> amount * (#[trigger] vals[i].1).atomics <= u128::MAX
}

/// The floored shares with the rounding remainder added to the first
/// validator.
pub open spec fn surplus_payments(surplus: u128, vals: Seq<(String, Rate)>) -> Seq<(String, u128)> {
    let base = floor_payments(surplus, vals);
    if base.len() > 0 {
        base.update(0, (base[0].0, (base[0].1 + (surplus - crate::sums::sum_bal(base))) as u128))
    } else {
        base
    }
}

/// Walks the payments in order, topping each up from the remainder as far as
/// the validator's bonded balance allows, until the remainder runs out.
pub open spec fn place_remainder(
    base: Seq<(String, u128)>,
    bonded: Seq<(String, u128)>,
    rem: int,
) -> Seq<(String, u128)>
    decreases base.len(),
{
    if base.len() == 0 || rem <= 0 {
        base
    } else {
        let cap = crate::sums::bal_of(bonded, base[0].0@);
        let desired = base[0].1 + rem;
        let newamt = if desired <= cap {
            desired
        } else if cap >= base[0].1 {
            cap
        } else {
            base[0].1 as int
        };
        let used = newamt - base[0].1;
        place_remainder(base.drop_first(), bonded, rem - used).insert(
            0,
            (base[0].0, newamt as u128),
        )
    }
}

/// Filtering zero weights distributes over appending one entry.
proof fn lemma_nonzero_push(ws: Seq<(String, Rate)>, x: (String, Rate))
    ensures
        x.1.atomics != 0 ==> nonzero_weights(ws.push(x)) =~= nonzero_weights(ws).push(x),
        x.1.atomics == 0 ==> nonzero_weights(ws.push(x)) =~= nonzero_weights(ws),
    decreases ws.len(),
{
    if ws.len() == 0 {
        assert(ws.push(x)[0] == x);
        assert(ws.push(x).drop_first() =~= Seq::<(String, Rate)>::empty());
        assert(nonzero_weights(Seq::<(String, Rate)>::empty()) =~= Seq::<(String, Rate)>::empty());
        assert(nonzero_weights(ws) =~= Seq::<(String, Rate)>::empty());
        if x.1.atomics != 0 {
            assert(nonzero_weights(ws.push(x)) =~= Seq::<(String, Rate)>::empty().insert(0, x));
            assert(Seq::<(String, Rate)>::empty().insert(0, x) =~= nonzero_weights(ws).push(x));
        }
    } else {
        assert(ws.push(x)[0] == ws[0]);
        assert(ws.push(x).drop_first() =~= ws.drop_first().push(x));
        lemma_nonzero_push(ws.drop_first(), x);
        let p = nonzero_weights(ws.drop_first());
        if ws[0].1.atomics != 0 {
            if x.1.atomics != 0 {
                assert(nonzero_weights(ws.push(x)) =~= p.push(x).insert(0, ws[0]));
                assert(p.push(x).insert(0, ws[0]) =~= p.insert(0, ws[0]).push(x));
                assert(nonzero_weights(ws) =~= p.insert(0, ws[0]));
            } else {
                assert(nonzero_weights(ws.push(x)) =~= p.insert(0, ws[0]));
                assert(nonzero_weights(ws) =~= p.insert(0, ws[0]));
            }
        }
    }
}

/// A name in the filtered weights also stands in the original.
proof fn lemma_nonzero_key_in(ws: Seq<(String, Rate)>, i: int)
    requires
        0 <= i < nonzero_weights(ws).len(),
    ensures
        exists|w: int|
            0 <= w < ws.len() && (#[trigger] ws[w].0)@ == nonzero_weights(ws)[i].0@ && ws[w].1
                == nonzero_weights(ws)[i].1,
    decreases ws.len(),
{
    if ws.len() > 0 {
        let p = nonzero_weights(ws.drop_first());
        if ws[0].1.atomics != 0 {
            assert(nonzero_weights(ws) =~= p.insert(0, ws[0]));
            if i == 0 {
                assert(ws[0].0@ == nonzero_weights(ws)[0].0@);
            } else {
                assert(nonzero_weights(ws)[i] == p[i - 1]);
                lemma_nonzero_key_in(ws.drop_first(), i - 1);
                let w = choose|w: int|
                    0 <= w < ws.drop_first().len() && (#[trigger] ws.drop_first()[w].0)@ == p[i
                        - 1].0@ && ws.drop_first()[w].1 == p[i - 1].1;
                assert(ws[w + 1].0@ == nonzero_weights(ws)[i].0@);
                assert(ws[w + 1].1 == nonzero_weights(ws)[i].1);
            }
        } else {
            lemma_nonzero_key_in(ws.drop_first(), i);
            let w = choose|w: int|
                0 <= w < ws.drop_first().len() && (#[trigger] ws.drop_first()[w].0)@
                    == nonzero_weights(ws)[i].0@ && ws.drop_first()[w].1 == nonzero_weights(
                    ws,
                )[i].1;
            assert(ws[w + 1].0@ == nonzero_weights(ws)[i].0@);
            assert(ws[w + 1].1 == nonzero_weights(ws)[i].1);
        }
    }
}

/// Filtering zero weights keeps names pairwise distinct.
proof fn lemma_nonzero_unique(ws: Seq<(String, Rate)>)
    requires
        wkeys_unique(ws),
    ensures
        wkeys_unique(nonzero_weights(ws)),
    decreases ws.len(),
{
    if ws.len() > 0 {
        assert(wkeys_unique(ws.drop_first())) by {
            assert(forall|i: int|
                0 <= i < ws.drop_first().len() ==> ws.drop_first()[i] == ws[i + 1]);
        }
        lemma_nonzero_unique(ws.drop_first());
        let p = nonzero_weights(ws.drop_first());
        if ws[0].1.atomics != 0 {
            assert(nonzero_weights(ws) =~= p.insert(0, ws[0]));
            assert forall|i: int, j: int|
                0 <= i < j < nonzero_weights(ws).len() implies nonzero_weights(ws)[i].0@
                != nonzero_weights(ws)[j].0@ by {
                if i == 0 {
                    assert(nonzero_weights(ws)[j] == p[j - 1]);
                    lemma_nonzero_key_in(ws.drop_first(), j - 1);
                    let w = choose|w: int|
                        0 <= w < ws.drop_first().len() && (#[trigger] ws.drop_first()[w].0)@ == p[j
                            - 1].0@ && ws.drop_first()[w].1 == p[j - 1].1;
                    assert(ws[w + 1].0@ == p[j - 1].0@);
                } else {
                    assert(nonzero_weights(ws)[i] == p[i - 1]);
                    assert(nonzero_weights(ws)[j] == p[j - 1]);
                }
            }
        }
    }
}

/// Placing the remainder depends only on names and amounts, so matching
/// payment lists place it the same way.
proof fn lemma_place_match(
    a: Seq<(String, u128)>,
    b: Seq<(String, u128)>,
    bonded: Seq<(String, u128)>,
    rem: int,
)
    requires
        crate::sums::payments_match(a, b),
    ensures
        crate::sums::payments_match(
            place_remainder(a, bonded, rem),
            place_remainder(b, bonded, rem),
        ),
    decreases a.len(),
{
    if a.len() > 0 && rem > 0 {
        assert(crate::sums::payments_match(a.drop_first(), b.drop_first())) by {
            assert(forall|i: int| 0 <= i < a.drop_first().len() ==> a.drop_first()[i] == a[i + 1]);
            assert(forall|i: int| 0 <= i < b.drop_first().len() ==> b.drop_first()[i] == b[i + 1]);
        }
        let cap = crate::sums::bal_of(bonded, a[0].0@);
        let desired = a[0].1 + rem;
        let newamt = if desired <= cap {
            desired
        } else if cap >= a[0].1 {
            cap
        } else {
            a[0].1 as int
        };
        let used = newamt - a[0].1;
        lemma_place_match(a.drop_first(), b.drop_first(), bonded, rem - used);
        let pa = place_remainder(a.drop_first(), bonded, rem - used);
        let pb = place_remainder(b.drop_first(), bonded, rem - used);
        assert(place_remainder(a, bonded, rem) =~= pa.insert(0, (a[0].0, newamt as u128)));
        assert(place_remainder(b, bonded, rem) =~= pb.insert(0, (b[0].0, newamt as u128)));
        assert forall|i: int|
            0 <= i < place_remainder(a, bonded, rem).len() implies (#[trigger] place_remainder(
            a,
            bonded,
            rem,
        )[i].0)@ == place_remainder(b, bonded, rem)[i].0@ && place_remainder(a, bonded, rem)[i].1
            == place_remainder(b, bonded, rem)[i].1 by {
            if i > 0 {
                assert(place_remainder(a, bonded, rem)[i] == pa[i - 1]);
                assert(place_remainder(b, bonded, rem)[i] == pb[i - 1]);
            }
        }
    }
}

/// Keeps the validators with a nonzero weight, in order.
fn filter_nonzero(ws: &Vec<(String, Rate)>) -> (r: Vec<(String, Rate)>)
    ensures
        pairs_match(r@, nonzero_weights(ws@)),
{
    let mut out: Vec<(String, Rate)> = Vec::new();
    let n = ws.len();
    let mut i: usize = 0;
    proof {
        assert(ws@.subrange(0, 0) =~= Seq::<(String, Rate)>::empty());
        assert(nonzero_weights(Seq::<(String, Rate)>::empty()) =~= Seq::<(String, Rate)>::empty());
    }
    while i < n
        invariant
            0 <= i <= n,
            n == ws@.len(),
            pairs_match(out@, nonzero_weights(ws@.subrange(0, i as int))),
        decreases n - i,
    {
        proof {
            lemma_nonzero_push(ws@.subrange(0, i as int), ws@[i as int]);
            assert(ws@.subrange(0, i as int).push(ws@[i as int]) =~= ws@.subrange(0, i + 1));
        }
        if ws[i].1.atomics != 0 {
            out.push((ws[i].0.clone(), ws[i].1));
        }
        i = i + 1;
    }
    proof {
        assert(ws@.subrange(0, n as int) =~= ws@);
    }
    out
}

/// Builds each validator's floored share of `amount`, with the running sum.
/// `None` only when a product or the floors' sum does not fit.
fn build_floor_payments(amount: u128, vals: &Vec<(String, Rate)>) -> (r: Option<(Vec<(String, u128)>, u128)>)
    ensures
        r is Some ==> crate::sums::payments_match((r->0).0@, floor_payments(amount, vals@)),
        r is Some ==> (r->0).1 == crate::sums::sum_bal((r->0).0@),
        r is None ==> !floors_fit(amount, vals@) || crate::sums::sum_bal(
            floor_payments(amount, vals@),
        ) > u128::MAX,
{
    let mut payments: Vec<(String, u128)> = Vec::new();
    let mut total: u128 = 0;
    let n = vals.len();
    let mut i: usize = 0;
    while i < n
        invariant
            0 <= i <= n,
            n == vals@.len(),
            payments@.len() == i,
            forall|t: int| 0 <= t < i ==> (#[trigger] payments@[t].0)@ == vals@[t].0@,
            forall|t: int|
                0 <= t < i ==> (#[trigger] payments@[t].1) == mul_floor_spec(
                    amount as int,
                    vals@[t].1,
                ),
            total == crate::sums::sum_bal(payments@),
        decreases n - i,
    {
        proof {
            // The full floors split at this entry, for the failure cases.
            assert(floor_payments(amount, vals@).subrange(0, i as int) =~= floor_payments(
                amount,
                vals@.subrange(0, i as int),
            ));
            assert(crate::sums::sum_bal(floor_payments(amount, vals@.subrange(0, i as int)))
                == total) by {
                assert(crate::sums::payments_match(
                    payments@,
                    floor_payments(amount, vals@.subrange(0, i as int)),
                ));
                crate::sums::lemma_match_sum(
                    payments@,
                    floor_payments(amount, vals@.subrange(0, i as int)),
                );
            }
            crate::sums::lemma_sum_bal_split(floor_payments(amount, vals@), i as int);
            crate::sums::lemma_sum_bal_split(
                floor_payments(amount, vals@).subrange(i as int, vals@.len() as int),
                1,
            );
            assert(floor_payments(amount, vals@).subrange(i as int, vals@.len() as int).subrange(
                0,
                1,
            ) =~= seq![floor_payments(amount, vals@)[i as int]]);
            assert(floor_payments(amount, vals@).subrange(i as int, vals@.len() as int).subrange(
                1,
                vals@.len() - i as int,
            ) =~= floor_payments(amount, vals@).subrange(i + 1, vals@.len() as int));
            crate::sums::lemma_sum_bal_singleton(floor_payments(amount, vals@)[i as int]);
            crate::sums::lemma_sum_bal_nonneg(
                floor_payments(amount, vals@).subrange(i + 1, vals@.len() as int),
            );
        }
        let p = match checked_mul_floor(amount, vals[i].1) {
            Some(p) => p,
            None => {
                proof {
                    assert(amount * vals@[i as int].1.atomics > u128::MAX);
                }
                return None;
            },
        };
        proof {
            crate::sums::lemma_sum_bal_push(payments@, (vals@[i as int].0, p));
        }
        let name = vals[i].0.clone();
        let ghost payments_before = payments@;
        payments.push((name, p));
        proof {
            assert(crate::sums::sum_bal(payments@) == crate::sums::sum_bal(payments_before) + p)
                by {
                crate::sums::lemma_sum_bal_push(payments_before, payments@[i as int]);
                assert(payments@ =~= payments_before.push(payments@[i as int]));
            }
        }
        total = match total.checked_add(p) {
            Some(t) => t,
            None => {
                proof {
                    assert(floor_payments(amount, vals@)[i as int].1 == p);
                    assert(crate::sums::sum_bal(floor_payments(amount, vals@)) >= total + p);
                }
                return None;
            },
        };
        i = i + 1;
    }
    Some((payments, total))
}

/// Tops payments up from the remainder, each capped by the validator's
/// bonded balance, walking the list once.
fn place_remainder_exec(
    base: &Vec<(String, u128)>,
    bonded: &Vec<(String, u128)>,
    rem0: u128,
) -> (r: Vec<(String, u128)>)
    requires
        keys_unique(bonded@),
        forall|i: int|
            0 <= i < base@.len() ==> key_in(bonded@, (#[trigger] base@[i].0)@) && base@[i].1
                <= crate::sums::bal_of(bonded@, base@[i].0@),
    ensures
        crate::sums::payments_match(r@, place_remainder(base@, bonded@, rem0 as int)),
        r@.len() == base@.len(),
        crate::sums::sum_bal(r@) <= crate::sums::sum_bal(base@) + rem0,
        forall|i: int|
            0 <= i < r@.len() ==> (#[trigger] r@[i].0)@ == base@[i].0@ && key_in(bonded@, r@[i].0@)
                && r@[i].1 <= crate::sums::bal_of(bonded@, r@[i].0@),
{
    let mut out: Vec<(String, u128)> = Vec::new();
    let mut rem: u128 = rem0;
    let n = base.len();
    let mut i: usize = 0;
    proof {
        assert(base@.subrange(0, n as int) =~= base@);
        assert(out@ + place_remainder(base@, bonded@, rem0 as int) =~= place_remainder(
            base@,
            bonded@,
            rem0 as int,
        ));
    }
    while i < n
        invariant
            0 <= i <= n,
            n == base@.len(),
            keys_unique(bonded@),
            forall|t: int|
                0 <= t < base@.len() ==> key_in(bonded@, (#[trigger] base@[t].0)@) && base@[t].1
                    <= crate::sums::bal_of(bonded@, base@[t].0@),
            out@.len() == i,
            forall|t: int|
                0 <= t < i ==> (#[trigger] out@[t].0)@ == base@[t].0@ && out@[t].1
                    <= crate::sums::bal_of(bonded@, out@[t].0@),
            crate::sums::sum_bal(out@) + rem == crate::sums::sum_bal(
                base@.subrange(0, i as int),
            ) + rem0,
            place_remainder(base@, bonded@, rem0 as int) =~= out@ + place_remainder(
                base@.subrange(i as int, n as int),
                bonded@,
                rem as int,
            ),
        decreases n - i,
    {
        proof {
            assert(base@.subrange(i as int, n as int)[0] == base@[i as int]);
            assert(base@.subrange(0, i + 1).drop_last() =~= base@.subrange(0, i as int));
            crate::sums::lemma_sum_bal_split(base@.subrange(0, i + 1), i as int);
            assert(base@.subrange(0, i + 1).subrange(0, i as int) =~= base@.subrange(0, i as int));
            assert(base@.subrange(0, i + 1).subrange(i as int, i + 1) =~= seq![base@[i as int]]);
            crate::sums::lemma_sum_bal_singleton(base@[i as int]);
            assert(base@.subrange(i as int, n as int).drop_first() =~= base@.subrange(
                i + 1,
                n as int,
            ));
        }
        let name = base[i].0.clone();
        let cur = base[i].1;
        if rem == 0 {
            let ghost out_before = out@;
            out.push((name, cur));
            proof {
                crate::sums::lemma_sum_bal_push(out_before, out@[i as int]);
                assert(out@ =~= out_before.push(out@[i as int]));
                assert(place_remainder(base@.subrange(i as int, n as int), bonded@, rem as int)
                    =~= base@.subrange(i as int, n as int));
                assert(place_remainder(base@.subrange(i + 1, n as int), bonded@, rem as int)
                    =~= base@.subrange(i + 1, n as int));
                assert(out_before + base@.subrange(i as int, n as int) =~= out@ + base@.subrange(
                    i + 1,
                    n as int,
                ));
            }
        } else {
            let di = match crate::sums::find_key(bonded, &name) {
                Some(di) => di,
                None => {
                    proof {
                        assert(key_in(bonded@, base@[i as int].0@));
                        assert(false);
                    }
                    0
                },
            };
            proof {
                crate::sums::lemma_bal_of_at(bonded@, di as int);
            }
            let cap = bonded[di].1;
            let newamt = if rem <= u128::MAX - cur && cur + rem <= cap {
                cur + rem
            } else {
                cap
            };
            proof {
                assert(cur <= cap);
            }
            let used = newamt - cur;
            let ghost rem_before = rem;
            rem = rem - used;
            let ghost out_before = out@;
            out.push((name, newamt));
            proof {
                crate::sums::lemma_sum_bal_push(out_before, out@[i as int]);
                assert(out@ =~= out_before.push(out@[i as int]));
                let spec_suffix = place_remainder(
                    base@.subrange(i as int, n as int),
                    bonded@,
                    rem_before as int,
                );
                assert(spec_suffix =~= place_remainder(
                    base@.subrange(i + 1, n as int),
                    bonded@,
                    rem as int,
                ).insert(0, (base@[i as int].0, newamt)));
                assert(out_before + spec_suffix =~= out@ + place_remainder(
                    base@.subrange(i + 1, n as int),
                    bonded@,
                    rem as int,
                ));
            }
        }
        i = i + 1;
    }
    proof {
        assert(base@.subrange(n as int, n as int) =~= Seq::<(String, u128)>::empty());
        assert(place_remainder(Seq::<(String, u128)>::empty(), bonded@, rem as int) =~= Seq::<(
            String,
            u128,
        )>::empty());
        assert(out@ + Seq::<(String, u128)>::empty() =~= out@);
        assert(base@.subrange(0, n as int) =~= base@);
    }
    out
}


/// The staged working state after exactly one detected slash, at `d`.
pub open spec fn single_slash_staged(
    h: Hub,
    observed: Seq<(String, u128)>,
    d: int,
    bonded_new: Seq<(String, u128)>,
    queue_new: Option<UnbondingQueue>,
    claims_new: Option<(Claims, u128)>,
    new_total_bonded: u128,
) -> bool {
    let m = h.slash_multiplier_at(observed, d);
    &&& 0 <= d < h.bonded@.len()
    &&& bonded_new.len() == h.bonded@.len()
    &&& forall|t: int|
        0 <= t < bonded_new.len() ==> (#[trigger] bonded_new[t].1) == (if t == d {
            mul_floor_spec(h.bonded@[t].1 as int, m) as u128
        } else {
            h.bonded@[t].1
        })
    &&& new_total_bonded == h.supply.total_bonded - (h.bonded@[d].1 - mul_floor_spec(
        h.bonded@[d].1 as int,
        m,
    ))
    &&& queue_new is Some
    &&& crate::unbonding::scaled_queue_matches(
        h.unbonding.entries@,
        queue_new->0.entries@,
        h.bonded@[d].0@,
        m,
    )
    &&& claims_new is Some
    &&& crate::claims::ledger_scaled(h.claims, (claims_new->0).0, m)
}

/// The pool after exactly one slash, at `d`, has been applied.
pub open spec fn single_slash_applied(
    before: Hub,
    after: Hub,
    observed: Seq<(String, u128)>,
    d: int,
) -> bool {
    let m = before.slash_multiplier_at(observed, d);
    &&& after.bonded@.len() == before.bonded@.len()
    &&& forall|t: int|
        0 <= t < before.bonded@.len() ==> (#[trigger] after.bonded@[t].0)@ == before.bonded@[t].0@
    &&& forall|t: int|
        0 <= t < before.bonded@.len() ==> (#[trigger] after.bonded@[t].1) == (if t == d {
            mul_floor_spec(before.bonded@[t].1 as int, m) as u128
        } else {
            before.bonded@[t].1
        })
    &&& crate::unbonding::scaled_queue_matches(
        before.unbonding.entries@,
        after.unbonding.entries@,
        before.bonded@[d].0@,
        m,
    )
    &&& crate::claims::ledger_scaled(before.claims, after.claims, m)
}

/// One unbonding bucket recording exactly the given payments, in order.
pub open spec fn bucket_matches_payments(
    bucket: Seq<crate::unbonding::Unbonding>,
    pays: Seq<(String, u128)>,
) -> bool {
    &&& bucket.len() == pays.len()
    &&& forall|i: int|
        0 <= i < bucket.len() ==> (#[trigger] bucket[i]).validator@ == pays[i].0@
            && bucket[i].amount == pays[i].1
}

/// A pool setup the validation accepts: commission at most a half, weights
/// summing to one, discount below a half, both periods between an hour and
/// a year, and at least one concurrent unbonding bucket.
pub open spec fn valid_setup(
    commission: Rate,
    validators: Seq<(String, Rate)>,
    epoch_period: u64,
    unbond_period: u64,
    max_concurrent_unbondings: u64,
    liquidity_discount: Rate,
) -> bool {
    &&& commission.atomics <= RATE_ONE / 2
    &&& weights_total(validators) == RATE_ONE
    &&& liquidity_discount.atomics < RATE_ONE / 2
    &&& MIN_PERIOD <= epoch_period <= MAX_PERIOD
    &&& MIN_PERIOD <= unbond_period <= MAX_PERIOD
    &&& max_concurrent_unbondings != 0
}

/// The later of two timestamps.
pub open spec fn max_u64_spec(a: u64, b: u64) -> u64 {
    if a >= b {
        a
    } else {
        b
    }
}

fn max_u64(a: u64, b: u64) -> (r: u64)
    ensures
        r == max_u64_spec(a, b),
{
    if a >= b {
        a
    } else {
        b
    }
}

/// Sum of the weights' atomics; `None` on overflow (which cannot equal one).
pub open spec fn weights_total(ws: Seq<(String, Rate)>) -> int
    decreases ws.len(),
{
    if ws.len() == 0 {
        0
    } else {
        ws[0].1.atomics + weights_total(ws.drop_first())
    }
}

fn sum_weights(ws: &Vec<(String, Rate)>) -> (r: Option<u128>)
    ensures
        r is Some ==> r->0 == weights_total(ws@),
        r is None ==> weights_total(ws@) > u128::MAX,
{
    let mut total: u128 = 0;
    let mut i: usize = 0;
    let n = ws.len();
    proof {
        assert(ws@.subrange(0, 0) =~= Seq::<(String, Rate)>::empty());
    }
    while i < n
        invariant
            0 <= i <= n,
            n == ws@.len(),
            total == weights_total(ws@.subrange(0, i as int)),
        decreases n - i,
    {
        proof {
            lemma_weights_total_push(ws@.subrange(0, i as int), ws@[i as int]);
            assert(ws@.subrange(0, i as int).push(ws@[i as int]) =~= ws@.subrange(0, i + 1));
            lemma_weights_total_le(ws@, i + 1);
        }
        total = match total.checked_add(ws[i].1.atomics) {
            Some(t) => t,
            None => {
                return None;
            },
        };
        i = i + 1;
    }
    proof {
        assert(ws@.subrange(0, n as int) =~= ws@);
    }
    Some(total)
}

proof fn lemma_weights_total_push(ws: Seq<(String, Rate)>, x: (String, Rate))
    ensures
        weights_total(ws.push(x)) == weights_total(ws) + x.1.atomics,
    decreases ws.len(),
{
    if ws.len() == 0 {
        assert(ws.push(x)[0] == x);
        assert(ws.push(x).drop_first() =~= Seq::<(String, Rate)>::empty());
        assert(weights_total(ws.push(x).drop_first()) == 0);
    } else {
        assert(ws.push(x)[0] == ws[0]);
        assert(ws.push(x).drop_first() =~= ws.drop_first().push(x));
        lemma_weights_total_push(ws.drop_first(), x);
    }
}

/// A prefix's weight never exceeds the whole sum.
proof fn lemma_weights_total_le(ws: Seq<(String, Rate)>, k: int)
    requires
        0 <= k <= ws.len(),
    ensures
        weights_total(ws.subrange(0, k)) <= weights_total(ws),
    decreases ws.len(),
{
    if ws.len() == 0 || k == 0 {
        assert(ws.subrange(0, 0) =~= Seq::<(String, Rate)>::empty());
        lemma_weights_total_nonneg(ws);
    } else {
        assert(ws.subrange(0, k).drop_first() =~= ws.drop_first().subrange(0, k - 1));
        assert(ws.subrange(0, k)[0] == ws[0]);
        lemma_weights_total_le(ws.drop_first(), k - 1);
    }
}

proof fn lemma_weights_total_nonneg(ws: Seq<(String, Rate)>)
    ensures
        weights_total(ws) >= 0,
    decreases ws.len(),
{
    if ws.len() > 0 {
        lemma_weights_total_nonneg(ws.drop_first());
    }
}

} // verus!
