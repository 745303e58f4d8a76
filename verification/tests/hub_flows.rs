//! End-to-end flows on the pool: bonding, reinvesting, unbonding, claiming
//! and slashing, driven the way a host chain would drive them. Staking
//! rewards arrive as balance increases between the start of a reinvest cycle
//! and its continuation.

use lsd_hub::error::ContractError;
use lsd_hub::hub::{Hub, RebalanceOutcome};
use lsd_hub::rate::{Rate, RATE_ONE};

const HOUR: u64 = 60 * 60;
const DAY: u64 = 24 * HOUR;
const EPOCH: u64 = 23 * HOUR;

struct Suite {
    hub: Hub,
    now: u64,
    /// The pool's bank balance.
    bank: u128,
    /// Users' native balances.
    native: Vec<(String, u128)>,
    /// Users' derivative balances.
    lsd: Vec<(String, u128)>,
    /// Chain-side unbonding payouts awaiting maturity.
    pending: Vec<(u64, u128)>,
    treasury: u128,
}

fn percent(p: u64) -> Rate {
    Rate::percent(p)
}

fn get(map: &Vec<(String, u128)>, key: &str) -> u128 {
    map.iter().find(|e| e.0 == key).map(|e| e.1).unwrap_or(0)
}

fn add(map: &mut Vec<(String, u128)>, key: &str, amount: u128) {
    for e in map.iter_mut() {
        if e.0 == key {
            e.1 += amount;
            return;
        }
    }
    map.push((key.to_string(), amount));
}

fn sub(map: &mut Vec<(String, u128)>, key: &str, amount: u128) {
    for e in map.iter_mut() {
        if e.0 == key {
            e.1 -= amount;
            return;
        }
    }
    panic!("missing balance");
}

impl Suite {
    fn build(
        validators: Vec<(&str, Rate)>,
        epoch_period: u64,
        unbond_period: u64,
        initial: Vec<(&str, u128)>,
        liquidity_discount: Rate,
        tombstone_treshold: Rate,
    ) -> Suite {
        let vals: Vec<(String, Rate)> =
            validators.into_iter().map(|(v, w)| (v.to_string(), w)).collect();
        let hub = Hub::instantiate(
            "owner".to_string(),
            "treasury".to_string(),
            percent(5),
            vals,
            epoch_period,
            unbond_period,
            7,
            liquidity_discount,
            tombstone_treshold,
            10 * 60,
            0,
        )
        .unwrap();
        Suite {
            hub,
            now: 0,
            bank: 0,
            native: initial.into_iter().map(|(u, a)| (u.to_string(), a)).collect(),
            lsd: Vec::new(),
            pending: Vec::new(),
            treasury: 0,
        }
    }

    fn defaults(initial: Vec<(&str, u128)>) -> Suite {
        Suite::build(
            vec![("testvaloper1", percent(100))],
            EPOCH,
            28 * DAY,
            initial,
            percent(4),
            Rate::zero(),
        )
    }

    fn update_time(&mut self, dt: u64) {
        self.now += dt;
    }

    fn bond(&mut self, user: &str, amount: u128) -> Result<u128, ContractError> {
        sub(&mut self.native, user, amount);
        self.bank += amount;
        match self.hub.bond(self.now, amount, self.bank) {
            Ok(shares) => {
                add(&mut self.lsd, user, shares);
                Ok(shares)
            },
            Err(e) => {
                self.bank -= amount;
                add(&mut self.native, user, amount);
                Err(e)
            },
        }
    }

    fn unbond_via(&mut self, token: &str, user: &str, shares: u128) -> Result<
        u128,
        ContractError,
    > {
        let token = token.to_string();
        let holder = user.to_string();
        let native = self.hub.unbond(self.now, &token, shares, &holder, self.bank)?;
        sub(&mut self.lsd, user, shares);
        Ok(native)
    }

    fn unbond(&mut self, user: &str, shares: u128) -> Result<u128, ContractError> {
        // The pool's derivative-token address starts out empty and the host
        // fills it in after token creation; these flows keep it empty.
        self.unbond_via("", user, shares)
    }

    /// One full reinvest cycle: start it, let the host withdraw `rewards`
    /// into the bank, and run the continuation.
    fn reinvest(&mut self, rewards: u128) -> Result<RebalanceOutcome, ContractError> {
        let _to_withdraw = self.hub.reinvest_start(self.now, self.bank)?;
        self.bank += rewards;
        let outcome = match self.hub.rebalance(self.now, self.bank) {
            Ok(o) => o,
            Err(e) => {
                self.bank -= rewards;
                return Err(e);
            },
        };
        self.bank -= outcome.commission;
        self.treasury += outcome.commission;
        let delegated: u128 = outcome.delegations.iter().map(|d| d.1).sum();
        self.bank -= delegated;
        if let Some(t) = outcome.unbond_time {
            let undelegated: u128 = outcome.undelegations.iter().map(|d| d.1).sum();
            self.pending.push((t, undelegated));
        }
        Ok(outcome)
    }

    /// The chain pays matured undelegations into the bank.
    fn process_native_unbonding(&mut self) {
        let now = self.now;
        let mut kept = Vec::new();
        for (t, a) in self.pending.drain(..) {
            if t <= now {
                self.bank += a;
            } else {
                kept.push((t, a));
            }
        }
        self.pending = kept;
    }

    fn claim(&mut self, user: &str) -> Result<u128, ContractError> {
        let holder = user.to_string();
        let paid = self.hub.claim(&holder, self.now, self.bank)?;
        self.bank -= paid;
        add(&mut self.native, user, paid);
        Ok(paid)
    }

    fn exchange_rate(&self) -> Rate {
        self.hub.exchange_rate(self.now, self.bank).unwrap()
    }

    fn target_value(&self) -> Rate {
        self.hub.target_value(self.now, self.bank).unwrap()
    }

    fn bonded_of(&self, v: &str) -> u128 {
        get(&self.hub.bonded, v)
    }

    fn claims_len(&self, user: &str) -> usize {
        let holder = user.to_string();
        self.hub.claims.query_claims(&holder).len()
    }
}

#[test]
fn basic_minting_case() {
    let mut suite = Suite::build(
        vec![("testvaloper1", percent(100))],
        DAY,
        28 * DAY,
        vec![("delegator1", 2_000_000), ("delegator2", 2_000_000)],
        percent(4),
        Rate::zero(),
    );
    let s1 = suite.bond("delegator1", 1_000_000).unwrap();
    let s2 = suite.bond("delegator2", 1_000_000).unwrap();
    assert_eq!(s1, 1_000_000);
    assert_eq!(s2, 1_000_000);
    assert_eq!(get(&suite.lsd, "delegator1"), 1_000_000);
    assert_eq!(get(&suite.lsd, "delegator2"), 1_000_000);

    suite.update_time(DAY);
    let out = suite.reinvest(0).unwrap();
    let delegated: u128 = out.delegations.iter().map(|d| d.1).sum();
    assert_eq!(out.delegations.len(), 1);
    assert_eq!(delegated, 2_000_000);
    assert_eq!(suite.hub.supply().total_bonded, 2_000_000);
}

#[test]
fn change_valset_dust() {
    let amount = 3_333_333u128;
    let mut suite = Suite::build(
        vec![("testvaloper1", percent(50)), ("testvaloper2", percent(50))],
        EPOCH,
        28 * DAY,
        vec![("delegator", amount)],
        percent(4),
        Rate::zero(),
    );
    suite.bond("delegator", amount).unwrap();
    suite.update_time(EPOCH);
    let out = suite.reinvest(0).unwrap();
    // The first validator takes the flooring dust.
    assert_eq!(out.delegations[0], ("testvaloper1".to_string(), 1_666_667));
    assert_eq!(out.delegations[1], ("testvaloper2".to_string(), 1_666_666));
    assert_eq!(suite.hub.supply().total_bonded, amount);
    assert_eq!(suite.bonded_of("testvaloper1"), 1_666_667);
    assert_eq!(suite.bonded_of("testvaloper2"), 1_666_666);

    suite.update_time(27 * DAY + HOUR);
    let owner = "owner".to_string();
    suite
        .hub
        .set_validators(
            &owner,
            suite.now,
            vec![
                ("testvaloper2".to_string(), percent(50)),
                ("testvaloper3".to_string(), percent(50)),
            ],
        )
        .unwrap();
    // The dust stays where flooring left it.
    assert_eq!(suite.hub.supply().total_bonded, amount);
    assert_eq!(suite.bonded_of("testvaloper1"), 1);
    assert_eq!(suite.bonded_of("testvaloper2"), 1_666_666);
    assert_eq!(suite.bonded_of("testvaloper3"), 1_666_666);
}

#[test]
fn set_new_valset_more_validators() {
    let mut suite = Suite::build(
        vec![("testvaloper1", percent(50)), ("testvaloper2", percent(50))],
        DAY,
        28 * DAY,
        vec![("delegator1", 1_000_000)],
        percent(4),
        Rate::zero(),
    );
    suite.bond("delegator1", 1_000_000).unwrap();
    suite.update_time(DAY);
    let out = suite.reinvest(0).unwrap();
    assert_eq!(out.delegations[0], ("testvaloper1".to_string(), 500_000));

    let owner = "owner".to_string();
    suite
        .hub
        .set_validators(
            &owner,
            suite.now,
            vec![
                ("testvaloper1".to_string(), percent(25)),
                ("testvaloper2".to_string(), percent(25)),
                ("testvaloper3".to_string(), percent(25)),
                ("testvaloper4".to_string(), percent(25)),
            ],
        )
        .unwrap();
    assert_eq!(suite.bonded_of("testvaloper1"), 250_000);

    suite.update_time(DAY);
    // Rewards of 5204 leave 4944 after the five-percent commission.
    suite.reinvest(5204).unwrap();
    assert_eq!(suite.bonded_of("testvaloper1"), 251_236);
    let ws: Vec<(String, Rate)> = suite.hub.validators.clone();
    assert_eq!(
        ws,
        vec![
            ("testvaloper1".to_string(), percent(25)),
            ("testvaloper2".to_string(), percent(25)),
            ("testvaloper3".to_string(), percent(25)),
            ("testvaloper4".to_string(), percent(25)),
        ]
    );
}

#[test]
fn set_new_valset_less_validators() {
    let mut suite = Suite::build(
        vec![
            ("testvaloper1", percent(33)),
            ("testvaloper2", percent(33)),
            ("testvaloper3", percent(34)),
        ],
        DAY,
        28 * DAY,
        vec![("delegator1", 1_000_000)],
        percent(4),
        Rate::zero(),
    );
    suite.bond("delegator1", 1_000_000).unwrap();
    suite.update_time(DAY);
    let out = suite.reinvest(0).unwrap();
    assert_eq!(out.delegations[0], ("testvaloper1".to_string(), 330_000));

    let owner = "owner".to_string();
    suite
        .hub
        .set_validators(
            &owner,
            suite.now,
            vec![
                ("testvaloper2".to_string(), percent(50)),
                ("testvaloper3".to_string(), percent(50)),
            ],
        )
        .unwrap();
    assert_eq!(suite.bonded_of("testvaloper1"), 0);
    assert_eq!(suite.bonded_of("testvaloper2"), 500_000);

    suite.update_time(DAY);
    // Rewards of 3477 leave 3304 after the five-percent commission.
    suite.reinvest(3477).unwrap();
    let ws: Vec<(String, Rate)> = suite.hub.validators.clone();
    assert_eq!(
        ws,
        vec![
            ("testvaloper2".to_string(), percent(50)),
            ("testvaloper3".to_string(), percent(50)),
        ]
    );
    assert_eq!(suite.bonded_of("testvaloper2"), 501_652);
}

#[test]
fn deposit_reinvest() {
    let mut suite = Suite::build(
        vec![
            ("testvaloper1", percent(50)),
            ("testvaloper2", percent(30)),
            ("testvaloper3", percent(20)),
        ],
        DAY,
        28 * DAY,
        vec![("delegator1", 2_000_000), ("delegator2", 2_000_000)],
        percent(4),
        Rate::zero(),
    );
    assert_eq!(suite.exchange_rate().atomics, RATE_ONE, "rate starts at one");
    suite.bond("delegator1", 1_000_000).unwrap();
    assert_eq!(suite.exchange_rate().atomics, RATE_ONE, "deposits keep the rate");

    suite.update_time(DAY);
    suite.reinvest(0).unwrap();
    suite.update_time(DAY);
    suite.reinvest(1000).unwrap();
    assert!(suite.exchange_rate().atomics > RATE_ONE, "rewards raise the rate");
    assert!(suite.hub.supply().total_bonded > 1_000_000);

    let shares = suite.bond("delegator2", 1_000_000).unwrap();
    assert!(shares < 1_000_000, "a dearer share buys fewer shares");

    suite.update_time(DAY);
    suite.reinvest(0).unwrap();
    assert!(suite.hub.supply().total_bonded > 2_000_000);
}

#[test]
fn target_value() {
    let mut suite = Suite::build(
        vec![
            ("testvaloper1", percent(50)),
            ("testvaloper2", percent(30)),
            ("testvaloper3", percent(20)),
        ],
        DAY,
        28 * DAY,
        vec![("delegator1", 2_000_000), ("delegator2", 2_000_000)],
        percent(6),
        Rate::zero(),
    );
    assert_eq!(suite.target_value(), percent(94));
    suite.bond("delegator1", 1_000_000).unwrap();
    assert_eq!(suite.target_value(), percent(94));

    suite.update_time(DAY);
    suite.reinvest(0).unwrap();
    assert_eq!(suite.target_value(), percent(94));

    let notadmin = "notadmin".to_string();
    let owner = "owner".to_string();
    assert_eq!(
        suite.hub.update_liquidity_discount(&notadmin, percent(5)),
        Err(ContractError::Unauthorized {})
    );
    assert_eq!(
        suite.hub.update_liquidity_discount(&owner, percent(100)),
        Err(ContractError::InvalidLiquidityDiscount {})
    );
    suite.hub.update_liquidity_discount(&owner, percent(10)).unwrap();
    assert_eq!(suite.target_value(), percent(90));

    suite.update_time(DAY);
    suite.reinvest(1000).unwrap();
    let tv = suite.target_value();
    assert!(tv.atomics > percent(90).atomics, "rewards raise the target value");

    suite.bond("delegator2", 1_000_000).unwrap();
    let tv2 = suite.target_value();
    let diff = if tv2.atomics > tv.atomics {
        tv2.atomics - tv.atomics
    } else {
        tv.atomics - tv2.atomics
    };
    assert!(diff <= RATE_ONE / 2_000_000, "deposits keep the target value");

    suite.update_time(DAY);
    suite.reinvest(1000).unwrap();
    let tv3 = suite.target_value();
    assert!(tv3.atomics > tv2.atomics);

    let lsd1 = get(&suite.lsd, "delegator1");
    suite.unbond("delegator1", lsd1).unwrap();
    let tv4 = suite.target_value();
    let diff = if tv4.atomics > tv3.atomics {
        tv4.atomics - tv3.atomics
    } else {
        tv3.atomics - tv4.atomics
    };
    // Reserving the claim floors once; one token of rounding moves the rate
    // by at most one part in the shares that remain.
    assert!(diff <= RATE_ONE / 500_000, "unbonding keeps the target value");

    let rate = suite.exchange_rate();
    assert_eq!(tv4.atomics, rate.atomics * (RATE_ONE - percent(10).atomics) / RATE_ONE);
}

#[test]
fn commission() {
    let mut suite = Suite::build(
        vec![
            ("testvaloper1", percent(10)),
            ("testvaloper2", percent(20)),
            ("testvaloper3", percent(70)),
        ],
        DAY,
        28 * DAY,
        vec![("delegator", 2_000_000)],
        percent(4),
        Rate::zero(),
    );
    suite.bond("delegator", 1_000_000).unwrap();
    suite.update_time(DAY);
    suite.reinvest(0).unwrap();

    suite.bond("delegator", 1_000_000).unwrap();
    assert_eq!(suite.treasury, 0, "no commission before rewards");

    suite.update_time(DAY);
    // Rewards of 4160 carry a five-percent commission of 208.
    suite.reinvest(4160).unwrap();
    assert_eq!(suite.treasury, 208);
}

#[test]
fn tiny_weights() {
    let w1 = Rate::checked_from_ratio(1, 1_000_000).unwrap();
    let w2 = Rate::checked_from_ratio(1, 100_000_000).unwrap();
    let w3 = Rate::checked_from_ratio(99_999_899, 100_000_000).unwrap();
    let mut suite = Suite::build(
        vec![("testvaloper1", w1), ("testvaloper2", w2), ("testvaloper3", w3)],
        DAY,
        28 * DAY,
        vec![("delegator", 1_000_000)],
        percent(4),
        Rate::zero(),
    );
    suite.bond("delegator", 1_000_000).unwrap();
    suite.update_time(DAY);
    let out = suite.reinvest(0).unwrap();
    assert_eq!(out.delegations.len(), 2, "a zero share stakes nothing");
    assert_eq!(out.delegations[0].1, 2, "the first validator takes the dust");
    assert_eq!(out.delegations[1].1, 999_998);
}

#[test]
fn simple_bond_unbond_claim() {
    let mut suite = Suite::defaults(vec![("delegator1", 2_000_000), ("delegator2", 2_000_000)]);
    suite.bond("delegator1", 1_000_000).unwrap();
    suite.bond("delegator2", 1_000_000).unwrap();
    assert_eq!(get(&suite.lsd, "delegator1"), 1_000_000);

    let before = get(&suite.native, "delegator1");
    suite.unbond("delegator1", 1_000_000).unwrap();
    assert_eq!(suite.claims_len("delegator1"), 1);

    suite.update_time(23 * HOUR + 28 * DAY);
    suite.claim("delegator1").unwrap();
    assert_eq!(get(&suite.native, "delegator1"), before + 1_000_000);
}

#[test]
fn bond_unbond() {
    let amount = 1_000_003u128;
    let mut suite = Suite::build(
        vec![("testvaloper1", percent(50)), ("testvaloper2", percent(50))],
        EPOCH,
        28 * DAY,
        vec![("delegator", amount)],
        percent(4),
        Rate::zero(),
    );
    suite.bond("delegator", amount).unwrap();
    suite.update_time(EPOCH);
    suite.reinvest(0).unwrap();
    suite.update_time(EPOCH);
    suite.reinvest(1000).unwrap();
    let lsd = get(&suite.lsd, "delegator");
    suite.unbond("delegator", lsd).unwrap();
    suite.update_time(5 * EPOCH);
    suite.reinvest(1000).unwrap();
    suite.update_time(28 * DAY);
    suite.process_native_unbonding();
    suite.claim("delegator").unwrap();
}

#[test]
fn two_validators_split_uneven_deposit() {
    // Two validators weighted evenly split an odd deposit, the first taking
    // the flooring remainder: the halves differ by one and sum exactly.
    let amount = 1_000_003u128;
    let mut suite = Suite::build(
        vec![("testvaloper1", percent(50)), ("testvaloper2", percent(50))],
        EPOCH,
        28 * DAY,
        vec![("delegator", amount)],
        percent(4),
        Rate::zero(),
    );
    suite.bond("delegator", amount).unwrap();
    suite.update_time(EPOCH);
    let out = suite.reinvest(0).unwrap();
    assert_eq!(out.delegations[0], ("testvaloper1".to_string(), 500_002));
    assert_eq!(out.delegations[1], ("testvaloper2".to_string(), 500_001));
    assert_eq!(suite.bonded_of("testvaloper1") + suite.bonded_of("testvaloper2"), amount);
}

#[test]
fn small_delegations() {
    let single = 32u128;
    let rounds = 100u32;
    let total = single * rounds as u128;
    let mut suite = Suite::build(
        vec![("testvaloper1", percent(50)), ("testvaloper2", percent(50))],
        EPOCH,
        28 * DAY,
        vec![("delegator", total)],
        percent(4),
        Rate::zero(),
    );
    for _ in 0..rounds {
        suite.bond("delegator", single).unwrap();
        suite.update_time(EPOCH);
        suite.reinvest(40).unwrap();
    }
    let lsd = get(&suite.lsd, "delegator");
    suite.unbond("delegator", lsd).unwrap();
    suite.update_time(EPOCH);
    suite.reinvest(10).unwrap();
    assert_eq!(suite.claims_len("delegator"), 1);
    let holder = "delegator".to_string();
    let release = suite.hub.claims.query_claims(&holder)[0].release_at;
    suite.update_time(release - suite.now);
    suite.process_native_unbonding();
    suite.claim("delegator").unwrap();
    assert!(get(&suite.native, "delegator") > total);
}

#[test]
fn actual_undelegation_flow() {
    let amount = 1_000_000u128;
    let mut suite = Suite::defaults(vec![("delegator1", amount), ("delegator2", amount)]);
    suite.bond("delegator1", amount).unwrap();
    suite.bond("delegator2", amount).unwrap();
    suite.update_time(EPOCH);
    suite.reinvest(0).unwrap();

    suite.unbond("delegator1", amount).unwrap();
    assert_eq!(suite.claims_len("delegator1"), 1);

    for _ in 0..4 {
        suite.update_time(EPOCH);
        let _ = suite.reinvest(0);
    }
    suite.update_time(EPOCH);
    suite.reinvest(1000).unwrap();

    suite.update_time(28 * DAY);
    suite.process_native_unbonding();
    suite.claim("delegator1").unwrap();
    assert_eq!(get(&suite.native, "delegator1"), amount);

    suite.unbond("delegator2", amount).unwrap();
    let _ = suite.reinvest(0);
    for _ in 0..4 {
        suite.update_time(EPOCH);
        let _ = suite.reinvest(1000);
    }
    suite.update_time(EPOCH);
    suite.reinvest(1000).unwrap();
    suite.update_time(28 * DAY);
    suite.process_native_unbonding();
    suite.claim("delegator2").unwrap();
    assert!(get(&suite.native, "delegator2") > amount);
}

#[test]
fn bond_unbond_simultaneously() {
    let amount = 1_000_000u128;
    let mut suite = Suite::defaults(vec![("delegator1", amount), ("delegator2", amount)]);
    suite.bond("delegator1", amount).unwrap();
    suite.update_time(EPOCH);
    suite.reinvest(0).unwrap();

    suite.bond("delegator2", amount).unwrap();
    suite.unbond("delegator1", amount).unwrap();

    // The second deposit covers the first holder's claim: no undelegation
    // is needed before paying it.
    suite.update_time(5 * EPOCH + 28 * DAY);
    suite.reinvest(1000).unwrap();
    suite.claim("delegator1").unwrap();
    assert_eq!(get(&suite.native, "delegator1"), amount);
}

#[test]
fn unbond_epoch_handling() {
    let amount = 1_000_000u128;
    let amount2 = 100_000u128;
    let mut suite = Suite::build(
        vec![
            ("testvaloper1", percent(55)),
            ("testvaloper2", percent(35)),
            ("testvaloper3", percent(10)),
        ],
        EPOCH,
        28 * DAY,
        vec![("delegator", amount), ("delegator2", amount2)],
        percent(4),
        Rate::zero(),
    );
    suite.bond("delegator", amount).unwrap();
    suite.bond("delegator2", amount2).unwrap();

    suite.update_time(EPOCH);
    suite.reinvest(0).unwrap();

    suite.unbond("delegator2", amount2).unwrap();

    let supply = suite.hub.supply();
    assert_eq!(supply.total_bonded, amount + amount2);
    assert_eq!(suite.bonded_of("testvaloper1"), 605_000);
    assert_eq!(suite.bonded_of("testvaloper2"), 385_000);
    assert_eq!(suite.bonded_of("testvaloper3"), 110_000);
    assert_eq!(supply.claims, amount2);
    assert_eq!(supply.total_unbonding, 0);
    assert_eq!(suite.hub.unbonding.num_epochs(), 0);
    assert_eq!(suite.hub.unbonding.total_entries(), 0);

    // The first deficit round may undelegate at once; rewards of 4388 leave
    // 4169 after the commission.
    suite.update_time(EPOCH);
    suite.reinvest(4388).unwrap();
    suite.process_native_unbonding();

    let rewards = 4169u128;
    let supply = suite.hub.supply();
    assert_eq!(supply.total_bonded, amount + rewards);
    assert_eq!(suite.bonded_of("testvaloper1"), 552_292);
    assert_eq!(suite.bonded_of("testvaloper2"), 351_460);
    assert_eq!(suite.bonded_of("testvaloper3"), 100_417);
    assert_eq!(supply.claims, amount2);
    assert_eq!(supply.total_unbonding, amount2 - rewards);
    assert_eq!(suite.hub.unbonding.num_epochs(), 1);
    assert_eq!(suite.hub.unbonding.total_entries(), 3);

    // A second unbonding has to wait for the next undelegation slot.
    suite.unbond("delegator", amount).unwrap();
    suite.update_time(EPOCH);
    suite.reinvest(0).unwrap();
    suite.process_native_unbonding();

    let supply = suite.hub.supply();
    assert_eq!(supply.total_bonded, amount + rewards);
    assert_eq!(suite.bonded_of("testvaloper1"), 552_292);
    assert_eq!(suite.bonded_of("testvaloper2"), 351_460);
    assert_eq!(suite.bonded_of("testvaloper3"), 100_417);
    assert_eq!(supply.claims, amount + amount2 + rewards);
    assert_eq!(supply.total_unbonding, amount2 - rewards);
    assert_eq!(suite.hub.unbonding.num_epochs(), 1);
    assert_eq!(suite.hub.unbonding.total_entries(), 3);

    // Four epochs later the slot is due; rewards of 10017 leave 9517.
    suite.update_time(4 * EPOCH);
    suite.reinvest(10017).unwrap();
    suite.process_native_unbonding();

    let post_unbond_rewards = 9517u128;
    let supply = suite.hub.supply();
    assert_eq!(supply.total_bonded, post_unbond_rewards);
    assert_eq!(supply.claims, amount + amount2 + rewards);
    assert_eq!(supply.total_unbonding + suite.bank, amount + amount2 + rewards);
    assert_eq!(suite.hub.unbonding.num_epochs(), 2);
    assert_eq!(suite.hub.unbonding.total_entries(), 6);
}

#[test]
fn bonded_updated_correctly() {
    let amount = 1_000_000u128;
    let mut suite = Suite::build(
        vec![("testvaloper1", percent(50)), ("testvaloper2", percent(50))],
        EPOCH,
        28 * DAY,
        vec![("delegator", amount)],
        percent(4),
        Rate::zero(),
    );
    suite.bond("delegator", amount).unwrap();
    suite.update_time(EPOCH);
    suite.reinvest(0).unwrap();
    assert_eq!(suite.bonded_of("testvaloper1"), amount / 2);
    assert_eq!(suite.bonded_of("testvaloper2"), amount / 2);

    suite.unbond("delegator", amount / 2).unwrap();

    // Rewards of 11972 leave 11374 after the commission.
    suite.update_time(5 * EPOCH);
    suite.reinvest(11972).unwrap();

    let rewards = 11374u128;
    assert_eq!(suite.bonded_of("testvaloper1"), amount / 4 + rewards / 2);
    assert_eq!(suite.bonded_of("testvaloper2"), amount / 4 + rewards / 2);

    let rate = suite.exchange_rate();
    assert_eq!(
        rate,
        Rate::checked_from_ratio(amount / 2 + rewards, amount / 2).unwrap(),
        "half the shares are unbonding, but rewards and the other half remain"
    );
}

#[test]
fn bond_claim_without_unbond() {
    let mut suite = Suite::defaults(vec![("delegator1", 2_000_000), ("delegator2", 2_000_000)]);
    suite.bond("delegator1", 1_000_000).unwrap();
    suite.bond("delegator2", 1_000_000).unwrap();
    assert_eq!(get(&suite.lsd, "delegator1"), 1_000_000);
    assert_eq!(suite.claim("delegator1"), Err(ContractError::NothingToClaim {}));
}

#[test]
fn bond_with_native_unbond_with_wrong_token() {
    let amount = 1_000_003u128;
    let mut suite = Suite::build(
        vec![("testvaloper1", percent(50)), ("testvaloper2", percent(50))],
        EPOCH,
        28 * DAY,
        vec![("delegator", amount)],
        percent(4),
        Rate::zero(),
    );
    suite.bond("delegator", amount).unwrap();
    suite.update_time(EPOCH);
    suite.reinvest(0).unwrap();
    suite.update_time(EPOCH);
    suite.reinvest(1000).unwrap();
    assert_eq!(
        suite.unbond_via("other_token", "delegator", amount),
        Err(ContractError::InvalidToken {})
    );
}

#[test]
fn unbonding_burns_tokens() {
    let mut suite = Suite::defaults(vec![("sender", 1700)]);
    suite.bond("sender", 1700).unwrap();
    // The amount burned is the amount of shares sent in; at a rate of one
    // the claim reserves the same number of native tokens.
    let native = suite.unbond("sender", 100).unwrap();
    assert_eq!(native, 100);
    assert_eq!(get(&suite.lsd, "sender"), 1600);
}

#[test]
fn basic_claim_creation_works() {
    let mut suite = Suite::defaults(vec![("sender", 1700), ("sender2", 800)]);
    suite.bond("sender", 1700).unwrap();
    suite.bond("sender2", 800).unwrap();

    suite.unbond("sender", 500).unwrap();
    assert_eq!(suite.claims_len("sender"), 1);

    suite.unbond("sender", 500).unwrap();
    assert_eq!(suite.claims_len("sender"), 2);
}

#[test]
fn simple_liveness_slash() {
    let amount = 1_000_000u128;
    let mut suite = Suite::defaults(vec![("delegator", amount)]);
    suite.bond("delegator", amount).unwrap();
    let lsd = get(&suite.lsd, "delegator");

    suite.update_time(EPOCH);
    suite.reinvest(0).unwrap();

    // A liveness slash takes one part in a thousand off the stake.
    let observed = vec![("testvaloper1".to_string(), amount - amount / 1000)];
    suite.hub.check_slash(suite.now, &observed).unwrap();

    let supply = suite.hub.supply();
    assert_eq!(supply.total_bonded, amount - amount / 1000);
    assert_eq!(suite.bonded_of("testvaloper1"), amount - amount / 1000);
    assert_eq!(suite.exchange_rate(), Rate::permille(999));

    suite.unbond("delegator", lsd).unwrap();
    suite.update_time(5 * EPOCH);
    suite.reinvest(1000).unwrap();
    suite.update_time(28 * DAY);
    suite.process_native_unbonding();
    suite.claim("delegator").unwrap();
    assert_eq!(get(&suite.native, "delegator"), amount - amount / 1000);
}

#[test]
fn timing_check() {
    let waits = [
        28 * DAY,
        28 * DAY + 60,
        27 * DAY + 23 * HOUR + 59 * 60,
    ];
    for wait_time in waits {
        let amount = 1_000_000u128;
        let mut suite = Suite::defaults(vec![("delegator", amount)]);
        suite.bond("delegator", amount).unwrap();
        let lsd = get(&suite.lsd, "delegator");

        suite.update_time(EPOCH);
        suite.reinvest(0).unwrap();
        suite.unbond("delegator", lsd).unwrap();

        suite.update_time(5 * EPOCH);
        suite.reinvest(1000).unwrap();

        // The undelegation matures within the safety margin of the check:
        // a slash cannot be told from the undelegation in flight.
        suite.update_time(wait_time);
        let expected = suite.bonded_of("testvaloper1");
        let observed = vec![("testvaloper1".to_string(), expected - expected / 100 - 1)];
        assert_eq!(
            suite.hub.check_slash(suite.now, &observed),
            Err(ContractError::UnbondingTooClose {})
        );
    }
}

#[test]
fn slash_scales_pending_ledgers() {
    // A slash while claims are pending scales the bonded entry, the queued
    // undelegations and the claims alike, each rounded down.
    let amount = 1_000_000u128;
    let mut suite = Suite::defaults(vec![("delegator", amount)]);
    suite.bond("delegator", amount).unwrap();
    let lsd = get(&suite.lsd, "delegator");

    suite.update_time(EPOCH);
    suite.reinvest(0).unwrap();
    suite.unbond("delegator", lsd).unwrap();

    suite.update_time(5 * EPOCH);
    suite.reinvest(1000).unwrap();
    // The bank holds the 950 kept of the rewards; the rest is undelegating.
    assert_eq!(suite.bank, 950);
    let supply = suite.hub.supply();
    assert_eq!(supply.total_unbonding, amount - 950);
    assert_eq!(suite.bonded_of("testvaloper1"), 950);

    // Slash the remaining stake by one part in a thousand, well away from
    // the maturity: 950 observed as 949.
    suite.update_time(HOUR);
    let observed = vec![("testvaloper1".to_string(), 949)];
    suite.hub.check_slash(suite.now, &observed).unwrap();

    let supply = suite.hub.supply();
    // The multiplier is 949/950 in rate atomics, floored; every ledger is
    // scaled down by it, flooring again.
    let m = 949 * RATE_ONE / 950;
    assert_eq!(suite.bonded_of("testvaloper1"), 950 * m / RATE_ONE);
    assert_eq!(supply.total_bonded, 950 * m / RATE_ONE);
    assert_eq!(supply.total_unbonding, (amount - 950) * m / RATE_ONE);
    assert_eq!(supply.claims, amount * m / RATE_ONE);
}
