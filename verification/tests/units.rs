//! Validation, scheduling, claims and the satellite helpers, checked on
//! concrete values.

use lsd_hub::claims::Claims;
use lsd_hub::config::div_ceil;
use lsd_hub::error::ContractError;
use lsd_hub::gauge::{all_options, check_option, validate_max_commission};
use lsd_hub::hub::Hub;
use lsd_hub::migrate::{split_legacy_supply, OldSupply, OldUnbonding};
use lsd_hub::rate::{Rate, RATE_ONE};
use lsd_hub::router::{simulate_lsd_value, split_bond};

const HOUR: u64 = 60 * 60;

fn percent(p: u64) -> Rate {
    Rate::percent(p)
}

fn instantiate(
    commission: Rate,
    weights: Vec<(&str, Rate)>,
    liquidity_discount: Rate,
    epoch_period: u64,
    unbond_period: u64,
    max_concurrent_unbondings: u64,
) -> Result<Hub, ContractError> {
    Hub::instantiate(
        "owner".to_string(),
        "treasury".to_string(),
        commission,
        weights.into_iter().map(|(v, w)| (v.to_string(), w)).collect(),
        epoch_period,
        unbond_period,
        max_concurrent_unbondings,
        liquidity_discount,
        percent(3),
        10 * 60,
        1000,
    )
}

#[test]
fn invalid_init() {
    // A commission of one is far above the half allowed.
    let err = instantiate(
        percent(100),
        vec![("val1", percent(100))],
        percent(4),
        3600,
        3600,
        7,
    )
    .err().unwrap();
    assert_eq!(err, ContractError::InvalidCommission {});

    // Weights summing to a half do not sum to one.
    let err = instantiate(
        percent(10),
        vec![("val1", percent(50))],
        percent(4),
        3600,
        3600,
        7,
    )
    .err().unwrap();
    assert_eq!(err, ContractError::InvalidValidatorWeights {});

    // A liquidity discount of one is far above the half allowed.
    let err = instantiate(
        percent(10),
        vec![("val1", percent(100))],
        percent(100),
        3600,
        3600,
        7,
    )
    .err().unwrap();
    assert_eq!(err, ContractError::InvalidLiquidityDiscount {});

    // Out-of-range periods and a zero unbonding cap are rejected too.
    let err = instantiate(
        percent(10),
        vec![("val1", percent(100))],
        percent(4),
        60,
        3600,
        7,
    )
    .err().unwrap();
    assert_eq!(err, ContractError::InvalidEpochPeriod {});
    let err = instantiate(
        percent(10),
        vec![("val1", percent(100))],
        percent(4),
        3600,
        60,
        7,
    )
    .err().unwrap();
    assert_eq!(err, ContractError::InvalidUnbondPeriod {});
    let err = instantiate(
        percent(10),
        vec![("val1", percent(100))],
        percent(4),
        3600,
        3600,
        0,
    )
    .err().unwrap();
    assert_eq!(err, ContractError::InvalidMaxConcurrentUnbondings {});

    // The boundary values pass.
    instantiate(percent(10), vec![("val1", percent(100))], percent(4), 3600, 3600, 7).unwrap();
}

#[test]
fn epoch_handling() {
    let mut hub = instantiate(
        percent(10),
        vec![("val1", percent(100))],
        percent(4),
        3600,
        3600,
        7,
    )
    .unwrap();
    let mut now = 1000u64;

    // The first epoch opens one period after setup.
    now += 3600;
    hub.reinvest_start(now, 0).unwrap();
    hub.rebalance(now, 0).unwrap();

    // One second early is too early.
    now += 3599;
    let err = hub.reinvest_start(now, 0).unwrap_err();
    assert!(matches!(err, ContractError::EpochNotReached { .. }));

    // Right at the epoch.
    now += 1;
    hub.reinvest_start(now, 0).unwrap();
    hub.rebalance(now, 0).unwrap();

    // Skipping a few epochs still works.
    now += 3600 * 5 + 1;
    hub.reinvest_start(now, 0).unwrap();
    hub.rebalance(now, 0).unwrap();

    // The rhythm is kept: having run one second late, the next epoch comes
    // one second under a full period later.
    now += 3599;
    hub.reinvest_start(now, 0).unwrap();
    hub.rebalance(now, 0).unwrap();
}

#[test]
fn genesis_bond_rate_one() {
    // At genesis the exchange rate is one and the first deposit is issued
    // one for one.
    let mut hub = instantiate(
        percent(10),
        vec![("val1", percent(100))],
        percent(4),
        3600,
        3600,
        7,
    )
    .unwrap();
    assert_eq!(hub.exchange_rate(1000, 0).unwrap().atomics, RATE_ONE);
    let shares = hub.bond(1000, 1_000_000, 1_000_000).unwrap();
    assert_eq!(shares, 1_000_000);
    assert_eq!(hub.supply().issued, 1_000_000);
    assert_eq!(hub.exchange_rate(1000, 1_000_000).unwrap().atomics, RATE_ONE);
}

#[test]
fn unbond_all_without_reinvest() {
    // A holder who unbonds everything before any reinvest is owed exactly
    // what they bonded, releasable one unbonding period after the later of
    // the two schedule timers.
    let mut hub = instantiate(
        percent(10),
        vec![("val1", percent(100))],
        percent(4),
        3600,
        7200,
        7,
    )
    .unwrap();
    hub.bond(1000, 500_000, 500_000).unwrap();
    let holder = "holder".to_string();
    let token = "".to_string();
    let native = hub.unbond(1000, &token, 500_000, &holder, 500_000).unwrap();
    assert_eq!(native, 500_000);
    let claims = hub.claims.query_claims(&holder);
    assert_eq!(claims.len(), 1);
    assert_eq!(claims[0].amount, 500_000);
    // Both timers start at setup time plus one epoch period.
    assert_eq!(claims[0].release_at, hub.config.next_unbond + hub.config.unbond_period);
}

#[test]
fn claims_settle_in_order_under_cap() {
    // Settling walks the queue once: matured claims are paid while the
    // running total stays under the cap; the first matured claim that would
    // break it stays, and so does everything after it.
    let mut ledger = Claims::new();
    let holder = "holder".to_string();
    ledger.create_claim(&holder, 100, 10);
    ledger.create_claim(&holder, 200, 20);
    ledger.create_claim(&holder, 50, 30);
    ledger.create_claim(&holder, 25, 10);

    // At time 25 the first, second and fourth have matured; a cap of 150
    // pays the first, cannot fit the second, and stops there.
    let paid = ledger.claim_tokens(&holder, 25, 150);
    assert_eq!(paid, 100);
    let left = ledger.query_claims(&holder);
    assert_eq!(left.len(), 3);
    assert_eq!(left[0].amount, 200);
    assert_eq!(left[1].amount, 50);
    assert_eq!(left[2].amount, 25);

    // With room for everything matured, the third still waits on time.
    let paid = ledger.claim_tokens(&holder, 25, 1_000);
    assert_eq!(paid, 225);
    let left = ledger.query_claims(&holder);
    assert_eq!(left.len(), 1);
    assert_eq!(left[0].amount, 50);
}

#[test]
fn unbond_more_than_issued_overflows() {
    // Returning more shares than were issued is a checked-arithmetic abort.
    let mut hub = instantiate(
        percent(10),
        vec![("val1", percent(100))],
        percent(4),
        3600,
        3600,
        7,
    )
    .unwrap();
    hub.bond(1000, 100, 100).unwrap();
    let holder = "holder".to_string();
    let token = "".to_string();
    assert_eq!(
        hub.unbond(1000, &token, 200, &holder, 100),
        Err(ContractError::Overflow {})
    );
}

#[test]
fn div_ceil_rounds_up() {
    assert_eq!(div_ceil(5, 2), 3);
    assert_eq!(div_ceil(5, 3), 2);
    assert_eq!(div_ceil(6, 7), 1);
    assert_eq!(div_ceil(6, 3), 2);
    assert_eq!(div_ceil(0, 5), 0);
}

#[test]
fn proper_initialization() {
    // A thirty-percent commission cap is a valid adapter configuration.
    validate_max_commission(percent(30)).unwrap();
}

#[test]
fn invalid_max_commission() {
    assert_eq!(
        validate_max_commission(Rate::zero()),
        Err(ContractError::InvalidMaxCommission {})
    );
    assert_eq!(
        validate_max_commission(percent(101)),
        Err(ContractError::InvalidMaxCommission {})
    );
    validate_max_commission(percent(100)).unwrap();
    validate_max_commission(percent(1)).unwrap();
}

#[test]
fn option_queries() {
    let registry: Vec<(String, Rate)> = vec![
        ("junovaloper1t8ehvswxjfn3ejzkjtntcyrqwvmvuknzmvtaaa".to_string(), percent(100)),
        ("junovaloper196ax4vc0lwpxndu9dyhvca7jhxp70rmcqcnylw".to_string(), percent(100)),
        ("junovaloper1y0us8xvsvfvqkk9c6nt5cfyu5au5tww2wsdcwk".to_string(), percent(100)),
    ];
    // Every registered validator passes a cap of one.
    let options = all_options(&registry, percent(100)).options;
    assert_eq!(
        options,
        registry.iter().map(|v| v.0.clone()).collect::<Vec<_>>()
    );
    for v in &registry {
        assert!(options.contains(&v.0));
        assert!(check_option(&registry, &v.0).valid);
    }
    assert!(!options.contains(&"invalid".to_string()));
    assert!(!check_option(&registry, &"invalid".to_string()).valid);
}

#[test]
fn query_validators_with_commission_cap() {
    let registry: Vec<(String, Rate)> = vec![
        ("junovaloper1t8ehvswxjfn3ejzkjtntcyrqwvmvuknzmvtaaa".to_string(), percent(100)),
        ("junovaloper196ax4vc0lwpxndu9dyhvca7jhxp70rmcqcnylw".to_string(), percent(20)),
        ("junovaloper196ax4vc0lwpxndu9dyhvca7jhxpsdawytdfsgf".to_string(), percent(30)),
        ("junovaloper196ax4vc0lwpxndu9dyhvca7jhxp70rdadsadsa".to_string(), percent(80)),
        ("junovaloper1y0us8xvsvfvqkk9c6nt5cfyu5au5tww2wsdcwk".to_string(), percent(100)),
    ];
    let options = all_options(&registry, percent(30)).options;
    assert_eq!(
        options,
        vec![
            "junovaloper196ax4vc0lwpxndu9dyhvca7jhxp70rmcqcnylw".to_string(),
            "junovaloper196ax4vc0lwpxndu9dyhvca7jhxpsdawytdfsgf".to_string(),
        ]
    );
}

#[test]
fn updating_validators_works() {
    // While nothing is bonded, the owner replaces the weight set directly.
    let mut hub = instantiate(
        percent(10),
        vec![("junovaloper196ax4vc0lwpxndu9dyhvca7jhxp70rmcqcnylw", percent(100))],
        percent(4),
        3600,
        3600,
        7,
    )
    .unwrap();
    let selected = vec![
        ("junovaloper196ax4vc0lwpxndu9dyhvca7jhxp70rmcqcnylw".to_string(), percent(50)),
        ("junovaloper1y0us8xvsvfvqkk9c6nt5cfyu5au5tww2wsdcwk".to_string(), percent(20)),
    ];
    let owner = "owner".to_string();
    let messages = hub.set_validators(&owner, 2000, selected.clone()).unwrap();
    assert!(messages.is_empty());
    assert_eq!(hub.validators, selected);
}

#[test]
fn set_validators_owner_only() {
    let mut hub = instantiate(
        percent(10),
        vec![("val1", percent(100))],
        percent(4),
        3600,
        3600,
        7,
    )
    .unwrap();
    let stranger = "stranger".to_string();
    assert_eq!(
        hub.set_validators(&stranger, 2000, vec![("val2".to_string(), percent(100))]),
        Err(ContractError::Unauthorized {})
    );
}

#[test]
fn split_bond_splits() {
    let split = split_bond(1000, Some(300));
    assert_eq!(split.swap, 300);
    assert_eq!(split.bond, 700);
    let split = split_bond(1000, None);
    assert_eq!(split.swap, 0);
    assert_eq!(split.bond, 1000);
}

#[test]
fn simulate_lsd_value_divides_by_rate() {
    // At a rate of two tokens per share, bonding 1000 yields 500 shares;
    // the simulated swap return is added on top.
    let rate = Rate { atomics: 2 * RATE_ONE };
    assert_eq!(simulate_lsd_value(1000, None, rate, 0).unwrap(), 500);
    assert_eq!(simulate_lsd_value(1000, Some(400), rate, 350).unwrap(), 650);
    // At a rate of one it is one for one.
    assert_eq!(simulate_lsd_value(1000, None, Rate::one(), 0).unwrap(), 1000);
}

#[test]
fn legacy_supply_splits() {
    let old_supply = OldSupply {
        issued: 500,
        total_bonded: 400,
        bonded: vec![("val1".to_string(), 400)],
        claims: 30,
        unbonding: Vec::new(),
        total_unbonding: 0,
    };
    let (supply, bonded) = split_legacy_supply(old_supply).unwrap();
    assert_eq!(supply.issued, 500);
    assert_eq!(supply.total_bonded, 400);
    assert_eq!(supply.claims, 30);
    assert_eq!(supply.total_unbonding, 0);
    assert_eq!(bonded, vec![("val1".to_string(), 400)]);

    let old_supply = OldSupply {
        issued: 500,
        total_bonded: 400,
        bonded: Vec::new(),
        claims: 0,
        unbonding: vec![OldUnbonding {
            amount: 10,
            release_at: 99,
            validator: "val1".to_string(),
        }],
        total_unbonding: 10,
    };
    assert_eq!(
        split_legacy_supply(old_supply).unwrap_err(),
        ContractError::MigrationFailed {}
    );
}

#[test]
fn expiring_between_is_exclusive() {
    // The window query copies buckets strictly inside the bounds.
    let mut hub = instantiate(
        percent(10),
        vec![("val1", percent(100))],
        percent(4),
        3600,
        7200,
        7,
    )
    .unwrap();
    hub.bond(1000, 2_000, 2_000).unwrap();
    hub.reinvest_start(4600, 2_000).unwrap();
    hub.rebalance(4600, 2_000).unwrap();
    let holder = "holder".to_string();
    let token = "".to_string();
    hub.unbond(4600, &token, 2_000, &holder, 0).unwrap();
    // A few rewards arrive; they cannot cover the claim, so the shortfall
    // is undelegated into a new bucket.
    hub.reinvest_start(8200, 0).unwrap();
    let out = hub.rebalance(8200, 5).unwrap();
    let maturity = out.unbond_time.unwrap();
    assert_eq!(hub.unbonding.expiring_between(maturity, maturity + 1).len(), 0);
    assert_eq!(hub.unbonding.expiring_between(maturity - 1, maturity + 1).len(), 1);
    let window = hub.unbonding.expiring_between(maturity - 1, maturity + 1);
    assert_eq!(window[0].0, maturity);
}

#[test]
fn reinvest_with_empty_bank_still_undelegates() {
    // A deficit round runs even when the bank is empty, as long as stake is
    // bonded: the shortfall is undelegated so the claims can mature.
    let mut hub = instantiate(
        percent(10),
        vec![("val1", percent(100))],
        percent(4),
        3600,
        7200,
        7,
    )
    .unwrap();
    hub.bond(1000, 2_000, 2_000).unwrap();
    hub.reinvest_start(4600, 2_000).unwrap();
    hub.rebalance(4600, 2_000).unwrap();
    let holder = "holder".to_string();
    let token = "".to_string();
    hub.unbond(4600, &token, 2_000, &holder, 0).unwrap();

    // No rewards at all: the bank stays empty, the deficit is undelegated.
    hub.reinvest_start(8200, 0).unwrap();
    let out = hub.rebalance(8200, 0).unwrap();
    assert_eq!(out.commission, 0);
    let undelegated: u128 = out.undelegations.iter().map(|u| u.1).sum();
    assert_eq!(undelegated, 2_000);
    assert_eq!(hub.supply().total_unbonding, 2_000);
    assert_eq!(hub.supply().total_bonded, 0);
}

#[test]
fn unbond_epoch_is_period_over_buckets() {
    // Seven concurrent buckets over a four-week unbonding period give a
    // four-day cadence.
    let hub = instantiate(
        percent(10),
        vec![("val1", percent(100))],
        percent(4),
        23 * HOUR,
        28 * 24 * HOUR,
        7,
    )
    .unwrap();
    assert_eq!(hub.config.unbond_epoch(), 4 * 24 * HOUR);
}
