//! The validator-allocation planner: applying the redelegations it emits to
//! the old balances must land on the balances it returns, and those must
//! respect the new weights.

use std::collections::HashMap;

use lsd_hub::rate::{checked_mul_floor, Rate};
use lsd_hub::valset::{valset_change_redelegation_messages, ValsetChange};

fn percent(p: u64) -> Rate {
    Rate::percent(p)
}

fn ratio(n: u128, d: u128) -> Rate {
    Rate::checked_from_ratio(n, d).unwrap()
}

fn to_vec(balances: &HashMap<String, u128>) -> Vec<(String, u128)> {
    let mut v: Vec<(String, u128)> = balances.iter().map(|(k, a)| (k.clone(), *a)).collect();
    v.sort();
    v
}

fn valset_to_balances(total_bonded: u128, valset: &[(String, Rate)]) -> HashMap<String, u128> {
    let mut balances: HashMap<String, u128> = valset
        .iter()
        .map(|(addr, weight)| (addr.clone(), checked_mul_floor(total_bonded, *weight).unwrap()))
        .collect();
    let sum: u128 = balances.values().sum();
    if sum < total_bonded {
        let lucky = balances.keys().next().unwrap().clone();
        *balances.get_mut(&lucky).unwrap() += total_bonded - sum;
    }
    balances
}

/// The invariants the balances must satisfy after the change:
/// every new validator holds at least its floored target, and the total is
/// conserved exactly.
fn validate_valset(total_bonded: u128, valset: &[(String, Rate)], balances: &HashMap<String, u128>) {
    for (addr, weight) in valset {
        let balance = balances.get(addr).unwrap();
        let expected = checked_mul_floor(total_bonded, *weight).unwrap();
        assert!(
            *balance >= expected,
            "balance for {} should be at least {}, but was only {}",
            addr,
            expected,
            balance
        );
    }
    assert_eq!(
        balances.values().sum::<u128>(),
        total_bonded,
        "total balance should be equal to total bonded"
    );
}

fn simulate_valset(
    total_bonded: u128,
    old_balances: HashMap<String, u128>,
    new_valset: Vec<(String, Rate)>,
) -> HashMap<String, u128> {
    let ValsetChange { messages, new_balances } = valset_change_redelegation_messages(
        total_bonded,
        &to_vec(&old_balances),
        &new_valset,
    )
    .unwrap();

    let mut balances = old_balances;
    for message in messages {
        assert!(message.amount > 0, "amount sanity check");
        let src_balance = balances
            .get_mut(&message.src_validator)
            .expect("source validator has to exist in the balances map");
        *src_balance = src_balance
            .checked_sub(message.amount)
            .unwrap_or_else(|| {
                panic!(
                    "overflowed when redelegating {} from {} to {}",
                    message.amount, message.src_validator, message.dst_validator
                )
            });
        if *src_balance == 0 {
            balances.remove(&message.src_validator);
        }
        let dst_balance = balances.entry(message.dst_validator).or_insert(0);
        *dst_balance += message.amount;
    }

    validate_valset(total_bonded, &new_valset, &balances);
    let returned: HashMap<String, u128> = new_balances.into_iter().collect();
    assert_eq!(balances, returned);
    balances
}

#[test]
fn basic_test() {
    let valsets: Vec<Vec<(String, Rate)>> = vec![
        vec![
            ("a".to_string(), percent(25)),
            ("b".to_string(), percent(25)),
            ("c".to_string(), percent(50)),
        ],
        vec![
            ("a".to_string(), percent(20)),
            ("b".to_string(), percent(35)),
            ("d".to_string(), percent(45)),
        ],
        vec![
            ("f".to_string(), percent(10)),
            ("g".to_string(), percent(20)),
            ("h".to_string(), percent(30)),
            ("i".to_string(), percent(40)),
        ],
        vec![("a".to_string(), percent(67)), ("b".to_string(), percent(33))],
    ];

    let total_bonded = 1000u128;
    let mut balances: HashMap<String, u128> =
        vec![("a".to_string(), 500u128), ("b".to_string(), 500u128)].into_iter().collect();
    for new_valset in valsets.iter() {
        balances = simulate_valset(total_bonded, balances, new_valset.clone());
    }

    let new_balances = simulate_valset(total_bonded, balances.clone(), valsets.last().unwrap().clone());
    assert_eq!(balances, new_balances, "should be a noop");
}

#[test]
fn rounding() {
    let total_bonded = 4444u128;
    let initial_balances: HashMap<String, u128> =
        vec![("a".to_string(), total_bonded / 2), ("b".to_string(), total_bonded / 2)]
            .into_iter()
            .collect();

    let new_valset = vec![
        ("a".to_string(), ratio(1, 3)),
        ("b".to_string(), ratio(1, 3)),
        ("c".to_string(), ratio(1, 3)),
    ];
    simulate_valset(total_bonded, initial_balances.clone(), new_valset.clone());

    let new_valset2 = vec![
        ("a".to_string(), ratio(1, 6)),
        ("b".to_string(), ratio(1, 6)),
        ("c".to_string(), ratio(1, 6)),
        ("d".to_string(), ratio(1, 6)),
        ("e".to_string(), ratio(1, 6)),
        ("f".to_string(), ratio(1, 6)),
    ];
    simulate_valset(total_bonded, initial_balances, new_valset2.clone());
    simulate_valset(
        total_bonded,
        valset_to_balances(total_bonded, &new_valset),
        new_valset2.clone(),
    );

    let total_bonded = 1000u128;
    simulate_valset(
        total_bonded,
        valset_to_balances(total_bonded, &new_valset),
        new_valset,
    );
    simulate_valset(
        total_bonded,
        valset_to_balances(total_bonded, &new_valset2),
        new_valset2.clone(),
    );

    let new_valset3 = vec![
        ("c".to_string(), percent(25)),
        ("d".to_string(), percent(25)),
        ("e".to_string(), percent(25)),
        ("f".to_string(), percent(25)),
    ];
    simulate_valset(
        total_bonded,
        valset_to_balances(total_bonded, &new_valset2),
        new_valset3,
    );
}

#[test]
fn actual_balances_example() {
    let total_bonded = 1000u128;
    let balances: HashMap<String, u128> =
        vec![("a".to_string(), 500u128), ("b".to_string(), 500u128)].into_iter().collect();

    let new_valset = vec![
        ("a".to_string(), percent(15)),
        ("c".to_string(), percent(50)),
        ("d".to_string(), percent(35)),
    ];
    let balances = simulate_valset(total_bonded, balances, new_valset);
    assert_eq!(
        balances,
        vec![("a".to_string(), 150u128), ("c".to_string(), 500u128), ("d".to_string(), 350u128)]
            .into_iter()
            .collect()
    );

    let new_valset = vec![
        ("a".to_string(), ratio(1, 3)),
        ("b".to_string(), ratio(1, 3)),
        ("c".to_string(), ratio(1, 3)),
    ];
    let balances = simulate_valset(total_bonded, balances, new_valset);
    assert_eq!(
        balances,
        vec![("a".to_string(), 333u128), ("b".to_string(), 333u128), ("c".to_string(), 334u128)]
            .into_iter()
            .collect()
    );
}
