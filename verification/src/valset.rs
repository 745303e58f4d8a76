//! The validator-allocation planner: a pure function computing the
//! redelegations that move one bonded distribution onto a new weight set.
//!
//! Targets are the floored weight shares of the total; validators above
//! target (or dropped) become sources, validators below target (or new)
//! become destinations; both sides are taken largest first and matched
//! greedily. Rounding dust is not reconciled: it stays where flooring left
//! it.

use vstd::prelude::*;
use vstd::multiset::Multiset;
use vstd::seq_lib::group_to_multiset_ensures;

use crate::error::ContractError;
use crate::rate::{checked_mul_floor, mul_floor_spec, Rate};
use crate::sums::{
    bal_of, find_key, key_in, keys_unique, lemma_bal_of_at, lemma_bal_of_push_other,
    lemma_bal_of_update_other, lemma_sum_bal_push, lemma_sum_bal_two, lemma_sum_bal_update,
    set_bal, sum_bal,
};

verus! {

broadcast use group_to_multiset_ensures, vstd::multiset::group_multiset_axioms;

/// One stake movement between two validators.
#[derive(Clone, Debug, PartialEq, Eq)]
pub struct Redelegation {
    pub src_validator: String,
    pub dst_validator: String,
    pub amount: u128,
}

/// The planner's result: the movements to issue and the balances they leave.
pub struct ValsetChange {
    pub messages: Vec<Redelegation>,
    pub new_balances: Vec<(String, u128)>,
}

/// Each validator appears at most once in a weight set.
pub open spec fn wkeys_unique(s: Seq<(String, Rate)>) -> bool {
    forall|i: int, j: int| 0 <= i < j < s.len() ==> s[i].0@ != s[j].0@
}

/// The weight set names the validator.
pub open spec fn wkey_in(s: Seq<(String, Rate)>, key: Seq<char>) -> bool {
    exists|i: int| 0 <= i < s.len() && s[i].0@ == key
}

/// Some weight's product with the total does not fit the amount type.
pub open spec fn some_target_overflows(total_bonded: u128, ws: Seq<(String, Rate)>) -> bool {
    exists|i: int| 0 <= i < ws.len() && (#[trigger] ws[i].1.atomics) * total_bonded > u128::MAX
}

/// The total amount the messages move out of a validator.
pub open spec fn msg_given(msgs: Seq<Redelegation>, k: Seq<char>) -> int
    decreases msgs.len(),
{
    if msgs.len() == 0 {
        0
    } else {
        (if msgs[0].src_validator@ == k {
            msgs[0].amount as int
        } else {
            0
        }) + msg_given(msgs.drop_first(), k)
    }
}

/// The total amount the messages move into a validator.
pub open spec fn msg_received(msgs: Seq<Redelegation>, k: Seq<char>) -> int
    decreases msgs.len(),
{
    if msgs.len() == 0 {
        0
    } else {
        (if msgs[0].dst_validator@ == k {
            msgs[0].amount as int
        } else {
            0
        }) + msg_received(msgs.drop_first(), k)
    }
}

pub proof fn lemma_msg_flows_push(msgs: Seq<Redelegation>, x: Redelegation, k: Seq<char>)
    ensures
        msg_given(msgs.push(x), k) == msg_given(msgs, k) + (if x.src_validator@ == k {
            x.amount as int
        } else {
            0
        }),
        msg_received(msgs.push(x), k) == msg_received(msgs, k) + (if x.dst_validator@ == k {
            x.amount as int
        } else {
            0
        }),
    decreases msgs.len(),
{
    if msgs.len() == 0 {
        assert(msgs.push(x)[0] == x);
        assert(msgs.push(x).drop_first() =~= Seq::<Redelegation>::empty());
        assert(msg_given(msgs.push(x).drop_first(), k) == 0);
        assert(msg_received(msgs.push(x).drop_first(), k) == 0);
    } else {
        assert(msgs.push(x)[0] == msgs[0]);
        assert(msgs.push(x).drop_first() =~= msgs.drop_first().push(x));
        lemma_msg_flows_push(msgs.drop_first(), x, k);
    }
}

/// The old balances already sit exactly on the new weights' floored
/// targets, validator for validator, with no validator outside the set.
pub open spec fn allocation_met(
    old_balances: Seq<(String, u128)>,
    total_bonded: u128,
    new_valset: Seq<(String, Rate)>,
) -> bool {
    &&& forall|j: int|
        0 <= j < new_valset.len() ==> (key_in(old_balances, (#[trigger] new_valset[j].0)@)
            && bal_of(old_balances, new_valset[j].0@) == mul_floor_spec(
            total_bonded as int,
            new_valset[j].1,
        ))
    &&& forall|i: int|
        0 <= i < old_balances.len() ==> wkey_in(new_valset, (#[trigger] old_balances[i].0)@)
}

/// Amounts never increase along the sequence.
pub open spec fn sorted_desc(s: Seq<(String, u128)>) -> bool {
    forall|i: int, j: int| 0 <= i < j < s.len() ==> s[i].1 >= s[j].1
}

/// A permutation keeps pairwise-distinct keys pairwise distinct.
proof fn lemma_keys_distinct_after_permutation(a: Seq<(String, u128)>, b: Seq<(String, u128)>)
    requires
        b.to_multiset() == a.to_multiset(),
        keys_unique(a),
    ensures
        keys_unique(b),
{
    assert(a.no_duplicates()) by {
        assert forall|i: int, j: int|
            0 <= i < a.len() && 0 <= j < a.len() && i != j implies a[i] != a[j] by {
            if a[i] == a[j] {
                assert(a[i].0@ == a[j].0@);
            }
        }
    }
    a.lemma_multiset_has_no_duplicates();
    b.lemma_multiset_has_no_duplicates_conv();
    assert forall|i: int, j: int| 0 <= i < j < b.len() implies b[i].0@ != b[j].0@ by {
        if b[i].0@ == b[j].0@ {
            assert(b[i] != b[j]);
            assert(b.contains(b[i]));
            assert(b.contains(b[j]));
            assert(b.to_multiset().count(b[i]) > 0);
            assert(b.to_multiset().count(b[j]) > 0);
            assert(a.to_multiset().count(b[i]) > 0);
            assert(a.to_multiset().count(b[j]) > 0);
            assert(a.contains(b[i]));
            assert(a.contains(b[j]));
            let k = choose|k: int| 0 <= k < a.len() && a[k] == b[i];
            let l = choose|l: int| 0 <= l < a.len() && a[l] == b[j];
            assert(k != l);
            assert(a[k].0@ != a[l].0@);
        }
    }
}

/// Sorts balance entries by amount, largest first, by insertion.
fn sort_desc(input: Vec<(String, u128)>) -> (r: Vec<(String, u128)>)
    ensures
        r@.to_multiset() == input@.to_multiset(),
        sorted_desc(r@),
{
    let mut rest = input;
    let mut out: Vec<(String, u128)> = Vec::new();
    proof {
        assert(out@.to_multiset().add(rest@.to_multiset()) =~= rest@.to_multiset());
    }
    loop
        invariant
            sorted_desc(out@),
            out@.to_multiset().add(rest@.to_multiset()) == input@.to_multiset(),
        ensures
            rest@.len() == 0,
            sorted_desc(out@),
            out@.to_multiset().add(rest@.to_multiset()) == input@.to_multiset(),
        decreases rest@.len(),
    {
        let ghost rest_before = rest@;
        let x = match rest.pop() {
            Some(x) => x,
            None => {
                break ;
            },
        };
        let ghost rest_after = rest@;
        proof {
            assert(rest_before =~= rest_after.push(x));
            assert(rest_after.push(x).to_multiset() =~= rest_after.to_multiset().insert(x));
            assert(rest_before.to_multiset() =~= rest_after.to_multiset().insert(x));
        }
        let mut p: usize = 0;
        while p < out.len() && out[p].1 >= x.1
            invariant
                0 <= p <= out@.len(),
                forall|i: int| 0 <= i < p ==> out@[i].1 >= x.1,
            decreases out@.len() - p,
        {
            p = p + 1;
        }
        let ghost out_before = out@;
        out.insert(p, x);
        proof {
            assert(out@ =~= out_before.insert(p as int, x));
            out_before.insert_ensures(p as int, x);
            assert(sorted_desc(out@)) by {
                assert forall|i: int, j: int| 0 <= i < j < out@.len() implies out@[i].1
                    >= out@[j].1 by {
                    if i < p && j == p {
                        assert(out@[i] == out_before[i]);
                    } else if i == p && j > p {
                        assert(out@[j] == out_before[j - 1]);
                        assert(out_before[j - 1].1 < x.1 || j - 1 >= p);
                        if j - 1 == p {
                        } else {
                            assert(out_before[p as int].1 < x.1 || p == out_before.len());
                        }
                    }
                }
            }
            assert(out@.to_multiset() =~= out_before.to_multiset().insert(x));
            assert(out@.to_multiset().add(rest@.to_multiset()) =~= out_before.to_multiset().add(
                rest@.to_multiset().insert(x),
            ));
            assert(out@.to_multiset().add(rest@.to_multiset()) =~= out_before.to_multiset().add(
                rest_before.to_multiset(),
            ));
        }
    }
    proof {
        assert(rest@.to_multiset() =~= Multiset::<(String, u128)>::empty());
        assert(out@.to_multiset().add(Multiset::<(String, u128)>::empty()) =~= out@.to_multiset());
    }
    out
}

/// Moves `amount` from `src` to `dst` inside a balance map, creating `dst`
/// when absent. The keys of other validators, and their balances, are kept.
fn apply_move(balances: &mut Vec<(String, u128)>, src: &String, dst: &String, amount: u128)
    requires
        keys_unique(old(balances)@),
        key_in(old(balances)@, src@),
        src@ != dst@,
        amount <= bal_of(old(balances)@, src@),
        sum_bal(old(balances)@) <= u128::MAX,
    ensures
        keys_unique(final(balances)@),
        sum_bal(final(balances)@) == sum_bal(old(balances)@),
        bal_of(final(balances)@, src@) == bal_of(old(balances)@, src@) - amount,
        bal_of(final(balances)@, dst@) == bal_of(old(balances)@, dst@) + amount,
        forall|k: Seq<char>|
            k != src@ && k != dst@ ==> bal_of(final(balances)@, k) == bal_of(old(balances)@, k),
        forall|k: Seq<char>| #[trigger]
            key_in(old(balances)@, k) ==> key_in(final(balances)@, k),
        forall|a: int|
            0 <= a < final(balances)@.len() ==> key_in(
                old(balances)@,
                (#[trigger] final(balances)@[a].0)@,
            ) || final(balances)@[a].0@ == dst@,
{
    let ghost bal0 = balances@;
    let si = match find_key(balances, src) {
        Some(si) => si,
        None => {
            proof {
                assert(false);
            }
            0
        },
    };
    proof {
        lemma_bal_of_at(balances@, si as int);
        crate::sums::lemma_sum_bal_nonneg(balances@);
        crate::sums::lemma_sum_bal_entry_le(balances@, si as int);
    }
    let src_bal = balances[si].1;
    set_bal(balances, si, src_bal - amount);
    let ghost bal1 = balances@;
    proof {
        lemma_sum_bal_update(bal0, si as int, (bal0[si as int].0, (src_bal - amount) as u128));
        assert(keys_unique(bal1)) by {
            assert forall|a: int, b: int|
                0 <= a < b < bal1.len() implies bal1[a].0@ != bal1[b].0@ by {
                assert(bal1[a].0@ == bal0[a].0@);
                assert(bal1[b].0@ == bal0[b].0@);
            }
        }
        lemma_bal_of_at(bal1, si as int);
        assert forall|k: Seq<char>| k != src@ implies bal_of(bal1, k) == bal_of(bal0, k) by {
            lemma_bal_of_update_other(
                bal0,
                si as int,
                (bal0[si as int].0, (src_bal - amount) as u128),
                k,
            );
        }
    }
    match find_key(balances, dst) {
        Some(di) => {
            proof {
                lemma_bal_of_at(bal1, di as int);
                assert(si != di);
                lemma_sum_bal_two(bal1, di as int, si as int);
                crate::sums::lemma_sum_bal_nonneg(bal1);
            }
            let dst_bal = balances[di].1;
            set_bal(balances, di, dst_bal + amount);
            proof {
                lemma_sum_bal_update(
                    bal1,
                    di as int,
                    (bal1[di as int].0, (dst_bal + amount) as u128),
                );
                assert(keys_unique(balances@)) by {
                    assert forall|a: int, b: int|
                        0 <= a < b < balances@.len() implies balances@[a].0@
                        != balances@[b].0@ by {
                        assert(balances@[a].0@ == bal1[a].0@);
                        assert(balances@[b].0@ == bal1[b].0@);
                    }
                }
                assert forall|k: Seq<char>| k != dst@ implies bal_of(balances@, k) == bal_of(
                    bal1,
                    k,
                ) by {
                    lemma_bal_of_update_other(
                        bal1,
                        di as int,
                        (bal1[di as int].0, (dst_bal + amount) as u128),
                        k,
                    );
                }
                assert forall|k: Seq<char>| #[trigger]
                    key_in(bal0, k) implies key_in(balances@, k) by {
                    let w = choose|w: int| 0 <= w < bal0.len() && bal0[w].0@ == k;
                    assert(balances@[w].0@ == bal0[w].0@);
                }
                assert forall|a: int|
                    0 <= a < balances@.len() implies key_in(
                    bal0,
                    (#[trigger] balances@[a].0)@,
                ) || balances@[a].0@ == dst@ by {
                    assert(balances@[a].0@ == bal0[a].0@);
                }
                assert(bal_of(balances@, src@) == bal_of(bal1, src@));
                lemma_bal_of_at(balances@, di as int);
                assert(balances@[di as int].0@ == dst@);
                assert(bal_of(balances@, dst@) == dst_bal + amount);
                assert(bal_of(bal1, dst@) == bal_of(bal0, dst@));
            }
        },
        None => {
            let dst_key = dst.clone();
            balances.push((dst_key, amount));
            proof {
                let e = balances@[bal1.len() as int];
                assert(balances@ =~= bal1.push(e));
                lemma_sum_bal_push(bal1, e);
                assert(keys_unique(balances@)) by {
                    assert forall|a: int, b: int|
                        0 <= a < b < balances@.len() implies balances@[a].0@
                        != balances@[b].0@ by {
                        if b < bal1.len() {
                            assert(balances@[a].0@ == bal1[a].0@);
                            assert(balances@[b].0@ == bal1[b].0@);
                        } else {
                            assert(balances@[a].0@ == bal1[a].0@);
                            assert(balances@[b].0@ == dst@);
                            assert(!key_in(bal1, dst@));
                        }
                    }
                }
                assert forall|k: Seq<char>| k != dst@ implies bal_of(balances@, k) == bal_of(
                    bal1,
                    k,
                ) by {
                    lemma_bal_of_push_other(bal1, e, k);
                }
                assert forall|k: Seq<char>| #[trigger]
                    key_in(bal0, k) implies key_in(balances@, k) by {
                    let w = choose|w: int| 0 <= w < bal0.len() && bal0[w].0@ == k;
                    assert(balances@[w].0@ == bal0[w].0@);
                }
                assert forall|a: int|
                    0 <= a < balances@.len() implies key_in(
                    bal0,
                    (#[trigger] balances@[a].0)@,
                ) || balances@[a].0@ == dst@ by {
                    if a < bal1.len() {
                        assert(balances@[a].0@ == bal1[a].0@);
                    }
                }
                assert(bal_of(balances@, src@) == bal_of(bal1, src@));
                lemma_bal_of_at(balances@, bal1.len() as int);
                assert(balances@[bal1.len() as int].0@ == dst@);
                assert(bal_of(balances@, dst@) == amount);
                assert(!key_in(bal1, dst@));
                crate::sums::lemma_bal_of_absent(bal1, dst@);
                assert(bal_of(bal1, dst@) == bal_of(bal0, dst@));
            }
        },
    }
}

/// Computes the redelegations that carry the old bonded balances onto the
/// new weight set, and the balances they leave behind, dropping emptied
/// validators. The old balances must sum to `total_bonded`: the planner
/// assumes the ledger is consistent.
///
/// Movement is conserved exactly: the new balances sum to `total_bonded`,
/// and only validators named in the old balances or the new weight set take
/// part. Fails only when a weight's share of the total does not fit the
/// amount type.
pub fn valset_change_redelegation_messages(
    total_bonded: u128,
    old_balances: &Vec<(String, u128)>,
    new_valset: &Vec<(String, Rate)>,
) -> (r: Result<ValsetChange, ContractError>)
    requires
        keys_unique(old_balances@),
        wkeys_unique(new_valset@),
        sum_bal(old_balances@) == total_bonded,
    ensures
        r is Err <==> (r == Err::<ValsetChange, ContractError>(ContractError::Overflow {})
            && some_target_overflows(total_bonded, new_valset@)),
        r is Ok ==> sum_bal(r->Ok_0.new_balances@) == total_bonded,
        r is Ok ==> keys_unique(r->Ok_0.new_balances@),
        r is Ok ==> forall|i: int|
            0 <= i < r->Ok_0.new_balances@.len() ==> #[trigger] r->Ok_0.new_balances@[i].1 > 0,
        r is Ok ==> forall|i: int|
            0 <= i < r->Ok_0.new_balances@.len() ==> key_in(
                old_balances@,
                #[trigger] r->Ok_0.new_balances@[i].0@,
            ) || wkey_in(new_valset@, r->Ok_0.new_balances@[i].0@),
        r is Ok ==> forall|i: int|
            0 <= i < r->Ok_0.messages@.len() ==> (#[trigger] r->Ok_0.messages@[i].amount) > 0
                && key_in(old_balances@, r->Ok_0.messages@[i].src_validator@) && (key_in(
                old_balances@,
                r->Ok_0.messages@[i].dst_validator@,
            ) || wkey_in(new_valset@, r->Ok_0.messages@[i].dst_validator@)),
        r is Ok ==> forall|k: Seq<char>|
            #![trigger bal_of(r->Ok_0.new_balances@, k)]
            bal_of(r->Ok_0.new_balances@, k) == bal_of(old_balances@, k) + msg_received(
                r->Ok_0.messages@,
                k,
            ) - msg_given(r->Ok_0.messages@, k),
        r is Ok ==> allocation_met(old_balances@, total_bonded, new_valset@)
            ==> r->Ok_0.messages@.len() == 0,
{
    // Targets: each new validator's floored share of the total.
    let mut targets: Vec<(String, u128)> = Vec::new();
    let nw = new_valset.len();
    let mut i: usize = 0;
    while i < nw
        invariant
            0 <= i <= nw,
            nw == new_valset@.len(),
            wkeys_unique(new_valset@),
            targets@.len() == i,
            forall|a: int| 0 <= a < i ==> (#[trigger] targets@[a].0)@ == new_valset@[a].0@,
            forall|a: int|
                0 <= a < i ==> (#[trigger] targets@[a].1) == mul_floor_spec(
                    total_bonded as int,
                    new_valset@[a].1,
                ),
            forall|a: int|
                0 <= a < i ==> (#[trigger] new_valset@[a].1).atomics * total_bonded <= u128::MAX,
        decreases nw - i,
    {
        let w = new_valset[i].1;
        match checked_mul_floor(total_bonded, w) {
            Some(t) => {
                proof {
                    assert(new_valset@[i as int].1.atomics * total_bonded <= u128::MAX)
                        by (nonlinear_arith)
                        requires
                            total_bonded * new_valset@[i as int].1.atomics <= u128::MAX,
                    ;
                }
                targets.push((new_valset[i].0.clone(), t));
            },
            None => {
                proof {
                    assert(new_valset@[i as int].1.atomics * total_bonded > u128::MAX)
                        by (nonlinear_arith)
                        requires
                            total_bonded * new_valset@[i as int].1.atomics > u128::MAX,
                    ;
                }
                return Err(ContractError::Overflow {});
            },
        }
        i = i + 1;
    }
    proof {
        assert(!some_target_overflows(total_bonded, new_valset@)) by {
            assert forall|a: int|
                0 <= a < new_valset@.len() implies (#[trigger] new_valset@[a].1).atomics
                * total_bonded <= u128::MAX by {}
        }
        assert(keys_unique(targets@));
    }

    // Classify: sources give stake away, destinations receive it.
    let mut from0: Vec<(String, u128)> = Vec::new();
    let mut to0: Vec<(String, u128)> = Vec::new();
    let nold = old_balances.len();
    let mut i: usize = 0;
    while i < nold
        invariant
            0 <= i <= nold,
            nold == old_balances@.len(),
            keys_unique(old_balances@),
            keys_unique(targets@),
            targets@.len() == new_valset@.len(),
            forall|a: int| 0 <= a < targets@.len() ==> (#[trigger] targets@[a].0)@ == new_valset@[a].0@,
            forall|a: int|
                0 <= a < targets@.len() ==> (#[trigger] targets@[a].1) == mul_floor_spec(
                    total_bonded as int,
                    new_valset@[a].1,
                ),
            allocation_met(old_balances@, total_bonded, new_valset@) ==> (from0@.len() == 0
                && to0@.len() == 0),
            forall|a: int|
                0 <= a < from0@.len() ==> key_in(old_balances@, (#[trigger] from0@[a].0)@),
            forall|a: int|
                0 <= a < from0@.len() ==> (#[trigger] from0@[a].1) <= bal_of(
                    old_balances@,
                    from0@[a].0@,
                ),
            forall|a: int, j: int|
                0 <= a < from0@.len() && i <= j < nold ==> (#[trigger] from0@[a].0)@ != (
                #[trigger] old_balances@[j].0)@,
            forall|b: int, j: int|
                0 <= b < to0@.len() && i <= j < nold ==> (#[trigger] to0@[b].0)@ != (
                #[trigger] old_balances@[j].0)@,
            keys_unique(from0@),
            forall|b: int| 0 <= b < to0@.len() ==> key_in(old_balances@, (#[trigger] to0@[b].0)@),
            forall|a: int, b: int|
                0 <= a < from0@.len() && 0 <= b < to0@.len() ==> (#[trigger] from0@[a].0)@ != (
                #[trigger] to0@[b].0)@,
        decreases nold - i,
    {
        let name = &old_balances[i].0;
        let amt = old_balances[i].1;
        proof {
            lemma_bal_of_at(old_balances@, i as int);
        }
        match find_key(&targets, name) {
            Some(j) => {
                let t = targets[j].1;
                proof {
                    if allocation_met(old_balances@, total_bonded, new_valset@) {
                        assert(new_valset@[j as int].0@ == name@);
                        assert(bal_of(old_balances@, name@) == mul_floor_spec(
                            total_bonded as int,
                            new_valset@[j as int].1,
                        ));
                        assert(amt == t);
                    }
                }
                if amt > t {
                    from0.push((name.clone(), amt - t));
                } else if amt < t {
                    to0.push((name.clone(), t - amt));
                }
            },
            None => {
                proof {
                    if allocation_met(old_balances@, total_bonded, new_valset@) {
                        assert(wkey_in(new_valset@, old_balances@[i as int].0@));
                        let w = choose|w: int|
                            0 <= w < new_valset@.len() && new_valset@[w].0@ == name@;
                        assert(targets@[w].0@ == name@);
                        assert(key_in(targets@, name@));
                        assert(false);
                    }
                }
                from0.push((name.clone(), amt));
            },
        }
        i = i + 1;
    }

    // New validators, absent from the old balances, are pure destinations.
    let nt = targets.len();
    let mut j: usize = 0;
    while j < nt
        invariant
            0 <= j <= nt,
            nt == targets@.len(),
            keys_unique(old_balances@),
            keys_unique(targets@),
            targets@.len() == new_valset@.len(),
            forall|a: int| 0 <= a < targets@.len() ==> (#[trigger] targets@[a].0)@ == new_valset@[a].0@,
            forall|a: int|
                0 <= a < targets@.len() ==> (#[trigger] targets@[a].1) == mul_floor_spec(
                    total_bonded as int,
                    new_valset@[a].1,
                ),
            allocation_met(old_balances@, total_bonded, new_valset@) ==> (from0@.len() == 0
                && to0@.len() == 0),
            forall|a: int|
                0 <= a < from0@.len() ==> key_in(old_balances@, (#[trigger] from0@[a].0)@),
            forall|a: int|
                0 <= a < from0@.len() ==> (#[trigger] from0@[a].1) <= bal_of(
                    old_balances@,
                    from0@[a].0@,
                ),
            keys_unique(from0@),
            forall|b: int|
                0 <= b < to0@.len() ==> key_in(old_balances@, (#[trigger] to0@[b].0)@) || key_in(
                    targets@,
                    to0@[b].0@,
                ),
            forall|a: int, b: int|
                0 <= a < from0@.len() && 0 <= b < to0@.len() ==> (#[trigger] from0@[a].0)@ != (
                #[trigger] to0@[b].0)@,
        decreases nt - j,
    {
        let name = &targets[j].0;
        if find_key(old_balances, name).is_none() {
            let t = targets[j].1;
            proof {
                assert(key_in(targets@, targets@[j as int].0@));
                if allocation_met(old_balances@, total_bonded, new_valset@) {
                    assert(key_in(old_balances@, new_valset@[j as int].0@));
                    assert(false);
                }
            }
            to0.push((name.clone(), t));
        }
        j = j + 1;
    }

    // Largest movements first, to keep the message count low.
    let ghost from0_seq = from0@;
    let ghost to0_seq = to0@;
    let from_sorted = sort_desc(from0);
    let to_sorted = sort_desc(to0);
    proof {
        if allocation_met(old_balances@, total_bonded, new_valset@) {
            assert(to_sorted@.to_multiset().len() == to_sorted@.len());
            assert(to0_seq.to_multiset().len() == to0_seq.len());
            assert(to_sorted@.len() == 0);
        }
        lemma_keys_distinct_after_permutation(from0_seq, from_sorted@);
        assert forall|a: int|
            0 <= a < from_sorted@.len() implies key_in(
            old_balances@,
            (#[trigger] from_sorted@[a].0)@,
        ) && from_sorted@[a].1 <= bal_of(old_balances@, from_sorted@[a].0@) by {
            assert(from_sorted@.contains(from_sorted@[a]));
            assert(from_sorted@.to_multiset().count(from_sorted@[a]) > 0);
            assert(from0_seq.to_multiset().count(from_sorted@[a]) > 0);
            assert(from0_seq.contains(from_sorted@[a]));
            let k = choose|k: int| 0 <= k < from0_seq.len() && from0_seq[k] == from_sorted@[a];
        }
        assert forall|b: int|
            0 <= b < to_sorted@.len() implies (key_in(old_balances@, (#[trigger] to_sorted@[b].0)@)
            || key_in(targets@, to_sorted@[b].0@)) by {
            assert(to_sorted@.contains(to_sorted@[b]));
            assert(to_sorted@.to_multiset().count(to_sorted@[b]) > 0);
            assert(to0_seq.to_multiset().count(to_sorted@[b]) > 0);
            assert(to0_seq.contains(to_sorted@[b]));
            let k = choose|k: int| 0 <= k < to0_seq.len() && to0_seq[k] == to_sorted@[b];
        }
        assert forall|a: int, b: int|
            0 <= a < from_sorted@.len() && 0 <= b < to_sorted@.len() implies (
        #[trigger] from_sorted@[a].0)@ != (#[trigger] to_sorted@[b].0)@ by {
            assert(from_sorted@.contains(from_sorted@[a]));
            assert(from_sorted@.to_multiset().count(from_sorted@[a]) > 0);
            assert(from0_seq.to_multiset().count(from_sorted@[a]) > 0);
            assert(from0_seq.contains(from_sorted@[a]));
            assert(to_sorted@.contains(to_sorted@[b]));
            assert(to_sorted@.to_multiset().count(to_sorted@[b]) > 0);
            assert(to0_seq.to_multiset().count(to_sorted@[b]) > 0);
            assert(to0_seq.contains(to_sorted@[b]));
            let k = choose|k: int| 0 <= k < from0_seq.len() && from0_seq[k] == from_sorted@[a];
            let l = choose|l: int| 0 <= l < to0_seq.len() && to0_seq[l] == to_sorted@[b];
            assert(from0_seq[k].0@ != to0_seq[l].0@);
        }
    }

    // Working balances start as a copy of the old ones.
    let mut balances: Vec<(String, u128)> = Vec::new();
    let mut i: usize = 0;
    while i < nold
        invariant
            0 <= i <= nold,
            nold == old_balances@.len(),
            balances@.len() == i,
            forall|a: int| 0 <= a < i ==> #[trigger] balances@[a].0@ == old_balances@[a].0@,
            forall|a: int| 0 <= a < i ==> #[trigger] balances@[a].1 == old_balances@[a].1,
            sum_bal(balances@) == sum_bal(old_balances@.subrange(0, i as int)),
        decreases nold - i,
    {
        proof {
            lemma_sum_bal_push(balances@, (old_balances@[i as int].0, old_balances@[i as int].1));
            assert(old_balances@.subrange(0, i + 1).drop_last() =~= old_balances@.subrange(
                0,
                i as int,
            ));
            crate::sums::lemma_sum_bal_split(old_balances@.subrange(0, i + 1), i as int);
            assert(old_balances@.subrange(0, i + 1).subrange(0, i as int) =~= old_balances@.subrange(
                0,
                i as int,
            ));
            assert(old_balances@.subrange(0, i + 1).subrange(i as int, i + 1) =~= seq![
                old_balances@[i as int],
            ]);
            crate::sums::lemma_sum_bal_singleton(old_balances@[i as int]);
        }
        balances.push((old_balances[i].0.clone(), old_balances[i].1));
        i = i + 1;
    }
    proof {
        assert(old_balances@.subrange(0, nold as int) =~= old_balances@);
        assert(keys_unique(balances@));
        assert forall|a: int|
            0 <= a < from_sorted@.len() implies key_in(
            balances@,
            (#[trigger] from_sorted@[a].0)@,
        ) && from_sorted@[a].1 <= bal_of(balances@, from_sorted@[a].0@) by {
            let k = choose|k: int|
                0 <= k < old_balances@.len() && old_balances@[k].0@ == from_sorted@[a].0@;
            assert(balances@[k].0@ == from_sorted@[a].0@);
            lemma_bal_of_at(balances@, k);
            lemma_bal_of_at(old_balances@, k);
        }
        assert forall|a: int|
            0 <= a < balances@.len() implies key_in(
            old_balances@,
            (#[trigger] balances@[a].0)@,
        ) by {
            assert(old_balances@[a].0@ == balances@[a].0@);
        }
        assert(crate::sums::payments_match(balances@, old_balances@));
        assert forall|kk: Seq<char>|
            #![trigger bal_of(balances@, kk)]
            bal_of(balances@, kk) == bal_of(old_balances@, kk) by {
            crate::sums::lemma_match_bal_of(balances@, old_balances@, kk);
        }
    }

    // Greedy matching: walk destinations, draining sources into each.
    let mut msgs: Vec<Redelegation> = Vec::new();
    let mut from_list = from_sorted;
    let nfrom = from_list.len();
    let nto = to_sorted.len();
    let mut j: usize = 0;
    while j < nto
        invariant
            0 <= j <= nto,
            nto == to_sorted@.len(),
            nfrom == from_list@.len(),
            keys_unique(old_balances@),
            keys_unique(targets@),
            keys_unique(balances@),
            sum_bal(balances@) == total_bonded,
            sum_bal(old_balances@) == total_bonded,
            allocation_met(old_balances@, total_bonded, new_valset@) ==> (nto == 0
                && msgs@.len() == 0),
            forall|kk: Seq<char>|
                #![trigger bal_of(balances@, kk)]
                bal_of(balances@, kk) == bal_of(old_balances@, kk) + msg_received(msgs@, kk)
                    - msg_given(msgs@, kk),
            keys_unique(from_list@),
            forall|a: int|
                0 <= a < from_list@.len() ==> key_in(balances@, (#[trigger] from_list@[a].0)@),
            forall|a: int|
                0 <= a < from_list@.len() ==> (#[trigger] from_list@[a].1) <= bal_of(
                    balances@,
                    from_list@[a].0@,
                ),
            forall|a: int|
                0 <= a < from_list@.len() ==> key_in(old_balances@, (#[trigger] from_list@[a].0)@),
            forall|b: int|
                0 <= b < to_sorted@.len() ==> (key_in(old_balances@, (#[trigger] to_sorted@[b].0)@)
                    || key_in(targets@, to_sorted@[b].0@)),
            forall|a: int, b: int|
                0 <= a < from_list@.len() && 0 <= b < to_sorted@.len() ==> (
                #[trigger] from_list@[a].0)@ != (#[trigger] to_sorted@[b].0)@,
            forall|a: int|
                0 <= a < balances@.len() ==> key_in(old_balances@, (#[trigger] balances@[a].0)@)
                    || key_in(targets@, balances@[a].0@),
            forall|m: int|
                0 <= m < msgs@.len() ==> (#[trigger] msgs@[m].amount) > 0 && key_in(
                    old_balances@,
                    msgs@[m].src_validator@,
                ) && (key_in(old_balances@, msgs@[m].dst_validator@) || key_in(
                    targets@,
                    msgs@[m].dst_validator@,
                )),
        decreases nto - j,
    {
        let dst = to_sorted[j].0.clone();
        proof {
            assert(dst@ == to_sorted@[j as int].0@);
        }
        let mut to_rem: u128 = to_sorted[j].1;
        let mut k: usize = 0;
        while k < nfrom
            invariant
                0 <= k <= nfrom,
                0 <= j < nto,
                nto == to_sorted@.len(),
                nfrom == from_list@.len(),
                dst@ == to_sorted@[j as int].0@,
                keys_unique(old_balances@),
                keys_unique(targets@),
                keys_unique(balances@),
                sum_bal(balances@) == total_bonded,
                sum_bal(old_balances@) == total_bonded,
                allocation_met(old_balances@, total_bonded, new_valset@) ==> (nto == 0
                    && msgs@.len() == 0),
                forall|kk: Seq<char>|
                    #![trigger bal_of(balances@, kk)]
                    bal_of(balances@, kk) == bal_of(old_balances@, kk) + msg_received(msgs@, kk)
                        - msg_given(msgs@, kk),
                keys_unique(from_list@),
                forall|a: int|
                    0 <= a < from_list@.len() ==> key_in(balances@, (#[trigger] from_list@[a].0)@),
                forall|a: int|
                    0 <= a < from_list@.len() ==> (#[trigger] from_list@[a].1) <= bal_of(
                        balances@,
                        from_list@[a].0@,
                    ),
                forall|a: int|
                    0 <= a < from_list@.len() ==> key_in(
                        old_balances@,
                        (#[trigger] from_list@[a].0)@,
                    ),
                forall|b: int|
                    0 <= b < to_sorted@.len() ==> (key_in(
                        old_balances@,
                        (#[trigger] to_sorted@[b].0)@,
                    ) || key_in(targets@, to_sorted@[b].0@)),
                forall|a: int, b: int|
                    0 <= a < from_list@.len() && 0 <= b < to_sorted@.len() ==> (
                    #[trigger] from_list@[a].0)@ != (#[trigger] to_sorted@[b].0)@,
                forall|a: int|
                    0 <= a < balances@.len() ==> key_in(old_balances@, (#[trigger] balances@[a].0)@)
                        || key_in(targets@, balances@[a].0@),
                forall|m: int|
                    0 <= m < msgs@.len() ==> (#[trigger] msgs@[m].amount) > 0 && key_in(
                        old_balances@,
                        msgs@[m].src_validator@,
                    ) && (key_in(old_balances@, msgs@[m].dst_validator@) || key_in(
                        targets@,
                        msgs@[m].dst_validator@,
                    )),
            decreases nfrom - k,
        {
            let from_rem = from_list[k].1;
            let amount = if from_rem < to_rem {
                from_rem
            } else {
                to_rem
            };
            if amount == 0 {
                k = k + 1;
                continue ;
            }
            let src = from_list[k].0.clone();
            proof {
                assert(src@ == from_list@[k as int].0@);
                assert(src@ != dst@);
                assert(from_list@[k as int].1 <= bal_of(balances@, from_list@[k as int].0@));
                crate::sums::lemma_sum_bal_nonneg(balances@);
            }

            // Drain the source entry and record the movement.
            let ghost from_before = from_list@;
            set_bal(&mut from_list, k, from_rem - amount);
            proof {
                assert(keys_unique(from_list@)) by {
                    assert forall|a: int, b: int|
                        0 <= a < b < from_list@.len() implies from_list@[a].0@
                        != from_list@[b].0@ by {
                        assert(from_list@[a].0@ == from_before[a].0@);
                        assert(from_list@[b].0@ == from_before[b].0@);
                    }
                }
                assert forall|a: int, b: int|
                    0 <= a < from_list@.len() && 0 <= b < to_sorted@.len() implies (
                #[trigger] from_list@[a].0)@ != (#[trigger] to_sorted@[b].0)@ by {
                    assert(from_list@[a].0@ == from_before[a].0@);
                }
            }
            let ghost msgs_before = msgs@;
            msgs.push(
                Redelegation {
                    src_validator: src.clone(),
                    dst_validator: dst.clone(),
                    amount,
                },
            );
            proof {
                assert(msgs@ =~= msgs_before.push(msgs@.last()));
                assert(msgs@.last().src_validator@ == src@);
                assert(msgs@.last().dst_validator@ == dst@);
                assert(msgs@.last().amount == amount);
                assert(from_list@[k as int].1 <= bal_of(balances@, from_list@[k as int].0@)
                    && key_in(old_balances@, from_list@[k as int].0@));
                assert forall|m: int|
                    0 <= m < msgs@.len() implies (#[trigger] msgs@[m].amount) > 0 && key_in(
                    old_balances@,
                    msgs@[m].src_validator@,
                ) && (key_in(old_balances@, msgs@[m].dst_validator@) || key_in(
                    targets@,
                    msgs@[m].dst_validator@,
                )) by {
                    if m < msgs_before.len() {
                        assert(msgs@[m] == msgs_before[m]);
                    }
                }
            }
            to_rem = to_rem - amount;

            // Move the amount between the working balances.
            let ghost bal_before = balances@;
            apply_move(&mut balances, &src, &dst, amount);
            proof {
                assert forall|kk: Seq<char>|
                    #![trigger bal_of(balances@, kk)]
                    bal_of(balances@, kk) == bal_of(old_balances@, kk) + msg_received(msgs@, kk)
                        - msg_given(msgs@, kk) by {
                    lemma_msg_flows_push(msgs_before, msgs@.last(), kk);
                    if kk == src@ {
                        assert(bal_of(balances@, kk) == bal_of(bal_before, kk) - amount);
                    } else if kk == dst@ {
                        assert(bal_of(balances@, kk) == bal_of(bal_before, kk) + amount);
                    } else {
                        assert(bal_of(balances@, kk) == bal_of(bal_before, kk));
                    }
                }
                assert forall|a: int|
                    0 <= a < from_list@.len() implies key_in(
                    balances@,
                    (#[trigger] from_list@[a].0)@,
                ) && from_list@[a].1 <= bal_of(balances@, from_list@[a].0@) && key_in(
                    old_balances@,
                    from_list@[a].0@,
                ) by {
                    assert(from_list@[a].0@ == from_before[a].0@);
                    assert(key_in(bal_before, from_before[a].0@));
                    if a == k {
                        assert(bal_of(balances@, src@) == bal_of(bal_before, src@) - amount);
                    } else {
                        assert(from_list@[a].0@ != src@);
                        assert(from_list@[a].0@ != dst@);
                        assert(bal_of(balances@, from_list@[a].0@) == bal_of(
                            bal_before,
                            from_list@[a].0@,
                        ));
                    }
                }
                assert forall|a: int|
                    0 <= a < balances@.len() implies key_in(
                    old_balances@,
                    (#[trigger] balances@[a].0)@,
                ) || key_in(targets@, balances@[a].0@) by {
                    if balances@[a].0@ != dst@ || key_in(bal_before, balances@[a].0@) {
                        let w = choose|w: int|
                            0 <= w < bal_before.len() && bal_before[w].0@ == balances@[a].0@;
                    } else {
                        assert(balances@[a].0@ == to_sorted@[j as int].0@);
                    }
                }
            }
            k = k + 1;
        }
        j = j + 1;
    }

    // Drop emptied validators.
    let mut new_balances: Vec<(String, u128)> = Vec::new();
    let nb = balances.len();
    let mut i: usize = 0;
    proof {
        assert(balances@.subrange(0, 0) =~= Seq::<(String, u128)>::empty());
        assert(crate::sums::positive_payments(Seq::<(String, u128)>::empty()) =~= Seq::<(
            String,
            u128,
        )>::empty());
    }
    while i < nb
        invariant
            0 <= i <= nb,
            nb == balances@.len(),
            keys_unique(balances@),
            sum_bal(new_balances@) == sum_bal(balances@.subrange(0, i as int)),
            forall|a: int| 0 <= a < new_balances@.len() ==> (#[trigger] new_balances@[a].1) > 0,
            forall|a: int|
                #![trigger new_balances@[a]]
                0 <= a < new_balances@.len() ==> exists|w: int|
                    0 <= w < i && (#[trigger] balances@[w]) == new_balances@[a],
            keys_unique(new_balances@),
            crate::sums::payments_match(
                new_balances@,
                crate::sums::positive_payments(balances@.subrange(0, i as int)),
            ),
            forall|a: int|
                0 <= a < balances@.len() ==> key_in(old_balances@, (#[trigger] balances@[a].0)@)
                    || key_in(targets@, balances@[a].0@),
        decreases nb - i,
    {
        proof {
            crate::sums::lemma_positive_push(balances@.subrange(0, i as int), balances@[i as int]);
            assert(balances@.subrange(0, i as int).push(balances@[i as int]) =~= balances@.subrange(
                0,
                i + 1,
            ));
            assert(balances@.subrange(0, i + 1).drop_last() =~= balances@.subrange(0, i as int));
            crate::sums::lemma_sum_bal_split(balances@.subrange(0, i + 1), i as int);
            assert(balances@.subrange(0, i + 1).subrange(0, i as int) =~= balances@.subrange(
                0,
                i as int,
            ));
            assert(balances@.subrange(0, i + 1).subrange(i as int, i + 1) =~= seq![
                balances@[i as int],
            ]);
            crate::sums::lemma_sum_bal_singleton(balances@[i as int]);
        }
        if balances[i].1 > 0 {
            let ghost nb_before = new_balances@;
            let entry_name = balances[i].0.clone();
            let entry_amt = balances[i].1;
            proof {
                lemma_sum_bal_push(new_balances@, (balances@[i as int].0, entry_amt));
            }
            new_balances.push((entry_name, entry_amt));
            proof {
                assert(new_balances@[nb_before.len() as int].0@ == balances@[i as int].0@);
                assert(keys_unique(new_balances@)) by {
                    assert forall|a: int, b: int|
                        0 <= a < b < new_balances@.len() implies new_balances@[a].0@
                        != new_balances@[b].0@ by {
                        if b < nb_before.len() {
                            assert(new_balances@[a] == nb_before[a]);
                            assert(new_balances@[b] == nb_before[b]);
                        } else {
                            assert(new_balances@[a] == nb_before[a]);
                            let w = choose|w: int|
                                0 <= w < i && (#[trigger] balances@[w]) == nb_before[a];
                            assert(balances@[w].0@ != balances@[i as int].0@);
                        }
                    }
                }
                assert forall|a: int|
                    #![trigger new_balances@[a]]
                    0 <= a < new_balances@.len() implies exists|w: int|
                    0 <= w < i + 1 && (#[trigger] balances@[w]) == new_balances@[a] by {
                    if a < nb_before.len() {
                        assert(new_balances@[a] == nb_before[a]);
                        let w = choose|w: int|
                            0 <= w < i && (#[trigger] balances@[w]) == nb_before[a];
                        assert(balances@[w] == new_balances@[a]);
                    } else {
                        assert(balances@[i as int] == new_balances@[a]);
                    }
                }
            }
        }
        i = i + 1;
    }
    proof {
        assert(balances@.subrange(0, nb as int) =~= balances@);
        assert forall|a: int|
            0 <= a < new_balances@.len() implies key_in(
            old_balances@,
            (#[trigger] new_balances@[a].0)@,
        ) || key_in(targets@, new_balances@[a].0@) by {
            let w = choose|w: int| 0 <= w < balances@.len() && balances@[w] == new_balances@[a];
        }
        assert forall|a: int|
            0 <= a < new_balances@.len() && key_in(
            targets@,
            (#[trigger] new_balances@[a].0)@,
        ) implies wkey_in(new_valset@, new_balances@[a].0@) by {
            let w = choose|w: int|
                0 <= w < targets@.len() && targets@[w].0@ == new_balances@[a].0@;
            assert(new_valset@[w].0@ == new_balances@[a].0@);
        }
        assert forall|m: int|
            0 <= m < msgs@.len() && key_in(
            targets@,
            (#[trigger] msgs@[m].dst_validator)@,
        ) implies wkey_in(new_valset@, msgs@[m].dst_validator@) by {
            let w = choose|w: int|
                0 <= w < targets@.len() && targets@[w].0@ == msgs@[m].dst_validator@;
            assert(new_valset@[w].0@ == msgs@[m].dst_validator@);
        }
        assert forall|kk: Seq<char>|
            #![trigger bal_of(new_balances@, kk)]
            bal_of(new_balances@, kk) == bal_of(old_balances@, kk) + msg_received(msgs@, kk)
                - msg_given(msgs@, kk) by {
            crate::sums::lemma_match_bal_of(
                new_balances@,
                crate::sums::positive_payments(balances@),
                kk,
            );
            crate::sums::lemma_positive_bal_of(balances@, kk);
        }
    }
    Ok(ValsetChange { messages: msgs, new_balances })
}

} // verus!
