//! Sums over the ledgers' sequences, with the lemmas the proofs lean on.

use vstd::prelude::*;

verus! {

/// Sum of the amounts in a validator-balance sequence.
pub open spec fn sum_bal(s: Seq<(String, u128)>) -> int
    decreases s.len(),
{
    if s.len() == 0 {
        0
    } else {
        s[0].1 + sum_bal(s.drop_first())
    }
}

pub proof fn lemma_sum_bal_push(s: Seq<(String, u128)>, x: (String, u128))
    ensures
        sum_bal(s.push(x)) == sum_bal(s) + x.1,
    decreases s.len(),
{
    if s.len() == 0 {
        assert(s.push(x)[0] == x);
        assert(s.push(x).drop_first() =~= Seq::<(String, u128)>::empty());
        assert(sum_bal(s.push(x).drop_first()) == 0);
    } else {
        assert(s.push(x)[0] == s[0]);
        assert(s.push(x).drop_first() =~= s.drop_first().push(x));
        lemma_sum_bal_push(s.drop_first(), x);
    }
}

pub proof fn lemma_sum_bal_update(s: Seq<(String, u128)>, i: int, x: (String, u128))
    requires
        0 <= i < s.len(),
    ensures
        sum_bal(s.update(i, x)) == sum_bal(s) - s[i].1 + x.1,
    decreases s.len(),
{
    if i == 0 {
        assert(s.update(0, x).drop_first() =~= s.drop_first());
    } else {
        assert(s.update(i, x).drop_first() =~= s.drop_first().update(i - 1, x));
        lemma_sum_bal_update(s.drop_first(), i - 1, x);
    }
}

pub proof fn lemma_sum_bal_nonneg(s: Seq<(String, u128)>)
    ensures
        sum_bal(s) >= 0,
    decreases s.len(),
{
    if s.len() > 0 {
        lemma_sum_bal_nonneg(s.drop_first());
    }
}

/// Every single entry is bounded by the whole sum.
pub proof fn lemma_sum_bal_entry_le(s: Seq<(String, u128)>, i: int)
    requires
        0 <= i < s.len(),
    ensures
        s[i].1 <= sum_bal(s),
    decreases s.len(),
{
    lemma_sum_bal_nonneg(s.drop_first());
    if i > 0 {
        lemma_sum_bal_entry_le(s.drop_first(), i - 1);
    }
}

/// Two distinct entries together stay within the whole sum.
pub proof fn lemma_sum_bal_two(s: Seq<(String, u128)>, i: int, j: int)
    requires
        0 <= i < s.len(),
        0 <= j < s.len(),
        i != j,
    ensures
        s[i].1 + s[j].1 <= sum_bal(s),
    decreases s.len(),
{
    if i == 0 {
        lemma_sum_bal_entry_le(s.drop_first(), j - 1);
    } else if j == 0 {
        lemma_sum_bal_entry_le(s.drop_first(), i - 1);
    } else {
        lemma_sum_bal_two(s.drop_first(), i - 1, j - 1);
    }
}

/// Each validator appears at most once in a balance map.
pub open spec fn keys_unique(s: Seq<(String, u128)>) -> bool {
    forall|i: int, j: int| 0 <= i < j < s.len() ==> s[i].0@ != s[j].0@
}

/// The balance map has an entry for the validator.
pub open spec fn key_in(s: Seq<(String, u128)>, key: Seq<char>) -> bool {
    exists|i: int| 0 <= i < s.len() && s[i].0@ == key
}

/// The validator's balance: its first entry's amount, zero when absent.
pub open spec fn bal_of(s: Seq<(String, u128)>, key: Seq<char>) -> int
    decreases s.len(),
{
    if s.len() == 0 {
        0
    } else if s[0].0@ == key {
        s[0].1 as int
    } else {
        bal_of(s.drop_first(), key)
    }
}

/// At a matching index, the validator's balance is that entry's amount.
pub proof fn lemma_bal_of_at(s: Seq<(String, u128)>, i: int)
    requires
        keys_unique(s),
        0 <= i < s.len(),
    ensures
        bal_of(s, s[i].0@) == s[i].1,
    decreases s.len(),
{
    if i > 0 {
        lemma_bal_of_at(s.drop_first(), i - 1);
    }
}

/// A validator matching no entry has balance zero.
pub proof fn lemma_bal_of_absent(s: Seq<(String, u128)>, key: Seq<char>)
    requires
        !key_in(s, key),
    ensures
        bal_of(s, key) == 0,
    decreases s.len(),
{
    if s.len() > 0 {
        assert(!key_in(s.drop_first(), key)) by {
            assert(forall|i: int|
                0 <= i < s.drop_first().len() ==> s.drop_first()[i] == s[i + 1]);
        }
        lemma_bal_of_absent(s.drop_first(), key);
    }
}

/// Updating one entry leaves every other validator's balance alone.
pub proof fn lemma_bal_of_update_other(
    s: Seq<(String, u128)>,
    i: int,
    e: (String, u128),
    key: Seq<char>,
)
    requires
        0 <= i < s.len(),
        s[i].0@ == e.0@,
        key != e.0@,
    ensures
        bal_of(s.update(i, e), key) == bal_of(s, key),
    decreases s.len(),
{
    if i == 0 {
        assert(s.update(0, e).drop_first() =~= s.drop_first());
    } else {
        assert(s.update(i, e).drop_first() =~= s.drop_first().update(i - 1, e));
        if s[0].0@ != key {
            lemma_bal_of_update_other(s.drop_first(), i - 1, e, key);
        }
    }
}

/// A pushed entry leaves every other validator's balance alone.
pub proof fn lemma_bal_of_push_other(s: Seq<(String, u128)>, e: (String, u128), key: Seq<char>)
    requires
        key != e.0@,
    ensures
        bal_of(s.push(e), key) == bal_of(s, key),
    decreases s.len(),
{
    if s.len() == 0 {
        assert(s.push(e)[0] == e);
        assert(s.push(e).drop_first() =~= Seq::<(String, u128)>::empty());
        assert(bal_of(s.push(e).drop_first(), key) == 0);
        assert(bal_of(s, key) == 0);
    } else {
        assert(s.push(e)[0] == s[0]);
        assert(s.push(e).drop_first() =~= s.drop_first().push(e));
        if s[0].0@ != key {
            lemma_bal_of_push_other(s.drop_first(), e, key);
        }
    }
}

/// The first entry's amount is the balance when nothing before it matches.
pub proof fn lemma_bal_of_first(s: Seq<(String, u128)>, i: int, key: Seq<char>)
    requires
        0 <= i < s.len(),
        s[i].0@ == key,
        forall|j: int| 0 <= j < i ==> s[j].0@ != key,
    ensures
        bal_of(s, key) == s[i].1,
    decreases s.len(),
{
    if i > 0 {
        lemma_bal_of_first(s.drop_first(), i - 1, key);
    }
}

/// The index of a validator's first entry in a balance map, if any.
pub fn find_key(s: &Vec<(String, u128)>, key: &String) -> (r: Option<usize>)
    ensures
        r is Some ==> 0 <= r->0 < s@.len() && s@[r->0 as int].0@ == key@,
        r is Some ==> forall|j: int| 0 <= j < r->0 ==> s@[j].0@ != key@,
        r is None ==> !key_in(s@, key@),
{
    let mut i: usize = 0;
    while i < s.len()
        invariant
            0 <= i <= s@.len(),
            forall|j: int| 0 <= j < i ==> s@[j].0@ != key@,
        decreases s@.len() - i,
    {
        if s[i].0.eq(key) {
            return Some(i);
        }
        i = i + 1;
    }
    None
}

/// Replaces the amount at `i`, keeping the validator name.
pub fn set_bal(s: &mut Vec<(String, u128)>, i: usize, amount: u128)
    requires
        0 <= i < old(s)@.len(),
    ensures
        final(s)@ =~= old(s)@.update(i as int, (old(s)@[i as int].0, amount)),
{
    let (name, _) = s.remove(i);
    s.insert(i, (name, amount));
    proof {
        assert(final(s)@ =~= old(s)@.update(i as int, (old(s)@[i as int].0, amount)));
    }
}

/// A one-entry sequence sums to that entry's amount.
pub proof fn lemma_sum_bal_singleton(e: (String, u128))
    ensures
        sum_bal(seq![e]) == e.1,
{
    assert(seq![e].len() == 1);
    assert(seq![e][0] == e);
    assert(seq![e].drop_first() =~= Seq::<(String, u128)>::empty());
    assert(sum_bal(seq![e].drop_first()) == 0);
}

/// Splitting off a prefix splits the sum.
pub proof fn lemma_sum_bal_split(s: Seq<(String, u128)>, k: int)
    requires
        0 <= k <= s.len(),
    ensures
        sum_bal(s) == sum_bal(s.subrange(0, k)) + sum_bal(s.subrange(k, s.len() as int)),
    decreases k,
{
    if k == 0 {
        assert(s.subrange(0, 0) =~= Seq::<(String, u128)>::empty());
        assert(s.subrange(0, s.len() as int) =~= s);
    } else {
        assert(s.subrange(0, k).drop_first() =~= s.drop_first().subrange(0, k - 1));
        assert(s.subrange(k, s.len() as int) =~= s.drop_first().subrange(
            k - 1,
            s.drop_first().len() as int,
        ));
        assert(s.drop_first().subrange(0, s.drop_first().len() as int) =~= s.drop_first());
        lemma_sum_bal_split(s.drop_first(), k - 1);
    }
}

/// Two payment lists agree entry by entry: same validator names (by view)
/// and same amounts.
pub open spec fn payments_match(actual: Seq<(String, u128)>, expected: Seq<(String, u128)>) -> bool {
    &&& actual.len() == expected.len()
    &&& forall|i: int| 0 <= i < actual.len() ==> (#[trigger] actual[i].0)@ == expected[i].0@
    &&& forall|i: int| 0 <= i < actual.len() ==> (#[trigger] actual[i].1) == expected[i].1
}

/// The entries with a nonzero amount, in order.
pub open spec fn positive_payments(s: Seq<(String, u128)>) -> Seq<(String, u128)>
    decreases s.len(),
{
    if s.len() == 0 {
        Seq::empty()
    } else if s[0].1 > 0 {
        positive_payments(s.drop_first()).insert(0, s[0])
    } else {
        positive_payments(s.drop_first())
    }
}

/// Dropping zero entries keeps the sum.
pub proof fn lemma_positive_sum(s: Seq<(String, u128)>)
    ensures
        sum_bal(positive_payments(s)) == sum_bal(s),
    decreases s.len(),
{
    if s.len() > 0 {
        lemma_positive_sum(s.drop_first());
        if s[0].1 > 0 {
            assert(positive_payments(s).drop_first() =~= positive_payments(s.drop_first()));
        }
    }
}

/// Matching lists have matching sums.
pub proof fn lemma_match_sum(a: Seq<(String, u128)>, b: Seq<(String, u128)>)
    requires
        payments_match(a, b),
    ensures
        sum_bal(a) == sum_bal(b),
    decreases a.len(),
{
    if a.len() > 0 {
        assert(payments_match(a.drop_first(), b.drop_first())) by {
            assert(forall|i: int|
                0 <= i < a.drop_first().len() ==> a.drop_first()[i] == a[i + 1]);
            assert(forall|i: int|
                0 <= i < b.drop_first().len() ==> b.drop_first()[i] == b[i + 1]);
        }
        lemma_match_sum(a.drop_first(), b.drop_first());
    }
}

/// Matching lists keep matching after dropping zero entries.
pub proof fn lemma_positive_match(a: Seq<(String, u128)>, b: Seq<(String, u128)>)
    requires
        payments_match(a, b),
    ensures
        payments_match(positive_payments(a), positive_payments(b)),
    decreases a.len(),
{
    if a.len() > 0 {
        assert(payments_match(a.drop_first(), b.drop_first())) by {
            assert(forall|i: int|
                0 <= i < a.drop_first().len() ==> a.drop_first()[i] == a[i + 1]);
            assert(forall|i: int|
                0 <= i < b.drop_first().len() ==> b.drop_first()[i] == b[i + 1]);
        }
        lemma_positive_match(a.drop_first(), b.drop_first());
        let pa = positive_payments(a.drop_first());
        let pb = positive_payments(b.drop_first());
        if a[0].1 > 0 {
            assert(positive_payments(a) =~= pa.insert(0, a[0]));
            assert(positive_payments(b) =~= pb.insert(0, b[0]));
            assert forall|i: int|
                0 <= i < positive_payments(a).len() implies (#[trigger] positive_payments(
                a,
            )[i].0)@ == positive_payments(b)[i].0@ && positive_payments(a)[i].1
                == positive_payments(b)[i].1 by {
                if i > 0 {
                    assert(positive_payments(a)[i] == pa[i - 1]);
                    assert(positive_payments(b)[i] == pb[i - 1]);
                }
            }
        }
    }
}

/// A key of the filtered list is a key of the original.
pub proof fn lemma_positive_key_in(s: Seq<(String, u128)>, k: Seq<char>)
    requires
        key_in(positive_payments(s), k),
    ensures
        key_in(s, k),
    decreases s.len(),
{
    if s.len() > 0 {
        let p = positive_payments(s.drop_first());
        if s[0].1 > 0 {
            assert(positive_payments(s) =~= p.insert(0, s[0]));
            if s[0].0@ != k {
                assert(key_in(p, k)) by {
                    let w = choose|w: int|
                        0 <= w < positive_payments(s).len() && positive_payments(s)[w].0@ == k;
                    assert(positive_payments(s)[w] == p[w - 1]);
                }
                lemma_positive_key_in(s.drop_first(), k);
                let w = choose|w: int|
                    0 <= w < s.drop_first().len() && s.drop_first()[w].0@ == k;
                assert(s[w + 1].0@ == k);
            }
        } else {
            lemma_positive_key_in(s.drop_first(), k);
            let w = choose|w: int| 0 <= w < s.drop_first().len() && s.drop_first()[w].0@ == k;
            assert(s[w + 1].0@ == k);
        }
    }
}

/// Filtering keeps keys pairwise distinct.
pub proof fn lemma_positive_keys_unique(s: Seq<(String, u128)>)
    requires
        keys_unique(s),
    ensures
        keys_unique(positive_payments(s)),
    decreases s.len(),
{
    if s.len() > 0 {
        assert(keys_unique(s.drop_first())) by {
            assert(forall|i: int| 0 <= i < s.drop_first().len() ==> s.drop_first()[i] == s[i + 1]);
        }
        lemma_positive_keys_unique(s.drop_first());
        let p = positive_payments(s.drop_first());
        if s[0].1 > 0 {
            assert(positive_payments(s) =~= p.insert(0, s[0]));
            assert forall|i: int, j: int|
                0 <= i < j < positive_payments(s).len() implies positive_payments(s)[i].0@
                != positive_payments(s)[j].0@ by {
                if i == 0 {
                    assert(positive_payments(s)[j] == p[j - 1]);
                    assert(key_in(p, p[j - 1].0@));
                    lemma_positive_key_in(s.drop_first(), p[j - 1].0@);
                    let w = choose|w: int|
                        0 <= w < s.drop_first().len() && s.drop_first()[w].0@ == p[j - 1].0@;
                    assert(s[w + 1].0@ == p[j - 1].0@);
                } else {
                    assert(positive_payments(s)[i] == p[i - 1]);
                    assert(positive_payments(s)[j] == p[j - 1]);
                }
            }
        }
    }
}

/// Keeps the entries with a nonzero amount, in order.
pub fn filter_positive(v: &Vec<(String, u128)>) -> (r: Vec<(String, u128)>)
    ensures
        payments_match(r@, positive_payments(v@)),
{
    let mut out: Vec<(String, u128)> = Vec::new();
    let n = v.len();
    let mut i: usize = 0;
    proof {
        assert(v@.subrange(0, 0) =~= Seq::<(String, u128)>::empty());
    }
    while i < n
        invariant
            0 <= i <= n,
            n == v@.len(),
            payments_match(out@, positive_payments(v@.subrange(0, i as int))),
        decreases n - i,
    {
        proof {
            lemma_positive_push(v@.subrange(0, i as int), v@[i as int]);
            assert(v@.subrange(0, i as int).push(v@[i as int]) =~= v@.subrange(0, i + 1));
        }
        if v[i].1 > 0 {
            out.push((v[i].0.clone(), v[i].1));
        }
        i = i + 1;
    }
    proof {
        assert(v@.subrange(0, n as int) =~= v@);
    }
    out
}

/// Filtering distributes over appending one entry.
pub proof fn lemma_positive_push(s: Seq<(String, u128)>, x: (String, u128))
    ensures
        x.1 > 0 ==> positive_payments(s.push(x)) =~= positive_payments(s).push(x),
        x.1 == 0 ==> positive_payments(s.push(x)) =~= positive_payments(s),
    decreases s.len(),
{
    if s.len() == 0 {
        assert(s.push(x)[0] == x);
        assert(s.push(x).drop_first() =~= Seq::<(String, u128)>::empty());
        assert(positive_payments(Seq::<(String, u128)>::empty()) =~= Seq::<(String, u128)>::empty());
        assert(positive_payments(s) =~= Seq::<(String, u128)>::empty());
        if x.1 > 0 {
            assert(positive_payments(s.push(x)) =~= Seq::<(String, u128)>::empty().insert(0, x));
            assert(Seq::<(String, u128)>::empty().insert(0, x) =~= positive_payments(s).push(x));
        }
    } else {
        assert(s.push(x)[0] == s[0]);
        assert(s.push(x).drop_first() =~= s.drop_first().push(x));
        lemma_positive_push(s.drop_first(), x);
        let p = positive_payments(s.drop_first());
        if s[0].1 > 0 {
            if x.1 > 0 {
                assert(positive_payments(s.push(x)) =~= p.push(x).insert(0, s[0]));
                assert(p.push(x).insert(0, s[0]) =~= p.insert(0, s[0]).push(x));
                assert(positive_payments(s) =~= p.insert(0, s[0]));
            } else {
                assert(positive_payments(s.push(x)) =~= p.insert(0, s[0]));
                assert(positive_payments(s) =~= p.insert(0, s[0]));
            }
        }
    }
}

/// Matching lists give every validator the same balance.
pub proof fn lemma_match_bal_of(a: Seq<(String, u128)>, b: Seq<(String, u128)>, k: Seq<char>)
    requires
        payments_match(a, b),
    ensures
        bal_of(a, k) == bal_of(b, k),
    decreases a.len(),
{
    if a.len() > 0 {
        assert(payments_match(a.drop_first(), b.drop_first())) by {
            assert(forall|i: int| 0 <= i < a.drop_first().len() ==> a.drop_first()[i] == a[i + 1]);
            assert(forall|i: int| 0 <= i < b.drop_first().len() ==> b.drop_first()[i] == b[i + 1]);
        }
        lemma_match_bal_of(a.drop_first(), b.drop_first(), k);
    }
}

/// Dropping zero entries changes no validator's balance, since a dropped
/// entry held zero and an absent validator reads as zero.
pub proof fn lemma_positive_bal_of(s: Seq<(String, u128)>, k: Seq<char>)
    requires
        keys_unique(s),
    ensures
        bal_of(positive_payments(s), k) == bal_of(s, k),
    decreases s.len(),
{
    if s.len() > 0 {
        assert(keys_unique(s.drop_first())) by {
            assert(forall|i: int| 0 <= i < s.drop_first().len() ==> s.drop_first()[i] == s[i + 1]);
        }
        lemma_positive_bal_of(s.drop_first(), k);
        let p = positive_payments(s.drop_first());
        if s[0].1 > 0 {
            assert(positive_payments(s) =~= p.insert(0, s[0]));
            assert(positive_payments(s)[0] == s[0]);
            assert(positive_payments(s).drop_first() =~= p);
        } else {
            if s[0].0@ == k {
                assert(!key_in(s.drop_first(), k)) by {
                    if key_in(s.drop_first(), k) {
                        let w = choose|w: int|
                            0 <= w < s.drop_first().len() && s.drop_first()[w].0@ == k;
                        assert(s[w + 1].0@ == s[0].0@);
                    }
                }
                lemma_bal_of_absent(s.drop_first(), k);
            }
        }
    }
}

/// Every kept entry holds a nonzero amount.
pub proof fn lemma_positive_all_pos(s: Seq<(String, u128)>)
    ensures
        forall|i: int| 0 <= i < positive_payments(s).len() ==> (#[trigger] positive_payments(
            s,
        )[i].1) > 0,
    decreases s.len(),
{
    if s.len() > 0 {
        lemma_positive_all_pos(s.drop_first());
        let p = positive_payments(s.drop_first());
        if s[0].1 > 0 {
            assert(positive_payments(s) =~= p.insert(0, s[0]));
            assert forall|i: int|
                0 <= i < positive_payments(s).len() implies (#[trigger] positive_payments(
                s,
            )[i].1) > 0 by {
                if i > 0 {
                    assert(positive_payments(s)[i] == p[i - 1]);
                }
            }
        }
    }
}

/// Adds `amount` to the validator's balance, creating the entry when absent.
/// Every other validator's balance, and the key set but for `key`, is kept.
pub fn credit(s: &mut Vec<(String, u128)>, key: &String, amount: u128)
    requires
        keys_unique(old(s)@),
        sum_bal(old(s)@) + amount <= u128::MAX,
    ensures
        keys_unique(final(s)@),
        sum_bal(final(s)@) == sum_bal(old(s)@) + amount,
        bal_of(final(s)@, key@) == bal_of(old(s)@, key@) + amount,
        forall|k: Seq<char>| k != key@ ==> bal_of(final(s)@, k) == bal_of(old(s)@, k),
        forall|k: Seq<char>| #[trigger] key_in(old(s)@, k) ==> key_in(final(s)@, k),
        forall|a: int|
            0 <= a < final(s)@.len() ==> key_in(old(s)@, (#[trigger] final(s)@[a].0)@)
                || final(s)@[a].0@ == key@,
    {
    let ghost s0 = s@;
    match find_key(s, key) {
        Some(i) => {
            proof {
                lemma_bal_of_at(s0, i as int);
                lemma_sum_bal_entry_le(s0, i as int);
                lemma_sum_bal_nonneg(s0);
            }
            let cur = s[i].1;
            set_bal(s, i, cur + amount);
            proof {
                lemma_sum_bal_update(s0, i as int, (s0[i as int].0, (cur + amount) as u128));
                assert(keys_unique(s@)) by {
                    assert forall|a: int, b: int|
                        0 <= a < b < s@.len() implies s@[a].0@ != s@[b].0@ by {
                        assert(s@[a].0@ == s0[a].0@);
                        assert(s@[b].0@ == s0[b].0@);
                    }
                }
                lemma_bal_of_at(s@, i as int);
                assert forall|k: Seq<char>| k != key@ implies bal_of(s@, k) == bal_of(s0, k) by {
                    lemma_bal_of_update_other(
                        s0,
                        i as int,
                        (s0[i as int].0, (cur + amount) as u128),
                        k,
                    );
                }
                assert forall|k: Seq<char>| #[trigger] key_in(s0, k) implies key_in(s@, k) by {
                    let w = choose|w: int| 0 <= w < s0.len() && s0[w].0@ == k;
                    assert(s@[w].0@ == s0[w].0@);
                }
                assert forall|a: int|
                    0 <= a < s@.len() implies key_in(s0, (#[trigger] s@[a].0)@) || s@[a].0@
                    == key@ by {
                    assert(s@[a].0@ == s0[a].0@);
                }
            }
        },
        None => {
            let key_cl = key.clone();
            s.push((key_cl, amount));
            proof {
                let e = s@[s0.len() as int];
                assert(s@ =~= s0.push(e));
                lemma_sum_bal_push(s0, e);
                lemma_bal_of_absent(s0, key@);
                assert(keys_unique(s@)) by {
                    assert forall|a: int, b: int|
                        0 <= a < b < s@.len() implies s@[a].0@ != s@[b].0@ by {
                        if b < s0.len() {
                            assert(s@[a].0@ == s0[a].0@);
                            assert(s@[b].0@ == s0[b].0@);
                        } else {
                            assert(s@[a].0@ == s0[a].0@);
                            assert(s@[b].0@ == key@);
                            assert(!key_in(s0, key@));
                        }
                    }
                }
                lemma_bal_of_at(s@, s0.len() as int);
                assert forall|k: Seq<char>| k != key@ implies bal_of(s@, k) == bal_of(s0, k) by {
                    lemma_bal_of_push_other(s0, e, k);
                }
                assert forall|k: Seq<char>| #[trigger] key_in(s0, k) implies key_in(s@, k) by {
                    let w = choose|w: int| 0 <= w < s0.len() && s0[w].0@ == k;
                    assert(s@[w].0@ == s0[w].0@);
                }
                assert forall|a: int|
                    0 <= a < s@.len() implies key_in(s0, (#[trigger] s@[a].0)@) || s@[a].0@
                    == key@ by {
                    if a < s0.len() {
                        assert(s@[a].0@ == s0[a].0@);
                    }
                }
            }
        },
    }
}

/// Removes `amount` from the validator's balance. The key set and every
/// other validator's balance are kept.
pub fn debit(s: &mut Vec<(String, u128)>, key: &String, amount: u128)
    requires
        keys_unique(old(s)@),
        key_in(old(s)@, key@),
        amount <= bal_of(old(s)@, key@),
    ensures
        keys_unique(final(s)@),
        sum_bal(final(s)@) == sum_bal(old(s)@) - amount,
        bal_of(final(s)@, key@) == bal_of(old(s)@, key@) - amount,
        forall|k: Seq<char>| k != key@ ==> bal_of(final(s)@, k) == bal_of(old(s)@, k),
        final(s)@.len() == old(s)@.len(),
        forall|a: int| 0 <= a < final(s)@.len() ==> (#[trigger] final(s)@[a].0)@ == old(s)@[a].0@,
    {
    let ghost s0 = s@;
    let i = match find_key(s, key) {
        Some(i) => i,
        None => {
            proof {
                assert(false);
            }
            0
        },
    };
    proof {
        lemma_bal_of_at(s0, i as int);
        lemma_sum_bal_nonneg(s0);
        lemma_sum_bal_entry_le(s0, i as int);
    }
    let cur = s[i].1;
    set_bal(s, i, cur - amount);
    proof {
        lemma_sum_bal_update(s0, i as int, (s0[i as int].0, (cur - amount) as u128));
        assert(keys_unique(s@)) by {
            assert forall|a: int, b: int| 0 <= a < b < s@.len() implies s@[a].0@ != s@[b].0@ by {
                assert(s@[a].0@ == s0[a].0@);
                assert(s@[b].0@ == s0[b].0@);
            }
        }
        lemma_bal_of_at(s@, i as int);
        assert forall|k: Seq<char>| k != key@ implies bal_of(s@, k) == bal_of(s0, k) by {
            lemma_bal_of_update_other(s0, i as int, (s0[i as int].0, (cur - amount) as u128), k);
        }
        assert forall|a: int|
            0 <= a < s@.len() implies (#[trigger] s@[a].0)@ == s0[a].0@ by {}
    }
}

} // verus!
