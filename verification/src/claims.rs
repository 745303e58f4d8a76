//! The claims ledger: per-holder queues of maturing redemption obligations.
//!
//! Settling walks a holder's claims once, in insertion order: a matured claim
//! is paid while adding it keeps the running total within the cap; the first
//! matured claim that would break the cap stays pending, and so does
//! everything after it.

use vstd::prelude::*;

use crate::error::ContractError;

verus! {

/// A holder's pending redemption: an amount releasable at a timestamp.
#[derive(Clone, Copy, Debug, PartialEq, Eq, Structural)]
pub struct Claim {
    pub amount: u128,
    pub release_at: u64,
}

impl Claim {
    pub fn new(amount: u128, release_at: u64) -> (c: Claim)
        ensures
            c == (Claim { amount, release_at }),
    {
        Claim { amount, release_at }
    }
}

/// Sum of the amounts in a claim sequence.
pub open spec fn sum_claims(s: Seq<Claim>) -> int
    decreases s.len(),
{
    if s.len() == 0 {
        0
    } else {
        s[0].amount + sum_claims(s.drop_first())
    }
}

pub proof fn lemma_sum_claims_push(s: Seq<Claim>, c: Claim)
    ensures
        sum_claims(s.push(c)) == sum_claims(s) + c.amount,
    decreases s.len(),
{
    if s.len() == 0 {
        assert(s.push(c)[0] == c);
        assert(s.push(c).drop_first() =~= Seq::<Claim>::empty());
        assert(sum_claims(s.push(c).drop_first()) == 0);
    } else {
        assert(s.push(c)[0] == s[0]);
        assert(s.push(c).drop_first() =~= s.drop_first().push(c));
        lemma_sum_claims_push(s.drop_first(), c);
    }
}

pub proof fn lemma_sum_claims_nonneg(s: Seq<Claim>)
    ensures
        sum_claims(s) >= 0,
    decreases s.len(),
{
    if s.len() > 0 {
        lemma_sum_claims_nonneg(s.drop_first());
    }
}

/// What one settling pass pays, given the claims still ahead and the amount
/// `acc` already accumulated: the final accumulated amount.
pub open spec fn settle_paid(claims: Seq<Claim>, now: u64, cap: u128, acc: int) -> int
    decreases claims.len(),
{
    if claims.len() == 0 {
        acc
    } else {
        let c = claims[0];
        if c.release_at <= now {
            if acc + c.amount <= cap {
                settle_paid(claims.drop_first(), now, cap, acc + c.amount)
            } else {
                acc
            }
        } else {
            settle_paid(claims.drop_first(), now, cap, acc)
        }
    }
}

/// What one settling pass leaves pending, in the original order.
pub open spec fn settle_left(claims: Seq<Claim>, now: u64, cap: u128, acc: int) -> Seq<Claim>
    decreases claims.len(),
{
    if claims.len() == 0 {
        Seq::empty()
    } else {
        let c = claims[0];
        if c.release_at <= now {
            if acc + c.amount <= cap {
                settle_left(claims.drop_first(), now, cap, acc + c.amount)
            } else {
                claims
            }
        } else {
            settle_left(claims.drop_first(), now, cap, acc).insert(0, c)
        }
    }
}

/// A settling pass conserves value: what it pays plus what it leaves is what
/// was there.
pub proof fn lemma_settle_conserves(claims: Seq<Claim>, now: u64, cap: u128, acc: int)
    ensures
        settle_paid(claims, now, cap, acc) - acc + sum_claims(
            settle_left(claims, now, cap, acc),
        ) == sum_claims(claims),
    decreases claims.len(),
{
    if claims.len() > 0 {
        let c = claims[0];
        if c.release_at <= now {
            if acc + c.amount <= cap {
                lemma_settle_conserves(claims.drop_first(), now, cap, acc + c.amount);
            }
        } else {
            lemma_settle_conserves(claims.drop_first(), now, cap, acc);
            assert(settle_left(claims, now, cap, acc).drop_first() =~= settle_left(
                claims.drop_first(),
                now,
                cap,
                acc,
            ));
        }
    }
}

/// A settling pass never pays beyond the cap.
pub proof fn lemma_settle_capped(claims: Seq<Claim>, now: u64, cap: u128, acc: int)
    requires
        acc <= cap,
    ensures
        acc <= settle_paid(claims, now, cap, acc) <= cap,
    decreases claims.len(),
{
    if claims.len() > 0 {
        let c = claims[0];
        if c.release_at <= now {
            if acc + c.amount <= cap {
                lemma_settle_capped(claims.drop_first(), now, cap, acc + c.amount);
            }
        } else {
            lemma_settle_capped(claims.drop_first(), now, cap, acc);
        }
    }
}

/// A holder's claims never exceed the ledger's total.
pub proof fn lemma_claims_of_le_total(entries: Seq<(String, Vec<Claim>)>, holder: Seq<char>)
    ensures
        0 <= sum_claims(claims_of(entries, holder)) <= total_claims(entries),
    decreases entries.len(),
{
    lemma_sum_claims_nonneg(claims_of(entries, holder));
    if entries.len() > 0 {
        lemma_sum_claims_nonneg(entries[0].1@);
        lemma_total_claims_nonneg(entries.drop_first());
        lemma_claims_of_le_total(entries.drop_first(), holder);
    }
}

/// Per-holder queues of claims. Each holder appears at most once.
pub struct Claims {
    pub entries: Vec<(String, Vec<Claim>)>,
}

/// Each holder appears at most once in the ledger.
pub open spec fn holders_unique(entries: Seq<(String, Vec<Claim>)>) -> bool {
    forall|i: int, j: int|
        0 <= i < j < entries.len() ==> entries[i].0@ != entries[j].0@
}

/// The claims a holder has, in insertion order; empty for an unknown holder.
pub open spec fn claims_of(entries: Seq<(String, Vec<Claim>)>, holder: Seq<char>) -> Seq<Claim>
    decreases entries.len(),
{
    if entries.len() == 0 {
        Seq::empty()
    } else if entries[0].0@ == holder {
        entries[0].1@
    } else {
        claims_of(entries.drop_first(), holder)
    }
}

/// Sum of all claims across all holders.
pub open spec fn total_claims(entries: Seq<(String, Vec<Claim>)>) -> int
    decreases entries.len(),
{
    if entries.len() == 0 {
        0
    } else {
        sum_claims(entries[0].1@) + total_claims(entries.drop_first())
    }
}

pub proof fn lemma_total_claims_nonneg(entries: Seq<(String, Vec<Claim>)>)
    ensures
        total_claims(entries) >= 0,
    decreases entries.len(),
{
    if entries.len() > 0 {
        lemma_sum_claims_nonneg(entries[0].1@);
        lemma_total_claims_nonneg(entries.drop_first());
    }
}

pub proof fn lemma_total_claims_push(entries: Seq<(String, Vec<Claim>)>, e: (String, Vec<Claim>))
    ensures
        total_claims(entries.push(e)) == total_claims(entries) + sum_claims(e.1@),
    decreases entries.len(),
{
    if entries.len() == 0 {
        assert(entries.push(e)[0] == e);
        assert(entries.push(e).drop_first() =~= Seq::<(String, Vec<Claim>)>::empty());
        assert(total_claims(entries.push(e).drop_first()) == 0);
    } else {
        assert(entries.push(e)[0] == entries[0]);
        assert(entries.push(e).drop_first() =~= entries.drop_first().push(e));
        lemma_total_claims_push(entries.drop_first(), e);
    }
}

pub proof fn lemma_total_claims_update(
    entries: Seq<(String, Vec<Claim>)>,
    i: int,
    e: (String, Vec<Claim>),
)
    requires
        0 <= i < entries.len(),
    ensures
        total_claims(entries.update(i, e)) == total_claims(entries) - sum_claims(entries[i].1@)
            + sum_claims(e.1@),
    decreases entries.len(),
{
    if i == 0 {
        assert(entries.update(0, e).drop_first() =~= entries.drop_first());
    } else {
        assert(entries.update(i, e).drop_first() =~= entries.drop_first().update(i - 1, e));
        lemma_total_claims_update(entries.drop_first(), i - 1, e);
    }
}

/// At a matching index, the holder's claims are that entry's claims.
pub proof fn lemma_claims_of_at(entries: Seq<(String, Vec<Claim>)>, i: int)
    requires
        holders_unique(entries),
        0 <= i < entries.len(),
    ensures
        claims_of(entries, entries[i].0@) == entries[i].1@,
    decreases entries.len(),
{
    if i > 0 {
        lemma_claims_of_at(entries.drop_first(), i - 1);
    }
}

/// A holder matching no entry has no claims.
pub proof fn lemma_claims_of_absent(entries: Seq<(String, Vec<Claim>)>, holder: Seq<char>)
    requires
        forall|i: int| 0 <= i < entries.len() ==> entries[i].0@ != holder,
    ensures
        claims_of(entries, holder) == Seq::<Claim>::empty(),
    decreases entries.len(),
{
    if entries.len() > 0 {
        lemma_claims_of_absent(entries.drop_first(), holder);
    }
}

/// Updating one entry changes no other holder's claims.
pub proof fn lemma_claims_of_update_other(
    entries: Seq<(String, Vec<Claim>)>,
    i: int,
    e: (String, Vec<Claim>),
    holder: Seq<char>,
)
    requires
        0 <= i < entries.len(),
        entries[i].0@ == e.0@,
        holder != e.0@,
    ensures
        claims_of(entries.update(i, e), holder) == claims_of(entries, holder),
    decreases entries.len(),
{
    if entries.len() > 0 {
        if i == 0 {
            assert(entries.update(0, e).drop_first() =~= entries.drop_first());
        } else {
            assert(entries.update(i, e).drop_first() =~= entries.drop_first().update(i - 1, e));
            if entries[0].0@ != holder {
                lemma_claims_of_update_other(entries.drop_first(), i - 1, e, holder);
            }
        }
    }
}

/// A pushed entry changes no existing holder's claims.
pub proof fn lemma_claims_of_push_other(
    entries: Seq<(String, Vec<Claim>)>,
    e: (String, Vec<Claim>),
    holder: Seq<char>,
)
    requires
        holder != e.0@,
    ensures
        claims_of(entries.push(e), holder) == claims_of(entries, holder),
    decreases entries.len(),
{
    if entries.len() == 0 {
        assert(entries.push(e)[0] == e);
        assert(entries.push(e).drop_first() =~= Seq::<(String, Vec<Claim>)>::empty());
        assert(claims_of(entries.push(e).drop_first(), holder) =~= Seq::<Claim>::empty());
        assert(claims_of(entries, holder) =~= Seq::<Claim>::empty());
    } else {
        assert(entries.push(e)[0] == entries[0]);
        assert(entries.push(e).drop_first() =~= entries.drop_first().push(e));
        if entries[0].0@ != holder {
            lemma_claims_of_push_other(entries.drop_first(), e, holder);
        }
    }
}

impl Claims {
    pub open spec fn wf(self) -> bool {
        holders_unique(self.entries@)
    }

    /// Sum of all claims across all holders.
    pub open spec fn spec_total(self) -> int {
        total_claims(self.entries@)
    }

    /// The claims a holder has, in insertion order.
    pub open spec fn spec_claims_of(self, holder: Seq<char>) -> Seq<Claim> {
        claims_of(self.entries@, holder)
    }

    pub fn new() -> (l: Claims)
        ensures
            l.wf(),
            l.spec_total() == 0,
            forall|h: Seq<char>| l.spec_claims_of(h) == Seq::<Claim>::empty(),
    {
        Claims { entries: Vec::new() }
    }

    /// The index of a holder's entry, if there is one.
    fn find(&self, holder: &String) -> (r: Option<usize>)
        requires
            self.wf(),
        ensures
            r is Some ==> 0 <= r->0 < self.entries@.len() && self.entries@[r->0 as int].0@
                == holder@,
            r is None ==> forall|i: int|
                0 <= i < self.entries@.len() ==> self.entries@[i].0@ != holder@,
    {
        let mut i: usize = 0;
        while i < self.entries.len()
            invariant
                0 <= i <= self.entries@.len(),
                forall|j: int| 0 <= j < i ==> self.entries@[j].0@ != holder@,
            decreases self.entries@.len() - i,
        {
            if self.entries[i].0.eq(holder) {
                return Some(i);
            }
            i = i + 1;
        }
        None
    }

    /// Appends a claim to the holder's queue, creating the queue on its
    /// first claim.
    pub fn create_claim(&mut self, holder: &String, amount: u128, release_at: u64)
        requires
            old(self).wf(),
        ensures
            final(self).wf(),
            final(self).spec_total() == old(self).spec_total() + amount,
            final(self).spec_claims_of(holder@) == old(self).spec_claims_of(holder@).push(
                Claim { amount, release_at },
            ),
            forall|h: Seq<char>|
                h != holder@ ==> final(self).spec_claims_of(h) == old(self).spec_claims_of(h),
    {
        let ghost entries0 = self.entries@;
        match self.find(holder) {
            Some(i) => {
                proof {
                    lemma_claims_of_at(entries0, i as int);
                }
                let mut queue = take_claims(&mut self.entries, i);
                let ghost queue0 = queue@;
                queue.push(Claim { amount, release_at });
                put_claims(&mut self.entries, i, queue);
                proof {
                    let e = self.entries@[i as int];
                    assert(self.entries@ =~= entries0.update(i as int, e));
                    assert(e.1@ =~= queue0.push(Claim { amount, release_at }));
                    lemma_sum_claims_push(queue0, Claim { amount, release_at });
                    lemma_total_claims_update(entries0, i as int, e);
                    lemma_claims_of_at(self.entries@, i as int);
                    assert forall|h: Seq<char>| h != holder@ implies claims_of(self.entries@, h)
                        == claims_of(entries0, h) by {
                        lemma_claims_of_update_other(entries0, i as int, e, h);
                        assert(entries0.update(i as int, e) =~= self.entries@);
                    }
                }
            },
            None => {
                let mut queue: Vec<Claim> = Vec::new();
                queue.push(Claim { amount, release_at });
                let holder_key = holder.clone();
                self.entries.push((holder_key, queue));
                proof {
                    let e = self.entries@[entries0.len() as int];
                    assert(self.entries@ =~= entries0.push(e));
                    lemma_total_claims_push(entries0, e);
                    assert(sum_claims(e.1@) == amount) by {
                        assert(e.1@[0] == Claim { amount, release_at });
                        assert(e.1@.drop_first() =~= Seq::<Claim>::empty());
                        assert(sum_claims(e.1@.drop_first()) == 0);
                    }
                    lemma_claims_of_at(self.entries@, entries0.len() as int);
                    lemma_claims_of_absent(entries0, holder@);
                    assert(claims_of(self.entries@, holder@) =~= claims_of(
                        entries0,
                        holder@,
                    ).push(Claim { amount, release_at }));
                    assert forall|h: Seq<char>| h != holder@ implies claims_of(self.entries@, h)
                        == claims_of(entries0, h) by {
                        lemma_claims_of_push_other(entries0, e, h);
                    }
                }
            },
        }
    }

    /// Walks the holder's matured claims in insertion order, removes those
    /// that fit under `cap` as a running total, and returns their sum.
    /// The first matured claim that would break the cap, and everything after
    /// it, stays pending. Returns zero when nothing could be paid.
    pub fn claim_tokens(&mut self, holder: &String, now: u64, cap: u128) -> (paid: u128)
        requires
            old(self).wf(),
        ensures
            final(self).wf(),
            paid == settle_paid(old(self).spec_claims_of(holder@), now, cap, 0),
            final(self).spec_claims_of(holder@) == settle_left(
                old(self).spec_claims_of(holder@),
                now,
                cap,
                0,
            ),
            forall|h: Seq<char>|
                h != holder@ ==> final(self).spec_claims_of(h) == old(self).spec_claims_of(h),
            final(self).spec_total() == old(self).spec_total() - paid,
            paid <= cap,
    {
        let ghost entries0 = self.entries@;
        let i = match self.find(holder) {
            Some(i) => i,
            None => {
                proof {
                    lemma_claims_of_absent(entries0, holder@);
                    lemma_settle_conserves(Seq::<Claim>::empty(), now, cap, 0);
                }
                return 0;
            },
        };
        proof {
            lemma_claims_of_at(entries0, i as int);
        }
        let queue = take_claims(&mut self.entries, i);
        let ghost q = queue@;
        let mut kept: Vec<Claim> = Vec::new();
        let mut paid: u128 = 0;
        let mut j: usize = 0;
        let n = queue.len();
        let mut stopped = false;
        proof {
            assert(q.subrange(0, n as int) =~= q);
            assert(kept@ + settle_left(q, now, cap, 0) =~= settle_left(q, now, cap, 0));
        }
        while j < n
            invariant
                n == q.len(),
                0 <= j <= n,
                queue@ == q,
                paid <= cap,
                !stopped ==> settle_paid(q, now, cap, 0) == settle_paid(
                    q.subrange(j as int, n as int),
                    now,
                    cap,
                    paid as int,
                ),
                !stopped ==> settle_left(q, now, cap, 0) =~= kept@ + settle_left(
                    q.subrange(j as int, n as int),
                    now,
                    cap,
                    paid as int,
                ),
                stopped ==> settle_paid(q, now, cap, 0) == paid,
                stopped ==> settle_left(q, now, cap, 0) =~= kept@ + q.subrange(j as int, n as int),
            decreases n - j,
        {
            let c = queue[j];
            proof {
                assert(q.subrange(j as int, n as int).drop_first() =~= q.subrange(
                    j + 1,
                    n as int,
                ));
            }
            if stopped {
                kept.push(c);
            } else if c.release_at <= now {
                if paid <= u128::MAX - c.amount && paid + c.amount <= cap {
                    paid = paid + c.amount;
                } else {
                    stopped = true;
                    let ghost kept_before = kept@;
                    kept.push(c);
                    proof {
                        assert(q.subrange(j as int, n as int)[0] == c);
                        assert(settle_left(q.subrange(j as int, n as int), now, cap, paid as int)
                            =~= q.subrange(j as int, n as int));
                        assert(kept_before + q.subrange(j as int, n as int) =~= kept@ + q.subrange(
                            j + 1,
                            n as int,
                        ));
                    }
                }
            } else {
                let ghost kept_before = kept@;
                kept.push(c);
                proof {
                    assert(q.subrange(j as int, n as int)[0] == c);
                    assert(kept_before + settle_left(
                        q.subrange(j as int, n as int),
                        now,
                        cap,
                        paid as int,
                    ) =~= kept@ + settle_left(q.subrange(j + 1, n as int), now, cap, paid as int));
                }
            }
            j = j + 1;
        }
        proof {
            if !stopped {
                assert(q.subrange(n as int, n as int) =~= Seq::<Claim>::empty());
                assert(kept@ + Seq::<Claim>::empty() =~= kept@);
            } else {
                assert(q.subrange(n as int, n as int) =~= Seq::<Claim>::empty());
                assert(kept@ + Seq::<Claim>::empty() =~= kept@);
            }
            assert(settle_left(q, now, cap, 0) =~= kept@);
        }
        put_claims(&mut self.entries, i, kept);
        proof {
            let e = self.entries@[i as int];
            assert(self.entries@ =~= entries0.update(i as int, e));
            lemma_total_claims_update(entries0, i as int, e);
            lemma_settle_conserves(q, now, cap, 0);
            lemma_claims_of_at(self.entries@, i as int);
            assert forall|h: Seq<char>| h != holder@ implies claims_of(self.entries@, h)
                == claims_of(entries0, h) by {
                lemma_claims_of_update_other(entries0, i as int, e, h);
                assert(entries0.update(i as int, e) =~= self.entries@);
            }
        }
        paid
    }

    /// What a settling pass at `now` under `cap` would pay, without paying.
    pub fn settle_preview(&self, holder: &String, now: u64, cap: u128) -> (paid: u128)
        requires
            self.wf(),
        ensures
            paid == settle_paid(self.spec_claims_of(holder@), now, cap, 0),
            paid <= cap,
    {
        let i = match self.find(holder) {
            Some(i) => i,
            None => {
                proof {
                    lemma_claims_of_absent(self.entries@, holder@);
                }
                return 0;
            },
        };
        proof {
            lemma_claims_of_at(self.entries@, i as int);
        }
        let queue = &self.entries[i].1;
        let ghost q = queue@;
        let mut paid: u128 = 0;
        let mut j: usize = 0;
        let n = queue.len();
        proof {
            assert(q.subrange(0, n as int) =~= q);
        }
        while j < n
            invariant
                n == q.len(),
                0 <= j <= n,
                queue@ == q,
                0 <= i < self.entries@.len(),
                queue@ == self.entries@[i as int].1@,
                self.spec_claims_of(holder@) == q,
                paid <= cap,
                settle_paid(q, now, cap, 0) == settle_paid(
                    q.subrange(j as int, n as int),
                    now,
                    cap,
                    paid as int,
                ),
            decreases n - j,
        {
            let c = queue[j];
            proof {
                assert(q.subrange(j as int, n as int)[0] == c);
                assert(q.subrange(j as int, n as int).drop_first() =~= q.subrange(
                    j + 1,
                    n as int,
                ));
            }
            if c.release_at <= now {
                if paid <= u128::MAX - c.amount && paid + c.amount <= cap {
                    paid = paid + c.amount;
                } else {
                    proof {
                        assert(paid + c.amount > cap);
                        assert(settle_paid(q.subrange(j as int, n as int), now, cap, paid as int)
                            == paid);
                    }
                    return paid;
                }
            }
            j = j + 1;
        }
        proof {
            assert(q.subrange(n as int, n as int) =~= Seq::<Claim>::empty());
        }
        paid
    }

    /// The holder's pending claims, in insertion order.
    pub fn query_claims(&self, holder: &String) -> (r: Vec<Claim>)
        requires
            self.wf(),
        ensures
            r@ == self.spec_claims_of(holder@),
    {
        match self.find(holder) {
            Some(i) => {
                proof {
                    lemma_claims_of_at(self.entries@, i as int);
                }
                let mut out: Vec<Claim> = Vec::new();
                let mut j: usize = 0;
                let source = &self.entries[i].1;
                while j < source.len()
                    invariant
                        0 <= j <= source@.len(),
                        out@ =~= source@.subrange(0, j as int),
                        source@ == self.entries@[i as int].1@,
                        0 <= i < self.entries@.len(),
                    decreases source@.len() - j,
                {
                    out.push(source[j]);
                    proof {
                        assert(out@ =~= source@.subrange(0, j + 1));
                    }
                    j = j + 1;
                }
                proof {
                    assert(out@ =~= source@);
                }
                out
            },
            None => {
                proof {
                    lemma_claims_of_absent(self.entries@, holder@);
                }
                Vec::new()
            },
        }
    }
}


/// One bucket of claims scaled entry by entry, release dates kept.
pub open spec fn scaled_claims_match(
    before: Seq<Claim>,
    after: Seq<Claim>,
    multiplier: crate::rate::Rate,
) -> bool {
    &&& after.len() == before.len()
    &&& forall|i: int|
        0 <= i < before.len() ==> (#[trigger] after[i]) == (Claim {
            amount: crate::rate::mul_floor_spec(before[i].amount as int, multiplier) as u128,
            release_at: before[i].release_at,
        })
}

/// One claims ledger scaled entry by entry from another: same holders, in
/// order, every amount scaled down, release dates kept.
pub open spec fn ledger_scaled(
    before: Claims,
    after: Claims,
    multiplier: crate::rate::Rate,
) -> bool {
    &&& after.entries@.len() == before.entries@.len()
    &&& forall|x: int|
        0 <= x < before.entries@.len() ==> (#[trigger] after.entries@[x].0)@
            == before.entries@[x].0@
    &&& forall|x: int|
        0 <= x < before.entries@.len() ==> scaled_claims_match(
            before.entries@[x].1@,
            (#[trigger] after.entries@[x]).1@,
            multiplier,
        )
}

/// Scaling down never grows a bucket's sum.
pub proof fn lemma_scaled_claims_le(
    before: Seq<Claim>,
    after: Seq<Claim>,
    multiplier: crate::rate::Rate,
)
    requires
        scaled_claims_match(before, after, multiplier),
        multiplier.atomics <= crate::rate::RATE_ONE,
    ensures
        0 <= sum_claims(after) <= sum_claims(before),
    decreases before.len(),
{
    lemma_sum_claims_nonneg(after);
    if before.len() > 0 {
        assert(scaled_claims_match(before.drop_first(), after.drop_first(), multiplier)) by {
            assert(forall|i: int|
                0 <= i < before.drop_first().len() ==> before.drop_first()[i] == before[i + 1]);
            assert(forall|i: int|
                0 <= i < after.drop_first().len() ==> after.drop_first()[i] == after[i + 1]);
        }
        lemma_scaled_claims_le(before.drop_first(), after.drop_first(), multiplier);
        crate::rate::lemma_mul_floor_le(before[0].amount as int, multiplier);
    }
}

impl Claims {
    /// Every claim of every holder scaled down by `multiplier`, with the new
    /// overall total. `None` when a product does not fit the amount type.
    pub fn scale_all(&self, multiplier: crate::rate::Rate) -> (r: Option<(Claims, u128)>)
        requires
            self.wf(),
            self.spec_total() <= u128::MAX,
            multiplier.atomics <= crate::rate::RATE_ONE,
        ensures
            r is Some ==> (r->0).0.wf(),
            r is Some ==> ledger_scaled(*self, (r->0).0, multiplier),
            r is Some ==> (r->0).1 == total_claims((r->0).0.entries@),
            r is Some ==> (r->0).1 <= self.spec_total(),
            (forall|x: int, j: int|
                0 <= x < self.entries@.len() && 0 <= j < self.entries@[x].1@.len() ==> (
                #[trigger] self.entries@[x].1@[j]).amount * multiplier.atomics <= u128::MAX) ==> (
            r is Some),
    {
        let mut out: Vec<(String, Vec<Claim>)> = Vec::new();
        let n = self.entries.len();
        let mut i: usize = 0;
        proof {
            assert(self.entries@.subrange(0, 0) =~= Seq::<(String, Vec<Claim>)>::empty());
        }
        let mut total: u128 = 0;
        while i < n
            invariant
                0 <= i <= n,
                n == self.entries@.len(),
                self.wf(),
                self.spec_total() <= u128::MAX,
                multiplier.atomics <= crate::rate::RATE_ONE,
                out@.len() == i,
                forall|t: int|
                    0 <= t < i ==> ((#[trigger] out@[t].0)@ == self.entries@[t].0@
                        && scaled_claims_match(self.entries@[t].1@, out@[t].1@, multiplier)),
                total == total_claims(out@),
                total_claims(out@) <= total_claims(self.entries@.subrange(0, i as int)),
            decreases n - i,
        {
            proof {
                assert(self.entries@.subrange(0, i + 1).drop_last() =~= self.entries@.subrange(
                    0,
                    i as int,
                ));
                lemma_total_claims_prefix(self.entries@, i + 1);
                lemma_total_claims_prefix(self.entries@, i as int);
            }
            let bucket = &self.entries[i].1;
            let mut nb: Vec<Claim> = Vec::new();
            let nc = bucket.len();
            let mut k: usize = 0;
            let mut bsum: u128 = 0;
            proof {
                lemma_sum_claims_nonneg(bucket@);
                assert(bucket@.subrange(0, 0) =~= Seq::<Claim>::empty());
                assert(self.entries@.subrange(0, i as int).push(self.entries@[i as int])
                    =~= self.entries@.subrange(0, i + 1));
                lemma_total_claims_push(
                    self.entries@.subrange(0, i as int),
                    self.entries@[i as int],
                );
                lemma_total_claims_nonneg(self.entries@.subrange(0, i as int));
                assert(sum_claims(bucket@) <= u128::MAX);
            }
            while k < nc
                invariant
                    0 <= k <= nc,
                    nc == bucket@.len(),
                    0 <= i < self.entries@.len(),
                    bucket@ == self.entries@[i as int].1@,
                    multiplier.atomics <= crate::rate::RATE_ONE,
                    nb@.len() == k,
                    forall|t: int|
                        0 <= t < k ==> (#[trigger] nb@[t]) == (Claim {
                            amount: crate::rate::mul_floor_spec(
                                bucket@[t].amount as int,
                                multiplier,
                            ) as u128,
                            release_at: bucket@[t].release_at,
                        }),
                    bsum == sum_claims(nb@),
                    sum_claims(nb@) <= sum_claims(bucket@.subrange(0, k as int)),
                    sum_claims(bucket@.subrange(0, k as int)) <= sum_claims(bucket@),
                    sum_claims(bucket@) <= u128::MAX,
                decreases nc - k,
            {
                proof {
                    assert(bucket@.subrange(0, k + 1).drop_last() =~= bucket@.subrange(
                        0,
                        k as int,
                    ));
                    lemma_sum_claims_prefix(bucket@, k + 1);
                    lemma_sum_claims_prefix(bucket@, k as int);
                    assert(bucket@.subrange(0, k + 1)[k as int] == bucket@[k as int]);
                    lemma_sum_claims_push(
                        bucket@.subrange(0, k as int),
                        bucket@[k as int],
                    );
                    assert(bucket@.subrange(0, k as int).push(bucket@[k as int])
                        =~= bucket@.subrange(0, k + 1));
                    crate::rate::lemma_mul_floor_le(bucket@[k as int].amount as int, multiplier);
                }
                let c = bucket[k];
                let scaled = match crate::rate::checked_mul_floor(c.amount, multiplier) {
                    Some(v) => v,
                    None => {
                        proof {
                            assert(self.entries@[i as int].1@[k as int].amount * multiplier.atomics
                                > u128::MAX);
                        }
                        return None;
                    },
                };
                let ghost nb0 = nb@;
                nb.push(Claim { amount: scaled, release_at: c.release_at });
                proof {
                    lemma_sum_claims_push(nb0, nb@[k as int]);
                    assert(nb@ =~= nb0.push(nb@[k as int]));
                }
                bsum = bsum + scaled;
                k = k + 1;
            }
            proof {
                assert(bucket@.subrange(0, nc as int) =~= bucket@);
            }
            let name = self.entries[i].0.clone();
            let ghost out0 = out@;
            out.push((name, nb));
            proof {
                lemma_total_claims_push(out0, out@[i as int]);
                assert(out@ =~= out0.push(out@[i as int]));
                assert(self.entries@.subrange(0, i as int).push(self.entries@[i as int])
                    =~= self.entries@.subrange(0, i + 1));
                lemma_total_claims_push(
                    self.entries@.subrange(0, i as int),
                    self.entries@[i as int],
                );
            }
            total = total + bsum;
            i = i + 1;
        }
        proof {
            assert(self.entries@.subrange(0, n as int) =~= self.entries@);
            let ledger = Claims { entries: out };
            assert(holders_unique(ledger.entries@)) by {
                assert forall|a: int, b: int|
                    0 <= a < b < out@.len() implies out@[a].0@ != out@[b].0@ by {
                    assert(out@[a].0@ == self.entries@[a].0@);
                    assert(out@[b].0@ == self.entries@[b].0@);
                }
            }
            assert(ledger_scaled(*self, ledger, multiplier)) by {
                assert forall|x: int|
                    0 <= x < self.entries@.len() implies ((#[trigger] ledger.entries@[x].0)@
                    == self.entries@[x].0@ && scaled_claims_match(
                    self.entries@[x].1@,
                    ledger.entries@[x].1@,
                    multiplier,
                )) by {
                    assert(ledger.entries@[x] == out@[x]);
                    assert(out@[x].0@ == self.entries@[x].0@);
                }
                assert forall|x: int|
                    0 <= x < self.entries@.len() implies scaled_claims_match(
                    self.entries@[x].1@,
                    (#[trigger] ledger.entries@[x]).1@,
                    multiplier,
                ) by {
                    assert(ledger.entries@[x] == out@[x]);
                    assert(out@[x].0@ == self.entries@[x].0@);
                }
            }
        }
        Some((Claims { entries: out }, total))
    }
}

/// A prefix's total never exceeds the whole ledger's.
pub proof fn lemma_total_claims_prefix(entries: Seq<(String, Vec<Claim>)>, k: int)
    requires
        0 <= k <= entries.len(),
    ensures
        total_claims(entries.subrange(0, k)) <= total_claims(entries),
    decreases entries.len(),
{
    if entries.len() == 0 || k == 0 {
        assert(entries.subrange(0, 0) =~= Seq::<(String, Vec<Claim>)>::empty());
        lemma_total_claims_nonneg(entries);
    } else {
        assert(entries.subrange(0, k).drop_first() =~= entries.drop_first().subrange(0, k - 1));
        assert(entries.subrange(0, k)[0] == entries[0]);
        lemma_total_claims_prefix(entries.drop_first(), k - 1);
    }
}

/// A prefix's sum never exceeds the whole bucket's.
pub proof fn lemma_sum_claims_prefix(s: Seq<Claim>, k: int)
    requires
        0 <= k <= s.len(),
    ensures
        sum_claims(s.subrange(0, k)) <= sum_claims(s),
    decreases s.len(),
{
    if s.len() == 0 || k == 0 {
        assert(s.subrange(0, 0) =~= Seq::<Claim>::empty());
        lemma_sum_claims_nonneg(s);
    } else {
        assert(s.subrange(0, k).drop_first() =~= s.drop_first().subrange(0, k - 1));
        assert(s.subrange(0, k)[0] == s[0]);
        lemma_sum_claims_prefix(s.drop_first(), k - 1);
    }
}

/// Takes the claims vector at `i` out of the ledger, leaving an empty one.
fn take_claims(entries: &mut Vec<(String, Vec<Claim>)>, i: usize) -> (q: Vec<Claim>)
    requires
        0 <= i < old(entries)@.len(),
    ensures
        q == old(entries)@[i as int].1,
        final(entries)@ =~= old(entries)@.update(
            i as int,
            (old(entries)@[i as int].0, final(entries)@[i as int].1),
        ),
        final(entries)@[i as int].0 == old(entries)@[i as int].0,
        final(entries)@[i as int].1@ == Seq::<Claim>::empty(),
{
    let (name, q) = entries.remove(i);
    entries.insert(i, (name, Vec::new()));
    proof {
        assert(final(entries)@ =~= old(entries)@.update(
            i as int,
            final(entries)@[i as int],
        ));
    }
    q
}

/// Puts a claims vector back into the ledger slot at `i`.
fn put_claims(entries: &mut Vec<(String, Vec<Claim>)>, i: usize, q: Vec<Claim>)
    requires
        0 <= i < old(entries)@.len(),
    ensures
        final(entries)@ =~= old(entries)@.update(i as int, (old(entries)@[i as int].0, q)),
{
    let (name, _) = entries.remove(i);
    entries.insert(i, (name, q));
    proof {
        assert(final(entries)@ =~= old(entries)@.update(
            i as int,
            (old(entries)@[i as int].0, q),
        ));
    }
}

} // verus!
