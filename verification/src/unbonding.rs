//! The unbonding queue: pending undelegations bucketed by the timestamp at
//! which they mature, held in ascending maturity order.

use vstd::prelude::*;

use crate::rate::{checked_mul_floor, mul_floor_spec, Rate};

verus! {

/// One pending undelegation: an amount leaving a validator.
#[derive(Clone, Debug, PartialEq, Eq)]
pub struct Unbonding {
    /// The amount of tokens unbonding.
    pub amount: u128,
    /// The validator the tokens are unbonding from.
    pub validator: String,
}

/// Sum of the amounts in one maturity bucket.
pub open spec fn sum_unb(s: Seq<Unbonding>) -> int
    decreases s.len(),
{
    if s.len() == 0 {
        0
    } else {
        s[0].amount + sum_unb(s.drop_first())
    }
}

pub proof fn lemma_sum_unb_nonneg(s: Seq<Unbonding>)
    ensures
        sum_unb(s) >= 0,
    decreases s.len(),
{
    if s.len() > 0 {
        lemma_sum_unb_nonneg(s.drop_first());
    }
}

pub proof fn lemma_sum_unb_push(s: Seq<Unbonding>, x: Unbonding)
    ensures
        sum_unb(s.push(x)) == sum_unb(s) + x.amount,
    decreases s.len(),
{
    if s.len() == 0 {
        assert(s.push(x)[0] == x);
        assert(s.push(x).drop_first() =~= Seq::<Unbonding>::empty());
        assert(sum_unb(s.push(x).drop_first()) == 0);
    } else {
        assert(s.push(x)[0] == s[0]);
        assert(s.push(x).drop_first() =~= s.drop_first().push(x));
        lemma_sum_unb_push(s.drop_first(), x);
    }
}

/// Sum of all amounts over all maturity buckets.
pub open spec fn queue_total(entries: Seq<(u64, Vec<Unbonding>)>) -> int
    decreases entries.len(),
{
    if entries.len() == 0 {
        0
    } else {
        sum_unb(entries[0].1@) + queue_total(entries.drop_first())
    }
}

pub proof fn lemma_queue_total_nonneg(entries: Seq<(u64, Vec<Unbonding>)>)
    ensures
        queue_total(entries) >= 0,
    decreases entries.len(),
{
    if entries.len() > 0 {
        lemma_sum_unb_nonneg(entries[0].1@);
        lemma_queue_total_nonneg(entries.drop_first());
    }
}

pub proof fn lemma_queue_total_push(entries: Seq<(u64, Vec<Unbonding>)>, e: (u64, Vec<Unbonding>))
    ensures
        queue_total(entries.push(e)) == queue_total(entries) + sum_unb(e.1@),
    decreases entries.len(),
{
    if entries.len() == 0 {
        assert(entries.push(e)[0] == e);
        assert(entries.push(e).drop_first() =~= Seq::<(u64, Vec<Unbonding>)>::empty());
        assert(queue_total(entries.push(e).drop_first()) == 0);
    } else {
        assert(entries.push(e)[0] == entries[0]);
        assert(entries.push(e).drop_first() =~= entries.drop_first().push(e));
        lemma_queue_total_push(entries.drop_first(), e);
    }
}

/// Sum of the amounts in buckets already mature at `now`.
pub open spec fn mature_total(entries: Seq<(u64, Vec<Unbonding>)>, now: u64) -> int
    decreases entries.len(),
{
    if entries.len() == 0 {
        0
    } else if entries[0].0 <= now {
        sum_unb(entries[0].1@) + mature_total(entries.drop_first(), now)
    } else {
        mature_total(entries.drop_first(), now)
    }
}

pub proof fn lemma_mature_le_total(entries: Seq<(u64, Vec<Unbonding>)>, now: u64)
    ensures
        0 <= mature_total(entries, now) <= queue_total(entries),
    decreases entries.len(),
{
    if entries.len() > 0 {
        lemma_sum_unb_nonneg(entries[0].1@);
        lemma_mature_le_total(entries.drop_first(), now);
    }
}

/// A queue whose every bucket matures after `now` frees nothing at `now`.
pub proof fn lemma_mature_zero(entries: Seq<(u64, Vec<Unbonding>)>, now: u64)
    requires
        forall|i: int| 0 <= i < entries.len() ==> #[trigger] entries[i].0 > now,
    ensures
        mature_total(entries, now) == 0,
    decreases entries.len(),
{
    if entries.len() > 0 {
        assert(forall|i: int|
            0 <= i < entries.drop_first().len() ==> #[trigger] entries.drop_first()[i].0 > now);
        lemma_mature_zero(entries.drop_first(), now);
    }
}

/// The queue once every bucket mature at `now` is removed, order kept.
pub open spec fn remaining_after(entries: Seq<(u64, Vec<Unbonding>)>, now: u64) -> Seq<(
    u64,
    Vec<Unbonding>,
)>
    decreases entries.len(),
{
    if entries.len() == 0 {
        Seq::empty()
    } else if entries[0].0 <= now {
        remaining_after(entries.drop_first(), now)
    } else {
        remaining_after(entries.drop_first(), now).insert(0, entries[0])
    }
}

/// A queue whose buckets all mature after `now` is left whole.
pub proof fn lemma_remaining_id(entries: Seq<(u64, Vec<Unbonding>)>, now: u64)
    requires
        forall|i: int| 0 <= i < entries.len() ==> #[trigger] entries[i].0 > now,
    ensures
        remaining_after(entries, now) =~= entries,
    decreases entries.len(),
{
    if entries.len() > 0 {
        assert(forall|i: int|
            0 <= i < entries.drop_first().len() ==> #[trigger] entries.drop_first()[i].0 > now);
        lemma_remaining_id(entries.drop_first(), now);
        assert(remaining_after(entries.drop_first(), now).insert(0, entries[0]) =~= entries);
    }
}

/// Maturities strictly increase along the queue.
pub open spec fn keys_increasing(entries: Seq<(u64, Vec<Unbonding>)>) -> bool {
    forall|i: int, j: int| 0 <= i < j < entries.len() ==> entries[i].0 < entries[j].0
}

/// A bucket holds an amount unbonding from the given validator.
pub open spec fn bucket_has_validator(bucket: Seq<Unbonding>, validator: Seq<char>) -> bool {
    exists|k: int| 0 <= k < bucket.len() && bucket[k].validator@ == validator
}

/// Pending undelegations bucketed by maturity, ascending.
pub struct UnbondingQueue {
    pub entries: Vec<(u64, Vec<Unbonding>)>,
}

impl UnbondingQueue {
    pub open spec fn wf(self) -> bool {
        keys_increasing(self.entries@)
    }

    pub open spec fn spec_total(self) -> int {
        queue_total(self.entries@)
    }

    pub fn new() -> (q: UnbondingQueue)
        ensures
            q.wf(),
            q.spec_total() == 0,
            q.entries@.len() == 0,
    {
        UnbondingQueue { entries: Vec::new() }
    }

    /// Number of distinct maturity buckets.
    pub fn num_epochs(&self) -> (n: u64)
        requires
            self.entries@.len() <= u64::MAX,
        ensures
            n == self.entries@.len(),
    {
        self.entries.len() as u64
    }

    /// Number of undelegation entries over all buckets.
    pub fn total_entries(&self) -> (n: u64)
        requires
            self.entries@.len() < u64::MAX,
            forall|i: int|
                0 <= i < self.entries@.len() ==> #[trigger] self.entries@[i].1@.len()
                    < u64::MAX as int / (self.entries@.len() as int + 1),
        ensures
            n == count_entries(self.entries@),
    {
        let mut n: u64 = 0;
        let mut i: usize = 0;
        let m = self.entries.len();
        proof {
            assert(self.entries@.subrange(0, 0) =~= Seq::<(u64, Vec<Unbonding>)>::empty());
        }
        while i < m
            invariant
                0 <= i <= m,
                m == self.entries@.len() < u64::MAX,
                forall|k: int|
                    0 <= k < self.entries@.len() ==> #[trigger] self.entries@[k].1@.len()
                        < u64::MAX as int / (self.entries@.len() as int + 1),
                n == count_entries(self.entries@.subrange(0, i as int)),
                n <= i * (u64::MAX as int / (m as int + 1)),
            decreases m - i,
        {
            proof {
                lemma_count_entries_bound(self.entries@.subrange(0, i as int));
                assert(self.entries@.subrange(0, i + 1).drop_last() =~= self.entries@.subrange(
                    0,
                    i as int,
                ));
                lemma_count_entries_push(
                    self.entries@.subrange(0, i as int),
                    self.entries@[i as int],
                );
                assert(self.entries@.subrange(0, i as int).push(self.entries@[i as int])
                    =~= self.entries@.subrange(0, i + 1));
                assert((i + 1) * (u64::MAX as int / (m as int + 1)) == i * (u64::MAX as int / (
                m as int + 1)) + (u64::MAX as int / (m as int + 1))) by (nonlinear_arith);
                assert(m as int * (u64::MAX as int / (m as int + 1)) <= u64::MAX)
                    by (nonlinear_arith)
                    requires
                        m < u64::MAX,
                ;
                assert(i + 1 <= m as int ==> (i + 1) * (u64::MAX as int / (m as int + 1)) <= m
                    as int * (u64::MAX as int / (m as int + 1))) by (nonlinear_arith);
            }
            n = n + self.entries[i].1.len() as u64;
            i = i + 1;
        }
        proof {
            assert(self.entries@.subrange(0, m as int) =~= self.entries@);
        }
        n
    }

    /// Removes every bucket mature at `now` and returns the amount freed.
    pub fn clean(&mut self, now: u64) -> (freed: u128)
        requires
            old(self).wf(),
            queue_total(old(self).entries@) <= u128::MAX,
        ensures
            final(self).wf(),
            freed == mature_total(old(self).entries@, now),
            final(self).spec_total() == old(self).spec_total() - freed,
            final(self).entries@ == remaining_after(old(self).entries@, now),
            final(self).entries@.len() <= old(self).entries@.len(),
            forall|i: int|
                0 <= i < final(self).entries@.len() ==> #[trigger] final(self).entries@[i].0 > now,
            forall|i: int|
                0 <= i < final(self).entries@.len() ==> final(self).entries@[i] == old(
                    self,
                ).entries@[i + old(self).entries@.len() - final(self).entries@.len()],
    {
        let ghost entries0 = self.entries@;
        let mut freed: u128 = 0;
        proof {
            lemma_mature_le_total(entries0, now);
        }
        loop
            invariant
                self.wf(),
                0 <= mature_total(entries0, now) <= queue_total(entries0) <= u128::MAX,
                remaining_after(entries0, now) =~= remaining_after(self.entries@, now),
                freed == mature_total(entries0, now) - mature_total(self.entries@, now),
                queue_total(self.entries@) == queue_total(entries0) - freed,
                freed >= 0,
                mature_total(self.entries@, now) >= 0,
                self.entries@.len() <= entries0.len(),
                forall|i: int|
                    0 <= i < self.entries@.len() ==> self.entries@[i] == entries0[i
                        + entries0.len() - self.entries@.len()],
            ensures
                self.wf(),
                freed == mature_total(entries0, now),
                queue_total(self.entries@) == queue_total(entries0) - freed,
                self.entries@ =~= remaining_after(entries0, now),
                self.entries@.len() <= entries0.len(),
                forall|i: int| 0 <= i < self.entries@.len() ==> #[trigger] self.entries@[i].0 > now,
                forall|i: int|
                    0 <= i < self.entries@.len() ==> self.entries@[i] == entries0[i
                        + entries0.len() - self.entries@.len()],
            decreases self.entries@.len(),
        {
            proof {
                lemma_mature_le_total(self.entries@, now);
                lemma_queue_total_nonneg(self.entries@);
                if self.entries@.len() > 0 {
                    lemma_sum_unb_nonneg(self.entries@[0].1@);
                    lemma_mature_le_total(self.entries@.drop_first(), now);
                    lemma_queue_total_nonneg(self.entries@.drop_first());
                }
            }
            if self.entries.len() == 0 {
                proof {
                    lemma_remaining_id(self.entries@, now);
                }
                break ;
            }
            if self.entries[0].0 > now {
                proof {
                    assert forall|i: int|
                        0 <= i < self.entries@.len() implies #[trigger] self.entries@[i].0
                        > now by {
                        if i > 0 {
                            assert(self.entries@[0].0 < self.entries@[i].0);
                        }
                    }
                    lemma_mature_zero(self.entries@, now);
                    lemma_remaining_id(self.entries@, now);
                }
                break ;
            }
            let ghost cur = self.entries@;
            let (_, bucket) = self.entries.remove(0);
            proof {
                assert(self.entries@ =~= cur.drop_first());
                lemma_sum_unb_nonneg(bucket@);
                lemma_mature_le_total(self.entries@, now);
            }
            freed = freed + sum_bucket(&bucket);
        }
        freed
    }

    /// The sum of every queued amount.
    pub fn total(&self) -> (t: u128)
        requires
            self.wf(),
            queue_total(self.entries@) <= u128::MAX,
        ensures
            t == self.spec_total(),
    {
        proof {
            lemma_mature_all(self.entries@);
        }
        self.count_mature(u64::MAX)
    }

    /// The amount that would be freed by cleaning at `now`, without cleaning.
    pub fn count_mature(&self, now: u64) -> (freed: u128)
        requires
            self.wf(),
            queue_total(self.entries@) <= u128::MAX,
        ensures
            freed == mature_total(self.entries@, now),
    {
        let mut freed: u128 = 0;
        let mut i: usize = 0;
        let m = self.entries.len();
        proof {
            assert(self.entries@.subrange(0, m as int) =~= self.entries@);
        }
        while i < m
            invariant
                0 <= i <= m,
                m == self.entries@.len(),
                self.wf(),
                queue_total(self.entries@) <= u128::MAX,
                freed == mature_total(self.entries@, now) - mature_total(
                    self.entries@.subrange(i as int, m as int),
                    now,
                ),
                freed >= 0,
                freed <= queue_total(self.entries@) - queue_total(
                    self.entries@.subrange(i as int, m as int),
                ),
            decreases m - i,
        {
            proof {
                assert(self.entries@.subrange(i as int, m as int).drop_first()
                    =~= self.entries@.subrange(i + 1, m as int));
                assert(self.entries@.subrange(i as int, m as int)[0] == self.entries@[i as int]);
                lemma_mature_le_total(self.entries@.subrange(i + 1, m as int), now);
                lemma_queue_total_nonneg(self.entries@.subrange(i + 1, m as int));
                lemma_sum_unb_nonneg(self.entries@[i as int].1@);
            }
            if self.entries[i].0 <= now {
                freed = freed + sum_bucket(&self.entries[i].1);
            }
            i = i + 1;
        }
        proof {
            assert(self.entries@.subrange(m as int, m as int) =~= Seq::<(u64, Vec<
                Unbonding,
            >)>::empty());
        }
        freed
    }

    /// The buckets maturing strictly between `start` and `end`, copied out
    /// in ascending order.
    pub fn expiring_between(&self, start: u64, end: u64) -> (r: Vec<(u64, Vec<Unbonding>)>)
        ensures
            r@.len() == buckets_between(self.entries@, start, end).len(),
            forall|i: int|
                0 <= i < r@.len() ==> (#[trigger] r@[i].0) == buckets_between(
                    self.entries@,
                    start,
                    end,
                )[i].0,
            forall|i: int|
                0 <= i < r@.len() ==> bucket_copies(
                    buckets_between(self.entries@, start, end)[i].1@,
                    (#[trigger] r@[i].1)@,
                ),
    {
        let mut out: Vec<(u64, Vec<Unbonding>)> = Vec::new();
        let m = self.entries.len();
        let mut i: usize = 0;
        proof {
            assert(self.entries@.subrange(0, 0) =~= Seq::<(u64, Vec<Unbonding>)>::empty());
            assert(buckets_between(Seq::<(u64, Vec<Unbonding>)>::empty(), start, end) =~= Seq::<(
                u64,
                Vec<Unbonding>,
            )>::empty());
        }
        while i < m
            invariant
                0 <= i <= m,
                m == self.entries@.len(),
                out@.len() == buckets_between(self.entries@.subrange(0, i as int), start, end).len(),
                forall|k: int|
                    0 <= k < out@.len() ==> (#[trigger] out@[k].0) == buckets_between(
                        self.entries@.subrange(0, i as int),
                        start,
                        end,
                    )[k].0,
                forall|k: int|
                    0 <= k < out@.len() ==> bucket_copies(
                        buckets_between(self.entries@.subrange(0, i as int), start, end)[k].1@,
                        (#[trigger] out@[k].1)@,
                    ),
            decreases m - i,
        {
            proof {
                lemma_buckets_between_push(
                    self.entries@.subrange(0, i as int),
                    self.entries@[i as int],
                    start,
                    end,
                );
                assert(self.entries@.subrange(0, i as int).push(self.entries@[i as int])
                    =~= self.entries@.subrange(0, i + 1));
            }
            let key = self.entries[i].0;
            if start < key && key < end {
                let bucket = &self.entries[i].1;
                let mut copy: Vec<Unbonding> = Vec::new();
                let mut t: usize = 0;
                while t < bucket.len()
                    invariant
                        0 <= t <= bucket@.len(),
                        copy@.len() == t,
                        forall|x: int|
                            0 <= x < t ==> (#[trigger] copy@[x]).amount == bucket@[x].amount
                                && copy@[x].validator@ == bucket@[x].validator@,
                    decreases bucket@.len() - t,
                {
                    copy.push(
                        Unbonding {
                            amount: bucket[t].amount,
                            validator: bucket[t].validator.clone(),
                        },
                    );
                    t = t + 1;
                }
                let ghost out_before = out@;
                out.push((key, copy));
                proof {
                    assert(out@ =~= out_before.push(out@[out_before.len() as int]));
                }
            }
            i = i + 1;
        }
        proof {
            assert(self.entries@.subrange(0, m as int) =~= self.entries@);
        }
        out
    }

    /// Appends a new maturity bucket. The maturity must lie beyond every
    /// bucket already queued: time only moves forward between undelegations.
    pub fn push_bucket(&mut self, time: u64, items: Vec<Unbonding>)
        requires
            old(self).wf(),
            forall|i: int| 0 <= i < old(self).entries@.len() ==> old(self).entries@[i].0 < time,
        ensures
            final(self).wf(),
            final(self).entries@ == old(self).entries@.push((time, items)),
            final(self).spec_total() == old(self).spec_total() + sum_unb(items@),
    {
        proof {
            lemma_queue_total_push(self.entries@, (time, items));
        }
        self.entries.push((time, items));
    }

    /// Whether any bucket maturing within `margin` seconds of `now`, past or
    /// future, holds an undelegation from the given validator.
    pub fn has_maturity_near(&self, validator: &String, now: u64, margin: u64) -> (b: bool)
        ensures
            b == exists|i: int|
                0 <= i < self.entries@.len() && in_margin(#[trigger] self.entries@[i].0, now, margin)
                    && bucket_has_validator(self.entries@[i].1@, validator@),
    {
        let m = self.entries.len();
        let mut i: usize = 0;
        while i < m
            invariant
                0 <= i <= m,
                m == self.entries@.len(),
                forall|k: int|
                    0 <= k < i ==> !(in_margin(#[trigger] self.entries@[k].0, now, margin)
                        && bucket_has_validator(self.entries@[k].1@, validator@)),
            decreases m - i,
        {
            let key = self.entries[i].0;
            let near = (key <= now && now - key <= margin) || (key > now && key - now <= margin);
            if near {
                let bucket = &self.entries[i].1;
                let mut k: usize = 0;
                while k < bucket.len()
                    invariant
                        0 <= k <= bucket@.len(),
                        0 <= i < self.entries@.len(),
                        bucket@ == self.entries@[i as int].1@,
                        in_margin(self.entries@[i as int].0, now, margin),
                        forall|t: int| 0 <= t < k ==> bucket@[t].validator@ != validator@,
                    decreases bucket@.len() - k,
                {
                    if bucket[k].validator.eq(validator) {
                        proof {
                            assert(bucket@[k as int].validator@ == validator@);
                            assert(bucket_has_validator(self.entries@[i as int].1@, validator@));
                        }
                        return true;
                    }
                    k = k + 1;
                }
            }
            i = i + 1;
        }
        false
    }
}

/// At the largest timestamp everything is mature.
pub proof fn lemma_mature_all(entries: Seq<(u64, Vec<Unbonding>)>)
    ensures
        mature_total(entries, u64::MAX) == queue_total(entries),
    decreases entries.len(),
{
    if entries.len() > 0 {
        lemma_mature_all(entries.drop_first());
    }
}

/// Scaling one validator's amounts down never grows a bucket's sum.
pub proof fn lemma_scaled_bucket_le(
    before: Seq<Unbonding>,
    after: Seq<Unbonding>,
    validator: Seq<char>,
    multiplier: Rate,
)
    requires
        scaled_bucket_matches(before, after, validator, multiplier),
        multiplier.atomics <= crate::rate::RATE_ONE,
    ensures
        0 <= sum_unb(after) <= sum_unb(before),
    decreases before.len(),
{
    lemma_sum_unb_nonneg(after);
    if before.len() > 0 {
        assert(scaled_bucket_matches(
            before.drop_first(),
            after.drop_first(),
            validator,
            multiplier,
        )) by {
            assert(forall|i: int|
                0 <= i < before.drop_first().len() ==> before.drop_first()[i] == before[i + 1]);
            assert(forall|i: int|
                0 <= i < after.drop_first().len() ==> after.drop_first()[i] == after[i + 1]);
        }
        lemma_scaled_bucket_le(before.drop_first(), after.drop_first(), validator, multiplier);
        if before[0].validator@ == validator {
            crate::rate::lemma_mul_floor_le(before[0].amount as int, multiplier);
        }
    }
}

/// Scaling one validator's amounts down never grows the queue's sum.
pub proof fn lemma_scaled_queue_le(
    before: Seq<(u64, Vec<Unbonding>)>,
    after: Seq<(u64, Vec<Unbonding>)>,
    validator: Seq<char>,
    multiplier: Rate,
)
    requires
        scaled_queue_matches(before, after, validator, multiplier),
        multiplier.atomics <= crate::rate::RATE_ONE,
    ensures
        0 <= queue_total(after) <= queue_total(before),
    decreases before.len(),
{
    lemma_queue_total_nonneg(after);
    if before.len() > 0 {
        assert(scaled_queue_matches(
            before.drop_first(),
            after.drop_first(),
            validator,
            multiplier,
        )) by {
            assert(forall|i: int|
                0 <= i < before.drop_first().len() ==> before.drop_first()[i] == before[i + 1]);
            assert(forall|i: int|
                0 <= i < after.drop_first().len() ==> after.drop_first()[i] == after[i + 1]);
        }
        lemma_scaled_queue_le(before.drop_first(), after.drop_first(), validator, multiplier);
        lemma_scaled_bucket_le(before[0].1@, after[0].1@, validator, multiplier);
    }
}

/// A maturity lies within `margin` seconds of `now`, past or future.
pub open spec fn in_margin(key: u64, now: u64, margin: u64) -> bool {
    if key <= now {
        now - key <= margin
    } else {
        key - now <= margin
    }
}

/// Number of undelegation entries over all buckets.
pub open spec fn count_entries(entries: Seq<(u64, Vec<Unbonding>)>) -> int
    decreases entries.len(),
{
    if entries.len() == 0 {
        0
    } else {
        entries[0].1@.len() + count_entries(entries.drop_first())
    }
}

pub proof fn lemma_count_entries_push(entries: Seq<(u64, Vec<Unbonding>)>, e: (u64, Vec<Unbonding>))
    ensures
        count_entries(entries.push(e)) == count_entries(entries) + e.1@.len(),
    decreases entries.len(),
{
    if entries.len() == 0 {
        assert(entries.push(e)[0] == e);
        assert(entries.push(e).drop_first() =~= Seq::<(u64, Vec<Unbonding>)>::empty());
        assert(count_entries(entries.push(e).drop_first()) == 0);
    } else {
        assert(entries.push(e)[0] == entries[0]);
        assert(entries.push(e).drop_first() =~= entries.drop_first().push(e));
        lemma_count_entries_push(entries.drop_first(), e);
    }
}

pub proof fn lemma_count_entries_bound(entries: Seq<(u64, Vec<Unbonding>)>)
    ensures
        count_entries(entries) >= 0,
    decreases entries.len(),
{
    if entries.len() > 0 {
        lemma_count_entries_bound(entries.drop_first());
    }
}

/// The buckets whose maturity lies strictly between `start` and `end`.
pub open spec fn buckets_between(
    entries: Seq<(u64, Vec<Unbonding>)>,
    start: u64,
    end: u64,
) -> Seq<(u64, Vec<Unbonding>)>
    decreases entries.len(),
{
    if entries.len() == 0 {
        Seq::empty()
    } else if start < entries[0].0 && entries[0].0 < end {
        buckets_between(entries.drop_first(), start, end).insert(0, entries[0])
    } else {
        buckets_between(entries.drop_first(), start, end)
    }
}

/// One bucket copied entry by entry: same amounts, same validators.
pub open spec fn bucket_copies(original: Seq<Unbonding>, copy: Seq<Unbonding>) -> bool {
    &&& copy.len() == original.len()
    &&& forall|t: int|
        0 <= t < original.len() ==> (#[trigger] copy[t]).amount == original[t].amount
            && copy[t].validator@ == original[t].validator@
}

/// Selecting between bounds distributes over appending one bucket.
proof fn lemma_buckets_between_push(
    entries: Seq<(u64, Vec<Unbonding>)>,
    e: (u64, Vec<Unbonding>),
    start: u64,
    end: u64,
)
    ensures
        (start < e.0 && e.0 < end) ==> buckets_between(entries.push(e), start, end)
            =~= buckets_between(entries, start, end).push(e),
        !(start < e.0 && e.0 < end) ==> buckets_between(entries.push(e), start, end)
            =~= buckets_between(entries, start, end),
    decreases entries.len(),
{
    if entries.len() == 0 {
        assert(entries.push(e)[0] == e);
        assert(entries.push(e).drop_first() =~= Seq::<(u64, Vec<Unbonding>)>::empty());
        assert(buckets_between(Seq::<(u64, Vec<Unbonding>)>::empty(), start, end) =~= Seq::<(
            u64,
            Vec<Unbonding>,
        )>::empty());
        assert(buckets_between(entries, start, end) =~= Seq::<(u64, Vec<Unbonding>)>::empty());
        if start < e.0 && e.0 < end {
            assert(buckets_between(entries.push(e), start, end) =~= Seq::<(
                u64,
                Vec<Unbonding>,
            )>::empty().insert(0, e));
            assert(Seq::<(u64, Vec<Unbonding>)>::empty().insert(0, e) =~= buckets_between(
                entries,
                start,
                end,
            ).push(e));
        }
    } else {
        assert(entries.push(e)[0] == entries[0]);
        assert(entries.push(e).drop_first() =~= entries.drop_first().push(e));
        lemma_buckets_between_push(entries.drop_first(), e, start, end);
        let p = buckets_between(entries.drop_first(), start, end);
        if start < entries[0].0 && entries[0].0 < end {
            if start < e.0 && e.0 < end {
                assert(buckets_between(entries.push(e), start, end) =~= p.push(e).insert(
                    0,
                    entries[0],
                ));
                assert(p.push(e).insert(0, entries[0]) =~= p.insert(0, entries[0]).push(e));
                assert(buckets_between(entries, start, end) =~= p.insert(0, entries[0]));
            } else {
                assert(buckets_between(entries.push(e), start, end) =~= p.insert(0, entries[0]));
                assert(buckets_between(entries, start, end) =~= p.insert(0, entries[0]));
            }
        }
    }
}

/// Sums one bucket's amounts. The caller keeps the bucket under the queue
/// total, which fits the amount type.
fn sum_bucket(bucket: &Vec<Unbonding>) -> (total: u128)
    requires
        sum_unb(bucket@) <= u128::MAX,
    ensures
        total == sum_unb(bucket@),
{
    let mut total: u128 = 0;
    let mut k: usize = 0;
    let n = bucket.len();
    proof {
        assert(bucket@.subrange(0, n as int) =~= bucket@);
    }
    while k < n
        invariant
            0 <= k <= n,
            n == bucket@.len(),
            sum_unb(bucket@) <= u128::MAX,
            total == sum_unb(bucket@) - sum_unb(bucket@.subrange(k as int, n as int)),
            total >= 0,
        decreases n - k,
    {
        proof {
            assert(bucket@.subrange(k as int, n as int)[0] == bucket@[k as int]);
            assert(bucket@.subrange(k as int, n as int).drop_first() =~= bucket@.subrange(
                k + 1,
                n as int,
            ));
            lemma_sum_unb_nonneg(bucket@.subrange(k + 1, n as int));
        }
        total = total + bucket[k].amount;
        k = k + 1;
    }
    proof {
        assert(bucket@.subrange(n as int, n as int) =~= Seq::<Unbonding>::empty());
    }
    total
}

/// Scales every undelegation from `validator` by `multiplier`, rounding
/// down, and returns the scaled queue. `None` when a product does not fit.
pub fn scaled_for_validator(q: &UnbondingQueue, validator: &String, multiplier: Rate) -> (r: Option<
    UnbondingQueue,
>)
    requires
        q.wf(),
    ensures
        r is Some ==> scaled_queue_matches(q.entries@, r->0.entries@, validator@, multiplier),
        r is Some ==> r->0.wf(),
        (forall|b: int, t: int|
            0 <= b < q.entries@.len() && 0 <= t < q.entries@[b].1@.len() && (
            #[trigger] q.entries@[b].1@[t]).validator@ == validator@ ==> q.entries@[b].1@[t].amount
                * multiplier.atomics <= u128::MAX) ==> (r is Some),
{
    let mut out: Vec<(u64, Vec<Unbonding>)> = Vec::new();
    let m = q.entries.len();
    let mut i: usize = 0;
    while i < m
        invariant
            0 <= i <= m,
            m == q.entries@.len(),
            q.wf(),
            out@.len() == i,
            forall|a: int, b: int| 0 <= a < b < out@.len() ==> out@[a].0 < out@[b].0,
            forall|a: int| 0 <= a < i ==> #[trigger] out@[a].0 == q.entries@[a].0,
            forall|a: int|
                0 <= a < i ==> scaled_bucket_matches(
                    q.entries@[a].1@,
                    #[trigger] out@[a].1@,
                    validator@,
                    multiplier,
                ),
        decreases m - i,
    {
        let key = q.entries[i].0;
        let bucket = &q.entries[i].1;
        let mut nb: Vec<Unbonding> = Vec::new();
        let mut k: usize = 0;
        let n = bucket.len();
        while k < n
            invariant
                0 <= k <= n,
                n == bucket@.len(),
                0 <= i < q.entries@.len(),
                bucket@ == q.entries@[i as int].1@,
                nb@.len() == k,
                forall|t: int|
                    0 <= t < k ==> #[trigger] nb@[t].validator@ == bucket@[t].validator@,
                forall|t: int|
                    0 <= t < k ==> bucket@[t].validator@ == validator@ ==> #[trigger] nb@[t].amount
                        == mul_floor_spec(bucket@[t].amount as int, multiplier),
                forall|t: int|
                    0 <= t < k ==> bucket@[t].validator@ != validator@ ==> #[trigger] nb@[t].amount
                        == bucket@[t].amount,
            decreases n - k,
        {
            let u = &bucket[k];
            if u.validator.eq(validator) {
                let scaled = match checked_mul_floor(u.amount, multiplier) {
                    Some(v) => v,
                    None => {
                        proof {
                            assert(q.entries@[i as int].1@[k as int].validator@ == validator@
                                && q.entries@[i as int].1@[k as int].amount * multiplier.atomics
                                > u128::MAX);
                        }
                        return None;
                    },
                };
                nb.push(Unbonding { amount: scaled, validator: u.validator.clone() });
            } else {
                nb.push(Unbonding { amount: u.amount, validator: u.validator.clone() });
            }
            k = k + 1;
        }
        out.push((key, nb));
        i = i + 1;
    }
    Some(UnbondingQueue { entries: out })
}

/// The scaled queue mirrors the original bucket for bucket: same maturities,
/// the validator's amounts scaled down, all else kept.
pub open spec fn scaled_queue_matches(
    before: Seq<(u64, Vec<Unbonding>)>,
    after: Seq<(u64, Vec<Unbonding>)>,
    validator: Seq<char>,
    multiplier: Rate,
) -> bool {
    &&& after.len() == before.len()
    &&& forall|i: int| 0 <= i < before.len() ==> #[trigger] after[i].0 == before[i].0
    &&& forall|i: int|
        0 <= i < before.len() ==> scaled_bucket_matches(
            before[i].1@,
            #[trigger] after[i].1@,
            validator,
            multiplier,
        )
}

/// One scaled bucket: the validator's amounts scaled down, all else kept.
pub open spec fn scaled_bucket_matches(
    before: Seq<Unbonding>,
    after: Seq<Unbonding>,
    validator: Seq<char>,
    multiplier: Rate,
) -> bool {
    &&& after.len() == before.len()
    &&& forall|t: int|
        0 <= t < before.len() ==> #[trigger] after[t].validator@ == before[t].validator@
    &&& forall|t: int|
        0 <= t < before.len() ==> before[t].validator@ == validator ==> #[trigger] after[t].amount
            == mul_floor_spec(before[t].amount as int, multiplier)
    &&& forall|t: int|
        0 <= t < before.len() ==> before[t].validator@ != validator ==> #[trigger] after[t].amount
            == before[t].amount
}

} // verus!
