//! The gauge adapter's decisions: which validators qualify as voting
//! options under a commission cap, and the validation of that cap. The
//! chain's validator registry is queried by the host; the filter takes its
//! answer as an input.

use vstd::prelude::*;

use crate::error::ContractError;
use crate::rate::{Rate, RATE_ONE};

verus! {

/// The adapter's configuration before commission caps existed.
#[derive(Clone, Debug, PartialEq, Eq)]
pub struct OldConfig {
    /// Address of the hub the adapter steers.
    pub hub: String,
}

/// Every validator a gauge may vote for.
#[derive(Clone, Debug, PartialEq, Eq)]
pub struct AllOptionsResponse {
    pub options: Vec<String>,
}

/// Whether one option names a known validator.
#[derive(Clone, Copy, Debug, PartialEq, Eq, Structural)]
pub struct CheckOptionResponse {
    pub valid: bool,
}

/// Whether an option names a validator in the registry the host queried.
pub fn check_option(validators: &Vec<(String, Rate)>, option: &String) -> (r: CheckOptionResponse)
    ensures
        r.valid <==> exists|i: int|
            0 <= i < validators@.len() && (#[trigger] validators@[i].0)@ == option@,
{
    let n = validators.len();
    let mut i: usize = 0;
    while i < n
        invariant
            0 <= i <= n,
            n == validators@.len(),
            forall|j: int| 0 <= j < i ==> (#[trigger] validators@[j].0)@ != option@,
        decreases n - i,
    {
        if validators[i].0.eq(option) {
            return CheckOptionResponse { valid: true };
        }
        i = i + 1;
    }
    CheckOptionResponse { valid: false }
}

/// The cap must lie above zero and at most one.
pub fn validate_max_commission(max_commission: Rate) -> (r: Result<(), ContractError>)
    ensures
        r is Ok <==> (0 < max_commission.atomics <= RATE_ONE),
        r is Err ==> (r->Err_0 == ContractError::InvalidMaxCommission {}),
{
    if max_commission.atomics > 0 && max_commission.atomics <= RATE_ONE {
        Ok(())
    } else {
        Err(ContractError::InvalidMaxCommission {})
    }
}

/// The validators whose commission stays within the cap, in order.
pub open spec fn allowed_options(vals: Seq<(String, Rate)>, cap: Rate) -> Seq<String>
    decreases vals.len(),
{
    if vals.len() == 0 {
        Seq::empty()
    } else if vals[0].1.atomics <= cap.atomics {
        allowed_options(vals.drop_first(), cap).insert(0, vals[0].0)
    } else {
        allowed_options(vals.drop_first(), cap)
    }
}

proof fn lemma_allowed_push(vals: Seq<(String, Rate)>, x: (String, Rate), cap: Rate)
    ensures
        x.1.atomics <= cap.atomics ==> allowed_options(vals.push(x), cap) =~= allowed_options(
            vals,
            cap,
        ).push(x.0),
        x.1.atomics > cap.atomics ==> allowed_options(vals.push(x), cap) =~= allowed_options(
            vals,
            cap,
        ),
    decreases vals.len(),
{
    if vals.len() == 0 {
        assert(vals.push(x)[0] == x);
        assert(vals.push(x).drop_first() =~= Seq::<(String, Rate)>::empty());
        assert(allowed_options(Seq::<(String, Rate)>::empty(), cap) =~= Seq::<String>::empty());
        assert(allowed_options(vals, cap) =~= Seq::<String>::empty());
        if x.1.atomics <= cap.atomics {
            assert(allowed_options(vals.push(x), cap) =~= Seq::<String>::empty().insert(0, x.0));
            assert(Seq::<String>::empty().insert(0, x.0) =~= allowed_options(vals, cap).push(x.0));
        }
    } else {
        assert(vals.push(x)[0] == vals[0]);
        assert(vals.push(x).drop_first() =~= vals.drop_first().push(x));
        lemma_allowed_push(vals.drop_first(), x, cap);
        let p = allowed_options(vals.drop_first(), cap);
        if vals[0].1.atomics <= cap.atomics {
            if x.1.atomics <= cap.atomics {
                assert(allowed_options(vals.push(x), cap) =~= p.push(x.0).insert(0, vals[0].0));
                assert(p.push(x.0).insert(0, vals[0].0) =~= p.insert(0, vals[0].0).push(x.0));
                assert(allowed_options(vals, cap) =~= p.insert(0, vals[0].0));
            } else {
                assert(allowed_options(vals.push(x), cap) =~= p.insert(0, vals[0].0));
                assert(allowed_options(vals, cap) =~= p.insert(0, vals[0].0));
            }
        }
    }
}

/// Filters the registry the host queried down to the validators whose
/// commission stays within the cap.
pub fn all_options(validators: &Vec<(String, Rate)>, max_commission: Rate) -> (r:
    AllOptionsResponse)
    ensures
        r.options@.len() == allowed_options(validators@, max_commission).len(),
        forall|i: int|
            0 <= i < r.options@.len() ==> (#[trigger] r.options@[i])@ == allowed_options(
                validators@,
                max_commission,
            )[i]@,
{
    let mut out: Vec<String> = Vec::new();
    let n = validators.len();
    let mut i: usize = 0;
    proof {
        assert(validators@.subrange(0, 0) =~= Seq::<(String, Rate)>::empty());
        assert(allowed_options(Seq::<(String, Rate)>::empty(), max_commission) =~= Seq::<
            String,
        >::empty());
    }
    while i < n
        invariant
            0 <= i <= n,
            n == validators@.len(),
            out@.len() == allowed_options(validators@.subrange(0, i as int), max_commission).len(),
            forall|t: int|
                0 <= t < out@.len() ==> (#[trigger] out@[t])@ == allowed_options(
                    validators@.subrange(0, i as int),
                    max_commission,
                )[t]@,
        decreases n - i,
    {
        proof {
            lemma_allowed_push(
                validators@.subrange(0, i as int),
                validators@[i as int],
                max_commission,
            );
            assert(validators@.subrange(0, i as int).push(validators@[i as int])
                =~= validators@.subrange(0, i + 1));
        }
        if validators[i].1.atomics <= max_commission.atomics {
            out.push(validators[i].0.clone());
        }
        i = i + 1;
    }
    proof {
        assert(validators@.subrange(0, n as int) =~= validators@);
    }
    AllOptionsResponse { options: out }
}

} // verus!
