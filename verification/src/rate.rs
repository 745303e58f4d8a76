//! Fixed-point rates with 18 fractional decimal digits, used for exchange
//! rates, validator weights, commissions and slash multipliers.
//!
//! Every multiply or divide rounds toward zero, so rounding error always
//! accrues to the pool, never to a holder.

use vstd::prelude::*;

verus! {

/// Number of atomic units in a rate of one (18 decimal digits).
pub const RATE_ONE: u128 = 1_000_000_000_000_000_000;

/// A non-negative fixed-point number with 18 fractional decimal digits.
#[derive(Clone, Copy, Debug, PartialEq, Eq, Structural)]
pub struct Rate {
    pub atomics: u128,
}

/// `floor(x * r)` as a mathematical integer.
pub open spec fn mul_floor_spec(x: int, r: Rate) -> int {
    (x * r.atomics) / (RATE_ONE as int)
}

/// `floor(num / den)` scaled to rate atomics, as a mathematical integer.
pub open spec fn ratio_spec(num: int, den: int) -> int
    recommends
        den > 0,
{
    (num * (RATE_ONE as int)) / den
}

impl Rate {
    /// The rate one (1.0).
    pub fn one() -> (r: Rate)
        ensures
            r.atomics == RATE_ONE,
    {
        Rate { atomics: RATE_ONE }
    }

    /// The rate zero (0.0).
    pub fn zero() -> (r: Rate)
        ensures
            r.atomics == 0,
    {
        Rate { atomics: 0 }
    }

    pub open spec fn spec_is_zero(self) -> bool {
        self.atomics == 0
    }

    pub fn is_zero(&self) -> (b: bool)
        ensures
            b == self.spec_is_zero(),
    {
        self.atomics == 0
    }

    /// `p` hundredths.
    pub fn percent(p: u64) -> (r: Rate)
        ensures
            r.atomics == p * 10_000_000_000_000_000u128,
    {
        Rate { atomics: (p as u128) * 10_000_000_000_000_000u128 }
    }

    /// `p` thousandths.
    pub fn permille(p: u64) -> (r: Rate)
        ensures
            r.atomics == p * 1_000_000_000_000_000u128,
    {
        Rate { atomics: (p as u128) * 1_000_000_000_000_000u128 }
    }

    /// The quotient `num / den`, rounded down to 18 decimal digits.
    /// `None` when `den` is zero or the scaled numerator does not fit.
    pub fn checked_from_ratio(num: u128, den: u128) -> (r: Option<Rate>)
        ensures
            r is Some <==> (den != 0 && num * RATE_ONE <= u128::MAX),
            r is Some ==> r->0.atomics == ratio_spec(num as int, den as int),
    {
        if den == 0 {
            None
        } else {
            match num.checked_mul(RATE_ONE) {
                Some(scaled) => Some(Rate { atomics: scaled / den }),
                None => None,
            }
        }
    }

    pub open spec fn spec_le(self, other: Rate) -> bool {
        self.atomics <= other.atomics
    }

    pub fn le(&self, other: &Rate) -> (b: bool)
        ensures
            b == self.spec_le(*other),
    {
        self.atomics <= other.atomics
    }

    pub open spec fn spec_lt(self, other: Rate) -> bool {
        self.atomics < other.atomics
    }

    pub fn lt(&self, other: &Rate) -> (b: bool)
        ensures
            b == self.spec_lt(*other),
    {
        self.atomics < other.atomics
    }

    /// `1 - self`; `None` when `self` exceeds one.
    pub fn complement(&self) -> (r: Option<Rate>)
        ensures
            r is Some <==> self.atomics <= RATE_ONE,
            r is Some ==> r->0.atomics == RATE_ONE - self.atomics,
    {
        if self.atomics <= RATE_ONE {
            Some(Rate { atomics: RATE_ONE - self.atomics })
        } else {
            None
        }
    }

    /// The product of two rates, rounded down.
    /// `None` when the atomics product does not fit.
    pub fn checked_mul(&self, other: &Rate) -> (r: Option<Rate>)
        ensures
            r is Some <==> self.atomics * other.atomics <= u128::MAX,
            r is Some ==> r->0.atomics == (self.atomics * other.atomics) / (
            RATE_ONE as int),
    {
        match self.atomics.checked_mul(other.atomics) {
            Some(prod) => Some(Rate { atomics: prod / RATE_ONE }),
            None => None,
        }
    }
}

/// `floor(x * r)`; `None` when the intermediate product does not fit.
pub fn checked_mul_floor(x: u128, r: Rate) -> (res: Option<u128>)
    ensures
        res is Some <==> x * r.atomics <= u128::MAX,
        res is Some ==> res->0 == mul_floor_spec(x as int, r),
{
    match x.checked_mul(r.atomics) {
        Some(prod) => Some(prod / RATE_ONE),
        None => None,
    }
}

/// Multiplying by a rate of at most one never increases the amount.
pub proof fn lemma_mul_floor_le(x: int, r: Rate)
    requires
        x >= 0,
        r.atomics <= RATE_ONE,
    ensures
        mul_floor_spec(x, r) <= x,
        mul_floor_spec(x, r) >= 0,
{
    assert(x * r.atomics <= x * RATE_ONE) by (nonlinear_arith)
        requires
            x >= 0,
            r.atomics <= RATE_ONE,
    ;
    assert((x * r.atomics) / (RATE_ONE as int) <= (x * RATE_ONE) / (RATE_ONE as int))
        by (nonlinear_arith)
        requires
            x * r.atomics <= x * RATE_ONE,
    ;
    assert((x * RATE_ONE) / (RATE_ONE as int) == x) by (nonlinear_arith);
    assert(x * r.atomics >= 0) by (nonlinear_arith)
        requires
            x >= 0,
            r.atomics >= 0,
    ;
}

} // verus!
