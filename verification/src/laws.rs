//! The pool's general laws, stated once and proved for every input.
//!
//! Ledger consistency is the `wf` invariant every `Hub` operation preserves;
//! the laws here cover what single contracts cannot say: solvency across a
//! redemption, the exchange rate's monotonicity across reinvest rounds, and
//! the bond/unbond round trip.

use vstd::prelude::*;

use crate::rate::{ratio_spec, RATE_ONE};
use crate::supply::{
    assets_spec, bond_shares_spec, shares_per_token_spec, solvent, tokens_per_share_spec,
    unbond_native_spec, Supply,
};

verus! {

/// Dividing after scaling keeps order: a larger numerator never gives a
/// smaller quotient.
proof fn lemma_ratio_monotonic(a1: int, a2: int, den: int)
    requires
        0 <= a1 <= a2,
        den > 0,
    ensures
        ratio_spec(a1, den) <= ratio_spec(a2, den),
{
    assert(a1 * RATE_ONE <= a2 * RATE_ONE) by (nonlinear_arith)
        requires
            0 <= a1 <= a2,
    ;
    assert((a1 * RATE_ONE) / den <= (a2 * RATE_ONE) / den) by (nonlinear_arith)
        requires
            a1 * RATE_ONE <= a2 * RATE_ONE,
            den > 0,
    ;
}

/// Solvency across a redemption: the native amount reserved for returned
/// shares never exceeds the assets backing them, so reserving it keeps the
/// backing non-negative.
pub proof fn lemma_unbond_solvent(s: Supply, shares: u128, balance: u128)
    requires
        solvent(s, balance),
        shares <= s.issued,
    ensures
        0 <= unbond_native_spec(s, shares, balance) <= assets_spec(s, balance),
        assets_spec(
            Supply {
                issued: (s.issued - shares) as u128,
                claims: (s.claims + unbond_native_spec(s, shares, balance)) as u128,
                ..s
            },
            balance,
        ) >= 0 || s.claims + unbond_native_spec(s, shares, balance) > u128::MAX,
{
    let a = assets_spec(s, balance);
    let native = unbond_native_spec(s, shares, balance);
    if s.issued == 0 {
        assert(native == (shares * RATE_ONE) / (RATE_ONE as int));
        assert(native == 0) by (nonlinear_arith)
            requires
                native == (shares * RATE_ONE) / (RATE_ONE as int),
                shares == 0,
                RATE_ONE > 0,
        ;
    } else {
        let rate = ratio_spec(a, s.issued as int);
        assert(0 <= rate) by (nonlinear_arith)
            requires
                rate == (a * RATE_ONE) / (s.issued as int),
                a >= 0,
                s.issued > 0,
        ;
        assert(shares * rate <= s.issued * rate) by (nonlinear_arith)
            requires
                0 <= shares <= s.issued,
                rate >= 0,
        ;
        assert(s.issued * rate <= a * RATE_ONE) by (nonlinear_arith)
            requires
                rate == (a * RATE_ONE) / (s.issued as int),
                s.issued > 0,
                a >= 0,
        ;
        assert(native <= a) by (nonlinear_arith)
            requires
                native == (shares * rate) / (RATE_ONE as int),
                shares * rate <= a * RATE_ONE,
                a >= 0,
                RATE_ONE > 0,
        ;
        assert(native >= 0) by (nonlinear_arith)
            requires
                native == (shares * rate) / (RATE_ONE as int),
                shares * rate >= 0,
                RATE_ONE > 0,
        ;
    }
}

/// Monotonicity of the exchange rate: while the issued shares stay put and
/// the backing assets do not shrink, the rate cannot fall. A reinvest round
/// leaves the issued shares and the claims alone and adds the rewards it
/// kept to the backing assets, so, absent slashing, the rate never falls
/// across reinvest rounds.
pub proof fn lemma_exchange_rate_monotonic(s1: Supply, b1: u128, s2: Supply, b2: u128)
    requires
        s1.issued == s2.issued,
        0 <= assets_spec(s1, b1) <= assets_spec(s2, b2),
    ensures
        tokens_per_share_spec(s1, b1) <= tokens_per_share_spec(s2, b2),
{
    if s1.issued != 0 {
        lemma_ratio_monotonic(assets_spec(s1, b1), assets_spec(s2, b2), s1.issued as int);
    }
}

/// The bond/unbond round trip: bonding `paid` and at once returning the
/// received shares reserves at most `paid` — rounding always favours the
/// pool — and exactly `paid` at genesis, while the pool holds no assets.
/// (A pool whose shares are all redeemed but which still holds assets pays
/// a premium instead: the genesis clause needs the empty pool to be empty.)
pub proof fn lemma_bond_unbond_round_trip(s: Supply, paid: u128, balance_before: u128)
    requires
        solvent(s, balance_before),
        s.issued == 0 ==> assets_spec(s, balance_before) == 0,
        s.issued + bond_shares_spec(s, paid, balance_before) <= u128::MAX,
        balance_before + paid <= u128::MAX,
        s.total_bonded + s.total_unbonding + balance_before + paid <= u128::MAX,
    ensures
        ({
            let shares = bond_shares_spec(s, paid, balance_before);
            let s2 = Supply { issued: (s.issued + shares) as u128, ..s };
            unbond_native_spec(s2, shares as u128, (balance_before + paid) as u128) <= paid
        }),
        s.issued == 0 ==> ({
            let shares = bond_shares_spec(s, paid, balance_before);
            let s2 = Supply { issued: (s.issued + shares) as u128, ..s };
            unbond_native_spec(s2, shares as u128, (balance_before + paid) as u128) == paid
        }),
{
    let a = assets_spec(s, balance_before);
    let shares = bond_shares_spec(s, paid, balance_before);
    let s2 = Supply { issued: (s.issued + shares) as u128, ..s };
    let a2 = assets_spec(s2, (balance_before + paid) as u128);
    assert(a2 == a + paid);
    if a == 0 {
        // The rate in is one: the payment becomes that many shares.
        assert(shares == (paid * RATE_ONE) / (RATE_ONE as int));
        assert(shares == paid) by (nonlinear_arith)
            requires
                shares == (paid * RATE_ONE) / (RATE_ONE as int),
                RATE_ONE > 0,
        ;
        if s.issued == 0 {
            if paid == 0 {
                assert(unbond_native_spec(s2, 0u128, (balance_before + paid) as u128) == 0)
                    by (nonlinear_arith)
                    requires
                        unbond_native_spec(s2, 0u128, (balance_before + paid) as u128) == (0
                            * tokens_per_share_spec(s2, (balance_before + paid) as u128)) / (
                        RATE_ONE as int),
                        RATE_ONE > 0,
                ;
            } else {
                let rate2 = tokens_per_share_spec(s2, (balance_before + paid) as u128);
                assert(rate2 == (paid * RATE_ONE) / (paid as int));
                assert(rate2 == RATE_ONE) by (nonlinear_arith)
                    requires
                        rate2 == (paid * RATE_ONE) / (paid as int),
                        paid > 0,
                        RATE_ONE > 0,
                ;
                assert((paid * RATE_ONE) / (RATE_ONE as int) == paid) by (nonlinear_arith)
                    requires
                        RATE_ONE > 0,
                ;
            }
        } else {
            // Shares were issued against nothing: redeeming pays out of the
            // deposit alone, which cannot exceed it.
            let rate2 = tokens_per_share_spec(s2, (balance_before + paid) as u128);
            lemma_unbond_solvent(s2, shares as u128, (balance_before + paid) as u128);
            assert(unbond_native_spec(s2, shares as u128, (balance_before + paid) as u128) <= a2);
        }
    } else {
        // The rate in floors toward the pool, and so does the rate out:
        // shares * assets-in <= paid * issued carries through both floors.
        let rate1 = shares_per_token_spec(s, balance_before);
        assert(rate1 == (s.issued * RATE_ONE) / a);
        assert(shares == (paid * rate1) / (RATE_ONE as int));
        assert(shares * a <= paid * s.issued) by (nonlinear_arith)
            requires
                shares == (paid * rate1) / (RATE_ONE as int),
                rate1 == (s.issued * RATE_ONE) / a,
                a > 0,
                paid >= 0,
                s.issued >= 0,
                RATE_ONE > 0,
        ;
        if s2.issued == 0 {
            assert(s.issued == 0 && shares == 0);
            assert(false);
        } else {
            let rate2 = tokens_per_share_spec(s2, (balance_before + paid) as u128);
            let native = unbond_native_spec(s2, shares as u128, (balance_before + paid) as u128);
            assert(rate2 == (a2 * RATE_ONE) / (s2.issued as int));
            assert(native == (shares * rate2) / (RATE_ONE as int));
            assert(shares * a2 <= paid * (s.issued + shares)) by (nonlinear_arith)
                requires
                    shares * a <= paid * s.issued,
                    a2 == a + paid,
                    shares >= 0,
                    paid >= 0,
            ;
            assert(native <= paid) by (nonlinear_arith)
                requires
                    native == (shares * rate2) / (RATE_ONE as int),
                    rate2 == (a2 * RATE_ONE) / (s2.issued as int),
                    s2.issued == s.issued + shares,
                    shares * a2 <= paid * (s.issued + shares),
                    s2.issued > 0,
                    a2 >= 0,
                    shares >= 0,
                    paid >= 0,
                    RATE_ONE > 0,
            ;
        }
    }
}

} // verus!
