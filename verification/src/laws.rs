//! The ledger-wide guarantees, proved once and for all.
//!
//! Conservation of the staked total is stated directly on `execute_bond` and
//! `execute_withdraw` (their contracts carry `sum_balances == total_staked`
//! across the transition), and zero-stake refresh safety directly on
//! `update_global_index`.  The guarantees that relate several operations or
//! whole chains of them are proved here.

use vstd::prelude::*;
use vstd::arithmetic::div_mod::lemma_fundamental_div_mod;
use vstd::arithmetic::div_mod::lemma_mod_division_less_than_divisor;
use vstd::arithmetic::div_mod::lemma_div_pos_is_pos;
use vstd::arithmetic::div_mod::lemma_basic_div;
use vstd::arithmetic::mul::lemma_mul_nonnegative;
use vstd::arithmetic::mul::lemma_mul_is_distributive_sub;
use vstd::arithmetic::mul::lemma_mul_basics;
use crate::fixed::Fixed;
use crate::fixed::SCALE;
use crate::state::Holder;
use crate::contract::accrued_atomics;
use crate::contract::spec_credited;
use crate::contract::spec_carry;
use crate::contract::reconciled;
use crate::contract::reconcile_fits;

verus! {

/// One reconciliation loses nothing to truncation: the whole units credited
/// and the carry left behind together hold exactly the accrued amount.
pub proof fn lemma_reconcile_exact(gi: Fixed, h: Holder)
    requires
        h.index.atomics <= gi.atomics,
    ensures
        SCALE * spec_credited(gi, h) + spec_carry(gi, h) == accrued_atomics(gi, h),
        0 <= spec_carry(gi, h) < SCALE,
        spec_credited(gi, h) >= 0,
{
    lemma_mul_nonnegative(h.balance as int, gi.atomics - h.index.atomics);
    lemma_fundamental_div_mod(accrued_atomics(gi, h), SCALE as int);
    lemma_mod_division_less_than_divisor(accrued_atomics(gi, h), SCALE as int);
    lemma_div_pos_is_pos(accrued_atomics(gi, h), SCALE as int);
}

/// No double-pay.
///
/// Right after a successful claim the holder's pending rewards are zero and
/// its snapshot index equals the global index (that is what
/// `execute_receive_reward` ensures).  As long as no reward inflow moves the
/// global index, reconciling such a holder again accrues only the fractional
/// carry, which is below one whole unit, so nothing is credited and the
/// pending rewards stay zero: by the contract of `execute_receive_reward`, a
/// second claim fails with `NoRewards`.
pub proof fn lemma_no_double_pay(gi: Fixed, h: Holder)
    requires
        h.pending_rewards == 0,
        h.index == gi,
        h.wf(),
    ensures
        reconcile_fits(gi, h),
        spec_credited(gi, h) == 0,
        reconciled(gi, h).pending_rewards == 0,
{
    assert(accrued_atomics(gi, h) == h.dec_rewards.atomics);
    lemma_basic_div(h.dec_rewards.atomics as int, SCALE as int);
}

/// Late joiner isolation.
///
/// A holder who bonds after a reward inflow has been folded into the global
/// index starts with a fresh account whose snapshot is the post-inflow
/// index `gi` (that is what `execute_bond` ensures).  Reconciling that
/// account at `gi` credits nothing and changes nothing — none of the prior
/// inflow reaches the late joiner — and reconciling it at any later index
/// `gi2` credits exactly the balance times the movement since `gi`, so only
/// inflow folded in after the holder joined is ever paid to them.
pub proof fn lemma_late_joiner(gi: Fixed, gi2: Fixed, balance: u128)
    requires
        gi.atomics <= gi2.atomics,
    ensures
        ({
            let h = Holder {
                balance,
                index: gi,
                dec_rewards: (Fixed { atomics: 0 }),
                pending_rewards: 0,
            };
            &&& spec_credited(gi, h) == 0
            &&& reconciled(gi, h) == h
            &&& spec_credited(gi2, h) == balance * (gi2.atomics - gi.atomics) / (SCALE as int)
        }),
{
    let h = Holder {
        balance,
        index: gi,
        dec_rewards: (Fixed { atomics: 0 }),
        pending_rewards: 0,
    };
    assert(balance * (gi.atomics - gi.atomics) == 0) by {
        lemma_mul_basics(balance as int);
    }
    assert(accrued_atomics(gi, h) == 0);
    lemma_basic_div(0, SCALE as int);
    assert(spec_carry(gi, h) == 0) by {
        lemma_mod_division_less_than_divisor(0, SCALE as int);
        lemma_fundamental_div_mod(0, SCALE as int);
    }
}

/// The holder after reconciling against each index of `gis` in turn.
pub open spec fn reconcile_seq(h: Holder, gis: Seq<Fixed>) -> Holder
    decreases gis.len(),
{
    if gis.len() == 0 {
        h
    } else {
        reconcile_seq(reconciled(gis[0], h), gis.drop_first())
    }
}

/// The total of the whole units credited over those reconciliations.
pub open spec fn credited_seq(h: Holder, gis: Seq<Fixed>) -> int
    decreases gis.len(),
{
    if gis.len() == 0 {
        0
    } else {
        spec_credited(gis[0], h) + credited_seq(reconciled(gis[0], h), gis.drop_first())
    }
}

/// Whether the indices of `gis` continue non-decreasingly from `from`.
pub open spec fn nondecreasing_from(from: Fixed, gis: Seq<Fixed>) -> bool
    decreases gis.len(),
{
    gis.len() == 0 || (from.atomics <= gis[0].atomics && nondecreasing_from(
        gis[0],
        gis.drop_first(),
    ))
}

/// Truncation conservation.
///
/// Across any chain of reconciliations with no stake change, the sum of all
/// whole units ever credited, scaled back up, plus the final fractional
/// carry equals exactly the accrual computed without any intermediate
/// truncation: the holder's balance times the total index movement, plus
/// the carry it started with.  Truncating at every step loses nothing.
pub proof fn lemma_truncation_conservation(h: Holder, gis: Seq<Fixed>)
    requires
        h.wf(),
        gis.len() > 0,
        nondecreasing_from(h.index, gis),
    ensures
        reconcile_seq(h, gis).balance == h.balance,
        reconcile_seq(h, gis).index == gis[gis.len() - 1],
        SCALE * credited_seq(h, gis) + reconcile_seq(h, gis).dec_rewards.atomics == h.balance * (
        gis[gis.len() - 1].atomics - h.index.atomics) + h.dec_rewards.atomics,
    decreases gis.len(),
{
    let g0 = gis[0];
    let h1 = reconciled(g0, h);
    lemma_reconcile_exact(g0, h);
    assert(h1.dec_rewards.atomics == spec_carry(g0, h));
    assert(h1.wf());
    if gis.len() == 1 {
        let rest = gis.drop_first();
        assert(rest.len() == 0);
        assert(reconcile_seq(h1, rest) == h1);
        assert(credited_seq(h1, rest) == 0);
        assert(reconcile_seq(h, gis) == h1);
        assert(credited_seq(h, gis) == spec_credited(g0, h));
    } else {
        let rest = gis.drop_first();
        let last = gis[gis.len() - 1];
        assert(rest[rest.len() - 1] == last);
        lemma_truncation_conservation(h1, rest);
        assert(h.balance * (last.atomics - g0.atomics) + h.balance * (g0.atomics
            - h.index.atomics) == h.balance * (last.atomics - h.index.atomics)) by {
            lemma_mul_is_distributive_sub(h.balance as int, last.atomics as int, g0.atomics as int);
            lemma_mul_is_distributive_sub(
                h.balance as int,
                last.atomics as int,
                h.index.atomics as int,
            );
            lemma_mul_is_distributive_sub(h.balance as int, g0.atomics as int, h.index.atomics as int);
        }
    }
}

} // verus!
