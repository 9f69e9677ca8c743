use vstd::prelude::*;
use vstd::arithmetic::div_mod::lemma_mod_division_less_than_divisor;
use crate::error::ContractError;
use crate::fixed::Fixed;
use crate::fixed::SCALE;
use crate::state::State;
use crate::state::Holder;
use crate::state::Holders;
use crate::state::HolderEntry;
use crate::state::contains_key;
use crate::state::key_index;
use crate::state::holder_of;
use crate::state::sum_balances;
use crate::state::lemma_key_index;
use crate::state::unique_keys;
use crate::state::sorted_by_addr;
use crate::state::first_above;
use crate::state::lemma_first_above_bounds;
use crate::state::lemma_first_above_is;
use crate::state::str_lt;
use crate::state::lex_lt;
use crate::state::Config;
use crate::msg::WithdrawResponse;
use crate::msg::InstantiateMsg;
use crate::msg::StateResponse;
use crate::msg::ConfigResponse;
use crate::msg::AccruedRewardsResponse;
use crate::msg::HolderResponse;
use crate::msg::HoldersResponse;

verus! {

/// The reward newly earned by `h` since its last reconciliation, measured in
/// atomic index units: the holder's balance times the index movement, plus
/// the fractional carry left behind last time.
pub open spec fn accrued_atomics(gi: Fixed, h: Holder) -> int {
    h.balance * (gi.atomics - h.index.atomics) + h.dec_rewards.atomics
}

/// The whole reward units of the accrual: what a reconciliation credits.
pub open spec fn spec_credited(gi: Fixed, h: Holder) -> int {
    accrued_atomics(gi, h) / (SCALE as int)
}

/// The fractional remainder of the accrual: what a reconciliation carries
/// forward.
pub open spec fn spec_carry(gi: Fixed, h: Holder) -> int {
    accrued_atomics(gi, h) % (SCALE as int)
}

/// Whether reconciling `h` against `gi` stays within the integer width.
pub open spec fn reconcile_fits(gi: Fixed, h: Holder) -> bool {
    &&& accrued_atomics(gi, h) <= u128::MAX
    &&& h.pending_rewards + spec_credited(gi, h) <= u128::MAX
}

/// The holder record after reconciling `h` against `gi`: the snapshot index
/// advances to `gi`, the whole units join the pending rewards, the remainder
/// becomes the new carry, and the balance is untouched.
pub open spec fn reconciled(gi: Fixed, h: Holder) -> Holder {
    Holder {
        balance: h.balance,
        index: gi,
        dec_rewards: Fixed { atomics: spec_carry(gi, h) as u128 },
        pending_rewards: (h.pending_rewards + spec_credited(gi, h)) as u128,
    }
}

/// Advance `holder`'s account to the current global index: credit the whole
/// reward units earned since the holder's last snapshot to its pending
/// rewards, keep the fractional remainder as the new carry, and move the
/// snapshot to `state.global_index`.  Returns the amount newly credited.
///
/// Nothing is lost to truncation: the credited units and the new carry
/// together hold exactly the accrued amount (see `laws`).  On failure the
/// holder is unchanged.
pub fn update_holder_rewards(state: &State, holder: &mut Holder) -> (r: Result<
    u128,
    ContractError,
>)
    requires
        old(holder).wf(),
        old(holder).index.atomics <= state.global_index.atomics,
    ensures
        r is Ok <==> reconcile_fits(state.global_index, *old(holder)),
        (r matches Ok(amount) ==> {
            &&& amount == spec_credited(state.global_index, *old(holder))
            &&& *final(holder) == reconciled(state.global_index, *old(holder))
        }),
        r is Err ==> *final(holder) == *old(holder) && r->Err_0 == ContractError::Overflow,
        final(holder).wf(),
        final(holder).balance == old(holder).balance,
        final(holder).index.atomics <= state.global_index.atomics,
{
    let diff: Fixed = state.global_index.sub(holder.index);
    let prod: u128 = match holder.balance.checked_mul(diff.atomics) {
        Some(p) => p,
        None => {
            return Err(ContractError::Overflow);
        },
    };
    let accrued: u128 = match prod.checked_add(holder.dec_rewards.atomics) {
        Some(a) => a,
        None => {
            return Err(ContractError::Overflow);
        },
    };
    let credited: u128 = accrued / SCALE;
    let carry: u128 = accrued % SCALE;
    proof {
        lemma_mod_division_less_than_divisor(accrued as int, SCALE as int);
    }
    let pending: u128 = match holder.pending_rewards.checked_add(credited) {
        Some(p) => p,
        None => {
            return Err(ContractError::Overflow);
        },
    };
    holder.index = state.global_index;
    holder.dec_rewards = Fixed { atomics: carry };
    holder.pending_rewards = pending;
    Ok(credited)
}

/// How far one refresh moves the global index: the newly arrived amount
/// spread over the staked total, in atomic index units, rounded down.
pub open spec fn index_delta(st: State, amount: u128) -> int {
    amount * SCALE / (st.total_staked as int)
}

/// Whether refreshing `st` with `amount` stays within the integer width.
pub open spec fn refresh_fits(st: State, amount: u128) -> bool {
    &&& st.total_rewards + amount <= u128::MAX
    &&& (st.total_staked > 0 ==> {
        &&& amount * SCALE <= u128::MAX
        &&& st.global_index.atomics + index_delta(st, amount) <= u128::MAX
    })
}

/// The ledger record after folding `amount` into it.  With no stake the
/// index is left alone — the inflow is recorded but stranded; otherwise the
/// index grows by the amount per staked unit.
pub open spec fn refreshed(st: State, amount: u128) -> State {
    State {
        global_index: if st.total_staked == 0 {
            st.global_index
        } else {
            Fixed { atomics: (st.global_index.atomics + index_delta(st, amount)) as u128 }
        },
        total_staked: st.total_staked,
        total_rewards: (st.total_rewards + amount) as u128,
        rewards_claimed: st.rewards_claimed,
    }
}

/// Global index refresh: fold a newly arrived reward `amount` into the
/// cumulative index, proportionally to the staked total, and record the
/// amount in `total_rewards`.
///
/// Safe to call with zero stake: the amount is still recorded — so it is not
/// double counted later — but the index increment is skipped rather than
/// dividing by zero, and the inflow is effectively stranded.  The index
/// never decreases, and on failure the record is unchanged.
pub fn update_global_index(state: &mut State, amount: u128) -> (r: Result<(), ContractError>)
    ensures
        r is Ok <==> refresh_fits(*old(state), amount),
        r is Ok ==> *final(state) == refreshed(*old(state), amount),
        r is Err ==> *final(state) == *old(state) && r->Err_0 == ContractError::Overflow,
        final(state).global_index.atomics >= old(state).global_index.atomics,
        final(state).total_staked == old(state).total_staked,
        final(state).rewards_claimed == old(state).rewards_claimed,
        old(state).total_staked == 0 ==> final(state).global_index == old(state).global_index,
{
    let new_rewards: u128 = match state.total_rewards.checked_add(amount) {
        Some(t) => t,
        None => {
            return Err(ContractError::Overflow);
        },
    };
    if state.total_staked == 0 {
        state.total_rewards = new_rewards;
        Ok(())
    } else {
        let delta: Fixed = match Fixed::from_ratio(amount, state.total_staked) {
            Some(d) => d,
            None => {
                return Err(ContractError::Overflow);
            },
        };
        let new_index: Fixed = match state.global_index.checked_add(delta) {
            Some(g) => g,
            None => {
                return Err(ContractError::Overflow);
            },
        };
        state.global_index = new_index;
        state.total_rewards = new_rewards;
        Ok(())
    }
}

/// Fold a newly received reward payment into the global index.
///
/// Refuses the inflow outright when nothing is staked — there is nobody to
/// distribute to — so that no caller strands funds by accident.  The payment
/// itself is validated and extracted by the caller; `amount` is its positive
/// size.
pub fn execute_update_reward(state: &mut State, amount: u128) -> (r: Result<(), ContractError>)
    requires
        amount > 0,
    ensures
        old(state).total_staked == 0 ==> {
            &&& r is Err
            &&& r->Err_0 == ContractError::NoBond
            &&& *final(state) == *old(state)
        },
        old(state).total_staked > 0 ==> {
            &&& (r is Ok <==> refresh_fits(*old(state), amount))
            &&& (r is Ok ==> *final(state) == refreshed(*old(state), amount))
            &&& (r is Err ==> *final(state) == *old(state) && r->Err_0 == ContractError::Overflow)
        },
        final(state).global_index.atomics >= old(state).global_index.atomics,
        final(state).total_staked == old(state).total_staked,
        final(state).rewards_claimed == old(state).rewards_claimed,
{
    if state.total_staked == 0 {
        return Err(ContractError::NoBond);
    }
    update_global_index(state, amount)
}

/// Bond `amount` of staked principal for `addr`.
///
/// A first-time holder starts at the current global index with no rewards,
/// so nothing folded into the index before they joined is ever credited to
/// them.  An existing holder is reconciled against the current index before
/// the deposit, so the period just ended is paid on the pre-deposit balance.
/// Either way the balance and the staked total grow by `amount` together,
/// keeping the sum of balances equal to `total_staked`.  On failure nothing
/// changes.
pub fn execute_bond(state: &mut State, holders: &mut Holders, addr: &String, amount: u128) -> (r:
    Result<(), ContractError>)
    requires
        amount > 0,
        old(holders).wf(old(state).global_index),
    ensures
        final(state).global_index == old(state).global_index,
        final(state).total_rewards == old(state).total_rewards,
        final(state).rewards_claimed == old(state).rewards_claimed,
        final(holders).wf(final(state).global_index),
        r is Err ==> {
            &&& *final(state) == *old(state)
            &&& final(holders).entries@ == old(holders).entries@
            &&& r->Err_0 == ContractError::Overflow
        },
        r is Ok ==> final(state).total_staked == old(state).total_staked + amount,
        r is Ok ==> sum_balances(final(holders).entries@) == sum_balances(old(holders).entries@)
            + amount,
        sum_balances(old(holders).entries@) == old(state).total_staked ==> sum_balances(
            final(holders).entries@,
        ) == final(state).total_staked,
        ({
            let s = old(holders).entries@;
            let gi = old(state).global_index;
            if !contains_key(s, addr@) {
                &&& (r is Ok <==> old(state).total_staked + amount <= u128::MAX)
                &&& (r is Ok ==> final(holders).entries@ == s.insert(
                    first_above(s, addr@),
                    (HolderEntry {
                        addr: *addr,
                        holder: (Holder {
                            balance: amount,
                            index: gi,
                            dec_rewards: (Fixed { atomics: 0 }),
                            pending_rewards: 0,
                        }),
                    }),
                ))
            } else {
                let h = holder_of(s, addr@);
                &&& (r is Ok <==> reconcile_fits(gi, h) && h.balance + amount <= u128::MAX
                    && old(state).total_staked + amount <= u128::MAX)
                &&& (r is Ok ==> final(holders).entries@ == s.update(
                    key_index(s, addr@),
                    (HolderEntry {
                        addr: s[key_index(s, addr@)].addr,
                        holder: (Holder {
                            balance: (h.balance + amount) as u128,
                            index: gi,
                            dec_rewards: reconciled(gi, h).dec_rewards,
                            pending_rewards: reconciled(gi, h).pending_rewards,
                        }),
                    }),
                ))
            }
        }),
{
    let ghost s = holders.entries@;
    let gi = state.global_index;
    let new_total: u128 = match state.total_staked.checked_add(amount) {
        Some(t) => t,
        None => {
            return Err(ContractError::Overflow);
        },
    };
    match holders.may_load(addr) {
        None => {
            let h = Holder::new(amount, gi, 0, Fixed::zero());
            holders.save(addr, h);
            state.total_staked = new_total;
            proof {
                let pi = first_above(s, addr@);
                lemma_first_above_bounds(s, addr@);
                assert forall|i: int| 0 <= i < holders.entries@.len() implies (
                #[trigger] holders.entries@[i].holder).wf() && holders.entries@[i].holder.index.atomics
                    <= state.global_index.atomics by {
                    if i < pi {
                        assert(holders.entries@[i] == s[i]);
                        assert(s[i].holder.wf());
                    } else if i > pi {
                        assert(holders.entries@[i] == s[i - 1]);
                        assert(s[i - 1].holder.wf());
                    }
                }
            }
            Ok(())
        },
        Some(mut h) => {
            proof {
                lemma_key_index(s, addr@);
                assert(s[key_index(s, addr@)].holder.wf());
            }
            match update_holder_rewards(state, &mut h) {
                Err(e) => Err(e),
                Ok(_credited) => {
                    let new_balance: u128 = match h.balance.checked_add(amount) {
                        Some(b) => b,
                        None => {
                            return Err(ContractError::Overflow);
                        },
                    };
                    h.balance = new_balance;
                    holders.save(addr, h);
                    state.total_staked = new_total;
                    proof {
                        let k = key_index(s, addr@);
                        assert forall|i: int| 0 <= i < holders.entries@.len() implies (
                        #[trigger] holders.entries@[i].holder).wf()
                            && holders.entries@[i].holder.index.atomics
                            <= state.global_index.atomics by {
                            if i != k {
                                assert(holders.entries@[i] == s[i]);
                                assert(s[i].holder.wf());
                            }
                        }
                    }
                    Ok(())
                },
            }
        },
    }
}

/// Withdraw staked principal for `addr`: the whole balance when no amount is
/// given, the requested amount otherwise.
///
/// The holder is reconciled first, and the accrued rewards are paid out
/// atomically with the returned principal — the result carries both
/// transfer amounts, and either the whole operation commits or nothing
/// does.  The remaining balance keeps accruing from the current index.
pub fn execute_withdraw(
    state: &mut State,
    holders: &mut Holders,
    addr: &String,
    amount: Option<u128>,
) -> (r: Result<WithdrawResponse, ContractError>)
    requires
        old(holders).wf(old(state).global_index),
    ensures
        final(state).global_index == old(state).global_index,
        final(state).total_rewards == old(state).total_rewards,
        final(state).rewards_claimed == old(state).rewards_claimed,
        final(holders).wf(final(state).global_index),
        r is Err ==> {
            &&& *final(state) == *old(state)
            &&& final(holders).entries@ == old(holders).entries@
        },
        sum_balances(old(holders).entries@) == old(state).total_staked ==> sum_balances(
            final(holders).entries@,
        ) == final(state).total_staked,
        ({
            let s = old(holders).entries@;
            let gi = old(state).global_index;
            if !contains_key(s, addr@) {
                r is Err && r->Err_0 == ContractError::NoBond
            } else {
                let h = holder_of(s, addr@);
                let wa = match amount {
                    Option::Some(a) => a,
                    Option::None => h.balance,
                };
                if h.balance < wa {
                    r is Err && r->Err_0 == ContractError::DecreaseAmountExceeds(h.balance)
                } else {
                    &&& (r is Ok <==> reconcile_fits(gi, h) && wa <= old(state).total_staked)
                    &&& (r matches Ok(resp) ==> {
                        &&& resp == (WithdrawResponse {
                            rewards: reconciled(gi, h).pending_rewards,
                            principal: wa,
                        })
                        &&& final(holders).entries@ == s.update(
                            key_index(s, addr@),
                            (HolderEntry {
                                addr: s[key_index(s, addr@)].addr,
                                holder: (Holder {
                                    balance: (h.balance - wa) as u128,
                                    index: gi,
                                    dec_rewards: reconciled(gi, h).dec_rewards,
                                    pending_rewards: 0,
                                }),
                            }),
                        )
                        &&& final(state).total_staked == old(state).total_staked - wa
                        &&& sum_balances(final(holders).entries@) == sum_balances(s) - wa
                    })
                    &&& (r is Err ==> r->Err_0 == ContractError::Overflow)
                }
            }
        }),
{
    let ghost s = holders.entries@;
    let mut h: Holder = match holders.may_load(addr) {
        None => {
            return Err(ContractError::NoBond);
        },
        Some(h) => h,
    };
    let withdraw_amount: u128 = match amount {
        Some(a) => a,
        None => h.balance,
    };
    if h.balance < withdraw_amount {
        return Err(ContractError::DecreaseAmountExceeds(h.balance));
    }
    let new_total: u128 = match state.total_staked.checked_sub(withdraw_amount) {
        Some(t) => t,
        None => {
            return Err(ContractError::Overflow);
        },
    };
    proof {
        lemma_key_index(s, addr@);
        assert(s[key_index(s, addr@)].holder.wf());
    }
    match update_holder_rewards(state, &mut h) {
        Err(e) => Err(e),
        Ok(_credited) => {
            let response = WithdrawResponse { rewards: h.pending_rewards, principal: withdraw_amount };
            h.balance = h.balance - withdraw_amount;
            h.pending_rewards = 0;
            holders.save(addr, h);
            state.total_staked = new_total;
            proof {
                let k = key_index(s, addr@);
                assert forall|i: int| 0 <= i < holders.entries@.len() implies (
                #[trigger] holders.entries@[i].holder).wf()
                    && holders.entries@[i].holder.index.atomics <= state.global_index.atomics by {
                    if i != k {
                        assert(holders.entries@[i] == s[i]);
                        assert(s[i].holder.wf());
                    }
                }
            }
            Ok(response)
        },
    }
}

/// Pay out `addr`'s accrued reward without touching the principal.
///
/// The holder is reconciled first; a claim that would pay zero fails with
/// `NoRewards` instead of scheduling an empty transfer.  Only the integer
/// pending amount is paid and cleared — the fractional carry stays, and
/// keeps accruing toward the next whole unit.
pub fn execute_receive_reward(state: &mut State, holders: &mut Holders, addr: &String) -> (r:
    Result<u128, ContractError>)
    requires
        old(holders).wf(old(state).global_index),
    ensures
        final(state).global_index == old(state).global_index,
        final(state).total_staked == old(state).total_staked,
        final(state).total_rewards == old(state).total_rewards,
        final(holders).wf(final(state).global_index),
        r is Err ==> {
            &&& *final(state) == *old(state)
            &&& final(holders).entries@ == old(holders).entries@
        },
        sum_balances(final(holders).entries@) == sum_balances(old(holders).entries@),
        ({
            let s = old(holders).entries@;
            let gi = old(state).global_index;
            if !contains_key(s, addr@) {
                r is Err && r->Err_0 == ContractError::NoBond
            } else {
                let h = holder_of(s, addr@);
                if h.balance == 0 {
                    r is Err && r->Err_0 == ContractError::NoBond
                } else {
                    let rec = reconciled(gi, h);
                    &&& (r is Ok <==> reconcile_fits(gi, h) && rec.pending_rewards > 0 && old(
                        state,
                    ).rewards_claimed + rec.pending_rewards <= u128::MAX)
                    &&& (r matches Ok(paid) ==> {
                        &&& paid == rec.pending_rewards
                        &&& final(holders).entries@ == s.update(
                            key_index(s, addr@),
                            (HolderEntry {
                                addr: s[key_index(s, addr@)].addr,
                                holder: (Holder {
                                    balance: h.balance,
                                    index: gi,
                                    dec_rewards: rec.dec_rewards,
                                    pending_rewards: 0,
                                }),
                            }),
                        )
                        &&& final(state).rewards_claimed == old(state).rewards_claimed + paid
                    })
                    &&& (!reconcile_fits(gi, h) ==> r is Err && r->Err_0
                        == ContractError::Overflow)
                    &&& (reconcile_fits(gi, h) && rec.pending_rewards == 0 ==> r is Err
                        && r->Err_0 == ContractError::NoRewards)
                    &&& (reconcile_fits(gi, h) && rec.pending_rewards > 0 && old(
                        state,
                    ).rewards_claimed + rec.pending_rewards > u128::MAX ==> r is Err && r->Err_0
                        == ContractError::Overflow)
                }
            }
        }),
{
    let ghost s = holders.entries@;
    let mut h: Holder = match holders.may_load(addr) {
        None => {
            return Err(ContractError::NoBond);
        },
        Some(h) => h,
    };
    if h.balance == 0 {
        return Err(ContractError::NoBond);
    }
    proof {
        lemma_key_index(s, addr@);
        assert(s[key_index(s, addr@)].holder.wf());
    }
    match update_holder_rewards(state, &mut h) {
        Err(e) => Err(e),
        Ok(_credited) => {
            if h.pending_rewards == 0 {
                return Err(ContractError::NoRewards);
            }
            let paid: u128 = h.pending_rewards;
            let new_claimed: u128 = match state.rewards_claimed.checked_add(paid) {
                Some(c) => c,
                None => {
                    return Err(ContractError::Overflow);
                },
            };
            h.pending_rewards = 0;
            holders.save(addr, h);
            state.rewards_claimed = new_claimed;
            proof {
                let k = key_index(s, addr@);
                assert forall|i: int| 0 <= i < holders.entries@.len() implies (
                #[trigger] holders.entries@[i].holder).wf()
                    && holders.entries@[i].holder.index.atomics <= state.global_index.atomics by {
                    if i != k {
                        assert(holders.entries@[i] == s[i]);
                        assert(s[i].holder.wf());
                    }
                }
            }
            Ok(paid)
        },
    }
}

/// Reconcile one holder's account against the current global index, without
/// any other effect.  Fails with `NoBond` when nothing is staked system-wide
/// or the holder is unknown.  Returns the amount newly credited.
pub fn execute_update_holder_rewards(state: &State, holders: &mut Holders, addr: &String) -> (r:
    Result<u128, ContractError>)
    requires
        old(holders).wf(state.global_index),
    ensures
        final(holders).wf(state.global_index),
        r is Err ==> final(holders).entries@ == old(holders).entries@,
        sum_balances(final(holders).entries@) == sum_balances(old(holders).entries@),
        ({
            let s = old(holders).entries@;
            let gi = state.global_index;
            if state.total_staked == 0 || !contains_key(s, addr@) {
                r is Err && r->Err_0 == ContractError::NoBond
            } else {
                let h = holder_of(s, addr@);
                &&& (r is Ok <==> reconcile_fits(gi, h))
                &&& (r matches Ok(credited) ==> {
                    &&& credited == spec_credited(gi, h)
                    &&& final(holders).entries@ == s.update(
                        key_index(s, addr@),
                        (HolderEntry {
                            addr: s[key_index(s, addr@)].addr,
                            holder: reconciled(gi, h),
                        }),
                    )
                })
                &&& (r is Err ==> r->Err_0 == ContractError::Overflow)
            }
        }),
{
    let ghost s = holders.entries@;
    if state.total_staked == 0 {
        return Err(ContractError::NoBond);
    }
    let mut h: Holder = match holders.may_load(addr) {
        None => {
            return Err(ContractError::NoBond);
        },
        Some(h) => h,
    };
    proof {
        lemma_key_index(s, addr@);
        assert(s[key_index(s, addr@)].holder.wf());
    }
    match update_holder_rewards(state, &mut h) {
        Err(e) => Err(e),
        Ok(credited) => {
            holders.save(addr, h);
            proof {
                let k = key_index(s, addr@);
                assert forall|i: int| 0 <= i < holders.entries@.len() implies (
                #[trigger] holders.entries@[i].holder).wf()
                    && holders.entries@[i].holder.index.atomics <= state.global_index.atomics by {
                    if i != k {
                        assert(holders.entries@[i] == s[i]);
                        assert(s[i].holder.wf());
                    }
                }
            }
            Ok(credited)
        },
    }
}

/// Create the ledger: the two denominations must differ, the admin defaults
/// to the sender, and the ledger record starts from zero.  Address
/// validation is the caller's concern.
pub fn instantiate(msg: InstantiateMsg, sender: String) -> (r: Result<
    (Config, State),
    ContractError,
>)
    ensures
        r is Err <==> msg.staked_token_denom@ == msg.reward_denom@,
        r is Err ==> r->Err_0 == ContractError::SameDenom,
        (r matches Ok(cs) ==> {
            &&& cs.0 == (Config {
                staked_token_denom: msg.staked_token_denom,
                reward_denom: msg.reward_denom,
                admin: (match msg.admin {
                    Option::Some(a) => a,
                    Option::None => sender,
                }),
            })
            &&& cs.1 == (State {
                global_index: (Fixed { atomics: 0 }),
                total_staked: 0,
                total_rewards: 0,
                rewards_claimed: 0,
            })
        }),
{
    if msg.staked_token_denom == msg.reward_denom {
        return Err(ContractError::SameDenom);
    }
    let admin: String = match msg.admin {
        Some(a) => a,
        None => sender,
    };
    let config = Config {
        staked_token_denom: msg.staked_token_denom,
        reward_denom: msg.reward_denom,
        admin,
    };
    let state = State {
        global_index: Fixed::zero(),
        total_staked: 0,
        total_rewards: 0,
        rewards_claimed: 0,
    };
    Ok((config, state))
}

/// Hand the admin role to `address`; only the current admin may.  The new
/// address is validated by the caller.
pub fn execute_update_admin(config: &mut Config, sender: &String, address: String) -> (r: Result<
    (),
    ContractError,
>)
    ensures
        r is Ok <==> sender@ == old(config).admin@,
        r is Err ==> r->Err_0 == ContractError::Unauthorized && *final(config) == *old(config),
        r is Ok ==> {
            &&& final(config).admin == address
            &&& final(config).staked_token_denom == old(config).staked_token_denom
            &&& final(config).reward_denom == old(config).reward_denom
        },
{
    if *sender == config.admin {
        config.admin = address;
        Ok(())
    } else {
        Err(ContractError::Unauthorized)
    }
}

/// Decide whether `sender` may sweep every asset the ledger holds: only the
/// admin may.  The caller performs the transfers themselves on `Ok`.
pub fn execute_admin_withdraw_all(config: &Config, sender: &String) -> (r: Result<
    (),
    ContractError,
>)
    ensures
        r is Ok <==> sender@ == config.admin@,
        r is Err ==> r->Err_0 == ContractError::Unauthorized,
{
    if *sender == config.admin {
        Ok(())
    } else {
        Err(ContractError::Unauthorized)
    }
}

/// Report the ledger record.
pub fn query_state(state: &State) -> (r: StateResponse)
    ensures
        r == (StateResponse {
            global_index: state.global_index,
            total_staked: state.total_staked,
            total_rewards: state.total_rewards,
            rewards_claimed: state.rewards_claimed,
        }),
{
    StateResponse {
        global_index: state.global_index,
        total_staked: state.total_staked,
        total_rewards: state.total_rewards,
        rewards_claimed: state.rewards_claimed,
    }
}

/// Report the configuration.
pub fn query_config(config: &Config) -> (r: ConfigResponse)
    ensures
        r == (ConfigResponse {
            staked_token_denom: config.staked_token_denom,
            reward_denom: config.reward_denom,
            admin: config.admin,
        }),
{
    ConfigResponse {
        staked_token_denom: config.staked_token_denom.clone(),
        reward_denom: config.reward_denom.clone(),
        admin: config.admin.clone(),
    }
}

/// Report a holder's accrued-but-unpaid reward, as of its last
/// reconciliation.
pub fn query_accrued_rewards(holders: &Holders, address: String) -> (r: Result<
    AccruedRewardsResponse,
    ContractError,
>)
    requires
        unique_keys(holders.entries@),
    ensures
        r is Ok <==> contains_key(holders.entries@, address@),
        (r matches Ok(resp) ==> resp.rewards == holder_of(
            holders.entries@,
            address@,
        ).pending_rewards),
        r is Err ==> r->Err_0 == ContractError::NoBond,
{
    match holders.may_load(&address) {
        None => Err(ContractError::NoBond),
        Some(h) => Ok(AccruedRewardsResponse { rewards: h.pending_rewards }),
    }
}

/// Report one holder's account.
pub fn query_holder(holders: &Holders, address: String) -> (r: Result<
    HolderResponse,
    ContractError,
>)
    requires
        unique_keys(holders.entries@),
    ensures
        r is Ok <==> contains_key(holders.entries@, address@),
        (r matches Ok(resp) ==> resp == (HolderResponse {
            address: address,
            balance: holder_of(holders.entries@, address@).balance,
            index: holder_of(holders.entries@, address@).index,
            pending_rewards: holder_of(holders.entries@, address@).pending_rewards,
            dec_rewards: holder_of(holders.entries@, address@).dec_rewards,
        })),
        r is Err ==> r->Err_0 == ContractError::NoBond,
{
    match holders.may_load(&address) {
        None => Err(ContractError::NoBond),
        Some(h) => Ok(
            HolderResponse {
                address,
                balance: h.balance,
                index: h.index,
                pending_rewards: h.pending_rewards,
                dec_rewards: h.dec_rewards,
            },
        ),
    }
}

/// The most holders one listing reports.
pub const MAX_LIMIT: u32 = 30;

/// How many holders a listing reports when no limit is given.
pub const DEFAULT_LIMIT: u32 = 10;

/// The position a holder listing starts from: the first entry whose address
/// orders strictly after the cursor — an exclusive bound, whether or not the
/// cursor itself names a stored address.
pub open spec fn listing_start(s: Seq<HolderEntry>, start_after: Option<String>) -> int {
    match start_after {
        Option::Some(a) => first_above(s, a@),
        Option::None => 0,
    }
}

/// How many entries a listing reports, under its limit.
pub open spec fn listing_len(s: Seq<HolderEntry>, start: int, lim: int) -> int {
    if s.len() - start < lim {
        s.len() - start
    } else {
        lim
    }
}

/// List holder accounts, in ascending address order, starting at the first
/// address strictly greater than `start_after` — the cursor is exclusive and
/// need not name a stored address — and reporting at most `limit` of them
/// (capped at `MAX_LIMIT`, defaulting to `DEFAULT_LIMIT`).
pub fn query_holders(holders: &Holders, start_after: Option<String>, limit: Option<u32>) -> (r:
    HoldersResponse)
    requires
        sorted_by_addr(holders.entries@),
    ensures
        ({
            let s = holders.entries@;
            let lim = (match limit {
                Option::Some(l) => if l < MAX_LIMIT {
                    l as int
                } else {
                    MAX_LIMIT as int
                },
                Option::None => DEFAULT_LIMIT as int,
            });
            let start = listing_start(s, start_after);
            &&& r.holders@.len() == listing_len(s, start, lim)
            &&& forall|j: int|
                0 <= j < r.holders@.len() ==> #[trigger] r.holders@[j] == (HolderResponse {
                    address: s[start + j].addr,
                    balance: s[start + j].holder.balance,
                    index: s[start + j].holder.index,
                    pending_rewards: s[start + j].holder.pending_rewards,
                    dec_rewards: s[start + j].holder.dec_rewards,
                })
        }),
{
    let ghost s = holders.entries@;
    let n: usize = holders.entries.len();
    let start: usize = match &start_after {
        Some(a) => {
            let mut pos: usize = 0;
            while pos < n && !str_lt(a.as_str(), holders.entries[pos].addr.as_str())
                invariant
                    n == holders.entries@.len(),
                    s == holders.entries@,
                    pos <= n,
                    forall|j: int| 0 <= j < pos ==> !lex_lt(a@, holders.entries@[j].addr@),
                decreases n - pos,
            {
                pos = pos + 1;
            }
            proof {
                lemma_first_above_is(s, a@, pos as int);
            }
            pos
        },
        None => 0,
    };
    let lim_u32: u32 = match limit {
        Some(l) => if l < MAX_LIMIT {
            l
        } else {
            MAX_LIMIT
        },
        None => DEFAULT_LIMIT,
    };
    let lim: usize = lim_u32 as usize;
    let mut out: Vec<HolderResponse> = Vec::new();
    let mut i: usize = start;
    while i < n && out.len() < lim
        invariant
            start <= i <= n,
            n == s.len(),
            s == holders.entries@,
            out@.len() == i - start,
            out@.len() <= lim,
            forall|j: int|
                0 <= j < out@.len() ==> #[trigger] out@[j] == (HolderResponse {
                    address: s[start + j].addr,
                    balance: s[start + j].holder.balance,
                    index: s[start + j].holder.index,
                    pending_rewards: s[start + j].holder.pending_rewards,
                    dec_rewards: s[start + j].holder.dec_rewards,
                }),
        decreases n - i,
    {
        let entry = &holders.entries[i];
        out.push(
            HolderResponse {
                address: entry.addr.clone(),
                balance: entry.holder.balance,
                index: entry.holder.index,
                pending_rewards: entry.holder.pending_rewards,
                dec_rewards: entry.holder.dec_rewards,
            },
        );
        i = i + 1;
    }
    HoldersResponse { holders: out }
}

/// The fractional part of a fixed-point value: what remains below one whole
/// unit.
pub fn get_decimals(value: Fixed) -> (r: Fixed)
    ensures
        r.atomics == value.atomics % SCALE,
        r.atomics < SCALE,
{
    proof {
        lemma_mod_division_less_than_divisor(value.atomics as int, SCALE as int);
    }
    Fixed { atomics: value.atomics % SCALE }
}

} // verus!
