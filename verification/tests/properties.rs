use cw_share::contract::execute_bond;
use cw_share::contract::execute_receive_reward;
use cw_share::contract::execute_update_holder_rewards;
use cw_share::contract::execute_update_reward;
use cw_share::contract::execute_withdraw;
use cw_share::contract::update_holder_rewards;
use cw_share::contract::get_decimals;
use cw_share::contract::instantiate;
use cw_share::contract::query_accrued_rewards;
use cw_share::contract::query_holder;
use cw_share::contract::query_holders;
use cw_share::contract::query_state;
use cw_share::contract::update_global_index;
use cw_share::error::ContractError;
use cw_share::fixed::Fixed;
use cw_share::fixed::SCALE;
use cw_share::msg::InstantiateMsg;
use cw_share::state::Holder;
use cw_share::state::Holders;
use cw_share::state::State;

fn default_init() -> InstantiateMsg {
    InstantiateMsg {
        staked_token_denom: "staked".to_string(),
        reward_denom: "rewards".to_string(),
        admin: None,
    }
}

fn fresh_ledger() -> (State, Holders) {
    let (_config, state) = instantiate(default_init(), "creator".to_string()).unwrap();
    (state, Holders::new())
}

fn total_of_holders(holders: &Holders, addrs: &[&str]) -> u128 {
    let mut total: u128 = 0;
    for a in addrs {
        if let Ok(resp) = query_holder(holders, a.to_string()) {
            total += resp.balance;
        }
    }
    total
}

/// Refreshing the index with nothing staked records the inflow but must not
/// touch the index, and repeating it keeps the record consistent.
#[test]
fn zero_stake_refresh_is_safe() {
    let (mut state, _holders) = fresh_ledger();
    update_global_index(&mut state, 500).unwrap();
    assert_eq!(state.global_index, Fixed { atomics: 0 });
    assert_eq!(state.total_rewards, 500);

    update_global_index(&mut state, 300).unwrap();
    assert_eq!(state.global_index, Fixed { atomics: 0 });
    assert_eq!(state.total_rewards, 800);
    assert_eq!(state.total_staked, 0);
    assert_eq!(state.rewards_claimed, 0);
}

/// One holder stakes 100, the pool receives 1,000,000: the index becomes
/// exactly 10,000 whole units per staked unit and the holder accrues exactly
/// 1,000,000 with no fractional carry.
#[test]
fn exact_payout_scenario() {
    let (mut state, mut holders) = fresh_ledger();
    execute_bond(&mut state, &mut holders, &"a".to_string(), 100).unwrap();
    execute_update_reward(&mut state, 1000000).unwrap();
    assert_eq!(state.global_index, Fixed { atomics: 10000 * SCALE });

    let credited =
        execute_update_holder_rewards(&state, &mut holders, &"a".to_string()).unwrap();
    assert_eq!(credited, 1000000);
    let resp = query_holder(&holders, "a".to_string()).unwrap();
    assert_eq!(resp.pending_rewards, 1000000);
    assert_eq!(resp.dec_rewards, Fixed { atomics: 0 });
    assert_eq!(
        query_accrued_rewards(&holders, "a".to_string()).unwrap().rewards,
        1000000
    );
}

/// A stakes 100 and B stakes 200; the pool receives 100.  The integer
/// payouts are 33 and 66 and the carried fractions are exactly the
/// truncated remainders: nothing beyond the deposited 100 is ever paid.
#[test]
fn pro_rata_truncation_scenario() {
    let (mut state, mut holders) = fresh_ledger();
    execute_bond(&mut state, &mut holders, &"a".to_string(), 100).unwrap();
    execute_bond(&mut state, &mut holders, &"b".to_string(), 200).unwrap();
    execute_update_reward(&mut state, 100).unwrap();

    // index = floor(100 * SCALE / 300) atomic units
    let index_atomics: u128 = 100 * SCALE / 300;
    assert_eq!(state.global_index, Fixed { atomics: index_atomics });

    let credited_a =
        execute_update_holder_rewards(&state, &mut holders, &"a".to_string()).unwrap();
    let credited_b =
        execute_update_holder_rewards(&state, &mut holders, &"b".to_string()).unwrap();
    assert_eq!(credited_a, 33);
    assert_eq!(credited_b, 66);

    let resp_a = query_holder(&holders, "a".to_string()).unwrap();
    let resp_b = query_holder(&holders, "b".to_string()).unwrap();
    // the carries are exactly the truncated remainders
    assert_eq!(resp_a.dec_rewards.atomics, 100 * index_atomics % SCALE);
    assert_eq!(resp_b.dec_rewards.atomics, 200 * index_atomics % SCALE);
    // credited units plus carries hold exactly the accrued amount
    assert_eq!(
        (credited_a + credited_b) * SCALE + resp_a.dec_rewards.atomics + resp_b.dec_rewards.atomics,
        300 * index_atomics
    );
    // and never more than the deposited 100
    assert!(credited_a + credited_b <= 100);
}

/// Reconciling twice with no new inflow credits nothing the second time:
/// the carry alone never reaches a whole unit.
#[test]
fn repeated_reconciliation_credits_once() {
    let (mut state, mut holders) = fresh_ledger();
    execute_bond(&mut state, &mut holders, &"a".to_string(), 300).unwrap();
    execute_update_reward(&mut state, 1000).unwrap();

    // the index itself floors 1000/300, so one whole unit less is credited
    // and the remainder stays in the carry
    let first = execute_update_holder_rewards(&state, &mut holders, &"a".to_string()).unwrap();
    assert_eq!(first, 999);
    let second = execute_update_holder_rewards(&state, &mut holders, &"a".to_string()).unwrap();
    assert_eq!(second, 0);
    let third = execute_update_holder_rewards(&state, &mut holders, &"a".to_string()).unwrap();
    assert_eq!(third, 0);
    assert_eq!(
        query_holder(&holders, "a".to_string()).unwrap().pending_rewards,
        999
    );
    assert_eq!(
        query_holder(&holders, "a".to_string()).unwrap().dec_rewards.atomics,
        300 * (1000 * SCALE / 300) % SCALE
    );
}

/// A holder who bonds after an inflow was folded into the index accrues
/// none of it; later inflows are shared pro rata.
#[test]
fn late_joiner_gets_nothing_from_prior_inflow() {
    let (mut state, mut holders) = fresh_ledger();
    execute_bond(&mut state, &mut holders, &"a".to_string(), 100).unwrap();
    execute_update_reward(&mut state, 1000).unwrap();

    // b joins only now
    execute_bond(&mut state, &mut holders, &"b".to_string(), 100).unwrap();
    let credited_b =
        execute_update_holder_rewards(&state, &mut holders, &"b".to_string()).unwrap();
    assert_eq!(credited_b, 0);

    // a second inflow is split between both
    execute_update_reward(&mut state, 1000).unwrap();
    let credited_a =
        execute_update_holder_rewards(&state, &mut holders, &"a".to_string()).unwrap();
    let credited_b =
        execute_update_holder_rewards(&state, &mut holders, &"b".to_string()).unwrap();
    assert_eq!(credited_a, 1500);
    assert_eq!(credited_b, 500);
}

/// The sum of all holder balances equals the staked total after every
/// bond and withdraw.
#[test]
fn conservation_across_operations() {
    let (mut state, mut holders) = fresh_ledger();
    let addrs = ["a", "b", "c"];

    execute_bond(&mut state, &mut holders, &"a".to_string(), 100).unwrap();
    assert_eq!(total_of_holders(&holders, &addrs), query_state(&state).total_staked);

    execute_bond(&mut state, &mut holders, &"b".to_string(), 250).unwrap();
    assert_eq!(total_of_holders(&holders, &addrs), query_state(&state).total_staked);

    execute_update_reward(&mut state, 77).unwrap();
    execute_bond(&mut state, &mut holders, &"c".to_string(), 13).unwrap();
    assert_eq!(total_of_holders(&holders, &addrs), query_state(&state).total_staked);

    execute_withdraw(&mut state, &mut holders, &"a".to_string(), Some(40)).unwrap();
    assert_eq!(total_of_holders(&holders, &addrs), query_state(&state).total_staked);

    execute_withdraw(&mut state, &mut holders, &"b".to_string(), None).unwrap();
    assert_eq!(total_of_holders(&holders, &addrs), query_state(&state).total_staked);

    execute_bond(&mut state, &mut holders, &"b".to_string(), 5).unwrap();
    assert_eq!(total_of_holders(&holders, &addrs), query_state(&state).total_staked);
    assert_eq!(query_state(&state).total_staked, 100 - 40 + 13 + 5);
}

/// A holder whose balance has dropped to zero keeps their fractional carry:
/// reconciling credits nothing new but discards nothing either, and the
/// record survives for a future bond.
#[test]
fn zero_balance_holder_keeps_carry() {
    let (mut state, mut holders) = fresh_ledger();
    execute_bond(&mut state, &mut holders, &"a".to_string(), 100).unwrap();
    execute_bond(&mut state, &mut holders, &"b".to_string(), 200).unwrap();
    execute_update_reward(&mut state, 100).unwrap();

    let index_atomics: u128 = 100 * SCALE / 300;
    let payout = execute_withdraw(&mut state, &mut holders, &"a".to_string(), None).unwrap();
    assert_eq!(payout.rewards, 33);
    let carry = query_holder(&holders, "a".to_string()).unwrap().dec_rewards;
    assert_eq!(carry.atomics, 100 * index_atomics % SCALE);

    // reconciling the emptied account credits nothing and keeps the carry
    let credited =
        execute_update_holder_rewards(&state, &mut holders, &"a".to_string()).unwrap();
    assert_eq!(credited, 0);
    let resp = query_holder(&holders, "a".to_string()).unwrap();
    assert_eq!(resp.balance, 0);
    assert_eq!(resp.dec_rewards, carry);

    // a future bond reuses the record, carry included
    execute_bond(&mut state, &mut holders, &"a".to_string(), 50).unwrap();
    let resp = query_holder(&holders, "a".to_string()).unwrap();
    assert_eq!(resp.balance, 50);
    assert_eq!(resp.dec_rewards, carry);
}

/// Claiming with a zero balance is refused even though the record exists.
#[test]
fn claim_with_zero_balance_is_refused() {
    let (mut state, mut holders) = fresh_ledger();
    execute_bond(&mut state, &mut holders, &"a".to_string(), 100).unwrap();
    execute_bond(&mut state, &mut holders, &"b".to_string(), 200).unwrap();
    execute_update_reward(&mut state, 100).unwrap();
    execute_withdraw(&mut state, &mut holders, &"a".to_string(), None).unwrap();

    let res = execute_receive_reward(&mut state, &mut holders, &"a".to_string()).unwrap_err();
    assert_eq!(res, ContractError::NoBond);
}

/// Withdrawing more than the balance fails and reports the actual balance.
#[test]
fn withdraw_exceeding_balance_is_refused() {
    let (mut state, mut holders) = fresh_ledger();
    execute_bond(&mut state, &mut holders, &"a".to_string(), 100).unwrap();
    let res =
        execute_withdraw(&mut state, &mut holders, &"a".to_string(), Some(150)).unwrap_err();
    assert_eq!(res, ContractError::DecreaseAmountExceeds(100));
    // nothing changed
    assert_eq!(query_holder(&holders, "a".to_string()).unwrap().balance, 100);
    assert_eq!(query_state(&state).total_staked, 100);
}

/// Withdrawing for an unknown holder is refused.
#[test]
fn withdraw_unknown_holder_is_refused() {
    let (mut state, mut holders) = fresh_ledger();
    execute_bond(&mut state, &mut holders, &"a".to_string(), 100).unwrap();
    let res = execute_withdraw(&mut state, &mut holders, &"b".to_string(), None).unwrap_err();
    assert_eq!(res, ContractError::NoBond);
}

/// An inflow whose scaled value exceeds the atomic width fails with an
/// overflow error and changes nothing.
#[test]
fn oversized_inflow_overflows() {
    let (mut state, mut holders) = fresh_ledger();
    execute_bond(&mut state, &mut holders, &"a".to_string(), 1).unwrap();
    let too_big: u128 = u128::MAX / SCALE + 1;
    let res = execute_update_reward(&mut state, too_big).unwrap_err();
    assert_eq!(res, ContractError::Overflow);
    assert_eq!(state.global_index, Fixed { atomics: 0 });
    assert_eq!(state.total_rewards, 0);
}

/// Bonding past the width of the staked total fails with an overflow error.
#[test]
fn oversized_bond_overflows() {
    let (mut state, mut holders) = fresh_ledger();
    execute_bond(&mut state, &mut holders, &"a".to_string(), u128::MAX).unwrap();
    let res = execute_bond(&mut state, &mut holders, &"b".to_string(), 1).unwrap_err();
    assert_eq!(res, ContractError::Overflow);
    assert_eq!(query_state(&state).total_staked, u128::MAX);
}

/// The fractional part of a fixed-point value is its atomics modulo one
/// whole unit.
#[test]
fn get_decimals_returns_fraction() {
    let whole_and_half = Fixed { atomics: 2 * SCALE + SCALE / 2 };
    assert_eq!(get_decimals(whole_and_half), Fixed { atomics: SCALE / 2 });
    assert_eq!(get_decimals(Fixed { atomics: 7 * SCALE }), Fixed { atomics: 0 });
    assert_eq!(get_decimals(Fixed { atomics: 123 }), Fixed { atomics: 123 });
}

/// Building a fixed-point ratio floors at the last fractional digit.
#[test]
fn from_ratio_floors() {
    assert_eq!(Fixed::from_ratio(1, 3).unwrap().atomics, SCALE / 3);
    assert_eq!(Fixed::from_ratio(1000000, 100).unwrap().atomics, 10000 * SCALE);
    assert!(Fixed::from_ratio(u128::MAX / SCALE + 1, 1).is_none());
}

/// Reconciliation credits the whole units of balance times index movement
/// and carries the exact remainder.
#[test]
fn update_holder_rewards_credits_and_carries() {
    let mut state = State {
        global_index: Fixed { atomics: 3 * SCALE / 2 },
        total_staked: 10,
        total_rewards: 15,
        rewards_claimed: 0,
    };
    let mut holder = Holder {
        balance: 10,
        index: Fixed { atomics: 0 },
        dec_rewards: Fixed { atomics: 0 },
        pending_rewards: 0,
    };
    // 10 staked units over an index movement of 1.5
    let credited = update_holder_rewards(&state, &mut holder).unwrap();
    assert_eq!(credited, 15);
    assert_eq!(holder.pending_rewards, 15);
    assert_eq!(holder.dec_rewards, Fixed { atomics: 0 });
    assert_eq!(holder.index, state.global_index);

    // a movement of 0.25 accrues 2.5: two whole units, half a unit carried
    state.global_index = Fixed { atomics: 3 * SCALE / 2 + SCALE / 4 };
    let credited = update_holder_rewards(&state, &mut holder).unwrap();
    assert_eq!(credited, 2);
    assert_eq!(holder.pending_rewards, 17);
    assert_eq!(holder.dec_rewards, Fixed { atomics: SCALE / 2 });

    // another 0.25: the carry completes a whole unit
    state.global_index = Fixed { atomics: 2 * SCALE };
    let credited = update_holder_rewards(&state, &mut holder).unwrap();
    assert_eq!(credited, 3);
    assert_eq!(holder.pending_rewards, 20);
    assert_eq!(holder.dec_rewards, Fixed { atomics: 0 });
}

/// Listing holders pages through the collection in ascending address order,
/// whatever order the accounts were created in, with an exclusive cursor.
#[test]
fn holders_listing_pages() {
    let (mut state, mut holders) = fresh_ledger();
    execute_bond(&mut state, &mut holders, &"c".to_string(), 3).unwrap();
    execute_bond(&mut state, &mut holders, &"a".to_string(), 1).unwrap();
    execute_bond(&mut state, &mut holders, &"b".to_string(), 2).unwrap();

    // default limit covers all three, in address order
    let all = query_holders(&holders, None, None);
    assert_eq!(all.holders.len(), 3);
    assert_eq!(all.holders[0].address, "a".to_string());
    assert_eq!(all.holders[1].address, "b".to_string());
    assert_eq!(all.holders[2].address, "c".to_string());
    assert_eq!(all.holders[1].balance, 2);

    // an explicit limit caps the page
    let page = query_holders(&holders, None, Some(2));
    assert_eq!(page.holders.len(), 2);
    assert_eq!(page.holders[1].address, "b".to_string());

    // the cursor is exclusive
    let page = query_holders(&holders, Some("a".to_string()), None);
    assert_eq!(page.holders.len(), 2);
    assert_eq!(page.holders[0].address, "b".to_string());

    // a cursor between stored addresses starts at the first one above it
    let page = query_holders(&holders, Some("aa".to_string()), None);
    assert_eq!(page.holders.len(), 2);
    assert_eq!(page.holders[0].address, "b".to_string());

    // a cursor above every stored address yields an empty page
    let page = query_holders(&holders, Some("zz".to_string()), Some(1));
    assert_eq!(page.holders.len(), 0);

    // a cursor below every stored address lists from the beginning
    let page = query_holders(&holders, Some("0".to_string()), None);
    assert_eq!(page.holders.len(), 3);
    assert_eq!(page.holders[0].address, "a".to_string());
}

/// Each failure carries its own description.
#[test]
fn describe_names_each_failure() {
    assert_eq!(ContractError::Overflow.describe(), "arithmetic overflow");
    assert_eq!(ContractError::NoRewards.describe(), "no rewards accrued");
    assert_eq!(ContractError::Unauthorized.describe(), "unauthorized");
    assert_eq!(
        ContractError::DecreaseAmountExceeds(7).describe(),
        "decrease amount exceeds user balance"
    );
    assert_eq!(ContractError::NoBond.describe(), "no bond");
    assert_eq!(
        ContractError::SameDenom.describe(),
        "stake denom and reward denom cannot be same"
    );
}
