use vstd::prelude::*;
use crate::fixed::Fixed;

verus! {

/// Request to create the ledger: the two denominations and an optional
/// admin address (the creator becomes admin when none is given).
#[derive(Clone, Debug, PartialEq)]
pub struct InstantiateMsg {
    pub staked_token_denom: String,
    pub reward_denom: String,
    pub admin: Option<String>,
}

/// The state-mutating operations of the ledger.
#[derive(Clone, Debug, PartialEq)]
pub enum ExecuteMsg {
    UpdateReward {},
    UpdateHolderReward { address: Option<String> },
    BondStake {},
    WithdrawStake { amount: Option<u128> },
    ReceiveReward {},
    AdminWithdrawAll {},
    UpdateAdmin { address: String },
}

/// Operations a token hook may forward on a holder's behalf.
#[derive(Clone, Debug, PartialEq)]
pub enum ReceiveMsg {
    /// Bond stake user staking balance
    /// Withdraw rewards to pending rewards
    /// Set current reward index to global index
    BondStake {},
    UpdateRewardIndex {},
}

/// The read-only queries of the ledger.
#[derive(Clone, Debug, PartialEq)]
pub enum QueryMsg {
    State {},
    AccruedRewards { address: String },
    Holder { address: String },
    Config {},
    Holders { start_after: Option<String>, limit: Option<u32> },
}

/// The ledger record, as reported to a caller.
#[derive(Clone, Copy, Debug, PartialEq, Eq, Structural)]
pub struct StateResponse {
    pub global_index: Fixed,
    pub total_staked: u128,
    pub total_rewards: u128,
    pub rewards_claimed: u128,
}

/// The configuration, as reported to a caller.
#[derive(Clone, Debug, PartialEq)]
pub struct ConfigResponse {
    pub staked_token_denom: String,
    pub reward_denom: String,
    pub admin: String,
}

/// A holder's accrued-but-unpaid reward, as reported to a caller.
#[derive(Clone, Copy, Debug, PartialEq, Eq, Structural)]
pub struct AccruedRewardsResponse {
    pub rewards: u128,
}

/// One holder's account, as reported to a caller.
#[derive(Clone, Debug, PartialEq)]
pub struct HolderResponse {
    pub address: String,
    pub balance: u128,
    pub index: Fixed,
    pub pending_rewards: u128,
    pub dec_rewards: Fixed,
}

/// A page of holder accounts.
#[derive(Clone, Debug, PartialEq)]
pub struct HoldersResponse {
    pub holders: Vec<HolderResponse>,
}

/// Request to migrate the ledger; carries nothing.
#[derive(Clone, Copy, Debug, PartialEq, Eq, Structural)]
pub struct MigrateMsg {}

/// The two outbound transfers a withdrawal schedules atomically: the accrued
/// reward payout and the returned principal.
#[derive(Clone, Copy, Debug, PartialEq, Eq, Structural)]
pub struct WithdrawResponse {
    pub rewards: u128,
    pub principal: u128,
}

} // verus!
