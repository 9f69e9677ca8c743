use vstd::prelude::*;

verus! {

/// Why a ledger operation was refused.
///
/// Every operation either commits all of its effects or fails with one of
/// these reasons and changes nothing.
#[derive(Clone, Copy, Debug, PartialEq, Eq, Structural)]
pub enum ContractError {
    /// An arithmetic step would overflow its integer width.
    Overflow,
    /// A payout step would pay zero.
    NoRewards,
    /// The caller is not the admin.
    Unauthorized,
    /// Native funds must not accompany this operation.
    DoNotSendFunds,
    /// A positive amount is required.
    AmountRequired,
    /// The requested decrease exceeds the holder's balance, which is carried.
    DecreaseAmountExceeds(u128),
    /// The operation needs existing stake — by this holder, or system-wide —
    /// and none exists.
    NoBond,
    /// The right denomination and funds were not sent.
    NoFund,
    /// Address validation failed.
    InvalidAddress,
    /// The staked denomination and the reward denomination must differ.
    SameDenom,
}

impl ContractError {
    /// What `describe` reports for each failure.
    pub open spec fn spec_describe(self) -> Seq<char> {
        match self {
            ContractError::Overflow => "arithmetic overflow"@,
            ContractError::NoRewards => "no rewards accrued"@,
            ContractError::Unauthorized => "unauthorized"@,
            ContractError::DoNotSendFunds => "do not send native funds"@,
            ContractError::AmountRequired => "amount required"@,
            ContractError::DecreaseAmountExceeds(_) => "decrease amount exceeds user balance"@,
            ContractError::NoBond => "no bond"@,
            ContractError::NoFund => "please send right denom and funds"@,
            ContractError::InvalidAddress => "address validation failed"@,
            ContractError::SameDenom => "stake denom and reward denom cannot be same"@,
        }
    }

    /// A short description of the error, for reporting at the boundary.
    pub fn describe(&self) -> (r: &'static str)
        ensures
            r@ == self.spec_describe(),
    {
        match self {
            ContractError::Overflow => "arithmetic overflow",
            ContractError::NoRewards => "no rewards accrued",
            ContractError::Unauthorized => "unauthorized",
            ContractError::DoNotSendFunds => "do not send native funds",
            ContractError::AmountRequired => "amount required",
            ContractError::DecreaseAmountExceeds(_) => "decrease amount exceeds user balance",
            ContractError::NoBond => "no bond",
            ContractError::NoFund => "please send right denom and funds",
            ContractError::InvalidAddress => "address validation failed",
            ContractError::SameDenom => "stake denom and reward denom cannot be same",
        }
    }
}

} // verus!
