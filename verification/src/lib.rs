//! A pro-rata reward-distribution ledger.
//!
//! Participants bond a staked asset; reward funds that arrive are folded into
//! a cumulative reward-per-unit-of-stake index, and every holder can claim a
//! share of the rewards proportional to their stake.  The accounting is O(1)
//! per operation: a holder's earnings are computed by diffing the holder's
//! last-seen index snapshot against the current global index, and the
//! fractional remainder of every payout is carried forward so that repeated
//! truncation never loses value.
//!
//! The crate is organised like the contract it backs: `state` holds the
//! ledger records, `fixed` the fixed-point number they are measured in,
//! `contract` the state transitions, `msg` the plain request and response
//! types, `error` the failure taxonomy, and `laws` the proofs of the
//! ledger-wide guarantees.

pub mod error;
pub mod fixed;
pub mod state;
pub mod msg;
pub mod contract;
pub mod laws;
