//! Accounting core of a liquid-staking pool: a share/asset exchange-rate
//! ledger, a per-holder claims ledger, a time-bucketed unbonding queue, a
//! validator-allocation planner, an epoch scheduler, the two-phase
//! reinvest/rebalance orchestrator, and slashing reconciliation.
//!
//! Every operation works on plain values; the host that performs staking
//! messages, token mints and bank transfers hands balances and timestamps in
//! and carries the returned instructions out.

pub mod claims;
pub mod config;
pub mod error;
pub mod gauge;
pub mod hub;
pub mod laws;
pub mod migrate;
pub mod rate;
pub mod router;
pub mod supply;
pub mod sums;
pub mod unbonding;
pub mod valset;
