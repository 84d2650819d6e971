//! Accounting core of a layer-2 payment-channel bridge.
//!
//! The library tracks how much value each channel participant has deposited
//! into a set of off-chain payment channels, registers dispute-settled channel
//! states, and coordinates withdrawals, including withdrawals from a shared
//! liquidity pool that must stay consistent across a failing external
//! transfer call.

pub mod assoc;
pub mod ctl;
pub mod deq;
pub mod error;
pub mod laws;
pub mod ledger;
pub mod msg;
pub mod types;
