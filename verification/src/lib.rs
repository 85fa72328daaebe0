//! A single-pass ledger-reconciliation engine.
//!
//! The engine replays an ordered log of account operations (deposit,
//! withdrawal, dispute, resolve, chargeback) against a set of client
//! balances and produces the final balance of every client touched.
//! Monetary amounts are fixed-point integers counting units of one
//! ten-thousandth (four fractional digits).

pub mod engine;
pub mod laws;
pub mod types;
