//! A compact-block-filter wallet synchronization engine.
//!
//! The library keeps a wallet's unspent-output set and transaction history
//! consistent with an ordered stream of block events coming from a
//! peer-to-peer filter-sync engine: matched transactions are reconciled
//! against the wallet's tracked scripts, and block disconnections roll the
//! wallet back to the state before the disconnected height.

pub mod engine;
pub mod laws;
pub mod model;
pub mod types;
pub mod wallet_store;
