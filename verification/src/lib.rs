//! A token-staking ledger with checkpointed history.
//!
//! Users lock fungible tokens, the ledger records their staked balance and
//! the global staked total at every mutation, and any reader can ask what a
//! balance or the total was as of an arbitrary block height. Unstaking
//! creates a pending claim that matures after a configurable delay; hook
//! subscribers are told about every balance change.

pub mod types;
pub mod snapshot;
pub mod claims;
pub mod hooks;
pub mod engine;
pub mod queries;
