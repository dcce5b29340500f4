//! Post-execution state changeset engine: accumulates account and storage
//! deltas over a contiguous run of blocks, reverts and splits them, and
//! flushes them to an ordered key-value store together with the history
//! needed to reconstruct earlier states.
pub mod types;
pub mod journal;
pub mod state;
pub mod bundle;
pub mod store;
pub mod change;
pub mod laws;
pub mod hashed;
