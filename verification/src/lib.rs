//! A verified wallet for a sidechain whose coins can be swapped against a parent chain.

pub mod accumulator;
pub mod amount;
pub mod authorization;
pub mod bytes;
pub mod derivation;
pub mod encoding;
pub mod hashing;
pub mod keys;
pub mod layout;
pub mod table;
pub mod types;
pub mod verdicts;
pub mod wallet;
