//! A single-node proof-of-work ledger: block hashing and mining, difficulty
//! retargeting, the reward schedule, the unspent-output index, spend
//! construction and the binary chain format.

pub mod hashing;
pub mod model;
pub mod codec;
pub mod consensus;
pub mod ledger;
pub mod wallet;
