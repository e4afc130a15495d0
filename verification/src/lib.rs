//! Registration and scheduling of parachains and parathreads (collectively referred to as
//! "paras"): which are registered, and which are scheduled.
//!
//! A parachain executes in every block. A parathread executes in those blocks for which a bid on
//! it is accepted, and is retried for some blocks if it misses one. Execution and validation of
//! the paras are left to others.

pub mod chains;
pub mod commits;
pub mod config;
pub mod effects;
pub mod hashing;
pub mod ids;
pub mod laws;
pub mod module;
pub mod ordered;
pub mod parts;
pub mod queues;
pub mod schedule;
pub mod state;
pub mod types;
pub mod upkeep;
pub mod validity;

pub use commits::{Call, LimitParathreadCommits};
pub use config::Trait;
pub use module::{GenesisConfig, Module, Registrar};
pub use ordered::swap_ordered_existence;
pub use validity::Error;
