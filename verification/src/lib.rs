//! Balanced interleaving of grouped items.
//!
//! Items are filed under group keys. A shuffle assigns every item a slot on
//! a ring with one slot per item, spacing the items of each group evenly,
//! and then reads the ring slot by slot. No item is lost and none appears
//! twice.
//!
//! - `store` holds the groups and offers the shuffles.
//! - `position` assigns slots by the ring rule, `jitter` by the ring rule
//!   loosened with seeded random offsets.
//! - `disperse` reads a slot assignment back as one ordering.
//! - `groups` and `sizes` hold the mathematical model that the contracts
//!   are stated over, and `laws` what follows from it for every store.
//! - `random` holds the one call into the random number crates.

pub mod disperse;
pub mod error;
pub mod groups;
pub mod jitter;
pub mod laws;
pub mod position;
pub mod random;
pub mod sizes;
pub mod store;

pub use error::ShuffleError;
pub use jitter::{JitterConfig, ShuffleMode};
pub use store::BalancedGroupShuffle;
