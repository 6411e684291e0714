//! A state-transition core: the checked-extrinsic validation and application
//! pipeline, and the pruner of per-block changes tries.

pub mod checked_extrinsic;
pub mod transaction_validity;
pub mod prune;
pub mod memory_storage;
