//! What holds of every snapshot, every correspondence and every plan.

pub mod changes;
pub mod listings;
pub mod order;
pub mod pairings;
pub mod plans;
pub mod renames;
pub mod snapshots;
pub mod texts;
