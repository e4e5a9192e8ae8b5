//! What the allocator counts and records about itself.

pub mod addresses;
pub mod aggregates;
pub mod callers;
pub mod encode;
pub mod events;
pub mod laws;
pub mod log;
pub mod snapshot;
pub mod stacks;
pub mod stats;
pub mod topology;
