//! A size-class allocator with scoped heaps, over plain addresses.

pub mod allocator;
pub mod bits;
pub mod config;
pub mod error_derive;
pub mod hal;
pub mod hints;
pub mod sorting;
pub mod telemetry;
pub mod tunables;
