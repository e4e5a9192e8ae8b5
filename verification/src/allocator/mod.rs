//! The allocator's data structures and the rules that tie them together.

pub mod accounting;
pub mod allocation;
pub mod arenas;
pub mod births;
pub mod blocks;
pub mod bump;
pub mod bumps;
pub mod classes;
pub mod contexts;
pub mod deallocation;
pub mod departures;
pub mod direct;
pub mod directs;
pub mod domains;
pub mod frames;
pub mod heaps;
pub mod holdings;
pub mod laws;
pub mod layout;
pub mod lives;
pub mod logging;
pub mod medium;
pub mod mediums;
pub mod outcomes;
pub mod physical;
pub mod pieces;
pub mod pools;
pub mod rallocator;
pub mod references;
pub mod refill;
pub mod refills;
pub mod region;
pub mod releases;
pub mod remote;
pub mod retire;
pub mod retirement;
pub mod segments;
pub mod serve;
pub mod serving;
pub mod slab;
pub mod slices;
pub mod small;
pub mod snapshots;
pub mod space;
pub mod spans;
pub mod table;
pub mod thread_heaps;
pub mod threads;
pub mod usage;
pub mod uses;
pub mod vacancies;
