//! What the error derive and the error attribute decide about an item.

pub mod attributes;
pub mod display;
pub mod expansion;
pub mod fields;
pub mod laws;
pub mod lists;
pub mod numbers;
pub mod syntax;
