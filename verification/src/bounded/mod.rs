//! Channels that hold up to a number of values.

pub mod lending;
pub mod moving;
