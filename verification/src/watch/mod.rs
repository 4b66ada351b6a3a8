//! Channels that hold one value.

pub mod lending;
