//! Channels that hold one value and lend it out.

pub mod accumulate;
pub mod swap;
