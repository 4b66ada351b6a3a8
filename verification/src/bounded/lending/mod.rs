//! Bounded channels that lend out their values.

pub mod accumulate;
pub mod overwrite;
