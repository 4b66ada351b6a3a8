//! Bounded channels that transfer ownership of their values.

pub mod queue;
