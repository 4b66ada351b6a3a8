//! Channels of which both the sender and the receiver are wait-free.

pub mod spsc_accumulate;
pub mod spsc_bounded;
pub mod spsc_bounded_overwriting_lending;
pub mod spsc_watch;
