//! `pantograph` provides channels for sending payloads across threads, where at least one side of
//! the channel is *wait-free*.
//!
//! Synchronization being "wait-free" is a stronger guarantee than "lock-free." Wait-free operations
//! complete in a bounded number of steps regardless of contention by other threads or preemption of
//! other threads by the operating system.
//!
//! In lock-based synchronization (like `Mutex` from Rust's standard library), if the operating
//! system preempts a thread that holds a lock, other threads waiting to acquire the lock are
//! blocked until it resumes.
//!
//! Lock-free synchronization does not use locking mechanisms, and the system is guaranteed to make
//! progress even when some threads are preempted by the operating system. However, individual
//! operations may fail under contention from other threads and need to be retried, which means no
//! bound can be given on the number of steps required to complete a lock-free operation.
//!
//! Wait-free and lock-free channels are useful for problems that must meet particular timing
//! requirements or that must be robust against preemption. They are not necessarily faster than
//! lock-based channels.
//!
//! # Channel flavors
//!
//! There are various channels to choose from. All channels currently implemented are
//! single-producer, single-consumer. In all cases, both sides are wait-free.
//!
//! - [`watch::lending::accumulate`]
//!
//! The sender accumulates into a mutable value until the receiver takes out the previous value. The
//! channel lends out values mutably.
//!
//! - [`watch::lending::swap`]
//!
//! The receiver receives the latest value set by the sender. The sender bounces between its staging
//! buffer and a back buffer. The channel lends out values mutably.
//!
//! - [`bounded::lending::accumulate`]
//!
//! The sender can publish values as long as there is room in the channel. The channel lends out
//! values mutably. Effectively a bounded variant of the accumulating watch channel.
//!
//! - [`bounded::lending::overwrite`]
//!
//! The sender can publish values as quickly as it wants, and overwrites unread values. The receiver
//! will read values from oldest surviving to newest. The channel lends out values mutably.
//!
//! - [`bounded::moving::queue`]
//!
//! The sender can only publish when there is space in the channel. The receiver reads values from
//! oldest to newest. The channel transfers ownership of values.
//!
//! # How the channels are verified
//!
//! Values rest in slots that both sides can reach; counters, stamps and flags decide who may touch
//! which slot. What one side reads from them is up to the other side, so the contracts of the
//! channels say what a call does for each answer that it can get: the accesses that it makes to
//! shared memory are recorded, with the answers, in the `trace` of the side that makes them, and
//! the result follows from them.
//!
//! The modules under [`protocol`] say for each channel which accesses each side may make, and prove
//! what follows for the two sides together, however they interleave and whatever a plain load
//! misses: that no slot is ever touched by both sides, and that the values that arrive are those
//! that were sent, in order. Only the overwriting channel has a limit to that: it must not be that
//! 2^32 values are published while the receiver claims one, nor 2^64 in all. The contracts tie the
//! trace of each side to that protocol.
//!
//! A trace is no more than what the code says of itself, so the atomics are kept where nothing can
//! be done to them without a record ([`vault`]). [`memory`] says what the cells hold after what the
//! records of the two sides list, in whatever order that came about; and each channel proves that
//! any such order is a run of its protocol. So what is proved of the runs holds of the cells: of
//! what they carry, and of what a call that no other overlaps answers.

pub mod bounded;
pub mod cell;
pub mod counter;
pub mod memory;
pub mod protocol;
pub mod vault;
pub mod watch;
pub mod wf_wf;
