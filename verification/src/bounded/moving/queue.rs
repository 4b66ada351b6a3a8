//! The sender can only publish when there is space in the channel. See
//! [`crate::wf_wf::spsc_bounded`].

pub use crate::wf_wf::spsc_bounded::{channel, Receiver, Sender, TryRecvError, TrySendError};
