//! The sender accumulates into a mutable value until the receiver takes out the previous value. See
//! [`crate::wf_wf::spsc_accumulate`].

pub use crate::wf_wf::spsc_accumulate::{
    channel, channel_with, Receiver, Sender, TryPublishError, TryRecvError, TrySendError,
};
