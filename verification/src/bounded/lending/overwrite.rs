//! The sender can publish values as quickly as it wants, and overwrites unread values. See
//! [`crate::wf_wf::spsc_bounded_overwriting_lending`].

pub use crate::wf_wf::spsc_bounded_overwriting_lending::{
    channel, channel_with, Receiver, Sender, TryRecvError,
};
