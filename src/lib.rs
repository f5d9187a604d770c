//! An in-memory fan-out hub: clients register, join named channels and
//! receive every message published to the channels they belong to.

pub mod channel;
pub mod client;
pub mod error;
pub mod hub;
pub mod message;
pub mod theorems;

pub use channel::{Channel, ChannelView};
pub use client::{Client, ClientView, OUTBOX_CAPACITY};
pub use error::HubError;
pub use hub::{lemma_view_wf, Hub, HubView, ECHO_TO_SELF};
pub use message::{Message, MessageView};
