use vstd::prelude::*;

verus! {

/// Every failure the hub, its channels and its clients can report.
#[derive(Debug, Clone, Copy, PartialEq, Eq, Structural)]
pub enum HubError {
    /// The client id is not registered with the hub.
    UnknownClient,
    /// No channel of that name exists.
    UnknownChannel,
    /// The client is not a member of the channel it tried to leave.
    NotMember,
    /// The recipient's outbox is full; the message was dropped for it.
    BackpressureExceeded,
    /// The hub has been shut down.
    HubClosed,
    /// The client has been disposed and accepts no more messages.
    ClientClosed,
    /// A client with this id is already registered.
    IdInUse,
}

} // verus!
