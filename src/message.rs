use vstd::prelude::*;

verus! {

/// One outbound delivery: the channel it was published on and its payload.
#[derive(Debug, Clone, PartialEq, Eq)]
pub struct Message {
    pub channel: String,
    pub payload: String,
}

/// The mathematical content of a `Message`.
pub struct MessageView {
    pub channel: Seq<char>,
    pub payload: Seq<char>,
}

impl View for Message {
    type V = MessageView;

    open spec fn view(&self) -> MessageView {
        MessageView { channel: self.channel@, payload: self.payload@ }
    }
}

/// The contents of a sequence of messages.
pub open spec fn views_of(s: Seq<Message>) -> Seq<MessageView> {
    s.map_values(|m: Message| m@)
}

impl Message {
    pub fn new(channel: String, payload: String) -> (r: Message)
        ensures
            r@ == (MessageView { channel: channel@, payload: payload@ }),
    {
        Message { channel, payload }
    }
}

} // verus!
