use vstd::prelude::*;

use crate::error::HubError;
use crate::message::{views_of, Message, MessageView};

verus! {

/// How many undelivered messages a client's outbox holds before further
/// deliveries to it are refused (drop-newest).
pub const OUTBOX_CAPACITY: usize = 64;

/// The hub-side representation of one connected peer: its id and its
/// outbound queue of messages.
pub struct Client {
    id: u128,
    outbox: Vec<Message>,
    open: bool,
}

/// The mathematical content of a `Client`.
pub struct ClientView {
    pub id: u128,
    pub outbox: Seq<MessageView>,
    pub open: bool,
}

impl View for Client {
    type V = ClientView;

    closed spec fn view(&self) -> ClientView {
        ClientView { id: self.id, outbox: views_of(self.outbox@), open: self.open }
    }
}

impl ClientView {
    /// A client as it is right after registration.
    pub open spec fn fresh(id: u128) -> ClientView {
        ClientView { id, outbox: Seq::empty(), open: true }
    }

    /// The outbox has no room for another message.
    pub open spec fn is_full(self) -> bool {
        self.outbox.len() >= OUTBOX_CAPACITY
    }

    /// The outbox stays within its bound, and a disposed client holds nothing.
    pub open spec fn wf(self) -> bool {
        &&& self.outbox.len() <= OUTBOX_CAPACITY
        &&& (!self.open ==> self.outbox.len() == 0)
    }

    /// The client after `m` was appended to its outbox.
    pub open spec fn enqueue(self, m: MessageView) -> ClientView {
        ClientView { outbox: self.outbox.push(m), ..self }
    }

    /// The client after it was disposed.
    pub open spec fn disposed(self) -> ClientView {
        ClientView { id: self.id, outbox: Seq::empty(), open: false }
    }
}

impl Client {
    /// A fresh client with an empty outbox.
    pub fn new(id: u128) -> (r: Client)
        ensures
            r@ == ClientView::fresh(id),
    {
        let r = Client { id, outbox: Vec::new() , open: true };
        assert(views_of(r.outbox@) =~= Seq::empty());
        r
    }

    pub fn id(&self) -> (r: u128)
        ensures
            r == self@.id,
    {
        self.id
    }

    /// Whether the client still accepts messages.
    pub fn is_open(&self) -> (r: bool)
        ensures
            r == self@.open,
    {
        self.open
    }

    /// How many messages wait in the outbox.
    pub fn pending(&self) -> (r: usize)
        ensures
            r == self@.outbox.len(),
    {
        self.outbox.len()
    }

    /// Appends `message` to the outbox. A disposed client refuses it with
    /// `ClientClosed`, a full outbox with `BackpressureExceeded`; either way
    /// the client is left unchanged.
    pub fn deliver(&mut self, message: Message) -> (r: Result<(), HubError>)
        requires
            old(self)@.wf(),
        ensures
            final(self)@.wf(),
            !old(self)@.open ==> r == Err::<(), HubError>(HubError::ClientClosed) && final(self)@
                == old(self)@,
            old(self)@.open && old(self)@.is_full() ==> r == Err::<(), HubError>(
                HubError::BackpressureExceeded,
            ) && final(self)@ == old(self)@,
            old(self)@.open && !old(self)@.is_full() ==> r is Ok && final(self)@ == old(
                self,
            )@.enqueue(message@),
    {
        if !self.open {
            return Err(HubError::ClientClosed);
        }
        if self.outbox.len() >= OUTBOX_CAPACITY {
            return Err(HubError::BackpressureExceeded);
        }
        let ghost before = self.outbox@;
        self.outbox.push(message);
        assert(views_of(self.outbox@) =~= views_of(before).push(message@));
        Ok(())
    }

    /// Takes the oldest message out of the outbox, if there is one.
    pub fn next_message(&mut self) -> (r: Option<Message>)
        requires
            old(self)@.wf(),
        ensures
            final(self)@.wf(),
            old(self)@.outbox.len() == 0 ==> r is None && final(self)@ == old(self)@,
            old(self)@.outbox.len() > 0 ==> r is Some && r->0@ == old(self)@.outbox[0]
                && final(self)@ == (ClientView { outbox: old(self)@.outbox.drop_first(), ..old(self)@ }),
    {
        if self.outbox.len() == 0 {
            return None;
        }
        let ghost before = self.outbox@;
        let m = self.outbox.remove(0);
        assert(views_of(self.outbox@) =~= views_of(before).drop_first());
        Some(m)
    }

    /// Takes every waiting message out of the outbox, oldest first.
    pub fn take_pending(&mut self) -> (r: Vec<Message>)
        requires
            old(self)@.wf(),
        ensures
            final(self)@.wf(),
            views_of(r@) == old(self)@.outbox,
            final(self)@ == (ClientView { outbox: Seq::empty(), ..old(self)@ }),
    {
        let mut taken: Vec<Message> = Vec::new();
        std::mem::swap(&mut taken, &mut self.outbox);
        assert(views_of(self.outbox@) =~= Seq::empty());
        taken
    }

    /// Releases the outbox: pending messages are dropped and no further
    /// message is accepted. Disposing twice is the same as disposing once.
    pub fn dispose(&mut self)
        ensures
            final(self)@ == old(self)@.disposed(),
    {
        self.open = false;
        self.outbox = Vec::new();
        assert(views_of(self.outbox@) =~= Seq::empty());
    }
}

} // verus!
