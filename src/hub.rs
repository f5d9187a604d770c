use vstd::prelude::*;

use crate::channel::Channel;
use crate::client::{Client, ClientView};
use crate::error::HubError;
use crate::message::{views_of, Message, MessageView};

verus! {

/// Whether a publisher receives its own messages on channels it belongs to.
pub const ECHO_TO_SELF: bool = true;

/// The registry of all clients and channels, and the entry point for
/// connecting, joining, leaving, publishing and shutting down.
///
/// Channels are disposed eagerly: a channel whose last member leaves is
/// removed at once, so publishing to it afterwards fails with
/// `UnknownChannel`.
pub struct Hub {
    clients: Vec<Client>,
    channels: Vec<Channel>,
    closed: bool,
    client_map: Ghost<Map<u128, ClientView>>,
    channel_map: Ghost<Map<Seq<char>, Set<u128>>>,
}

/// The mathematical content of a `Hub`: each registered client by id, the
/// member set of each channel by name, and whether it has been shut down.
pub struct HubView {
    pub clients: Map<u128, ClientView>,
    pub channels: Map<Seq<char>, Set<u128>>,
    pub closed: bool,
}

impl View for Hub {
    type V = HubView;

    closed spec fn view(&self) -> HubView {
        HubView { clients: self.client_map@, channels: self.channel_map@, closed: self.closed }
    }
}

/// Each channel holds a member set with `c` taken out; those left empty
/// are gone.
pub open spec fn without_member(
    channels: Map<Seq<char>, Set<u128>>,
    c: u128,
) -> Map<Seq<char>, Set<u128>> {
    Map::new(
        |n: Seq<char>| channels.contains_key(n) && channels[n].remove(c) != Set::<u128>::empty(),
        |n: Seq<char>| channels[n].remove(c),
    )
}

impl HubView {
    /// The hub's own consistency: no empty channel is kept, every member is
    /// a registered client, every client is open and within its bound, and
    /// a closed hub holds nothing.
    pub open spec fn wf(self) -> bool {
        &&& forall|n: Seq<char>| #[trigger]
            self.channels.contains_key(n) ==> self.channels[n] != Set::<u128>::empty()
        &&& forall|n: Seq<char>, c: u128|
            self.channels.contains_key(n) && #[trigger] self.channels[n].contains(c)
                ==> self.clients.contains_key(c)
        &&& forall|c: u128| #[trigger]
            self.clients.contains_key(c) ==> self.clients[c].id == c && self.clients[c].wf()
                && self.clients[c].open
        &&& self.closed ==> self.clients == Map::<u128, ClientView>::empty()
            && self.channels == Map::<Seq<char>, Set<u128>>::empty()
    }

    /// The members of the channel `name`; none where it does not exist.
    pub open spec fn members(self, name: Seq<char>) -> Set<u128> {
        if self.channels.contains_key(name) {
            self.channels[name]
        } else {
            Set::empty()
        }
    }

    /// The hub with no clients and no channels, as `new` makes it.
    pub open spec fn empty() -> HubView {
        HubView { clients: Map::empty(), channels: Map::empty(), closed: false }
    }

    /// The hub after `shutdown`.
    pub open spec fn shut_down() -> HubView {
        HubView { clients: Map::empty(), channels: Map::empty(), closed: true }
    }

    /// What a `shutdown` call leaves, and what it returns: whether it was
    /// the call that closed the hub.
    pub open spec fn shutdown_outcome(self) -> (HubView, bool) {
        (HubView::shut_down(), !self.closed)
    }

    /// The hub after client `c` registered.
    pub open spec fn registered(self, c: u128) -> HubView {
        HubView { clients: self.clients.insert(c, ClientView::fresh(c)), ..self }
    }

    /// The hub after client `c` unregistered: gone from the client table and
    /// from every channel, and channels left empty are gone too.
    pub open spec fn unregistered(self, c: u128) -> HubView {
        HubView {
            clients: self.clients.remove(c),
            channels: without_member(self.channels, c),
            closed: self.closed,
        }
    }

    /// What a `join_channel` call leaves: the client added to the channel,
    /// which is created if needed; nothing changes on a closed hub or for an
    /// unregistered client.
    pub open spec fn after_join(self, c: u128, name: Seq<char>) -> HubView {
        if !self.closed && self.clients.contains_key(c) {
            HubView { channels: self.channels.insert(name, self.members(name).insert(c)), ..self }
        } else {
            self
        }
    }

    /// What a `leave_channel` call leaves: the client taken out of the
    /// channel, which is removed if that empties it; nothing changes where
    /// the call fails.
    pub open spec fn after_leave(self, c: u128, name: Seq<char>) -> HubView {
        if !self.closed && self.members(name).contains(c) {
            if self.members(name).remove(c) == Set::<u128>::empty() {
                HubView { channels: self.channels.remove(name), ..self }
            } else {
                HubView {
                    channels: self.channels.insert(name, self.members(name).remove(c)),
                    ..self
                }
            }
        } else {
            self
        }
    }

    /// Whether client `c` is sent a message published on `name` by `origin`.
    pub open spec fn receives(self, name: Seq<char>, origin: u128, c: u128) -> bool {
        self.members(name).contains(c) && (ECHO_TO_SELF || c != origin)
    }

    /// Whether the delivery to `c` of a message published on `name` by
    /// `origin` is refused for want of room.
    pub open spec fn refuses(self, name: Seq<char>, origin: u128, c: u128) -> bool {
        self.receives(name, origin, c) && self.clients[c].is_full()
    }

    /// The hub after `m` was published on `name` by `origin`: appended to the
    /// outbox of every recipient with room for it, and nothing else changed.
    pub open spec fn published(self, name: Seq<char>, m: MessageView, origin: u128) -> HubView {
        HubView {
            clients: Map::new(
                |c: u128| self.clients.contains_key(c),
                |c: u128|
                    if self.receives(name, origin, c) && !self.clients[c].is_full() {
                        self.clients[c].enqueue(m)
                    } else {
                        self.clients[c]
                    },
            ),
            ..self
        }
    }
}

/// An item held in a vector alongside a ghost table: the key it is filed
/// under and what the table holds for it.
trait TableEntry<K, V> {
    spec fn key(&self) -> K;

    spec fn entry(&self) -> V;
}

impl TableEntry<u128, ClientView> for Client {
    spec fn key(&self) -> u128 {
        self@.id
    }

    spec fn entry(&self) -> ClientView {
        self@
    }
}

impl TableEntry<Seq<char>, Set<u128>> for Channel {
    spec fn key(&self) -> Seq<char> {
        self@.id
    }

    spec fn entry(&self) -> Set<u128> {
        self@.members
    }
}

/// The vector and the ghost table describe the same items, each key once.
spec fn linked<K, V, T: TableEntry<K, V>>(v: Seq<T>, m: Map<K, V>) -> bool {
    &&& forall|i: int| 0 <= i < v.len() ==> #[trigger] m.contains_key(v[i].key()) && m[v[i].key()] == v[i].entry()
    &&& forall|i: int, j: int|
        0 <= i < v.len() && 0 <= j < v.len() && i != j ==> #[trigger] v[i].key() != #[trigger] v[j].key()
    &&& forall|k: K| #[trigger] m.contains_key(k) ==> exists|i: int| 0 <= i < v.len() && v[i].key() == k
}

/// The channels are linked to their table, and each keeps its member list
/// free of duplicates.
spec fn channels_linked(v: Seq<Channel>, m: Map<Seq<char>, Set<u128>>) -> bool {
    &&& linked(v, m)
    &&& forall|i: int| 0 <= i < v.len() ==> (#[trigger] v[i]).wf()
}

proof fn lemma_linked_push<K, V, T: TableEntry<K, V>>(v: Seq<T>, m: Map<K, V>, c: T)
    requires
        linked(v, m),
        !m.contains_key(c.key()),
    ensures
        linked(v.push(c), m.insert(c.key(), c.entry())),
{
    let v2 = v.push(c);
    let m2 = m.insert(c.key(), c.entry());
    assert forall|i: int| 0 <= i < v2.len() implies #[trigger] m2.contains_key(v2[i].key()) && m2[v2[i].key()] == v2[i].entry() by {
        if i < v.len() {
            assert(m.contains_key(v[i].key()));
        }
    }
    assert forall|x: K| #[trigger] m2.contains_key(x) implies exists|i: int| 0 <= i < v2.len() && v2[i].key() == x by {
        if x == c.key() {
            assert(v2[v.len() as int].key() == x);
        } else {
            let i = choose|i: int| 0 <= i < v.len() && v[i].key() == x;
            assert(v2[i].key() == x);
        }
    }
    assert forall|i: int, j: int| 0 <= i < v2.len() && 0 <= j < v2.len() && i != j implies #[trigger] v2[i].key() != #[trigger] v2[j].key() by {
        if i < v.len() {
            assert(m.contains_key(v[i].key()));
        }
        if j < v.len() {
            assert(m.contains_key(v[j].key()));
        }
    }
}

proof fn lemma_linked_update<K, V, T: TableEntry<K, V>>(v: Seq<T>, m: Map<K, V>, k: int, c: T)
    requires
        linked(v, m),
        0 <= k < v.len(),
        c.key() == v[k].key(),
    ensures
        linked(v.update(k, c), m.insert(c.key(), c.entry())),
{
    let v2 = v.update(k, c);
    let m2 = m.insert(c.key(), c.entry());
    assert forall|i: int| 0 <= i < v2.len() implies #[trigger] m2.contains_key(v2[i].key()) && m2[v2[i].key()] == v2[i].entry() by {
        if i != k {
            assert(v[i].key() != v[k].key());
            assert(m.contains_key(v[i].key()));
        }
    }
    assert forall|x: K| #[trigger] m2.contains_key(x) implies exists|i: int| 0 <= i < v2.len() && v2[i].key() == x by {
        if x == c.key() {
            assert(v2[k].key() == x);
        } else {
            let i = choose|i: int| 0 <= i < v.len() && v[i].key() == x;
            assert(v2[i].key() == x);
        }
    }
    assert forall|i: int, j: int| 0 <= i < v2.len() && 0 <= j < v2.len() && i != j implies #[trigger] v2[i].key() != #[trigger] v2[j].key() by {
        assert(v[i].key() != v[j].key());
    }
}

proof fn lemma_linked_remove<K, V, T: TableEntry<K, V>>(v: Seq<T>, m: Map<K, V>, k: int)
    requires
        linked(v, m),
        0 <= k < v.len(),
    ensures
        linked(v.remove(k), m.remove(v[k].key())),
{
    let v2 = v.remove(k);
    let m2 = m.remove(v[k].key());
    assert forall|i: int| 0 <= i < v2.len() implies #[trigger] m2.contains_key(v2[i].key()) && m2[v2[i].key()] == v2[i].entry() by {
        let i2 = if i < k { i } else { i + 1 };
        assert(v2[i] == v[i2]);
        assert(v[i2].key() != v[k].key());
        assert(m.contains_key(v[i2].key()));
    }
    assert forall|x: K| #[trigger] m2.contains_key(x) implies exists|i: int| 0 <= i < v2.len() && v2[i].key() == x by {
        let i = choose|i: int| 0 <= i < v.len() && v[i].key() == x;
        assert(i != k);
        if i < k {
            assert(v2[i].key() == x);
        } else {
            assert(v2[i - 1].key() == x);
        }
    }
    assert forall|i: int, j: int| 0 <= i < v2.len() && 0 <= j < v2.len() && i != j implies #[trigger] v2[i].key() != #[trigger] v2[j].key() by {
        let i2 = if i < k { i } else { i + 1 };
        let j2 = if j < k { j } else { j + 1 };
        assert(v2[i] == v[i2]);
        assert(v2[j] == v[j2]);
        assert(v[i2].key() != v[j2].key());
    }
}

impl Hub {
    /// The vectors agree with the ghost tables, and the tables are consistent.
    pub closed spec fn wf(&self) -> bool {
        &&& linked(self.clients@, self.client_map@)
        &&& channels_linked(self.channels@, self.channel_map@)
        &&& self@.wf()
    }
}

/// A well-formed hub has a consistent view: in particular a closed hub
/// holds no client and no channel.
pub proof fn lemma_view_wf(h: &Hub)
    requires
        h.wf(),
    ensures
        h@.wf(),
{
}

impl Hub {
    /// An open hub with no clients and no channels.
    pub fn new() -> (r: Hub)
        ensures
            r.wf(),
            r@ == HubView::empty(),
    {
        Hub {
            clients: Vec::new(),
            channels: Vec::new(),
            closed: false,
            client_map: Ghost(Map::empty()),
            channel_map: Ghost(Map::empty()),
        }
    }

    pub fn is_closed(&self) -> (r: bool)
        ensures
            r == self@.closed,
    {
        self.closed
    }

    fn client_index(&self, c: u128) -> (r: Option<usize>)
        requires
            linked(self.clients@, self.client_map@),
        ensures
            r is None ==> !self@.clients.contains_key(c),
            r is Some ==> r->0 < self.clients@.len() && self.clients@[r->0 as int]@.id == c,
            r is Some ==> self@.clients.contains_key(c),
    {
        let mut i: usize = 0;
        while i < self.clients.len()
            invariant
                linked(self.clients@, self.client_map@),
                i <= self.clients@.len(),
                forall|j: int| 0 <= j < i ==> self.clients@[j]@.id != c,
            decreases self.clients@.len() - i,
        {
            if self.clients[i].id() == c {
                assert(self.client_map@.contains_key(self.clients@[i as int].key()));
                return Some(i);
            }
            i += 1;
        }
        proof {
            if self.client_map@.contains_key(c) {
                let j = choose|j: int| 0 <= j < self.clients@.len() && self.clients@[j]@.id == c;
                assert(self.clients@[j]@.id != c);
            }
        }
        None
    }

    fn channel_index(&self, name: &String) -> (r: Option<usize>)
        requires
            self.wf(),
        ensures
            r is None ==> !self@.channels.contains_key(name@),
            r is Some ==> r->0 < self.channels@.len() && self.channels@[r->0 as int]@.id == name@,
            r is Some ==> self@.channels.contains_key(name@),
    {
        let mut i: usize = 0;
        while i < self.channels.len()
            invariant
                self.wf(),
                i <= self.channels@.len(),
                forall|j: int| 0 <= j < i ==> self.channels@[j]@.id != name@,
            decreases self.channels@.len() - i,
        {
            if self.channels[i].name().eq(name) {
                assert(self.channel_map@.contains_key(self.channels@[i as int].key()));
                return Some(i);
            }
            i += 1;
        }
        proof {
            if self.channel_map@.contains_key(name@) {
                let j = choose|j: int| 0 <= j < self.channels@.len() && self.channels@[j]@.id == name@;
                assert(self.channels@[j]@.id != name@);
            }
        }
        None
    }

    /// Registers a client under `id`. Fails with `HubClosed` after shutdown
    /// and with `IdInUse` where `id` is taken; either way nothing changes.
    pub fn register_with_id(&mut self, id: u128) -> (r: Result<u128, HubError>)
        requires
            old(self).wf(),
        ensures
            final(self).wf(),
            old(self)@.closed ==> r == Err::<u128, HubError>(HubError::HubClosed),
            !old(self)@.closed && old(self)@.clients.contains_key(id) ==> r == Err::<u128, HubError>(HubError::IdInUse),
            !old(self)@.closed && !old(self)@.clients.contains_key(id) ==> r == Ok::<u128, HubError>(id),
            r is Ok ==> final(self)@ == old(self)@.registered(id),
            r is Err ==> final(self)@ == old(self)@,
    {
        if self.closed {
            return Err(HubError::HubClosed);
        }
        if self.client_index(id).is_some() {
            return Err(HubError::IdInUse);
        }
        let c = Client::new(id);
        proof {
            lemma_linked_push(self.clients@, self.client_map@, c);
        }
        self.clients.push(c);
        self.client_map = Ghost(self.client_map@.insert(id, ClientView::fresh(id)));
        assert(self@ == old(self)@.registered(id));
        assert forall|n: Seq<char>, x: u128|
            self@.channels.contains_key(n) && #[trigger] self@.channels[n].contains(x)
                implies self@.clients.contains_key(x) by {
            assert(old(self)@.clients.contains_key(x));
        }
        Ok(id)
    }

    /// The client registered under `id`, if any.
    pub fn get_client(&self, id: u128) -> (r: Option<&Client>)
        requires
            self.wf(),
        ensures
            r is Some <==> self@.clients.contains_key(id),
            r is Some ==> r->0@ == self@.clients[id],
    {
        match self.client_index(id) {
            Some(k) => {
                assert(self.client_map@.contains_key(self.clients@[k as int].key()));
                Some(&self.clients[k])
            },
            None => None,
        }
    }

    /// Whether a channel of this name exists.
    pub fn has_channel(&self, name: &String) -> (r: bool)
        requires
            self.wf(),
        ensures
            r == self@.channels.contains_key(name@),
    {
        self.channel_index(name).is_some()
    }

    /// The number of members of the channel `name`; zero where it does not
    /// exist.
    pub fn member_count(&self, name: &String) -> (r: usize)
        requires
            self.wf(),
        ensures
            r == self@.members(name@).len(),
    {
        match self.channel_index(name) {
            Some(k) => {
                assert(self.channel_map@.contains_key(self.channels@[k as int].key()));
                self.channels[k].len()
            },
            None => 0,
        }
    }

    /// Whether client `c` is a member of the channel `name`.
    pub fn is_member(&self, name: &String, c: u128) -> (r: bool)
        requires
            self.wf(),
        ensures
            r == self@.members(name@).contains(c),
    {
        match self.channel_index(name) {
            Some(k) => {
                assert(self.channel_map@.contains_key(self.channels@[k as int].key()));
                self.channels[k].contains(c)
            },
            None => false,
        }
    }

    /// Disposes every channel, then every client, and closes the hub for
    /// good. Returns whether this call did so: a second call changes nothing
    /// and returns `false`.
    pub fn shutdown(&mut self) -> (r: bool)
        requires
            old(self).wf(),
        ensures
            final(self).wf(),
            (final(self)@, r) == old(self)@.shutdown_outcome(),
    {
        if self.closed {
            return false;
        }
        while self.channels.len() > 0
            invariant
                !self.closed,
            decreases self.channels@.len(),
        {
            let mut ch = self.channels.pop().unwrap();
            ch.dispose();
        }
        while self.clients.len() > 0
            invariant
                !self.closed,
                self.channels@.len() == 0,
            decreases self.clients@.len(),
        {
            let mut c = self.clients.pop().unwrap();
            c.dispose();
        }
        self.closed = true;
        self.client_map = Ghost(Map::empty());
        self.channel_map = Ghost(Map::empty());
        true
    }

    /// Tears the hub down when the process ends; the same as `shutdown`.
    pub fn dispose(&mut self) -> (r: bool)
        requires
            old(self).wf(),
        ensures
            final(self).wf(),
            (final(self)@, r) == old(self)@.shutdown_outcome(),
    {
        self.shutdown()
    }

    /// Adds client `c` to the channel `name`, creating the channel if it
    /// does not exist. Joining a channel one already belongs to changes
    /// nothing. Fails with `HubClosed` after shutdown and with
    /// `UnknownClient` for an unregistered client.
    pub fn join_channel(&mut self, c: u128, name: &String) -> (r: Result<(), HubError>)
        requires
            old(self).wf(),
        ensures
            final(self).wf(),
            final(self)@ == old(self)@.after_join(c, name@),
            old(self)@.closed ==> r == Err::<(), HubError>(HubError::HubClosed),
            !old(self)@.closed && !old(self)@.clients.contains_key(c) ==> r == Err::<(), HubError>(
                HubError::UnknownClient,
            ),
            !old(self)@.closed && old(self)@.clients.contains_key(c) ==> r is Ok,
    {
        if self.closed {
            return Err(HubError::HubClosed);
        }
        if self.client_index(c).is_none() {
            return Err(HubError::UnknownClient);
        }
        match self.channel_index(name) {
            Some(k) => {
                let ghost chs = self.channels@;
                assert(self.channel_map@.contains_key(chs[k as int].key()));
                self.channels[k].join(c);
                proof {
                    lemma_linked_update(chs, self.channel_map@, k as int, self.channels@[k as int]);
                }
                self.channel_map = Ghost(
                    self.channel_map@.insert(name@, self.channels@[k as int]@.members),
                );
            },
            None => {
                let mut ch = Channel::new(name.clone());
                ch.join(c);
                proof {
                    lemma_linked_push(self.channels@, self.channel_map@, ch);
                }
                self.channels.push(ch);
                self.channel_map = Ghost(self.channel_map@.insert(name@, set![c]));
                assert(set![c] =~= Set::<u128>::empty().insert(c));
            },
        }
        assert(self@ == old(self)@.after_join(c, name@));
        assert forall|n: Seq<char>| #[trigger]
            self@.channels.contains_key(n) implies self@.channels[n] != Set::<u128>::empty() by {
            if n == name@ {
                assert(self@.channels[n].contains(c));
            }
        }
        assert forall|n: Seq<char>, x: u128|
            self@.channels.contains_key(n) && #[trigger] self@.channels[n].contains(x)
                implies self@.clients.contains_key(x) by {
            if n != name@ || x != c {
                assert(old(self)@.channels[n].contains(x));
            }
        }
        Ok(())
    }

    /// Takes client `c` out of the channel `name`, and removes the channel
    /// if that leaves it empty. Fails with `HubClosed` after shutdown, with
    /// `UnknownChannel` where no such channel exists and with `NotMember`
    /// where `c` is not in it; nothing changes then.
    pub fn leave_channel(&mut self, c: u128, name: &String) -> (r: Result<(), HubError>)
        requires
            old(self).wf(),
        ensures
            final(self).wf(),
            final(self)@ == old(self)@.after_leave(c, name@),
            old(self)@.closed ==> r == Err::<(), HubError>(HubError::HubClosed),
            !old(self)@.closed && !old(self)@.channels.contains_key(name@) ==> r == Err::<
                (),
                HubError,
            >(HubError::UnknownChannel),
            !old(self)@.closed && old(self)@.channels.contains_key(name@) && !old(
                self,
            )@.members(name@).contains(c) ==> r == Err::<(), HubError>(HubError::NotMember),
            !old(self)@.closed && old(self)@.members(name@).contains(c) ==> r is Ok,
    {
        if self.closed {
            return Err(HubError::HubClosed);
        }
        let k = match self.channel_index(name) {
            Some(k) => k,
            None => {
                return Err(HubError::UnknownChannel);
            },
        };
        let ghost chs = self.channels@;
        assert(self.channel_map@.contains_key(chs[k as int].key()));
        if !self.channels[k].contains(c) {
            return Err(HubError::NotMember);
        }
        let _ = self.channels[k].leave(c);
        proof {
            lemma_linked_update(chs, self.channel_map@, k as int, self.channels@[k as int]);
        }
        self.channel_map = Ghost(self.channel_map@.insert(name@, self.channels@[k as int]@.members));
        if self.channels[k].is_empty() {
            let ghost chs2 = self.channels@;
            proof {
                lemma_linked_remove(chs2, self.channel_map@, k as int);
            }
            let mut gone = self.channels.remove(k);
            gone.dispose();
            self.channel_map = Ghost(self.channel_map@.remove(name@));
        }
        assert(self@.channels =~= old(self)@.after_leave(c, name@).channels);
        assert(self@ == old(self)@.after_leave(c, name@));
        assert forall|n: Seq<char>, x: u128|
            self@.channels.contains_key(n) && #[trigger] self@.channels[n].contains(x)
                implies self@.clients.contains_key(x) by {
            assert(old(self)@.channels[n].contains(x));
        }
        Ok(())
    }

    /// Unregisters client `c`: it leaves every channel, channels left empty
    /// are disposed, and the client itself is removed and disposed. Fails
    /// with `HubClosed` after shutdown and with `UnknownClient` for an
    /// unregistered id; nothing changes then.
    pub fn unregister(&mut self, c: u128) -> (r: Result<(), HubError>)
        requires
            old(self).wf(),
        ensures
            final(self).wf(),
            old(self)@.closed ==> r == Err::<(), HubError>(HubError::HubClosed),
            !old(self)@.closed && !old(self)@.clients.contains_key(c) ==> r == Err::<(), HubError>(
                HubError::UnknownClient,
            ),
            !old(self)@.closed && old(self)@.clients.contains_key(c) ==> r is Ok,
            r is Ok ==> final(self)@ == old(self)@.unregistered(c),
            r is Err ==> final(self)@ == old(self)@,
    {
        if self.closed {
            return Err(HubError::HubClosed);
        }
        let k = match self.client_index(c) {
            Some(k) => k,
            None => {
                return Err(HubError::UnknownClient);
            },
        };
        let ghost before = self.channel_map@;
        assert forall|n: Seq<char>| #[trigger] before.contains_key(n) implies before[n]
            != Set::<u128>::empty() by {
            assert(self@.channels.contains_key(n));
        }
        let mut i: usize = 0;
        while i < self.channels.len()
            invariant
                !self.closed,
                self.clients == old(self).clients,
                self.client_map == old(self).client_map,
                k < self.clients@.len(),
                self.clients@[k as int]@.id == c,
                channels_linked(self.channels@, self.channel_map@),
                i <= self.channels@.len(),
                forall|j: int| 0 <= j < i ==> !(#[trigger] self.channels@[j]@.members.contains(c)),
                forall|n: Seq<char>| #[trigger]
                    self.channel_map@.contains_key(n) ==> before.contains_key(n) && (
                    self.channel_map@[n] == before[n] || self.channel_map@[n] == before[n].remove(
                        c,
                    )) && self.channel_map@[n] != Set::<u128>::empty(),
                forall|n: Seq<char>|
                    before.contains_key(n) && !(#[trigger] self.channel_map@.contains_key(n))
                        ==> before[n].remove(c) == Set::<u128>::empty(),
            decreases self.channels@.len() - i,
        {
            if self.channels[i].contains(c) {
                let ghost chs = self.channels@;
                let ghost name = chs[i as int]@.id;
                assert(self.channel_map@.contains_key(chs[i as int].key()));
                let _ = self.channels[i].leave(c);
                proof {
                    lemma_linked_update(chs, self.channel_map@, i as int, self.channels@[i as int]);
                }
                self.channel_map = Ghost(
                    self.channel_map@.insert(name, self.channels@[i as int]@.members),
                );
                if self.channels[i].is_empty() {
                    let ghost chs2 = self.channels@;
                    proof {
                        lemma_linked_remove(chs2, self.channel_map@, i as int);
                    }
                    let mut gone = self.channels.remove(i);
                    gone.dispose();
                    self.channel_map = Ghost(self.channel_map@.remove(name));
                    assert(forall|j: int| 0 <= j < i ==> self.channels@[j] == chs2[j]);
                } else {
                    i += 1;
                }
            } else {
                i += 1;
            }
        }
        let ghost cl = self.clients@;
        proof {
            lemma_linked_remove(cl, self.client_map@, k as int);
        }
        let mut gone = self.clients.remove(k);
        gone.dispose();
        self.client_map = Ghost(self.client_map@.remove(c));
        assert forall|n: Seq<char>| #[trigger] self.channel_map@.contains_key(n) implies
            self.channel_map@[n] == before[n].remove(c) by {
            let j = choose|j: int| 0 <= j < self.channels@.len() && self.channels@[j]@.id == n;
            assert(!self.channels@[j]@.members.contains(c));
            if self.channel_map@[n] == before[n] {
                assert(before[n].remove(c) =~= before[n]);
            }
        }
        assert(self.channel_map@ =~= without_member(before, c));
        assert(self@ == old(self)@.unregistered(c));
        assert forall|n: Seq<char>, x: u128|
            self@.channels.contains_key(n) && #[trigger] self@.channels[n].contains(x)
                implies self@.clients.contains_key(x) by {
            assert(before[n].contains(x));
        }
        Ok(())
    }

    /// Publishes `payload` on the channel `name` on behalf of `origin`: each
    /// member (the origin too, as `ECHO_TO_SELF` is set) gets the message
    /// appended to its outbox. A member whose outbox is full is skipped
    /// without holding up the others; the ids of those skipped are returned.
    /// Fails with `HubClosed` after shutdown and with `UnknownChannel` where
    /// no such channel exists; nothing changes then.
    pub fn publish(&mut self, name: &String, payload: &String, origin: u128) -> (r: Result<
        Vec<u128>,
        HubError,
    >)
        requires
            old(self).wf(),
        ensures
            final(self).wf(),
            old(self)@.closed ==> r == Err::<Vec<u128>, HubError>(HubError::HubClosed),
            !old(self)@.closed && !old(self)@.channels.contains_key(name@) ==> r == Err::<
                Vec<u128>,
                HubError,
            >(HubError::UnknownChannel),
            !old(self)@.closed && old(self)@.channels.contains_key(name@) ==> r is Ok,
            r is Err ==> final(self)@ == old(self)@,
            r is Ok ==> final(self)@ == old(self)@.published(
                name@,
                MessageView { channel: name@, payload: payload@ },
                origin,
            ),
            r is Ok ==> forall|x: u128|
                #![trigger r->Ok_0@.contains(x)]
                r->Ok_0@.contains(x) <==> old(self)@.clients.contains_key(x) && old(
                    self,
                )@.refuses(name@, origin, x),
    {
        if self.closed {
            return Err(HubError::HubClosed);
        }
        let ck = match self.channel_index(name) {
            Some(ck) => ck,
            None => {
                return Err(HubError::UnknownChannel);
            },
        };
        let ghost m = MessageView { channel: name@, payload: payload@ };
        let ghost start = self.client_map@;
        assert(self.channel_map@.contains_key(self.channels@[ck as int].key()));
        let members = self.channels[ck].member_ids();
        let mut dropped: Vec<u128> = Vec::new();
        let mut j: usize = 0;
        while j < members.len()
            invariant
                !self.closed,
                self.channels == old(self).channels,
                self.channel_map == old(self).channel_map,
                linked(self.clients@, self.client_map@),
                members@.no_duplicates(),
                members@.to_set() == old(self)@.members(name@),
                start == old(self)@.clients,
                m == (MessageView { channel: name@, payload: payload@ }),
                old(self)@.wf(),
                j <= members@.len(),
                forall|x: u128| #[trigger] self.client_map@.contains_key(x) <==> start.contains_key(x),
                forall|x: u128| #[trigger]
                    self.client_map@.contains_key(x) ==> self.client_map@[x].wf()
                        && self.client_map@[x].open && self.client_map@[x].id == x,
                forall|x: u128| #[trigger]
                    start.contains_key(x) ==> self.client_map@[x] == (if members@.take(j as int).contains(x)
                        && (ECHO_TO_SELF || x != origin) && !start[x].is_full() {
                        start[x].enqueue(m)
                    } else {
                        start[x]
                    }),
                forall|x: u128| #[trigger]
                    dropped@.contains(x) <==> members@.take(j as int).contains(x) && (ECHO_TO_SELF
                        || x != origin) && start[x].is_full(),
            decreases members@.len() - j,
        {
            let x = members[j];
            assert(members@.take(j as int + 1) =~= members@.take(j as int).push(x));
            assert(!members@.take(j as int).contains(x));
            assert(members@.to_set().contains(x));
            assert(start.contains_key(x));
            let ghost dropped_before = dropped@;
            let ghost prev = self.client_map@;
            assert(prev[x] == start[x]);
            if ECHO_TO_SELF || x != origin {
                let k = self.client_index(x).unwrap();
                let ghost cl = self.clients@;
                assert(self.client_map@.contains_key(cl[k as int].key()));
                let msg = Message::new(name.clone(), payload.clone());
                assert(msg@ == m);
                assert(cl[k as int]@ == start[x]);
                match self.clients[k].deliver(msg) {
                    Ok(()) => {
                        proof {
                            lemma_linked_update(cl, self.client_map@, k as int, self.clients@[k as int]);
                        }
                        self.client_map = Ghost(self.client_map@.insert(x, self.clients@[k as int]@));
                        assert(!start[x].is_full());
                        assert(self.client_map@[x] == start[x].enqueue(m));
                    },
                    Err(_) => {
                        proof {
                            lemma_linked_update(cl, self.client_map@, k as int, self.clients@[k as int]);
                            assert(self.client_map@.insert(x, self.clients@[k as int]@) =~= self.client_map@);
                        }
                        dropped.push(x);
                        assert(start[x].is_full());
                        assert(self.client_map@[x] == start[x]);
                    },
                }
            }
            proof {
                broadcast use vstd::seq_lib::lemma_seq_contains_after_push;

                let next = members@.take(j as int + 1);
                assert forall|y: u128| #[trigger]
                    start.contains_key(y) implies self.client_map@[y] == (if next.contains(y) && (
                    ECHO_TO_SELF || y != origin) && !start[y].is_full() {
                        start[y].enqueue(m)
                    } else {
                        start[y]
                    }) by {
                    assert(next.contains(y) <==> members@.take(j as int).contains(y) || y == x);
                    if y != x {
                        assert(self.client_map@[y] == prev[y]);
                    }
                }
                assert forall|y: u128|
                    #[trigger] dropped@.contains(y) <==> next.contains(y) && (ECHO_TO_SELF || y
                        != origin) && start[y].is_full() by {
                    assert(next.contains(y) <==> members@.take(j as int).contains(y) || y == x);
                    assert(dropped@.contains(y) <==> dropped_before.contains(y) || (dropped@.len()
                        > dropped_before.len() && y == x));
                }
            }
            j += 1;
        }
        assert(members@.take(members@.len() as int) =~= members@);
        assert forall|x: u128| #[trigger] dropped@.contains(x) <==> old(self)@.clients.contains_key(x)
            && old(self)@.refuses(name@, origin, x) by {
            assert(members@.contains(x) <==> members@.to_set().contains(x));
        }
        assert(self.client_map@ =~= old(self)@.published(name@, m, origin).clients);
        assert(self@ == old(self)@.published(name@, m, origin));
        assert forall|n: Seq<char>, x: u128|
            self@.channels.contains_key(n) && #[trigger] self@.channels[n].contains(x)
                implies self@.clients.contains_key(x) by {
            assert(start.contains_key(x));
        }
        Ok(dropped)
    }

    /// Takes every message waiting for client `c`, oldest first, leaving
    /// its outbox empty. Fails with `HubClosed` after shutdown and with
    /// `UnknownClient` for an unregistered id; nothing changes then.
    pub fn take_messages(&mut self, c: u128) -> (r: Result<Vec<Message>, HubError>)
        requires
            old(self).wf(),
        ensures
            final(self).wf(),
            old(self)@.closed ==> r == Err::<Vec<Message>, HubError>(HubError::HubClosed),
            !old(self)@.closed && !old(self)@.clients.contains_key(c) ==> r == Err::<
                Vec<Message>,
                HubError,
            >(HubError::UnknownClient),
            !old(self)@.closed && old(self)@.clients.contains_key(c) ==> r is Ok,
            r is Err ==> final(self)@ == old(self)@,
            r is Ok ==> views_of(r->Ok_0@) == old(self)@.clients[c].outbox,
            r is Ok ==> final(self)@ == (HubView {
                clients: old(self)@.clients.insert(
                    c,
                    ClientView { outbox: Seq::empty(), ..old(self)@.clients[c] },
                ),
                ..old(self)@
            }),
    {
        if self.closed {
            return Err(HubError::HubClosed);
        }
        let k = match self.client_index(c) {
            Some(k) => k,
            None => {
                return Err(HubError::UnknownClient);
            },
        };
        let ghost cl = self.clients@;
        assert(self.client_map@.contains_key(cl[k as int].key()));
        let taken = self.clients[k].take_pending();
        proof {
            lemma_linked_update(cl, self.client_map@, k as int, self.clients@[k as int]);
        }
        self.client_map = Ghost(self.client_map@.insert(c, self.clients@[k as int]@));
        assert forall|n: Seq<char>, x: u128|
            self@.channels.contains_key(n) && #[trigger] self@.channels[n].contains(x)
                implies self@.clients.contains_key(x) by {
            assert(old(self)@.clients.contains_key(x));
        }
        Ok(taken)
    }
}

} // verus!
