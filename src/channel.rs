use vstd::prelude::*;

use crate::error::HubError;

verus! {

/// A named group of subscribed clients, held by their ids only.
pub struct Channel {
    id: String,
    members: Vec<u128>,
}

/// The mathematical content of a `Channel`: its name and its member set.
pub struct ChannelView {
    pub id: Seq<char>,
    pub members: Set<u128>,
}

impl View for Channel {
    type V = ChannelView;

    closed spec fn view(&self) -> ChannelView {
        ChannelView { id: self.id@, members: self.members@.to_set() }
    }
}

impl Channel {
    /// The member list holds each id at most once.
    pub closed spec fn wf(&self) -> bool {
        self.members@.no_duplicates()
    }

    /// A channel with no members.
    pub fn new(id: String) -> (r: Channel)
        ensures
            r.wf(),
            r@ == (ChannelView { id: id@, members: Set::empty() }),
    {
        let r = Channel { id, members: Vec::new() };
        assert(r.members@.to_set() =~= Set::empty());
        r
    }

    pub fn name(&self) -> (r: &String)
        ensures
            r@ == self@.id,
    {
        &self.id
    }

    /// Where `client` stands in the member list, if it is a member.
    fn position(&self, client: u128) -> (r: Option<usize>)
        ensures
            r is None ==> !self.members@.contains(client),
            r is Some ==> r->0 < self.members@.len() && self.members@[r->0 as int] == client,
    {
        let mut i: usize = 0;
        while i < self.members.len()
            invariant
                i <= self.members@.len(),
                forall|j: int| 0 <= j < i ==> self.members@[j] != client,
            decreases self.members@.len() - i,
        {
            if self.members[i] == client {
                return Some(i);
            }
            i += 1;
        }
        None
    }

    pub fn contains(&self, client: u128) -> (r: bool)
        ensures
            r == self@.members.contains(client),
    {
        match self.position(client) {
            Some(i) => {
                assert(self.members@.to_set().contains(self.members@[i as int]));
                true
            },
            None => false,
        }
    }

    /// The number of members.
    pub fn len(&self) -> (r: usize)
        requires
            self.wf(),
        ensures
            r == self@.members.len(),
    {
        proof {
            self.members@.unique_seq_to_set();
        }
        self.members.len()
    }

    /// Whether the channel has no members left, which makes it disposable.
    pub fn is_empty(&self) -> (r: bool)
        ensures
            r == (self@.members == Set::<u128>::empty()),
    {
        if self.members.len() == 0 {
            assert(self.members@.to_set() =~= Set::empty());
            true
        } else {
            assert(self.members@.to_set().contains(self.members@[0]));
            false
        }
    }

    /// The member ids, each once, in the order they joined.
    pub fn member_ids(&self) -> (r: &Vec<u128>)
        requires
            self.wf(),
        ensures
            r@.no_duplicates(),
            r@.to_set() == self@.members,
    {
        &self.members
    }

    /// Adds `client` to the members. Joining again is a no-op; the result
    /// says whether the client was newly added.
    pub fn join(&mut self, client: u128) -> (r: bool)
        requires
            old(self).wf(),
        ensures
            final(self).wf(),
            r == !old(self)@.members.contains(client),
            final(self)@ == (ChannelView { members: old(self)@.members.insert(client), ..old(self)@ }),
    {
        if self.contains(client) {
            assert(self.members@.to_set().insert(client) =~= self.members@.to_set());
            return false;
        }
        let ghost before = self.members@;
        self.members.push(client);
        assert(self.members@.to_set() =~= before.to_set().insert(client)) by {
            assert(forall|j: int| 0 <= j < before.len() ==> self.members@[j] == before[j]);
            assert(self.members@[before.len() as int] == client);
        }
        true
    }

    /// Removes `client` from the members; fails with `NotMember`, changing
    /// nothing, when it is not one.
    pub fn leave(&mut self, client: u128) -> (r: Result<(), HubError>)
        requires
            old(self).wf(),
        ensures
            final(self).wf(),
            final(self)@ == (ChannelView { members: old(self)@.members.remove(client), ..old(self)@ }),
            old(self)@.members.contains(client) <==> r is Ok,
            r is Err ==> r == Err::<(), HubError>(HubError::NotMember),
    {
        match self.position(client) {
            None => {
                assert(self.members@.to_set().remove(client) =~= self.members@.to_set());
                Err(HubError::NotMember)
            },
            Some(i) => {
                let ghost before = self.members@;
                self.members.remove(i);
                let ghost after = self.members@;
                assert(forall|j: int| 0 <= j < i ==> after[j] == before[j]);
                assert(forall|j: int| i <= j < after.len() ==> after[j] == before[j + 1]);
                assert(after.to_set() =~= before.to_set().remove(client)) by {
                    assert forall|x: u128| before.to_set().remove(client).contains(x) implies
                        after.to_set().contains(x) by {
                        let k = choose|k: int| 0 <= k < before.len() && before[k] == x;
                        if k < i {
                            assert(after[k] == x);
                        } else {
                            assert(k != i);
                            assert(after[k - 1] == x);
                        }
                    }
                    assert forall|x: u128| after.to_set().contains(x) implies
                        before.to_set().remove(client).contains(x) by {
                        let k = choose|k: int| 0 <= k < after.len() && after[k] == x;
                        if k < i {
                            assert(before[k] == x);
                            assert(k != i);
                        } else {
                            assert(before[k + 1] == x);
                            assert(k + 1 != i);
                        }
                    }
                }
                assert(after.no_duplicates()) by {
                    assert forall|a: int, b: int|
                        0 <= a < after.len() && 0 <= b < after.len() && a != b implies after[a]
                        != after[b] by {
                        let a2 = if a < i { a } else { a + 1 };
                        let b2 = if b < i { b } else { b + 1 };
                        assert(after[a] == before[a2]);
                        assert(after[b] == before[b2]);
                    }
                }
                Ok(())
            },
        }
    }

    /// Clears the members. Safe on an empty channel; disposing twice is the
    /// same as disposing once.
    pub fn dispose(&mut self)
        ensures
            final(self).wf(),
            final(self)@ == (ChannelView { members: Set::empty(), ..old(self)@ }),
    {
        self.members = Vec::new();
        assert(self.members@.to_set() =~= Set::empty());
    }
}

} // verus!
