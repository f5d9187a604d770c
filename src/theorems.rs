use vstd::prelude::*;

use crate::channel::ChannelView;
use crate::client::{ClientView, OUTBOX_CAPACITY};
use crate::hub::{HubView, ECHO_TO_SELF};
use crate::message::MessageView;

verus! {

/// One `join_channel` (`join` set) or `leave_channel` call.
pub struct MembershipCall {
    pub join: bool,
    pub client: u128,
    pub channel: Seq<char>,
}

/// The hub after the call `op`.
pub open spec fn after_call(h: HubView, op: MembershipCall) -> HubView {
    if op.join {
        h.after_join(op.client, op.channel)
    } else {
        h.after_leave(op.client, op.channel)
    }
}

/// The member set of `name` predicted from `start` by inserting the client
/// of each join on `name` and removing the client of each leave, in order.
pub open spec fn predicted_members(
    start: Set<u128>,
    ops: Seq<MembershipCall>,
    name: Seq<char>,
) -> Set<u128>
    decreases ops.len(),
{
    if ops.len() == 0 {
        start
    } else {
        let prev = predicted_members(start, ops.drop_last(), name);
        let op = ops.last();
        if op.channel != name {
            prev
        } else if op.join {
            prev.insert(op.client)
        } else {
            prev.remove(op.client)
        }
    }
}

/// One call by a registered client on an open hub changes the member set of
/// its own channel by an insert (join) or a remove (leave), and no other.
pub proof fn lemma_membership_call(h: HubView, op: MembershipCall, name: Seq<char>)
    requires
        !h.closed,
        h.clients.contains_key(op.client),
    ensures
        after_call(h, op).clients == h.clients,
        !after_call(h, op).closed,
        after_call(h, op).members(name) == (if op.channel != name {
            h.members(name)
        } else if op.join {
            h.members(name).insert(op.client)
        } else {
            h.members(name).remove(op.client)
        }),
{
    if !op.join && op.channel == name && !h.members(name).contains(op.client) {
        assert(h.members(name).remove(op.client) =~= h.members(name));
    }
}

/// Joins and leaves compose: after any sequence of `join_channel` and
/// `leave_channel` calls by registered clients on an open hub, each
/// channel's member set is the one obtained by applying each join as an
/// insert and each leave as a remove, in order. Joining twice is joining
/// once, and a channel that does not exist has no members.
pub proof fn lemma_membership_follows_calls(
    states: Seq<HubView>,
    ops: Seq<MembershipCall>,
    name: Seq<char>,
)
    requires
        states.len() == ops.len() + 1,
        !states[0].closed,
        forall|i: int| 0 <= i < ops.len() ==> states[0].clients.contains_key(#[trigger] ops[i].client),
        forall|i: int| 0 <= i < ops.len() ==> states[i + 1] == after_call(#[trigger] states[i], ops[i]),
    ensures
        states.last().members(name) == predicted_members(states[0].members(name), ops, name),
        states.last().clients == states[0].clients,
        !states.last().closed,
    decreases ops.len(),
{
    if ops.len() > 0 {
        let n = ops.len() - 1;
        let prefix = states.drop_last();
        assert forall|i: int| 0 <= i < ops.drop_last().len() implies prefix[i + 1] == after_call(
            #[trigger] prefix[i],
            ops.drop_last()[i],
        ) by {
            assert(states[i + 1] == after_call(states[i], ops[i]));
        }
        assert forall|i: int| 0 <= i < ops.drop_last().len() implies prefix[0].clients.contains_key(
            #[trigger] ops.drop_last()[i].client,
        ) by {
            assert(states[0].clients.contains_key(ops[i].client));
        }
        lemma_membership_follows_calls(prefix, ops.drop_last(), name);
        assert(states[n + 1] == after_call(states[n], ops[n]));
        assert(states[0].clients.contains_key(ops[n].client));
        lemma_membership_call(states[n], ops[n], name);
    }
}

/// The channel after `Channel::join` (`op.join` set) or `Channel::leave` by
/// `op.client`; `op.channel` is not consulted.
pub open spec fn channel_after_call(ch: ChannelView, op: MembershipCall) -> ChannelView {
    if op.join {
        ChannelView { members: ch.members.insert(op.client), ..ch }
    } else {
        ChannelView { members: ch.members.remove(op.client), ..ch }
    }
}

/// The same law for one channel on its own: after any sequence of `join`
/// and `leave` calls on it, its members are those obtained by applying each
/// join as an insert and each leave as a remove, in order; its name stays.
pub proof fn lemma_channel_membership_follows_calls(states: Seq<ChannelView>, ops: Seq<MembershipCall>)
    requires
        states.len() == ops.len() + 1,
        forall|i: int| 0 <= i < ops.len() ==> (#[trigger] ops[i]).channel == states[0].id,
        forall|i: int| 0 <= i < ops.len() ==> states[i + 1] == channel_after_call(#[trigger] states[i], ops[i]),
    ensures
        states.last().members == predicted_members(states[0].members, ops, states[0].id),
        states.last().id == states[0].id,
    decreases ops.len(),
{
    if ops.len() > 0 {
        let n = ops.len() - 1;
        let prefix = states.drop_last();
        assert forall|i: int| 0 <= i < ops.drop_last().len() implies prefix[i + 1] == channel_after_call(
            #[trigger] prefix[i],
            ops.drop_last()[i],
        ) by {
            assert(states[i + 1] == channel_after_call(states[i], ops[i]));
        }
        assert forall|i: int| 0 <= i < ops.drop_last().len() implies (#[trigger] ops.drop_last()[i]).channel
            == prefix[0].id by {
            assert(ops[i].channel == states[0].id);
        }
        lemma_channel_membership_follows_calls(prefix, ops.drop_last());
        assert(states[n + 1] == channel_after_call(states[n], ops[n]));
        assert(ops[n].channel == states[0].id);
    }
}

/// A published message reaches every member of the channel whose outbox has
/// room, appended after what it already held, and reaches no client that is
/// not a member.
pub proof fn lemma_fanout(h: HubView, name: Seq<char>, m: MessageView, origin: u128, c: u128)
    requires
        h.clients.contains_key(c),
    ensures
        h.published(name, m, origin).clients.contains_key(c),
        h.members(name).contains(c) && !h.clients[c].is_full() ==> h.published(
            name,
            m,
            origin,
        ).clients[c].outbox == h.clients[c].outbox.push(m),
        !h.members(name).contains(c) ==> h.published(name, m, origin).clients[c] == h.clients[c],
        h.published(name, m, origin).channels == h.channels,
{
    assert(ECHO_TO_SELF);
}

/// One call on the hub, with the arguments its contract speaks of.
pub enum HubCall {
    Register { client: u128 },
    Unregister { client: u128 },
    Join { client: u128, channel: Seq<char> },
    Leave { client: u128, channel: Seq<char> },
    Publish { channel: Seq<char>, payload: Seq<char>, origin: u128 },
    Take { client: u128 },
    Shutdown,
}

/// The hub after `call`, whether it succeeded or failed, as the contracts of
/// `register_with_id`, `unregister`, `join_channel`, `leave_channel`,
/// `publish`, `take_messages` and `shutdown` give it.
pub open spec fn after_hub_call(h: HubView, call: HubCall) -> HubView {
    match call {
        HubCall::Register { client } => if !h.closed && !h.clients.contains_key(client) {
            h.registered(client)
        } else {
            h
        },
        HubCall::Unregister { client } => if !h.closed && h.clients.contains_key(client) {
            h.unregistered(client)
        } else {
            h
        },
        HubCall::Join { client, channel } => h.after_join(client, channel),
        HubCall::Leave { client, channel } => h.after_leave(client, channel),
        HubCall::Publish { channel, payload, origin } => if !h.closed && h.channels.contains_key(
            channel,
        ) {
            h.published(channel, MessageView { channel, payload }, origin)
        } else {
            h
        },
        HubCall::Take { client } => if !h.closed && h.clients.contains_key(client) {
            HubView {
                clients: h.clients.insert(client, ClientView { outbox: Seq::empty(), ..h.clients[client] }),
                ..h
            }
        } else {
            h
        },
        HubCall::Shutdown => HubView::shut_down(),
    }
}

/// `call`, made on `h`, published `msg` on a channel of which `c` was a
/// member.
pub open spec fn publishes_to(call: HubCall, h: HubView, c: u128, msg: MessageView) -> bool {
    match call {
        HubCall::Publish { channel, payload, origin } => msg == (MessageView { channel, payload })
            && h.members(channel).contains(c),
        _ => false,
    }
}

/// One call adds to a client's outbox only a message it publishes on a
/// channel the client belongs to; everything else there was there before.
pub proof fn lemma_call_outbox_sources(h: HubView, call: HubCall, c: u128, k: int)
    requires
        after_hub_call(h, call).clients.contains_key(c),
        0 <= k < after_hub_call(h, call).clients[c].outbox.len(),
    ensures
        publishes_to(call, h, c, after_hub_call(h, call).clients[c].outbox[k]) || (
        h.clients.contains_key(c) && h.clients[c].outbox.contains(
            after_hub_call(h, call).clients[c].outbox[k],
        )),
{
    let after = after_hub_call(h, call);
    let msg = after.clients[c].outbox[k];
    match call {
        HubCall::Publish { channel, payload, origin } => {
            if !h.closed && h.channels.contains_key(channel) {
                if k < h.clients[c].outbox.len() {
                    assert(h.clients[c].outbox[k] == msg);
                }
            } else {
                assert(h.clients[c].outbox[k] == msg);
            }
        },
        _ => {
            assert(h.clients[c].outbox[k] == msg);
        },
    }
}

/// On a hub fresh from `new`, after any sequence of calls, every message a
/// client holds was published, with that channel and payload, by one of the
/// calls, at a time when the client was a member of that channel. No client
/// ever receives a message of a channel it was not in.
pub proof fn lemma_messages_come_from_member_publishes(
    states: Seq<HubView>,
    calls: Seq<HubCall>,
    c: u128,
    k: int,
)
    requires
        states.len() == calls.len() + 1,
        states[0] == HubView::empty(),
        forall|i: int| 0 <= i < calls.len() ==> states[i + 1] == after_hub_call(#[trigger] states[i], calls[i]),
        states.last().clients.contains_key(c),
        0 <= k < states.last().clients[c].outbox.len(),
    ensures
        exists|i: int|
            0 <= i < calls.len() && publishes_to(
                #[trigger] calls[i],
                states[i],
                c,
                states.last().clients[c].outbox[k],
            ),
    decreases calls.len(),
{
    let n = calls.len() - 1;
    let msg = states.last().clients[c].outbox[k];
    if calls.len() == 0 {
        assert(states[0].clients == Map::<u128, ClientView>::empty());
    } else {
        assert(states[n + 1] == after_hub_call(states[n], calls[n]));
        lemma_call_outbox_sources(states[n], calls[n], c, k);
        if publishes_to(calls[n], states[n], c, msg) {
            assert(publishes_to(calls[n], states[n], c, msg));
        } else {
            let k2 = choose|k2: int|
                0 <= k2 < states[n].clients[c].outbox.len() && states[n].clients[c].outbox[k2] == msg;
            let prefix = states.drop_last();
            let pcalls = calls.drop_last();
            assert forall|i: int| 0 <= i < pcalls.len() implies prefix[i + 1] == after_hub_call(
                #[trigger] prefix[i],
                pcalls[i],
            ) by {
                assert(states[i + 1] == after_hub_call(states[i], calls[i]));
            }
            lemma_messages_come_from_member_publishes(prefix, pcalls, c, k2);
            let i = choose|i: int|
                0 <= i < pcalls.len() && publishes_to(#[trigger] pcalls[i], prefix[i], c, prefix.last().clients[c].outbox[k2]);
            assert(calls[i] == pcalls[i]);
            assert(publishes_to(calls[i], states[i], c, msg));
        }
    }
}

/// Two messages published in turn on one channel reach each member with room
/// for both in the order they were published.
pub proof fn lemma_publish_order(
    h: HubView,
    name: Seq<char>,
    m1: MessageView,
    o1: u128,
    m2: MessageView,
    o2: u128,
    c: u128,
)
    requires
        h.clients.contains_key(c),
        h.members(name).contains(c),
        h.clients[c].outbox.len() + 2 <= OUTBOX_CAPACITY,
    ensures
        h.published(name, m1, o1).published(name, m2, o2).clients[c].outbox == h.clients[
            c
        ].outbox.push(m1).push(m2),
{
    lemma_fanout(h, name, m1, o1, c);
    let h1 = h.published(name, m1, o1);
    lemma_fanout(h1, name, m2, o2, c);
}

/// Once a client has unregistered it is in no channel and no table, so a
/// later publish on any channel delivers nothing to it and it cannot be
/// looked up.
pub proof fn lemma_unregistered_gets_nothing(
    h: HubView,
    c: u128,
    name: Seq<char>,
    m: MessageView,
    origin: u128,
)
    ensures
        !h.unregistered(c).clients.contains_key(c),
        forall|n: Seq<char>| !(#[trigger] h.unregistered(c).members(n)).contains(c),
        !h.unregistered(c).published(name, m, origin).clients.contains_key(c),
{
}

/// A channel whose last member leaves is gone; joining it again makes a
/// fresh channel whose only member is the new joiner.
pub proof fn lemma_emptied_channel_starts_fresh(h: HubView, c: u128, d: u128, name: Seq<char>)
    requires
        !h.closed,
        h.members(name) == set![c],
        h.clients.contains_key(d),
    ensures
        !h.after_leave(c, name).channels.contains_key(name),
        h.after_leave(c, name).after_join(d, name).members(name) == set![d],
{
    assert(set![c].remove(c) =~= Set::<u128>::empty());
    assert(set![c].contains(c));
    assert(Set::<u128>::empty().insert(d) =~= set![d]);
}

/// Shutting down twice is shutting down once: the second call leaves the
/// hub as the first left it and reports that it did nothing.
pub proof fn lemma_shutdown_idempotent(h: HubView)
    ensures
        h.shutdown_outcome().0.shutdown_outcome().0 == h.shutdown_outcome().0,
        !h.shutdown_outcome().0.shutdown_outcome().1,
        h.shutdown_outcome().0.wf(),
{
}

} // verus!
