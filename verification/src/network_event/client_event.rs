//! Events that clients send to the server.
//!
//! Sending and receiving are done by the transport, and events are
//! serialized by whoever owns their type. This module holds what the relay
//! decides in between: which channel an event type travels on, how the
//! entities inside an event are mapped for the server, and what the server
//! emits for what it received.

use vstd::prelude::*;
use crate::client::{lookup, NetworkEntityMap};
use crate::entity::Entity;

verus! {

/// The client identifier under which the server's own events are emitted.
pub const SERVER_ID: u64 = 0;

/// The channel that carries replication messages. Event channels are numbered
/// after it.
pub const REPLICATION_CHANNEL_ID: u8 = 0;

/// An event indicating that a message from client was received.
/// Emitted only on server.
#[derive(Clone, Copy, Debug)]
pub struct FromClient<T> {
    pub client_id: u64,
    pub event: T,
}

/// The channel that was registered for an event type.
#[derive(Clone, Copy, Debug, PartialEq, Eq, Structural)]
pub struct EventChannel {
    pub id: u8,
}

/// The channels that were registered for events, with the delivery policy of
/// each. A policy is handed on to the transport as it is.
pub struct NetworkChannels<P> {
    pub server: Vec<P>,
    pub client: Vec<P>,
}

impl<P> NetworkChannels<P> {
    /// No event channels.
    pub fn new() -> (channels: NetworkChannels<P>)
        ensures
            channels.server@ == Seq::<P>::empty(),
            channels.client@ == Seq::<P>::empty(),
    {
        NetworkChannels { server: Vec::new(), client: Vec::new() }
    }

    /// The delivery policy of a client event channel.
    pub open spec fn client_policy(&self, channel: EventChannel) -> Option<P> {
        if 0 < channel.id <= self.client@.len() {
            Some(self.client@[channel.id - 1])
        } else {
            None
        }
    }

    /// Registers a channel for a client event type and returns it. The
    /// channels that exist keep their identifiers and their policies. `None`,
    /// and no change, when all 255 identifiers are taken.
    pub fn create_client_channel(&mut self, policy: P) -> (channel: Option<EventChannel>)
        ensures
            final(self).server@ == old(self).server@,
            match channel {
                Some(created) => {
                    &&& old(self).client@.len() < u8::MAX
                    &&& created.id == old(self).client@.len() + 1
                    &&& final(self).client@ == old(self).client@.push(policy)
                    &&& final(self).client_policy(created) == Some(policy)
                    &&& forall|earlier: EventChannel| #[trigger]
                        old(self).client_policy(earlier) is Some ==> final(self).client_policy(
                            earlier,
                        ) == old(self).client_policy(earlier)
                },
                None => old(self).client@.len() >= u8::MAX && final(self).client@ == old(
                    self,
                ).client@,
            },
    {
        if self.client.len() >= 255 {
            return None;
        }
        self.client.push(policy);
        Some(EventChannel { id: self.client.len() as u8 })
    }

    /// Registers a channel for a server event type and returns it, as
    /// [`NetworkChannels::create_client_channel`] does for a client event type.
    pub fn create_server_channel(&mut self, policy: P) -> (channel: Option<EventChannel>)
        ensures
            final(self).client@ == old(self).client@,
            match channel {
                Some(created) => {
                    &&& old(self).server@.len() < u8::MAX
                    &&& created.id == old(self).server@.len() + 1
                    &&& final(self).server@ == old(self).server@.push(policy)
                },
                None => old(self).server@.len() >= u8::MAX && final(self).server@ == old(
                    self,
                ).server@,
            },
    {
        if self.server.len() >= 255 {
            return None;
        }
        self.server.push(policy);
        Some(EventChannel { id: self.server.len() as u8 })
    }
}

/// Maps the entities inside an event from the client's identities to the
/// server's, and keeps the entities that it could not map.
pub struct EventMapper<'a> {
    entity_map: &'a NetworkEntityMap,
    unmapped: Vec<Entity>,
}

impl<'a> EventMapper<'a> {
    /// The mapping that the mapper goes by.
    pub closed spec fn entity_map(&self) -> &NetworkEntityMap {
        self.entity_map
    }

    /// The entities that the mapper was asked for and could not map, in the
    /// order in which it was asked.
    pub closed spec fn unmapped(&self) -> Seq<Entity> {
        self.unmapped@
    }

    pub fn new(entity_map: &'a NetworkEntityMap) -> (mapper: EventMapper<'a>)
        ensures
            mapper.entity_map() == entity_map,
            mapper.unmapped() == Seq::<Entity>::empty(),
    {
        EventMapper { entity_map, unmapped: Vec::new() }
    }

    /// The server entity that a client entity stands for. A client entity
    /// that is not mapped is returned as it is, and kept as unmapped.
    pub fn map(&mut self, entity: Entity) -> (mapped: Entity)
        ensures
            final(self).entity_map() == old(self).entity_map(),
            match lookup(old(self).entity_map().to_server_map(), entity) {
                Some(server) => mapped == server && final(self).unmapped() == old(self).unmapped(),
                None => mapped == entity && final(self).unmapped() == old(self).unmapped().push(
                    entity,
                ),
            },
    {
        match self.entity_map.to_server(entity) {
            Some(server) => server,
            None => {
                self.unmapped.push(entity);
                entity
            },
        }
    }

    /// Whether every entity that the mapper was asked for was mapped.
    pub fn is_complete(&self) -> (complete: bool)
        ensures
            complete == (self.unmapped().len() == 0),
    {
        self.unmapped.len() == 0
    }

    /// Ends the mapping and hands out the entities that could not be mapped.
    pub fn into_unmapped(self) -> (unmapped: Vec<Entity>)
        ensures
            unmapped@ == self.unmapped(),
    {
        self.unmapped
    }
}

/// An event that names entities and can have them mapped.
pub trait MapNetworkEntities {
    /// Replaces each entity inside the event by what `mapper` maps it to.
    fn map_entities(&mut self, mapper: &mut EventMapper<'_>);
}

/// The entities among the first `n` of `reported` that `to_server` does not
/// map, in order.
pub open spec fn truly_unmapped(reported: Seq<Entity>, n: int, to_server: Map<Entity, Entity>) -> Seq<
    Entity,
>
    decreases n,
{
    if n <= 0 {
        Seq::empty()
    } else {
        let earlier = truly_unmapped(reported, n - 1, to_server);
        if to_server.contains_key(reported[n - 1]) {
            earlier
        } else {
            earlier.push(reported[n - 1])
        }
    }
}

/// Nothing in the list is mapped by `to_server`.
pub open spec fn none_mapped(entities: Seq<Entity>, to_server: Map<Entity, Entity>) -> bool {
    forall|i: int| 0 <= i < entities.len() ==> !to_server.contains_key(#[trigger] entities[i])
}

/// What is selected as unmapped is not mapped.
proof fn lemma_truly_unmapped(reported: Seq<Entity>, n: int, to_server: Map<Entity, Entity>)
    requires
        0 <= n <= reported.len(),
    ensures
        none_mapped(truly_unmapped(reported, n, to_server), to_server),
    decreases n,
{
    if n > 0 {
        lemma_truly_unmapped(reported, n - 1, to_server);
    }
}

/// Holds a list of entities that were reported as unmapped against the
/// mapping: what is returned are the entities of the list that `entity_map`
/// does not map to a server entity, in the order of the list.
pub fn confirmed_unmapped(reported: Vec<Entity>, entity_map: &NetworkEntityMap) -> (unmapped: Vec<
    Entity,
>)
    ensures
        unmapped@ == truly_unmapped(
            reported@,
            reported@.len() as int,
            entity_map.to_server_map(),
        ),
{
    let mut unmapped: Vec<Entity> = Vec::new();
    let mut i: usize = 0;
    while i < reported.len()
        invariant
            i <= reported@.len(),
            unmapped@ == truly_unmapped(reported@, i as int, entity_map.to_server_map()),
        decreases reported@.len() - i,
    {
        if entity_map.to_server(reported[i]).is_none() {
            unmapped.push(reported[i]);
        }
        i += 1;
    }
    unmapped
}

/// Hands an event a mapper over `entity_map`, for the event to map its
/// entities from the client's identities to the server's, and returns what
/// [`confirmed_unmapped`] makes of the entities that the mapper could not map.
/// The event may be sent where the list is empty.
///
/// What an event does with the mapper is up to its implementation of
/// [`MapNetworkEntities`]. Whatever it does, no entity is returned that
/// `entity_map` maps.
pub fn map_event<T: MapNetworkEntities>(event: &mut T, entity_map: &NetworkEntityMap) -> (unmapped:
    Vec<Entity>)
    ensures
        none_mapped(unmapped@, entity_map.to_server_map()),
{
    let mut mapper = EventMapper::new(entity_map);
    event.map_entities(&mut mapper);
    let reported = mapper.into_unmapped();
    proof {
        lemma_truly_unmapped(reported@, reported@.len() as int, entity_map.to_server_map());
    }
    confirmed_unmapped(reported, entity_map)
}

/// The items of a list in the opposite order.
fn reversed<T>(items: Vec<T>) -> (reversed: Vec<T>)
    ensures
        reversed@.len() == items@.len(),
        forall|i: int|
            0 <= i < items@.len() ==> #[trigger] reversed@[i] == items@[items@.len() - 1 - i],
{
    let ghost all = items@;
    let mut remaining = items;
    let mut reversed: Vec<T> = Vec::new();
    while remaining.len() > 0
        invariant
            remaining@.len() + reversed@.len() == all.len(),
            forall|i: int| 0 <= i < remaining@.len() ==> remaining@[i] == all[i],
            forall|i: int|
                0 <= i < reversed@.len() ==> #[trigger] reversed@[i] == all[all.len() - 1 - i],
        decreases remaining@.len(),
    {
        match remaining.pop() {
            Some(item) => reversed.push(item),
            None => {},
        }
    }
    reversed
}

/// What the server emits for a message from a client: the event under the
/// client's identifier where the message could be decoded, nothing where it
/// could not.
pub fn received_event<T>(client_id: u64, decoded: Option<T>) -> (emitted: Option<FromClient<T>>)
    ensures
        emitted == match decoded {
            Some(event) => Some(FromClient { client_id, event }),
            None => None,
        },
{
    match decoded {
        Some(event) => Some(FromClient { client_id, event }),
        None => None,
    }
}

/// The events that the server emits for the first `n` messages of a client,
/// in order.
pub open spec fn emitted_events<T>(client_id: u64, decoded: Seq<Option<T>>, n: int) -> Seq<
    FromClient<T>,
>
    decreases n,
{
    if n <= 0 {
        Seq::empty()
    } else {
        let earlier = emitted_events(client_id, decoded, n - 1);
        match decoded[n - 1] {
            Some(event) => earlier.push(FromClient { client_id, event }),
            None => earlier,
        }
    }
}

/// What the server emits for the messages of one client, given what each
/// decoded to (`None` for a message that could not be decoded): the decoded
/// events in order, each under the client's identifier. An undecodable message
/// is skipped; the second part of the result counts them.
pub fn receive_events<T>(client_id: u64, decoded: Vec<Option<T>>) -> (received: (
    Vec<FromClient<T>>,
    usize,
))
    ensures
        received.0@ == emitted_events(client_id, decoded@, decoded@.len() as int),
        received.1 == decoded@.len() - received.0@.len(),
{
    let ghost all = decoded@;
    let total = decoded.len();
    let mut waiting = reversed(decoded);
    let mut events: Vec<FromClient<T>> = Vec::new();
    let mut failed: usize = 0;
    let ghost mut done: int = 0;
    while waiting.len() > 0
        invariant
            0 <= done <= all.len(),
            total == all.len(),
            waiting@.len() == all.len() - done,
            forall|i: int|
                0 <= i < waiting@.len() ==> #[trigger] waiting@[i] == all[all.len() - 1 - i],
            events@ == emitted_events(client_id, all, done),
            failed == done - events@.len(),
            events@.len() <= done,
        decreases waiting@.len(),
    {
        match waiting.pop() {
            Some(message) => {
                match received_event(client_id, message) {
                    Some(event) => events.push(event),
                    None => {
                        failed += 1;
                    },
                }
                proof {
                    done = done + 1;
                }
            },
            None => {},
        }
    }
    (events, failed)
}

/// The messages that go out for the first `n` events, in order: what each
/// event serialized to, where it could be serialized.
pub open spec fn sent_messages(serialized: Seq<Option<Vec<u8>>>, n: int) -> Seq<Vec<u8>>
    decreases n,
{
    if n <= 0 {
        Seq::empty()
    } else {
        let earlier = sent_messages(serialized, n - 1);
        match serialized[n - 1] {
            Some(message) => earlier.push(message),
            None => earlier,
        }
    }
}

/// What is sent for a list of events, given what each serialized to (`None`
/// for an event that could not be serialized): the serialized events in
/// order. An event that could not be serialized is skipped, and the others
/// still go out; the second part of the result counts the skipped ones.
pub fn outgoing_messages(serialized: Vec<Option<Vec<u8>>>) -> (outgoing: (Vec<Vec<u8>>, usize))
    ensures
        outgoing.0@ == sent_messages(serialized@, serialized@.len() as int),
        outgoing.1 == serialized@.len() - outgoing.0@.len(),
{
    let ghost all = serialized@;
    let total = serialized.len();
    let mut waiting = reversed(serialized);
    let mut messages: Vec<Vec<u8>> = Vec::new();
    let mut skipped: usize = 0;
    let ghost mut done: int = 0;
    while waiting.len() > 0
        invariant
            0 <= done <= all.len(),
            total == all.len(),
            waiting@.len() == all.len() - done,
            forall|i: int|
                0 <= i < waiting@.len() ==> #[trigger] waiting@[i] == all[all.len() - 1 - i],
            messages@ == sent_messages(all, done),
            skipped == done - messages@.len(),
            messages@.len() <= done,
        decreases waiting@.len(),
    {
        match waiting.pop() {
            Some(outcome) => {
                match outcome {
                    Some(message) => messages.push(message),
                    None => {
                        skipped += 1;
                    },
                }
                proof {
                    done = done + 1;
                }
            },
            None => {},
        }
    }
    (messages, skipped)
}

/// Turns the server's own events into events from a client, under
/// [`SERVER_ID`], in order: what a server that is also a player raises
/// arrives as if it had been sent.
pub fn local_resend<T>(events: Vec<T>) -> (resent: Vec<FromClient<T>>)
    ensures
        resent@.len() == events@.len(),
        forall|i: int|
            0 <= i < events@.len() ==> #[trigger] resent@[i] == (FromClient {
                client_id: SERVER_ID,
                event: events@[i],
            }),
{
    let ghost all = events@;
    let mut waiting = reversed(events);
    let mut resent: Vec<FromClient<T>> = Vec::new();
    while waiting.len() > 0
        invariant
            resent@.len() + waiting@.len() == all.len(),
            forall|i: int|
                0 <= i < waiting@.len() ==> #[trigger] waiting@[i] == all[all.len() - 1 - i],
            forall|i: int|
                0 <= i < resent@.len() ==> #[trigger] resent@[i] == (FromClient {
                    client_id: SERVER_ID,
                    event: all[i],
                }),
        decreases waiting@.len(),
    {
        match waiting.pop() {
            Some(event) => resent.push(FromClient { client_id: SERVER_ID, event }),
            None => {},
        }
    }
    resent
}

} // verus!
