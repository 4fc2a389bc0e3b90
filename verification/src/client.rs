//! The client side: the mapping between the server's entity identities and
//! the client's own.

use std::collections::HashMap;
use vstd::prelude::*;
use crate::entity::{entity_bits, entity_of_bits, lemma_entity_bits_round_trip, Entity};

verus! {

broadcast use vstd::std_specs::hash::group_hash_axioms;

/// The two directions of an entity mapping are inverse to each other: what a
/// server entity maps to maps back to it, and the other way round.
pub open spec fn mutually_inverse(to_client: Map<Entity, Entity>, to_server: Map<Entity, Entity>) -> bool {
    &&& forall|server: Entity| #[trigger]
        to_client.contains_key(server) ==> to_server.contains_key(to_client[server])
            && to_server[to_client[server]] == server
    &&& forall|client: Entity| #[trigger]
        to_server.contains_key(client) ==> to_client.contains_key(to_server[client])
            && to_client[to_server[client]] == client
}

/// A mapping whose directions are inverse to each other is one to one: two
/// server entities with the same client entity are one entity, and two client
/// entities with the same server entity are one entity.
pub proof fn lemma_mutually_inverse_is_one_to_one(
    to_client: Map<Entity, Entity>,
    to_server: Map<Entity, Entity>,
    first: Entity,
    second: Entity,
)
    requires
        mutually_inverse(to_client, to_server),
    ensures
        to_client.contains_key(first) && to_client.contains_key(second) && to_client[first]
            == to_client[second] ==> first == second,
        to_server.contains_key(first) && to_server.contains_key(second) && to_server[first]
            == to_server[second] ==> first == second,
{
}

/// `map` without the key that `stale` holds, if it holds one.
pub open spec fn without<K, V>(map: Map<K, V>, stale: Option<K>) -> Map<K, V> {
    match stale {
        Some(key) => map.remove(key),
        None => map,
    }
}

/// The entry of `map` under `key`, if there is one.
pub open spec fn lookup<K, V>(map: Map<K, V>, key: K) -> Option<V> {
    if map.contains_key(key) {
        Some(map[key])
    } else {
        None
    }
}

/// Maps the entities that the server replicates to their counterparts on one
/// client and back. No two server entities share a client entity.
pub struct NetworkEntityMap {
    server_to_client: HashMap<u64, Entity>,
    client_to_server: HashMap<u64, Entity>,
}

impl NetworkEntityMap {
    /// The mapping from server entities to client entities.
    pub closed spec fn to_client_map(&self) -> Map<Entity, Entity> {
        Map::new(
            |server: Entity| self.server_to_client@.contains_key(entity_bits(server)),
            |server: Entity| self.server_to_client@[entity_bits(server)],
        )
    }

    /// The mapping from client entities to server entities.
    pub closed spec fn to_server_map(&self) -> Map<Entity, Entity> {
        Map::new(
            |client: Entity| self.client_to_server@.contains_key(entity_bits(client)),
            |client: Entity| self.client_to_server@[entity_bits(client)],
        )
    }

    /// The invariant: the mapping is one to one.
    pub open spec fn wf(&self) -> bool {
        mutually_inverse(self.to_client_map(), self.to_server_map())
    }

    /// A mapping without entries.
    pub fn new() -> (map: NetworkEntityMap)
        ensures
            map.wf(),
            map.to_client_map() == Map::<Entity, Entity>::empty(),
            map.to_server_map() == Map::<Entity, Entity>::empty(),
    {
        let map = NetworkEntityMap {
            server_to_client: HashMap::new(),
            client_to_server: HashMap::new(),
        };
        proof {
            assert(map.to_client_map() =~= Map::<Entity, Entity>::empty());
            assert(map.to_server_map() =~= Map::<Entity, Entity>::empty());
        }
        map
    }

    /// The client entity that stands for a server entity, or `None` where the
    /// server entity is not mapped.
    pub fn to_client(&self, server: Entity) -> (client: Option<Entity>)
        ensures
            client == lookup(self.to_client_map(), server),
    {
        match self.server_to_client.get(&server.to_bits()) {
            Some(client) => Some(*client),
            None => None,
        }
    }

    /// The server entity that a client entity stands for, or `None` where the
    /// client entity is not mapped.
    pub fn to_server(&self, client: Entity) -> (server: Option<Entity>)
        ensures
            server == lookup(self.to_server_map(), client),
    {
        match self.client_to_server.get(&client.to_bits()) {
            Some(server) => Some(*server),
            None => None,
        }
    }

    /// Maps `server` to `client`. An entry that the new one would alias is
    /// stale and leaves the mapping: what `server` was mapped to before, and
    /// what was mapped to `client` before.
    pub fn insert(&mut self, server: Entity, client: Entity)
        requires
            old(self).wf(),
        ensures
            final(self).wf(),
            final(self).to_client_map() == without(
                old(self).to_client_map(),
                lookup(old(self).to_server_map(), client),
            ).insert(server, client),
            final(self).to_server_map() == without(
                old(self).to_server_map(),
                lookup(old(self).to_client_map(), server),
            ).insert(client, server),
    {
        let stale_client = self.to_client(server);
        let stale_server = self.to_server(client);
        if let Some(stale) = stale_client {
            self.client_to_server.remove(&stale.to_bits());
        }
        if let Some(stale) = stale_server {
            self.server_to_client.remove(&stale.to_bits());
        }
        self.server_to_client.insert(server.to_bits(), client);
        self.client_to_server.insert(client.to_bits(), server);
        proof {
            assert(self.to_client_map() =~= without(
                old(self).to_client_map(),
                lookup(old(self).to_server_map(), client),
            ).insert(server, client));
            assert(self.to_server_map() =~= without(
                old(self).to_server_map(),
                lookup(old(self).to_client_map(), server),
            ).insert(client, server));
        }
    }

    /// Takes the entry of a server entity out of the mapping, in both
    /// directions, and returns the client entity that stood for it.
    pub fn remove(&mut self, server: Entity) -> (client: Option<Entity>)
        requires
            old(self).wf(),
        ensures
            final(self).wf(),
            client == lookup(old(self).to_client_map(), server),
            final(self).to_client_map() == old(self).to_client_map().remove(server),
            final(self).to_server_map() == without(old(self).to_server_map(), client),
    {
        let removed = self.server_to_client.remove(&server.to_bits());
        if let Some(client) = removed {
            self.client_to_server.remove(&client.to_bits());
        }
        proof {
            assert(self.to_client_map() =~= old(self).to_client_map().remove(server));
            assert(self.to_server_map() =~= without(old(self).to_server_map(), removed));
        }
        removed
    }

    /// Number of mapped entities.
    pub fn len(&self) -> (len: usize)
        ensures
            len == self.to_client_map().len(),
    {
        proof {
            let keys = self.server_to_client@.dom();
            let unpack = |bits: u64| entity_of_bits(bits);
            assert forall|a: u64, b: u64| keys.contains(a) && keys.contains(b) && unpack(a)
                == unpack(b) implies a == b by {
                lemma_entity_bits_round_trip(unpack(a), a);
                lemma_entity_bits_round_trip(unpack(b), b);
            }
            assert forall|server: Entity|
                self.to_client_map().dom().contains(server) <==> keys.map(unpack).contains(
                    server,
                ) by {
                lemma_entity_bits_round_trip(server, 0);
                if keys.map(unpack).contains(server) {
                    let bits = choose|bits: u64| keys.contains(bits) && unpack(bits) == server;
                    lemma_entity_bits_round_trip(server, bits);
                }
                if self.to_client_map().dom().contains(server) {
                    assert(keys.contains(entity_bits(server)));
                    assert(unpack(entity_bits(server)) == server);
                }
            }
            assert(keys.map(unpack) =~= self.to_client_map().dom());
            vstd::set_lib::lemma_map_size(keys, self.to_client_map().dom(), unpack);
        }
        self.server_to_client.len()
    }
}

} // verus!
