//! The registry of replicated component types.

use vstd::prelude::*;
use crate::lookup::{first_match, is_first_match, lemma_first_match_found, lemma_first_match_absent};

verus! {

/// Identifier of a component type in the storage.
#[derive(Clone, Copy, Debug, PartialEq, Eq, Structural)]
pub struct ComponentId(pub usize);

/// Stable identifier of a replicated component type: its position in the
/// replication rules.
#[derive(Clone, Copy, Debug, PartialEq, Eq, Structural)]
pub struct ReplicationId(pub usize);

/// What the rules record for one replicated component type.
#[derive(Clone, Copy, Debug, PartialEq, Eq, Structural)]
pub struct ReplicationInfo {
    /// The replicated component type.
    pub component_id: ComponentId,
    /// The marker component that excludes this type from replication on the
    /// entities that carry it.
    pub ignored_id: ComponentId,
}

/// The replication rules: the marker that tags an entity for replication and
/// the component types that are replicated.
#[derive(Clone, Debug)]
pub struct ReplicationRules {
    pub marker_id: ComponentId,
    pub infos: Vec<ReplicationInfo>,
}

impl ReplicationRules {
    /// The registered component types, in registration order.
    pub open spec fn component_ids(&self) -> Seq<ComponentId> {
        self.infos@.map_values(|info: ReplicationInfo| info.component_id)
    }

    /// The rule for `component_id`: the first registration of that type.
    pub open spec fn rule(&self, component_id: ComponentId) -> Option<(ReplicationId, ReplicationInfo)> {
        match first_match(self.component_ids(), component_id) {
            Some(i) => Some((ReplicationId(i as usize), self.infos@[i])),
            None => None,
        }
    }

    /// Rules with the given replication marker and no replicated type yet.
    pub fn new(marker_id: ComponentId) -> (rules: ReplicationRules)
        ensures
            rules.marker_id == marker_id,
            rules.infos@ == Seq::<ReplicationInfo>::empty(),
    {
        ReplicationRules { marker_id, infos: Vec::new() }
    }

    pub fn get_marker_id(&self) -> (id: ComponentId)
        ensures
            id == self.marker_id,
    {
        self.marker_id
    }

    /// Registers a component type and returns its replication identifier. A
    /// type that is registered already keeps its first registration.
    pub fn register(&mut self, component_id: ComponentId, ignored_id: ComponentId) -> (id:
        ReplicationId)
        ensures
            final(self).marker_id == old(self).marker_id,
            match old(self).rule(component_id) {
                Some((known, _)) => id == known && final(self).infos@ == old(self).infos@,
                None => id.0 == old(self).infos@.len() && final(self).infos@ == old(
                    self,
                ).infos@.push(ReplicationInfo { component_id, ignored_id }),
            },
            final(self).rule(component_id) matches Some((registered, _)) && registered == id,
    {
        match self.get(component_id) {
            Some((known, _)) => known,
            None => {
                let id = ReplicationId(self.infos.len());
                self.infos.push(ReplicationInfo { component_id, ignored_id });
                proof {
                    assert(is_first_match(self.component_ids(), component_id, id.0 as int)) by {
                        assert forall|j: int| 0 <= j < id.0 implies self.component_ids()[j]
                            != component_id by {
                            assert(self.component_ids()[j] == old(self).component_ids()[j]);
                            crate::lookup::lemma_first_match_contains(
                                old(self).component_ids(),
                                component_id,
                            );
                        }
                    }
                    lemma_first_match_found(self.component_ids(), component_id, id.0 as int);
                }
                id
            },
        }
    }

    /// The replication identifier and rule of a component type, or `None` for
    /// a type that is not replicated.
    pub fn get(&self, component_id: ComponentId) -> (found: Option<(ReplicationId, ReplicationInfo)>)
        ensures
            found == self.rule(component_id),
    {
        let mut i: usize = 0;
        while i < self.infos.len()
            invariant
                i <= self.infos@.len(),
                forall|j: int| 0 <= j < i ==> self.component_ids()[j] != component_id,
            decreases self.infos@.len() - i,
        {
            if self.infos[i].component_id == component_id {
                proof {
                    lemma_first_match_found(self.component_ids(), component_id, i as int);
                }
                return Some((ReplicationId(i), self.infos[i]));
            }
            i += 1;
        }
        proof {
            lemma_first_match_absent(self.component_ids(), component_id);
        }
        None
    }

    /// The rule registered under a replication identifier.
    pub fn info(&self, id: ReplicationId) -> (found: Option<ReplicationInfo>)
        ensures
            found == if id.0 < self.infos@.len() {
                Some(self.infos@[id.0 as int])
            } else {
                None
            },
    {
        if id.0 < self.infos.len() {
            Some(self.infos[id.0])
        } else {
            None
        }
    }
}

} // verus!
