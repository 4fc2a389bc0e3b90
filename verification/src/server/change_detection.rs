//! The change candidate collector: one scan of the storage that finds, for
//! every replicated entity, the components that changed and the components
//! that were removed since the oldest tick that any client has acknowledged.
//!
//! The scan is made once per tick for all clients together. What it yields is
//! a superset of what any single client needs; the cut for each client is
//! made when its message is built.

use vstd::prelude::*;
use crate::entity::Entity;
use crate::lookup::first_match;
use crate::replicon_core::replication_rules::{ComponentId, ReplicationId, ReplicationRules};
use crate::server::removal_tracker::{distinct_removals, fresh_removals, Removal};
use crate::storage::{
    Archetype, ArchetypeComponent, ArchetypeEntity, PayloadLocation, WorldView, EMPTY_ARCHETYPE,
    INVALID_ARCHETYPE,
};
use crate::tick::{newer_than_at, ComponentTicks, Tick};

verus! {

/// A replicated component of an entity that changed since the bounding tick.
#[derive(Clone, Copy, Debug, PartialEq, Eq, Structural)]
pub struct ComponentChangeCandidate {
    pub component_id: ComponentId,
    pub replication_id: ReplicationId,
    /// Where the data of the component lies in the storage.
    pub payload: PayloadLocation,
    pub component_ticks: ComponentTicks,
}

/// A replicated component that was removed from an entity since the bounding
/// tick.
#[derive(Clone, Copy, Debug, PartialEq, Eq, Structural)]
pub struct ComponentRemovalCandidate {
    pub replication_id: ReplicationId,
    /// Tick at which the component was removed from the entity.
    pub tick: Tick,
}

/// What the scan found for one replicated entity.
#[derive(Clone, Debug)]
pub struct EntityCandidate {
    pub entity: Entity,
    /// Where the replication marker of the entity lies in the storage.
    pub replication_marker: PayloadLocation,
    pub changed_component_candidates: Vec<ComponentChangeCandidate>,
    pub removed_component_candidates: Vec<ComponentRemovalCandidate>,
}

/// An [`EntityCandidate`] as a mathematical value.
pub struct EntityCandidateView {
    pub entity: Entity,
    pub replication_marker: PayloadLocation,
    pub changed: Seq<ComponentChangeCandidate>,
    pub removed: Seq<ComponentRemovalCandidate>,
}

impl View for EntityCandidate {
    type V = EntityCandidateView;

    open spec fn view(&self) -> EntityCandidateView {
        EntityCandidateView {
            entity: self.entity,
            replication_marker: self.replication_marker,
            changed: self.changed_component_candidates@,
            removed: self.removed_component_candidates@,
        }
    }
}

/// The candidates of a list, each as a mathematical value.
pub open spec fn candidate_views(candidates: Seq<EntityCandidate>) -> Seq<EntityCandidateView> {
    candidates.map_values(|candidate: EntityCandidate| candidate@)
}

/// What the scan makes of one component of one entity.
#[derive(Clone, Copy, Debug, PartialEq, Eq, Structural)]
pub enum ComponentOutcome {
    /// The component is replicated, not ignored, and changed since the
    /// bounding tick.
    Changed(ComponentChangeCandidate),
    /// The component is not replicated, is ignored on this entity, or did not
    /// change since the bounding tick.
    Skipped,
    /// The storage does not hold the component where the archetype says it
    /// is.
    Missing,
}

/// The removals as removal candidates.
pub open spec fn removal_candidates(removals: Seq<Removal>) -> Seq<ComponentRemovalCandidate> {
    removals.map_values(
        |removal: Removal|
            ComponentRemovalCandidate { replication_id: removal.replication_id, tick: removal.tick },
    )
}

/// Whether the scan visits an archetype: it is a real archetype and its
/// entities carry the replication marker.
pub open spec fn is_replicated_archetype(archetype: &Archetype, rules: &ReplicationRules) -> bool {
    &&& archetype.id != EMPTY_ARCHETYPE
    &&& archetype.id != INVALID_ARCHETYPE
    &&& archetype.component_ids().contains(rules.marker_id)
}

/// Whether the scan reads a component of an archetype: its type is replicated
/// and the archetype does not carry the marker that ignores it.
pub open spec fn is_replicated_component(
    rules: &ReplicationRules,
    archetype: &Archetype,
    component: ArchetypeComponent,
) -> bool {
    match rules.rule(component.component_id) {
        Some((_, info)) => !archetype.component_ids().contains(info.ignored_id),
        None => false,
    }
}

/// What the scan makes of one component of one entity of an archetype.
pub open spec fn component_outcome(
    world: &WorldView,
    rules: &ReplicationRules,
    archetype: &Archetype,
    entity: ArchetypeEntity,
    component: ArchetypeComponent,
    this_run: Tick,
    bound: Tick,
) -> ComponentOutcome {
    match rules.rule(component.component_id) {
        Some((replication_id, info)) => if archetype.component_ids().contains(info.ignored_id) {
            ComponentOutcome::Skipped
        } else {
            match world.component_location(archetype.table_id, entity, component) {
                Some((payload, component_ticks)) => if newer_than_at(
                    component_ticks.changed@,
                    bound@,
                    this_run@,
                ) {
                    ComponentOutcome::Changed(
                        ComponentChangeCandidate {
                            component_id: component.component_id,
                            replication_id,
                            payload,
                            component_ticks,
                        },
                    )
                } else {
                    ComponentOutcome::Skipped
                },
                None => ComponentOutcome::Missing,
            }
        },
        None => ComponentOutcome::Skipped,
    }
}

/// The change candidates among the first `n` components of an entity, in the
/// order of the archetype's components.
pub open spec fn changed_components(
    world: &WorldView,
    rules: &ReplicationRules,
    archetype: &Archetype,
    entity: ArchetypeEntity,
    n: int,
    this_run: Tick,
    bound: Tick,
) -> Seq<ComponentChangeCandidate>
    decreases n,
{
    if n <= 0 {
        Seq::empty()
    } else {
        let earlier = changed_components(world, rules, archetype, entity, n - 1, this_run, bound);
        match component_outcome(
            world,
            rules,
            archetype,
            entity,
            archetype.components@[n - 1],
            this_run,
            bound,
        ) {
            ComponentOutcome::Changed(candidate) => earlier.push(candidate),
            _ => earlier,
        }
    }
}

/// Where the replication marker of an entity lies: its row in the marker's
/// column.
pub open spec fn marker_location(
    world: &WorldView,
    rules: &ReplicationRules,
    archetype: &Archetype,
    entity: ArchetypeEntity,
) -> Option<PayloadLocation> {
    match world.table_location(archetype.table_id, entity.table_row, rules.marker_id) {
        Some((location, _)) => Some(location),
        None => None,
    }
}

/// The removals recorded for an entity: those that the table holds for its
/// row, or none where the archetype has no removal tracker yet. `None` where
/// the archetype has one and the table holds nothing for the entity's row.
pub open spec fn recorded_removals(
    world: &WorldView,
    archetype: &Archetype,
    entity: ArchetypeEntity,
) -> Option<Seq<Removal>> {
    if archetype.component_ids().contains(world.removal_tracker_id) {
        if archetype.table_id < world.tables@.len() && entity.table_row
            < world.tables@[archetype.table_id as int].removals@.len() {
            Some(world.tables@[archetype.table_id as int].removals@[entity.table_row as int]@)
        } else {
            None
        }
    } else {
        Some(Seq::empty())
    }
}

/// The storage holds everything that the scan reads for an entity.
pub open spec fn entity_consistent(
    world: &WorldView,
    rules: &ReplicationRules,
    archetype: &Archetype,
    entity: ArchetypeEntity,
) -> bool {
    &&& marker_location(world, rules, archetype, entity) is Some
    &&& recorded_removals(world, archetype, entity) is Some
    &&& forall|j: int|
        0 <= j < archetype.components@.len() && is_replicated_component(
            rules,
            archetype,
            #[trigger] archetype.components@[j],
        ) ==> world.component_location(archetype.table_id, entity, archetype.components@[j])
            is Some
}

/// The storage holds everything that the scan reads for an archetype.
pub open spec fn archetype_consistent(
    world: &WorldView,
    rules: &ReplicationRules,
    archetype: &Archetype,
) -> bool {
    is_replicated_archetype(archetype, rules) ==> {
        &&& archetype.table_id < world.tables@.len()
        &&& forall|k: int|
            0 <= k < archetype.entities@.len() ==> entity_consistent(
                world,
                rules,
                archetype,
                #[trigger] archetype.entities@[k],
            )
    }
}

/// The storage holds everything that the scan reads: the table of every
/// replicated archetype, in it the marker of every entity and its removal
/// tracker where the archetype has one, and the ticks of every replicated
/// component that is not ignored.
pub open spec fn storage_consistent(world: &WorldView, rules: &ReplicationRules) -> bool {
    forall|a: int|
        0 <= a < world.archetypes@.len() ==> archetype_consistent(
            world,
            rules,
            #[trigger] &world.archetypes@[a],
        )
}

/// What the scan yields for one entity.
pub open spec fn entity_candidate(
    world: &WorldView,
    rules: &ReplicationRules,
    archetype: &Archetype,
    entity: ArchetypeEntity,
    this_run: Tick,
    bound: Tick,
) -> EntityCandidateView {
    let removals = recorded_removals(world, archetype, entity)->0;
    EntityCandidateView {
        entity: entity.entity,
        replication_marker: marker_location(world, rules, archetype, entity)->0,
        changed: changed_components(
            world,
            rules,
            archetype,
            entity,
            archetype.components@.len() as int,
            this_run,
            bound,
        ),
        removed: removal_candidates(
            fresh_removals(removals, removals.len() as int, bound, this_run),
        ),
    }
}

/// What the scan yields for the first `n` entities of an archetype.
pub open spec fn archetype_candidates(
    world: &WorldView,
    rules: &ReplicationRules,
    archetype: &Archetype,
    n: int,
    this_run: Tick,
    bound: Tick,
) -> Seq<EntityCandidateView> {
    Seq::new(
        n as nat,
        |k: int| entity_candidate(world, rules, archetype, archetype.entities@[k], this_run, bound),
    )
}

/// What the scan yields for the first `n` archetypes: one candidate for each
/// entity of each replicated archetype, in storage order.
pub open spec fn scanned_candidates(
    world: &WorldView,
    rules: &ReplicationRules,
    n: int,
    this_run: Tick,
    bound: Tick,
) -> Seq<EntityCandidateView>
    decreases n,
{
    if n <= 0 {
        Seq::empty()
    } else {
        let earlier = scanned_candidates(world, rules, n - 1, this_run, bound);
        let archetype = &world.archetypes@[n - 1];
        if is_replicated_archetype(archetype, rules) {
            earlier + archetype_candidates(
                world,
                rules,
                archetype,
                archetype.entities@.len() as int,
                this_run,
                bound,
            )
        } else {
            earlier
        }
    }
}

/// What the scan yields for the whole storage.
pub open spec fn replication_candidates(
    world: &WorldView,
    rules: &ReplicationRules,
    this_run: Tick,
    bound: Tick,
) -> Seq<EntityCandidateView> {
    scanned_candidates(world, rules, world.archetypes@.len() as int, this_run, bound)
}

/// The removals of a list that are newer than the bounding tick, as
/// candidates, in the order of the list.
pub fn collect_removals(removals: &Vec<Removal>, this_run: Tick, oldest_client_tick: Tick) -> (candidates:
    Vec<ComponentRemovalCandidate>)
    ensures
        candidates@ == removal_candidates(
            fresh_removals(removals@, removals@.len() as int, oldest_client_tick, this_run),
        ),
{
    let mut candidates: Vec<ComponentRemovalCandidate> = Vec::new();
    let mut i: usize = 0;
    while i < removals.len()
        invariant
            i <= removals@.len(),
            candidates@ == removal_candidates(
                fresh_removals(removals@, i as int, oldest_client_tick, this_run),
            ),
        decreases removals@.len() - i,
    {
        let removal = removals[i];
        if removal.tick.is_newer_than(oldest_client_tick, this_run) {
            candidates.push(
                ComponentRemovalCandidate {
                    replication_id: removal.replication_id,
                    tick: removal.tick,
                },
            );
        }
        i += 1;
    }
    candidates
}

/// Decides whether one component of one entity is a change candidate.
pub fn filter_component_candidate(
    world: &WorldView,
    rules: &ReplicationRules,
    archetype: &Archetype,
    entity: ArchetypeEntity,
    component: ArchetypeComponent,
    this_run: Tick,
    oldest_client_tick: Tick,
) -> (outcome: ComponentOutcome)
    ensures
        outcome == component_outcome(
            world,
            rules,
            archetype,
            entity,
            component,
            this_run,
            oldest_client_tick,
        ),
{
    let (replication_id, info) = match rules.get(component.component_id) {
        Some(rule) => rule,
        None => {
            return ComponentOutcome::Skipped;
        },
    };
    if archetype.contains(info.ignored_id) {
        return ComponentOutcome::Skipped;
    }
    match world.locate(archetype.table_id, entity, component) {
        Some((payload, component_ticks)) => {
            if !component_ticks.is_changed(oldest_client_tick, this_run) {
                return ComponentOutcome::Skipped;
            }
            ComponentOutcome::Changed(
                ComponentChangeCandidate {
                    component_id: component.component_id,
                    replication_id,
                    payload,
                    component_ticks,
                },
            )
        },
        None => ComponentOutcome::Missing,
    }
}

/// Scans one entity of a replicated archetype. `None` where the storage does
/// not hold what the archetype says the entity has.
pub fn collect_entity(
    world: &WorldView,
    rules: &ReplicationRules,
    archetype: &Archetype,
    entity: ArchetypeEntity,
    this_run: Tick,
    oldest_client_tick: Tick,
) -> (candidate: Option<EntityCandidate>)
    ensures
        candidate is Some <==> entity_consistent(world, rules, archetype, entity),
        candidate matches Some(found) ==> found@ == entity_candidate(
            world,
            rules,
            archetype,
            entity,
            this_run,
            oldest_client_tick,
        ),
{
    let replication_marker = match world.locate_in_table(
        archetype.table_id,
        entity.table_row,
        rules.get_marker_id(),
    ) {
        Some((location, _)) => location,
        None => {
            return None;
        },
    };
    let removed_component_candidates = if archetype.contains(world.removal_tracker_id) {
        if archetype.table_id >= world.tables.len() {
            return None;
        }
        let table = &world.tables[archetype.table_id];
        if entity.table_row >= table.removals.len() {
            return None;
        }
        collect_removals(&table.removals[entity.table_row], this_run, oldest_client_tick)
    } else {
        Vec::new()
    };
    let mut changed_component_candidates: Vec<ComponentChangeCandidate> = Vec::new();
    let mut j: usize = 0;
    while j < archetype.components.len()
        invariant
            j <= archetype.components@.len(),
            changed_component_candidates@ == changed_components(
                world,
                rules,
                archetype,
                entity,
                j as int,
                this_run,
                oldest_client_tick,
            ),
            forall|i: int|
                0 <= i < j && is_replicated_component(
                    rules,
                    archetype,
                    #[trigger] archetype.components@[i],
                ) ==> world.component_location(
                    archetype.table_id,
                    entity,
                    archetype.components@[i],
                ) is Some,
        decreases archetype.components@.len() - j,
    {
        match filter_component_candidate(
            world,
            rules,
            archetype,
            entity,
            archetype.components[j],
            this_run,
            oldest_client_tick,
        ) {
            ComponentOutcome::Changed(candidate) => {
                changed_component_candidates.push(candidate);
            },
            ComponentOutcome::Skipped => {},
            ComponentOutcome::Missing => {
                return None;
            },
        }
        j += 1;
    }
    let found = EntityCandidate {
        entity: entity.entity,
        replication_marker,
        changed_component_candidates,
        removed_component_candidates,
    };
    proof {
        let expected = entity_candidate(
            world,
            rules,
            archetype,
            entity,
            this_run,
            oldest_client_tick,
        );
        assert(found@.removed =~= expected.removed);
        assert(found@.changed =~= expected.changed);
    }
    Some(found)
}

/// Scans the storage, or reports that it cannot be scanned: the result is
/// `None` exactly when the storage is not consistent, in the sense of
/// [`storage_consistent`]. Otherwise it is what [`collect_candidates`]
/// returns.
pub fn try_collect_candidates(
    world: &WorldView,
    rules: &ReplicationRules,
    this_run: Tick,
    oldest_client_tick: Tick,
) -> (candidates: Option<Vec<EntityCandidate>>)
    ensures
        candidates is Some <==> storage_consistent(world, rules),
        candidates matches Some(found) ==> candidate_views(found@) == replication_candidates(
            world,
            rules,
            this_run,
            oldest_client_tick,
        ),
{
    let mut change_candidates: Vec<EntityCandidate> = Vec::new();
    let mut a: usize = 0;
    while a < world.archetypes.len()
        invariant
            a <= world.archetypes@.len(),
            candidate_views(change_candidates@) == scanned_candidates(
                world,
                rules,
                a as int,
                this_run,
                oldest_client_tick,
            ),
            forall|i: int|
                0 <= i < a ==> archetype_consistent(world, rules, #[trigger] &world.archetypes@[i]),
        decreases world.archetypes@.len() - a,
    {
        let archetype = &world.archetypes[a];
        if archetype.id != EMPTY_ARCHETYPE && archetype.id != INVALID_ARCHETYPE
            && archetype.contains(rules.get_marker_id()) {
            if archetype.table_id >= world.tables.len() {
                proof {
                    assert(!archetype_consistent(world, rules, &world.archetypes@[a as int]));
                }
                return None;
            }
            let ghost earlier = candidate_views(change_candidates@);
            let mut k: usize = 0;
            while k < archetype.entities.len()
                invariant
                    k <= archetype.entities@.len(),
                    a < world.archetypes@.len(),
                    archetype == &world.archetypes@[a as int],
                    is_replicated_archetype(archetype, rules),
                    candidate_views(change_candidates@) == earlier + archetype_candidates(
                        world,
                        rules,
                        archetype,
                        k as int,
                        this_run,
                        oldest_client_tick,
                    ),
                    forall|i: int|
                        0 <= i < k ==> entity_consistent(
                            world,
                            rules,
                            archetype,
                            #[trigger] archetype.entities@[i],
                        ),
                decreases archetype.entities@.len() - k,
            {
                match collect_entity(
                    world,
                    rules,
                    archetype,
                    archetype.entities[k],
                    this_run,
                    oldest_client_tick,
                ) {
                    Some(candidate) => {
                        let ghost before = change_candidates@;
                        change_candidates.push(candidate);
                        proof {
                            assert(candidate_views(change_candidates@) =~= candidate_views(
                                before,
                            ).push(candidate@));
                            assert(earlier + archetype_candidates(
                                world,
                                rules,
                                archetype,
                                k + 1,
                                this_run,
                                oldest_client_tick,
                            ) =~= (earlier + archetype_candidates(
                                world,
                                rules,
                                archetype,
                                k as int,
                                this_run,
                                oldest_client_tick,
                            )).push(candidate@));
                        }
                    },
                    None => {
                        proof {
                            assert(!entity_consistent(
                                world,
                                rules,
                                archetype,
                                archetype.entities@[k as int],
                            ));
                            assert(!archetype_consistent(world, rules, &world.archetypes@[a as int]));
                        }
                        return None;
                    },
                }
                k += 1;
            }
        }
        a += 1;
    }
    Some(change_candidates)
}

/// Scans the storage for what changed since the oldest tick that any client
/// has acknowledged. Yields one candidate for each entity of each replicated
/// archetype, in storage order, with the replicated components that are not
/// ignored and changed since `oldest_client_tick`, and the removals recorded
/// since then.
pub fn collect_candidates(
    world: &WorldView,
    rules: &ReplicationRules,
    this_run: Tick,
    oldest_client_tick: Tick,
) -> (candidates: Vec<EntityCandidate>)
    requires
        storage_consistent(world, rules),
    ensures
        candidate_views(candidates@) == replication_candidates(
            world,
            rules,
            this_run,
            oldest_client_tick,
        ),
{
    match try_collect_candidates(world, rules, this_run, oldest_client_tick) {
        Some(candidates) => candidates,
        None => Vec::new(),
    }
}

} // verus!

verus! {

/// Slot `j` of entity `k` of archetype `a` holds a component that the scan
/// has to yield for `entity` as `candidate`: the archetype is replicated, the
/// component is replicated and not ignored, the storage holds it, and its
/// last change is newer than the bounding tick.
pub open spec fn is_changed_slot(
    world: &WorldView,
    rules: &ReplicationRules,
    a: int,
    k: int,
    j: int,
    this_run: Tick,
    bound: Tick,
    entity: Entity,
    candidate: ComponentChangeCandidate,
) -> bool {
    &&& 0 <= a < world.archetypes@.len()
    &&& is_replicated_archetype(&world.archetypes@[a], rules)
    &&& 0 <= k < world.archetypes@[a].entities@.len()
    &&& 0 <= j < world.archetypes@[a].components@.len()
    &&& world.archetypes@[a].entities@[k].entity == entity
    &&& component_outcome(
        world,
        rules,
        &world.archetypes@[a],
        world.archetypes@[a].entities@[k],
        world.archetypes@[a].components@[j],
        this_run,
        bound,
    ) == ComponentOutcome::Changed(candidate)
}

/// The entities of the first `n` archetypes that the scan visits, in storage
/// order.
pub open spec fn replicated_entities(world: &WorldView, rules: &ReplicationRules, n: int) -> Seq<
    Entity,
>
    decreases n,
{
    if n <= 0 {
        Seq::empty()
    } else {
        let earlier = replicated_entities(world, rules, n - 1);
        let archetype = &world.archetypes@[n - 1];
        if is_replicated_archetype(archetype, rules) {
            earlier + archetype.entities@.map_values(|entity: ArchetypeEntity| entity.entity)
        } else {
            earlier
        }
    }
}

/// A component is yielded exactly when it is replicated, not ignored on the
/// entity's archetype, present in the storage and changed since the bounding
/// tick; the candidate then carries its identifiers, its location and its
/// ticks.
pub proof fn lemma_component_outcome(
    world: &WorldView,
    rules: &ReplicationRules,
    archetype: &Archetype,
    entity: ArchetypeEntity,
    component: ArchetypeComponent,
    this_run: Tick,
    bound: Tick,
)
    ensures
        ({
            let outcome = component_outcome(
                world,
                rules,
                archetype,
                entity,
                component,
                this_run,
                bound,
            );
            let location = world.component_location(archetype.table_id, entity, component);
            &&& outcome is Changed <==> is_replicated_component(rules, archetype, component) && (
            location matches Some((_, ticks)) && newer_than_at(ticks.changed@, bound@, this_run@))
            &&& outcome is Missing <==> is_replicated_component(rules, archetype, component)
                && location is None
            &&& outcome matches ComponentOutcome::Changed(candidate) ==> {
                &&& candidate.component_id == component.component_id
                &&& rules.rule(component.component_id) matches Some((id, _))
                    && candidate.replication_id == id
                &&& location == Some((candidate.payload, candidate.component_ticks))
            }
        }),
{
}

/// Every change candidate among the first `n` components stems from one of
/// them.
proof fn lemma_changed_components_sound(
    world: &WorldView,
    rules: &ReplicationRules,
    archetype: &Archetype,
    entity: ArchetypeEntity,
    n: int,
    this_run: Tick,
    bound: Tick,
    p: int,
) -> (j: int)
    requires
        0 <= n <= archetype.components@.len(),
        0 <= p < changed_components(world, rules, archetype, entity, n, this_run, bound).len(),
    ensures
        0 <= j < n,
        component_outcome(
            world,
            rules,
            archetype,
            entity,
            archetype.components@[j],
            this_run,
            bound,
        ) == ComponentOutcome::Changed(
            changed_components(world, rules, archetype, entity, n, this_run, bound)[p],
        ),
    decreases n,
{
    let earlier = changed_components(world, rules, archetype, entity, n - 1, this_run, bound);
    if p < earlier.len() {
        lemma_changed_components_sound(world, rules, archetype, entity, n - 1, this_run, bound, p)
    } else {
        n - 1
    }
}

/// Every component among the first `n` that has to be yielded is among the
/// change candidates.
proof fn lemma_changed_components_complete(
    world: &WorldView,
    rules: &ReplicationRules,
    archetype: &Archetype,
    entity: ArchetypeEntity,
    n: int,
    this_run: Tick,
    bound: Tick,
    j: int,
) -> (p: int)
    requires
        0 <= j < n <= archetype.components@.len(),
        component_outcome(
            world,
            rules,
            archetype,
            entity,
            archetype.components@[j],
            this_run,
            bound,
        ) is Changed,
    ensures
        0 <= p < changed_components(world, rules, archetype, entity, n, this_run, bound).len(),
        component_outcome(
            world,
            rules,
            archetype,
            entity,
            archetype.components@[j],
            this_run,
            bound,
        ) == ComponentOutcome::Changed(
            changed_components(world, rules, archetype, entity, n, this_run, bound)[p],
        ),
    decreases n,
{
    let earlier = changed_components(world, rules, archetype, entity, n - 1, this_run, bound);
    if j == n - 1 {
        earlier.len() as int
    } else {
        lemma_changed_components_complete(
            world,
            rules,
            archetype,
            entity,
            n - 1,
            this_run,
            bound,
            j,
        )
    }
}

/// Where the component types of an archetype are distinct, so are those of
/// the change candidates of an entity.
proof fn lemma_changed_components_distinct(
    world: &WorldView,
    rules: &ReplicationRules,
    archetype: &Archetype,
    entity: ArchetypeEntity,
    n: int,
    this_run: Tick,
    bound: Tick,
)
    requires
        0 <= n <= archetype.components@.len(),
        archetype.component_ids().no_duplicates(),
    ensures
        forall|p: int, q: int|
            #![trigger
                changed_components(world, rules, archetype, entity, n, this_run, bound)[p],
                changed_components(world, rules, archetype, entity, n, this_run, bound)[q]
            ]
            0 <= p < q < changed_components(
                world,
                rules,
                archetype,
                entity,
                n,
                this_run,
                bound,
            ).len() ==> changed_components(
                world,
                rules,
                archetype,
                entity,
                n,
                this_run,
                bound,
            )[p].component_id != changed_components(
                world,
                rules,
                archetype,
                entity,
                n,
                this_run,
                bound,
            )[q].component_id,
    decreases n,
{
    if n > 0 {
        lemma_changed_components_distinct(world, rules, archetype, entity, n - 1, this_run, bound);
        let earlier = changed_components(world, rules, archetype, entity, n - 1, this_run, bound);
        let all = changed_components(world, rules, archetype, entity, n, this_run, bound);
        assert forall|p: int, q: int| 0 <= p < q < all.len() implies all[p].component_id
            != all[q].component_id by {
            if q == earlier.len() {
                let j = lemma_changed_components_sound(
                    world,
                    rules,
                    archetype,
                    entity,
                    n - 1,
                    this_run,
                    bound,
                    p,
                );
                assert(archetype.component_ids()[j] == all[p].component_id);
                assert(archetype.component_ids()[n - 1] == all[q].component_id);
            } else {
                assert(all[p] == earlier[p]);
                assert(all[q] == earlier[q]);
            }
        }
    }
}

/// Every candidate of the first `n` archetypes is the candidate of one entity
/// of a replicated archetype among them.
proof fn lemma_scanned_candidates_sound(
    world: &WorldView,
    rules: &ReplicationRules,
    n: int,
    this_run: Tick,
    bound: Tick,
    i: int,
) -> (source: (int, int))
    requires
        0 <= n <= world.archetypes@.len(),
        0 <= i < scanned_candidates(world, rules, n, this_run, bound).len(),
    ensures
        0 <= source.0 < n,
        is_replicated_archetype(&world.archetypes@[source.0], rules),
        0 <= source.1 < world.archetypes@[source.0].entities@.len(),
        i == scanned_candidates(world, rules, source.0, this_run, bound).len() + source.1,
        scanned_candidates(world, rules, n, this_run, bound)[i] == entity_candidate(
            world,
            rules,
            &world.archetypes@[source.0],
            world.archetypes@[source.0].entities@[source.1],
            this_run,
            bound,
        ),
    decreases n,
{
    let earlier = scanned_candidates(world, rules, n - 1, this_run, bound);
    if i < earlier.len() {
        lemma_scanned_candidates_sound(world, rules, n - 1, this_run, bound, i)
    } else {
        (n - 1, i - earlier.len())
    }
}

/// Every entity of a replicated archetype among the first `n` has its
/// candidate among those of the scan.
proof fn lemma_scanned_candidates_complete(
    world: &WorldView,
    rules: &ReplicationRules,
    n: int,
    this_run: Tick,
    bound: Tick,
    a: int,
    k: int,
) -> (i: int)
    requires
        0 <= a < n <= world.archetypes@.len(),
        is_replicated_archetype(&world.archetypes@[a], rules),
        0 <= k < world.archetypes@[a].entities@.len(),
    ensures
        0 <= i < scanned_candidates(world, rules, n, this_run, bound).len(),
        scanned_candidates(world, rules, n, this_run, bound)[i] == entity_candidate(
            world,
            rules,
            &world.archetypes@[a],
            world.archetypes@[a].entities@[k],
            this_run,
            bound,
        ),
    decreases n,
{
    let earlier = scanned_candidates(world, rules, n - 1, this_run, bound);
    if a == n - 1 {
        earlier.len() + k
    } else {
        lemma_scanned_candidates_complete(world, rules, n - 1, this_run, bound, a, k)
    }
}

/// No false positives: whatever the scan yields as a change candidate is a
/// replicated component of that entity that is not ignored and whose last
/// change is newer than the bounding tick. A component that did not change
/// since the bounding tick is therefore never yielded.
pub proof fn lemma_no_false_positives(
    world: &WorldView,
    rules: &ReplicationRules,
    this_run: Tick,
    bound: Tick,
    i: int,
    p: int,
)
    requires
        0 <= i < replication_candidates(world, rules, this_run, bound).len(),
        0 <= p < replication_candidates(world, rules, this_run, bound)[i].changed.len(),
    ensures
        ({
            let found = replication_candidates(world, rules, this_run, bound)[i];
            &&& newer_than_at(found.changed[p].component_ticks.changed@, bound@, this_run@)
            &&& exists|a: int, k: int, j: int|
                is_changed_slot(
                    world,
                    rules,
                    a,
                    k,
                    j,
                    this_run,
                    bound,
                    found.entity,
                    found.changed[p],
                )
        }),
{
    let n = world.archetypes@.len() as int;
    let found = replication_candidates(world, rules, this_run, bound)[i];
    let (a, k) = lemma_scanned_candidates_sound(world, rules, n, this_run, bound, i);
    let archetype = &world.archetypes@[a];
    let entity = archetype.entities@[k];
    let j = lemma_changed_components_sound(
        world,
        rules,
        archetype,
        entity,
        archetype.components@.len() as int,
        this_run,
        bound,
        p,
    );
    assert(is_changed_slot(world, rules, a, k, j, this_run, bound, found.entity, found.changed[p]));
}

/// No false negatives: a replicated component that is not ignored and whose
/// last change is newer than the bounding tick is yielded, in the candidate
/// of its entity.
pub proof fn lemma_no_false_negatives(
    world: &WorldView,
    rules: &ReplicationRules,
    this_run: Tick,
    bound: Tick,
    a: int,
    k: int,
    j: int,
    entity: Entity,
    candidate: ComponentChangeCandidate,
)
    requires
        is_changed_slot(world, rules, a, k, j, this_run, bound, entity, candidate),
    ensures
        exists|i: int, p: int|
            0 <= i < replication_candidates(world, rules, this_run, bound).len() && 0 <= p
                < replication_candidates(world, rules, this_run, bound)[i].changed.len()
                && replication_candidates(world, rules, this_run, bound)[i].entity == entity
                && #[trigger] replication_candidates(world, rules, this_run, bound)[i].changed[p]
                == candidate,
{
    let n = world.archetypes@.len() as int;
    let archetype = &world.archetypes@[a];
    let i = lemma_scanned_candidates_complete(world, rules, n, this_run, bound, a, k);
    let p = lemma_changed_components_complete(
        world,
        rules,
        archetype,
        archetype.entities@[k],
        archetype.components@.len() as int,
        this_run,
        bound,
        j,
    );
    assert(replication_candidates(world, rules, this_run, bound)[i].changed[p] == candidate);
}

/// No duplicates among entities: the scan yields one candidate for each entity
/// of each replicated archetype, in storage order, and nothing else.
pub proof fn lemma_one_candidate_per_entity(
    world: &WorldView,
    rules: &ReplicationRules,
    n: int,
    this_run: Tick,
    bound: Tick,
)
    requires
        0 <= n <= world.archetypes@.len(),
    ensures
        scanned_candidates(world, rules, n, this_run, bound).map_values(
            |found: EntityCandidateView| found.entity,
        ) == replicated_entities(world, rules, n),
    decreases n,
{
    if n > 0 {
        lemma_one_candidate_per_entity(world, rules, n - 1, this_run, bound);
        assert(scanned_candidates(world, rules, n, this_run, bound).map_values(
            |found: EntityCandidateView| found.entity,
        ) =~= replicated_entities(world, rules, n));
    } else {
        assert(scanned_candidates(world, rules, n, this_run, bound).map_values(
            |found: EntityCandidateView| found.entity,
        ) =~= replicated_entities(world, rules, n));
    }
}

/// No duplicates among components: where the component types of the
/// archetypes are distinct, no candidate of the scan names a component type
/// twice.
pub proof fn lemma_no_duplicate_changes(
    world: &WorldView,
    rules: &ReplicationRules,
    this_run: Tick,
    bound: Tick,
    i: int,
    p: int,
    q: int,
)
    requires
        forall|a: int|
            0 <= a < world.archetypes@.len() ==> (#[trigger] world.archetypes@[a]).component_ids().no_duplicates(),
        0 <= i < replication_candidates(world, rules, this_run, bound).len(),
        0 <= p < q < replication_candidates(world, rules, this_run, bound)[i].changed.len(),
    ensures
        replication_candidates(world, rules, this_run, bound)[i].changed[p].component_id
            != replication_candidates(world, rules, this_run, bound)[i].changed[q].component_id,
{
    let n = world.archetypes@.len() as int;
    let (a, k) = lemma_scanned_candidates_sound(world, rules, n, this_run, bound, i);
    let archetype = &world.archetypes@[a];
    lemma_changed_components_distinct(
        world,
        rules,
        archetype,
        archetype.entities@[k],
        archetype.components@.len() as int,
        this_run,
        bound,
    );
}

/// Removal candidates are exactly the recorded removals that are newer than
/// the bounding tick: each candidate of an entity is such a removal of its
/// tracker, and each such removal is a candidate.
pub proof fn lemma_removal_candidates_exact(
    world: &WorldView,
    rules: &ReplicationRules,
    archetype: &Archetype,
    entity: ArchetypeEntity,
    this_run: Tick,
    bound: Tick,
)
    requires
        recorded_removals(world, archetype, entity) is Some,
    ensures
        ({
            let recorded = recorded_removals(world, archetype, entity)->0;
            let removed = entity_candidate(world, rules, archetype, entity, this_run, bound).removed;
            &&& forall|p: int|
                0 <= p < removed.len() ==> newer_than_at(
                    (#[trigger] removed[p]).tick@,
                    bound@,
                    this_run@,
                ) && recorded.contains(
                    Removal { replication_id: removed[p].replication_id, tick: removed[p].tick },
                )
            &&& forall|q: int|
                0 <= q < recorded.len() && newer_than_at(
                    (#[trigger] recorded[q]).tick@,
                    bound@,
                    this_run@,
                ) ==> removed.contains(
                    ComponentRemovalCandidate {
                        replication_id: recorded[q].replication_id,
                        tick: recorded[q].tick,
                    },
                )
        }),
{
    let recorded = recorded_removals(world, archetype, entity)->0;
    let fresh = fresh_removals(recorded, recorded.len() as int, bound, this_run);
    let removed = entity_candidate(world, rules, archetype, entity, this_run, bound).removed;
    crate::server::removal_tracker::lemma_fresh_removals_sound(
        recorded,
        recorded.len() as int,
        bound,
        this_run,
    );
    assert forall|p: int| 0 <= p < removed.len() implies newer_than_at(
        (#[trigger] removed[p]).tick@,
        bound@,
        this_run@,
    ) && recorded.contains(
        Removal { replication_id: removed[p].replication_id, tick: removed[p].tick },
    ) by {
        let q = choose|q: int| 0 <= q < recorded.len() && recorded[q] == fresh[p];
        assert(recorded[q] == Removal {
            replication_id: removed[p].replication_id,
            tick: removed[p].tick,
        });
    }
    assert forall|q: int|
        0 <= q < recorded.len() && newer_than_at(
            (#[trigger] recorded[q]).tick@,
            bound@,
            this_run@,
        ) implies removed.contains(
        ComponentRemovalCandidate {
            replication_id: recorded[q].replication_id,
            tick: recorded[q].tick,
        },
    ) by {
        crate::server::removal_tracker::lemma_fresh_removals_complete(
            recorded,
            recorded.len() as int,
            bound,
            this_run,
            q,
        );
        let p = choose|p: int| 0 <= p < fresh.len() && fresh[p] == recorded[q];
        assert(removed[p] == ComponentRemovalCandidate {
            replication_id: recorded[q].replication_id,
            tick: recorded[q].tick,
        });
    }
}

/// In a well-formed storage, no two candidates of the scan are for the same
/// entity.
proof fn lemma_candidate_entities_differ(
    world: &WorldView,
    rules: &ReplicationRules,
    this_run: Tick,
    bound: Tick,
    i: int,
    j: int,
)
    requires
        world.wf(),
        0 <= i < j < replication_candidates(world, rules, this_run, bound).len(),
    ensures
        replication_candidates(world, rules, this_run, bound)[i].entity
            != replication_candidates(world, rules, this_run, bound)[j].entity,
{
    let n = world.archetypes@.len() as int;
    let (a, k) = lemma_scanned_candidates_sound(world, rules, n, this_run, bound, i);
    let (b, l) = lemma_scanned_candidates_sound(world, rules, n, this_run, bound, j);
    assert(a != b || k != l);
    assert(world.archetypes@[a].entities@[k].entity != world.archetypes@[b].entities@[l].entity);
}

/// A change candidate carries the replication identifier under which the
/// rules hold its component type.
proof fn lemma_candidate_names_its_component(
    world: &WorldView,
    rules: &ReplicationRules,
    archetype: &Archetype,
    entity: ArchetypeEntity,
    component: ArchetypeComponent,
    this_run: Tick,
    bound: Tick,
    candidate: ComponentChangeCandidate,
)
    requires
        component_outcome(world, rules, archetype, entity, component, this_run, bound)
            == ComponentOutcome::Changed(candidate),
    ensures
        candidate.replication_id.0 < rules.infos@.len(),
        rules.infos@[candidate.replication_id.0 as int].component_id == candidate.component_id,
{
    crate::lookup::lemma_first_match_contains(rules.component_ids(), component.component_id);
    assert(rules.infos.len() <= usize::MAX);
    let at = first_match(rules.component_ids(), component.component_id)->0;
    assert(rules.component_ids()[at] == component.component_id);
}

/// In a well-formed storage, no candidate of the scan names a replicated
/// component type twice among its changes.
proof fn lemma_changed_replication_ids_differ(
    world: &WorldView,
    rules: &ReplicationRules,
    this_run: Tick,
    bound: Tick,
    i: int,
    p: int,
    q: int,
)
    requires
        world.wf(),
        0 <= i < replication_candidates(world, rules, this_run, bound).len(),
        0 <= p < q < replication_candidates(world, rules, this_run, bound)[i].changed.len(),
    ensures
        replication_candidates(world, rules, this_run, bound)[i].changed[p].replication_id
            != replication_candidates(world, rules, this_run, bound)[i].changed[q].replication_id,
{
    let n = world.archetypes@.len() as int;
    let found = replication_candidates(world, rules, this_run, bound)[i];
    let (a, k) = lemma_scanned_candidates_sound(world, rules, n, this_run, bound, i);
    let archetype = &world.archetypes@[a];
    let entity = archetype.entities@[k];
    let slots = archetype.components@.len() as int;
    lemma_changed_components_distinct(world, rules, archetype, entity, slots, this_run, bound);
    assert(found.changed[p].component_id != found.changed[q].component_id);
    let at_p = lemma_changed_components_sound(
        world,
        rules,
        archetype,
        entity,
        slots,
        this_run,
        bound,
        p,
    );
    let at_q = lemma_changed_components_sound(
        world,
        rules,
        archetype,
        entity,
        slots,
        this_run,
        bound,
        q,
    );
    lemma_candidate_names_its_component(
        world,
        rules,
        archetype,
        entity,
        archetype.components@[at_p],
        this_run,
        bound,
        found.changed[p],
    );
    lemma_candidate_names_its_component(
        world,
        rules,
        archetype,
        entity,
        archetype.components@[at_q],
        this_run,
        bound,
        found.changed[q],
    );
}

/// In a well-formed and consistent storage, no candidate of the scan names a
/// replicated component type twice among its removals.
proof fn lemma_removed_replication_ids_differ(
    world: &WorldView,
    rules: &ReplicationRules,
    this_run: Tick,
    bound: Tick,
    i: int,
    p: int,
    q: int,
)
    requires
        world.wf(),
        storage_consistent(world, rules),
        0 <= i < replication_candidates(world, rules, this_run, bound).len(),
        0 <= p < q < replication_candidates(world, rules, this_run, bound)[i].removed.len(),
    ensures
        replication_candidates(world, rules, this_run, bound)[i].removed[p].replication_id
            != replication_candidates(world, rules, this_run, bound)[i].removed[q].replication_id,
{
    let n = world.archetypes@.len() as int;
    let found = replication_candidates(world, rules, this_run, bound)[i];
    let (a, k) = lemma_scanned_candidates_sound(world, rules, n, this_run, bound, i);
    let archetype = &world.archetypes@[a];
    let entity = archetype.entities@[k];
    assert(archetype_consistent(world, rules, archetype));
    assert(entity_consistent(world, rules, archetype, entity));
    let recorded = recorded_removals(world, archetype, entity)->0;
    if archetype.component_ids().contains(world.removal_tracker_id) {
        let of_row = world.tables@[archetype.table_id as int].removals@[entity.table_row as int];
        assert(distinct_removals(of_row@));
        assert(recorded == of_row@);
    }
    assert(distinct_removals(recorded));
    crate::server::removal_tracker::lemma_fresh_removals_distinct(
        recorded,
        recorded.len() as int,
        bound,
        this_run,
    );
    let fresh = fresh_removals(recorded, recorded.len() as int, bound, this_run);
    assert(found.removed[p].replication_id == fresh[p].replication_id);
    assert(found.removed[q].replication_id == fresh[q].replication_id);
}

/// Exactly once: in a well-formed and consistent storage, the candidates of
/// the scan are for pairwise distinct entities, and within a candidate the
/// replication identifiers of the changes are pairwise distinct, and so are
/// those of the removals. Together with [`lemma_no_false_negatives`], every
/// replicated component of every replicated entity that changed since the
/// bounding tick is yielded once and never twice.
pub proof fn lemma_candidates_are_distinct(
    world: &WorldView,
    rules: &ReplicationRules,
    this_run: Tick,
    bound: Tick,
)
    requires
        world.wf(),
        storage_consistent(world, rules),
    ensures
        ({
            let found = replication_candidates(world, rules, this_run, bound);
            &&& forall|i: int, j: int|
                #![trigger found[i], found[j]]
                0 <= i < j < found.len() ==> found[i].entity != found[j].entity
            &&& forall|i: int, p: int, q: int|
                #![trigger found[i].changed[p], found[i].changed[q]]
                0 <= i < found.len() && 0 <= p < q < found[i].changed.len()
                    ==> found[i].changed[p].replication_id != found[i].changed[q].replication_id
            &&& forall|i: int, p: int, q: int|
                #![trigger found[i].removed[p], found[i].removed[q]]
                0 <= i < found.len() && 0 <= p < q < found[i].removed.len()
                    ==> found[i].removed[p].replication_id != found[i].removed[q].replication_id
        }),
{
    let found = replication_candidates(world, rules, this_run, bound);
    assert forall|i: int, j: int| #![trigger found[i], found[j]] 0 <= i < j < found.len() implies found[i].entity
        != found[j].entity by {
        lemma_candidate_entities_differ(world, rules, this_run, bound, i, j);
    }
    assert forall|i: int, p: int, q: int|
        #![trigger found[i].changed[p], found[i].changed[q]]
        0 <= i < found.len() && 0 <= p < q < found[i].changed.len() implies found[i].changed[p].replication_id
        != found[i].changed[q].replication_id by {
        lemma_changed_replication_ids_differ(world, rules, this_run, bound, i, p, q);
    }
    assert forall|i: int, p: int, q: int|
        #![trigger found[i].removed[p], found[i].removed[q]]
        0 <= i < found.len() && 0 <= p < q < found[i].removed.len() implies found[i].removed[p].replication_id
        != found[i].removed[q].replication_id by {
        lemma_removed_replication_ids_differ(world, rules, this_run, bound, i, p, q);
    }
}

} // verus!
