//! The message builder: cuts the candidates of a scan down to what one client
//! lacks, and puts them together with the serialized component data into the
//! message for that client.
//!
//! Component data is serialized outside of this library, by the serializer
//! registered for each component type. The builder is handed the outcome for
//! each change candidate and decides what enters the message.

use vstd::prelude::*;
use crate::entity::Entity;
use crate::replicon_core::replication_rules::{ReplicationId, ReplicationRules};
use crate::server::change_detection::{
    candidate_views, changed_components, entity_candidate, recorded_removals,
    removal_candidates, replication_candidates, scanned_candidates, ComponentChangeCandidate,
    ComponentRemovalCandidate, EntityCandidate, EntityCandidateView,
};
use crate::server::removal_tracker::{fresh_removals, Removal};
use crate::storage::{Archetype, ArchetypeEntity, WorldView};
use crate::tick::{lemma_newer_than_older_bound, newer_than_at, tick_distance, Tick};

verus! {

/// The first `n` change candidates that changed after `client_tick`, seen
/// from `this_run`, in their order.
pub open spec fn changes_since(
    changed: Seq<ComponentChangeCandidate>,
    n: int,
    client_tick: Tick,
    this_run: Tick,
) -> Seq<ComponentChangeCandidate>
    decreases n,
{
    if n <= 0 {
        Seq::empty()
    } else {
        let earlier = changes_since(changed, n - 1, client_tick, this_run);
        if newer_than_at(changed[n - 1].component_ticks.changed@, client_tick@, this_run@) {
            earlier.push(changed[n - 1])
        } else {
            earlier
        }
    }
}

/// The first `n` removal candidates that were removed after `client_tick`,
/// seen from `this_run`, in their order.
pub open spec fn removals_since(
    removed: Seq<ComponentRemovalCandidate>,
    n: int,
    client_tick: Tick,
    this_run: Tick,
) -> Seq<ComponentRemovalCandidate>
    decreases n,
{
    if n <= 0 {
        Seq::empty()
    } else {
        let earlier = removals_since(removed, n - 1, client_tick, this_run);
        if newer_than_at(removed[n - 1].tick@, client_tick@, this_run@) {
            earlier.push(removed[n - 1])
        } else {
            earlier
        }
    }
}

/// What a client that has acknowledged `client_tick` lacks of a candidate.
pub open spec fn client_candidate(
    candidate: EntityCandidateView,
    client_tick: Tick,
    this_run: Tick,
) -> EntityCandidateView {
    EntityCandidateView {
        entity: candidate.entity,
        replication_marker: candidate.replication_marker,
        changed: changes_since(
            candidate.changed,
            candidate.changed.len() as int,
            client_tick,
            this_run,
        ),
        removed: removals_since(
            candidate.removed,
            candidate.removed.len() as int,
            client_tick,
            this_run,
        ),
    }
}

/// Whether a candidate has anything to tell.
pub open spec fn has_content(candidate: EntityCandidateView) -> bool {
    candidate.changed.len() > 0 || candidate.removed.len() > 0
}

/// What a client that has acknowledged `client_tick` lacks of the first `n`
/// candidates: each candidate cut down to that client, and left out where
/// nothing of it remains.
pub open spec fn client_candidates(
    candidates: Seq<EntityCandidateView>,
    n: int,
    client_tick: Tick,
    this_run: Tick,
) -> Seq<EntityCandidateView>
    decreases n,
{
    if n <= 0 {
        Seq::empty()
    } else {
        let earlier = client_candidates(candidates, n - 1, client_tick, this_run);
        let cut = client_candidate(candidates[n - 1], client_tick, this_run);
        if has_content(cut) {
            earlier.push(cut)
        } else {
            earlier
        }
    }
}

/// Cuts one candidate down to what a client lacks.
pub fn select_entity_for_client(candidate: &EntityCandidate, client_tick: Tick, this_run: Tick) -> (cut:
    EntityCandidate)
    ensures
        cut@ == client_candidate(candidate@, client_tick, this_run),
{
    let mut changed: Vec<ComponentChangeCandidate> = Vec::new();
    let mut i: usize = 0;
    while i < candidate.changed_component_candidates.len()
        invariant
            i <= candidate.changed_component_candidates@.len(),
            changed@ == changes_since(candidate@.changed, i as int, client_tick, this_run),
        decreases candidate.changed_component_candidates@.len() - i,
    {
        let change = candidate.changed_component_candidates[i];
        if change.component_ticks.is_changed(client_tick, this_run) {
            changed.push(change);
        }
        i += 1;
    }
    let mut removed: Vec<ComponentRemovalCandidate> = Vec::new();
    let mut j: usize = 0;
    while j < candidate.removed_component_candidates.len()
        invariant
            j <= candidate.removed_component_candidates@.len(),
            removed@ == removals_since(candidate@.removed, j as int, client_tick, this_run),
        decreases candidate.removed_component_candidates@.len() - j,
    {
        let removal = candidate.removed_component_candidates[j];
        if removal.tick.is_newer_than(client_tick, this_run) {
            removed.push(removal);
        }
        j += 1;
    }
    EntityCandidate {
        entity: candidate.entity,
        replication_marker: candidate.replication_marker,
        changed_component_candidates: changed,
        removed_component_candidates: removed,
    }
}

/// Cuts the candidates of a scan down to what one client lacks: of each
/// candidate the changes and removals that are newer than the tick that the
/// client has acknowledged; a candidate of which nothing remains is left out.
pub fn select_for_client(candidates: &Vec<EntityCandidate>, client_tick: Tick, this_run: Tick) -> (selection:
    Vec<EntityCandidate>)
    ensures
        candidate_views(selection@) == client_candidates(
            candidate_views(candidates@),
            candidates@.len() as int,
            client_tick,
            this_run,
        ),
{
    let mut selection: Vec<EntityCandidate> = Vec::new();
    let mut i: usize = 0;
    while i < candidates.len()
        invariant
            i <= candidates@.len(),
            candidate_views(selection@) == client_candidates(
                candidate_views(candidates@),
                i as int,
                client_tick,
                this_run,
            ),
        decreases candidates@.len() - i,
    {
        let cut = select_entity_for_client(&candidates[i], client_tick, this_run);
        if cut.changed_component_candidates.len() > 0 || cut.removed_component_candidates.len()
            > 0 {
            let ghost before = selection@;
            selection.push(cut);
            proof {
                assert(candidate_views(selection@) =~= candidate_views(before).push(cut@));
            }
        }
        i += 1;
    }
    selection
}

/// The serialized data of a changed component.
#[derive(Clone, Debug)]
pub struct ComponentChange {
    pub replication_id: ReplicationId,
    pub payload: Vec<u8>,
}

/// What a message tells about one entity.
#[derive(Clone, Debug)]
pub struct EntityChanges {
    pub entity: Entity,
    pub changes: Vec<ComponentChange>,
    pub removals: Vec<ComponentRemovalCandidate>,
}

/// The message for one client and one tick.
#[derive(Clone, Debug)]
pub struct ReplicationMessage {
    pub tick: Tick,
    pub entities: Vec<EntityChanges>,
}

/// A changed component that is missing from a message because its data could
/// not be serialized.
#[derive(Clone, Copy, Debug, PartialEq, Eq, Structural)]
pub struct SkippedComponent {
    pub entity: Entity,
    pub replication_id: ReplicationId,
}

/// Why no message could be built.
#[derive(Clone, Copy, Debug, PartialEq, Eq, Structural)]
pub enum MessageError {
    /// The serialization outcomes do not line up with the change candidates:
    /// there is not one list of outcomes for each entity, or the list for the
    /// entity at this position does not hold one outcome for each change.
    OutcomeMismatch { position: usize },
}

/// A [`ComponentChange`] as a mathematical value.
pub struct ComponentChangeView {
    pub replication_id: ReplicationId,
    pub payload: Seq<u8>,
}

/// An [`EntityChanges`] as a mathematical value.
pub struct EntityChangesView {
    pub entity: Entity,
    pub changes: Seq<ComponentChangeView>,
    pub removals: Seq<ComponentRemovalCandidate>,
}

/// A [`ReplicationMessage`] as a mathematical value.
pub struct ReplicationMessageView {
    pub tick: Tick,
    pub entities: Seq<EntityChangesView>,
}

/// The changes of a list, each as a mathematical value.
pub open spec fn change_views(changes: Seq<ComponentChange>) -> Seq<ComponentChangeView> {
    changes.map_values(|change: ComponentChange| change@)
}

/// The entries of a list, each as a mathematical value.
pub open spec fn entity_views(entities: Seq<EntityChanges>) -> Seq<EntityChangesView> {
    entities.map_values(|entity: EntityChanges| entity@)
}

impl View for ComponentChange {
    type V = ComponentChangeView;

    open spec fn view(&self) -> ComponentChangeView {
        ComponentChangeView { replication_id: self.replication_id, payload: self.payload@ }
    }
}

impl View for EntityChanges {
    type V = EntityChangesView;

    open spec fn view(&self) -> EntityChangesView {
        EntityChangesView {
            entity: self.entity,
            changes: change_views(self.changes@),
            removals: self.removals@,
        }
    }
}

impl View for ReplicationMessage {
    type V = ReplicationMessageView;

    open spec fn view(&self) -> ReplicationMessageView {
        ReplicationMessageView {
            tick: self.tick,
            entities: entity_views(self.entities@),
        }
    }
}

/// The serialization outcomes of an entity's changes as mathematical values:
/// the bytes, or `None` where serialization failed.
pub open spec fn outcome_views(outcomes: Seq<Option<Vec<u8>>>) -> Seq<Option<Seq<u8>>> {
    outcomes.map_values(
        |outcome: Option<Vec<u8>>|
            match outcome {
                Some(bytes) => Some(bytes@),
                None => None,
            },
    )
}

/// The changes that enter the message among the first `n` of an entity: those
/// whose data was serialized, each with its data, in order.
pub open spec fn serialized_changes(
    changed: Seq<ComponentChangeCandidate>,
    outcomes: Seq<Option<Seq<u8>>>,
    n: int,
) -> Seq<ComponentChangeView>
    decreases n,
{
    if n <= 0 {
        Seq::empty()
    } else {
        let earlier = serialized_changes(changed, outcomes, n - 1);
        match outcomes[n - 1] {
            Some(payload) => earlier.push(
                ComponentChangeView { replication_id: changed[n - 1].replication_id, payload },
            ),
            None => earlier,
        }
    }
}

/// The changes that are skipped among the first `n` of an entity: those whose
/// data could not be serialized, in order.
pub open spec fn skipped_changes(
    entity: Entity,
    changed: Seq<ComponentChangeCandidate>,
    outcomes: Seq<Option<Seq<u8>>>,
    n: int,
) -> Seq<SkippedComponent>
    decreases n,
{
    if n <= 0 {
        Seq::empty()
    } else {
        let earlier = skipped_changes(entity, changed, outcomes, n - 1);
        match outcomes[n - 1] {
            Some(_) => earlier,
            None => earlier.push(
                SkippedComponent { entity, replication_id: changed[n - 1].replication_id },
            ),
        }
    }
}

/// What the message tells about one entity.
pub open spec fn entity_changes(
    candidate: EntityCandidateView,
    outcomes: Seq<Option<Seq<u8>>>,
) -> EntityChangesView {
    EntityChangesView {
        entity: candidate.entity,
        changes: serialized_changes(candidate.changed, outcomes, candidate.changed.len() as int),
        removals: candidate.removed,
    }
}

/// The serialization outcomes of all entities as mathematical values.
pub open spec fn all_outcome_views(outcomes: Seq<Vec<Option<Vec<u8>>>>) -> Seq<
    Seq<Option<Seq<u8>>>,
> {
    outcomes.map_values(|of_entity: Vec<Option<Vec<u8>>>| outcome_views(of_entity@))
}

/// The first position at which the outcomes do not line up with the
/// candidates, if there is one: the number of candidates where the two lists
/// differ in length at these positions, else the least position whose outcomes
/// are not as many as the changes of its candidate.
pub open spec fn first_mismatch(
    candidates: Seq<EntityCandidateView>,
    outcomes: Seq<Seq<Option<Seq<u8>>>>,
    n: int,
) -> Option<int>
    decreases n,
{
    if n <= 0 {
        None
    } else {
        match first_mismatch(candidates, outcomes, n - 1) {
            Some(position) => Some(position),
            None => if outcomes[n - 1].len() != candidates[n - 1].changed.len() {
                Some(n - 1)
            } else {
                None
            },
        }
    }
}

/// The entries of the message for the first `n` candidates, in order.
pub open spec fn message_entities(
    candidates: Seq<EntityCandidateView>,
    outcomes: Seq<Seq<Option<Seq<u8>>>>,
    n: int,
) -> Seq<EntityChangesView>
    decreases n,
{
    if n <= 0 {
        Seq::empty()
    } else {
        message_entities(candidates, outcomes, n - 1).push(
            entity_changes(candidates[n - 1], outcomes[n - 1]),
        )
    }
}

/// The changes of the first `n` candidates that are skipped, in order.
pub open spec fn message_skipped(
    candidates: Seq<EntityCandidateView>,
    outcomes: Seq<Seq<Option<Seq<u8>>>>,
    n: int,
) -> Seq<SkippedComponent>
    decreases n,
{
    if n <= 0 {
        Seq::empty()
    } else {
        message_skipped(candidates, outcomes, n - 1) + skipped_changes(
            candidates[n - 1].entity,
            candidates[n - 1].changed,
            outcomes[n - 1],
            candidates[n - 1].changed.len() as int,
        )
    }
}

fn copy_bytes(bytes: &Vec<u8>) -> (copy: Vec<u8>)
    ensures
        copy@ == bytes@,
{
    let mut copy: Vec<u8> = Vec::new();
    let mut i: usize = 0;
    while i < bytes.len()
        invariant
            i <= bytes@.len(),
            copy@ == bytes@.take(i as int),
        decreases bytes@.len() - i,
    {
        copy.push(bytes[i]);
        proof {
            assert(bytes@.take(i + 1) =~= bytes@.take(i as int).push(bytes@[i as int]));
        }
        i += 1;
    }
    proof {
        assert(bytes@.take(bytes@.len() as int) =~= bytes@);
    }
    copy
}

/// Builds the entry of one entity. `outcomes` holds, for each change
/// candidate in order, the serialized data of the component, or `None` where
/// its serialization failed. A change without data is left out of the entry
/// and reported; the removals enter as they are.
pub fn build_entity_changes(candidate: &EntityCandidate, outcomes: &Vec<Option<Vec<u8>>>) -> (built: (
    EntityChanges,
    Vec<SkippedComponent>,
))
    requires
        outcomes@.len() == candidate@.changed.len(),
    ensures
        built.0@ == entity_changes(candidate@, outcome_views(outcomes@)),
        built.1@ == skipped_changes(
            candidate.entity,
            candidate@.changed,
            outcome_views(outcomes@),
            candidate@.changed.len() as int,
        ),
{
    let mut changes: Vec<ComponentChange> = Vec::new();
    let mut skipped: Vec<SkippedComponent> = Vec::new();
    let mut i: usize = 0;
    while i < candidate.changed_component_candidates.len()
        invariant
            i <= candidate.changed_component_candidates@.len(),
            outcomes@.len() == candidate@.changed.len(),
            change_views(changes@) == serialized_changes(
                candidate@.changed,
                outcome_views(outcomes@),
                i as int,
            ),
            skipped@ == skipped_changes(
                candidate.entity,
                candidate@.changed,
                outcome_views(outcomes@),
                i as int,
            ),
        decreases candidate.changed_component_candidates@.len() - i,
    {
        let replication_id = candidate.changed_component_candidates[i].replication_id;
        match &outcomes[i] {
            Some(bytes) => {
                let ghost before = changes@;
                let change = ComponentChange { replication_id, payload: copy_bytes(bytes) };
                changes.push(change);
                proof {
                    assert(change_views(changes@) =~= change_views(before).push(change@));
                }
            },
            None => {
                skipped.push(SkippedComponent { entity: candidate.entity, replication_id });
            },
        }
        i += 1;
    }
    let mut removals: Vec<ComponentRemovalCandidate> = Vec::new();
    let mut j: usize = 0;
    while j < candidate.removed_component_candidates.len()
        invariant
            j <= candidate.removed_component_candidates@.len(),
            removals@ == candidate@.removed.take(j as int),
        decreases candidate.removed_component_candidates@.len() - j,
    {
        removals.push(candidate.removed_component_candidates[j]);
        proof {
            assert(candidate@.removed.take(j + 1) =~= candidate@.removed.take(j as int).push(
                candidate@.removed[j as int],
            ));
        }
        j += 1;
    }
    proof {
        assert(candidate@.removed.take(candidate@.removed.len() as int) =~= candidate@.removed);
    }
    (EntityChanges { entity: candidate.entity, changes, removals }, skipped)
}

/// Builds the message for one client from what was selected for it and the
/// serialization outcomes of the selected changes: `outcomes` holds one list
/// for each selected entity, in order, and in it one outcome for each of the
/// entity's change candidates.
///
/// A component whose serialization failed is left out of the message and
/// reported in the second part of the result; everything else is in the
/// message, in the order of the selection. Where the outcomes do not line up
/// with the selection there is no message, and the error names the first
/// position that does not fit.
pub fn build_message(
    tick: Tick,
    selection: &Vec<EntityCandidate>,
    outcomes: &Vec<Vec<Option<Vec<u8>>>>,
) -> (built: Result<(ReplicationMessage, Vec<SkippedComponent>), MessageError>)
    ensures
        match built {
            Ok((message, skipped)) => {
                &&& outcomes@.len() == selection@.len()
                &&& first_mismatch(
                    candidate_views(selection@),
                    all_outcome_views(outcomes@),
                    selection@.len() as int,
                ) is None
                &&& message@.tick == tick
                &&& message@.entities == message_entities(
                    candidate_views(selection@),
                    all_outcome_views(outcomes@),
                    selection@.len() as int,
                )
                &&& skipped@ == message_skipped(
                    candidate_views(selection@),
                    all_outcome_views(outcomes@),
                    selection@.len() as int,
                )
            },
            Err(MessageError::OutcomeMismatch { position }) => if outcomes@.len()
                != selection@.len() {
                position == selection@.len()
            } else {
                first_mismatch(
                    candidate_views(selection@),
                    all_outcome_views(outcomes@),
                    selection@.len() as int,
                ) == Some(position as int)
            },
        },
{
    if outcomes.len() != selection.len() {
        return Err(MessageError::OutcomeMismatch { position: selection.len() });
    }
    let mut entities: Vec<EntityChanges> = Vec::new();
    let mut skipped: Vec<SkippedComponent> = Vec::new();
    let mut i: usize = 0;
    while i < selection.len()
        invariant
            i <= selection@.len(),
            outcomes@.len() == selection@.len(),
            first_mismatch(candidate_views(selection@), all_outcome_views(outcomes@), i as int)
                is None,
            entity_views(entities@) == message_entities(
                candidate_views(selection@),
                all_outcome_views(outcomes@),
                i as int,
            ),
            skipped@ == message_skipped(
                candidate_views(selection@),
                all_outcome_views(outcomes@),
                i as int,
            ),
        decreases selection@.len() - i,
    {
        let candidate = &selection[i];
        let of_entity = &outcomes[i];
        if of_entity.len() != candidate.changed_component_candidates.len() {
            proof {
                assert(first_mismatch(
                    candidate_views(selection@),
                    all_outcome_views(outcomes@),
                    i as int + 1,
                ) == Some(i as int));
                lemma_first_mismatch_stays(
                    candidate_views(selection@),
                    all_outcome_views(outcomes@),
                    i as int + 1,
                    selection@.len() as int,
                );
            }
            return Err(MessageError::OutcomeMismatch { position: i });
        }
        let (entry, mut skipped_here) = build_entity_changes(candidate, of_entity);
        let ghost before = entities@;
        entities.push(entry);
        skipped.append(&mut skipped_here);
        proof {
            assert(entity_views(entities@) =~= entity_views(before).push(entry@));
        }
        i += 1;
    }
    Ok((ReplicationMessage { tick, entities }, skipped))
}

/// A mismatch that was found stays the first one however far the search goes
/// on.
proof fn lemma_first_mismatch_stays(
    candidates: Seq<EntityCandidateView>,
    outcomes: Seq<Seq<Option<Seq<u8>>>>,
    n: int,
    m: int,
)
    requires
        0 <= n <= m,
        first_mismatch(candidates, outcomes, n) is Some,
    ensures
        first_mismatch(candidates, outcomes, m) == first_mismatch(candidates, outcomes, n),
    decreases m - n,
{
    if n < m {
        lemma_first_mismatch_stays(candidates, outcomes, n, m - 1);
    }
}

} // verus!

verus! {

/// The cut of a list of change candidates looks only at the part of the list
/// that it is asked for.
proof fn lemma_changes_since_prefix(
    longer: Seq<ComponentChangeCandidate>,
    shorter: Seq<ComponentChangeCandidate>,
    n: int,
    client_tick: Tick,
    this_run: Tick,
)
    requires
        0 <= n <= shorter.len() <= longer.len(),
        forall|i: int| 0 <= i < n ==> longer[i] == shorter[i],
    ensures
        changes_since(longer, n, client_tick, this_run) == changes_since(
            shorter,
            n,
            client_tick,
            this_run,
        ),
    decreases n,
{
    if n > 0 {
        lemma_changes_since_prefix(longer, shorter, n - 1, client_tick, this_run);
    }
}

/// The cut of a list of removal candidates looks only at the part of the list
/// that it is asked for.
proof fn lemma_removals_since_prefix(
    longer: Seq<ComponentRemovalCandidate>,
    shorter: Seq<ComponentRemovalCandidate>,
    n: int,
    client_tick: Tick,
    this_run: Tick,
)
    requires
        0 <= n <= shorter.len() <= longer.len(),
        forall|i: int| 0 <= i < n ==> longer[i] == shorter[i],
    ensures
        removals_since(longer, n, client_tick, this_run) == removals_since(
            shorter,
            n,
            client_tick,
            this_run,
        ),
    decreases n,
{
    if n > 0 {
        lemma_removals_since_prefix(longer, shorter, n - 1, client_tick, this_run);
    }
}

/// Cutting the changes that a scan bounded by `oldest` found for an entity
/// down to a client gives the changes that a scan bounded by the client's own
/// tick finds.
proof fn lemma_cut_changed_components(
    world: &WorldView,
    rules: &ReplicationRules,
    archetype: &Archetype,
    entity: ArchetypeEntity,
    n: int,
    this_run: Tick,
    oldest: Tick,
    client_tick: Tick,
)
    requires
        0 <= n <= archetype.components@.len(),
        tick_distance(client_tick@, this_run@) <= tick_distance(oldest@, this_run@),
    ensures
        ({
            let coarse = changed_components(world, rules, archetype, entity, n, this_run, oldest);
            changes_since(coarse, coarse.len() as int, client_tick, this_run)
                == changed_components(world, rules, archetype, entity, n, this_run, client_tick)
        }),
    decreases n,
{
    if n > 0 {
        lemma_cut_changed_components(
            world,
            rules,
            archetype,
            entity,
            n - 1,
            this_run,
            oldest,
            client_tick,
        );
        let earlier = changed_components(world, rules, archetype, entity, n - 1, this_run, oldest);
        let coarse = changed_components(world, rules, archetype, entity, n, this_run, oldest);
        let component = archetype.components@[n - 1];
        match world.component_location(archetype.table_id, entity, component) {
            Some((_, ticks)) => {
                if newer_than_at(ticks.changed@, client_tick@, this_run@) {
                    lemma_newer_than_older_bound(
                        ticks.changed@,
                        client_tick@,
                        oldest@,
                        this_run@,
                    );
                }
            },
            None => {},
        }
        if coarse.len() > earlier.len() {
            lemma_changes_since_prefix(
                coarse,
                earlier,
                earlier.len() as int,
                client_tick,
                this_run,
            );
        }
    }
}

/// Cutting the removals that a scan bounded by `oldest` found down to a
/// client gives the removals that a scan bounded by the client's own tick
/// finds.
proof fn lemma_cut_fresh_removals(
    removals: Seq<Removal>,
    n: int,
    this_run: Tick,
    oldest: Tick,
    client_tick: Tick,
)
    requires
        0 <= n <= removals.len(),
        tick_distance(client_tick@, this_run@) <= tick_distance(oldest@, this_run@),
    ensures
        ({
            let coarse = removal_candidates(fresh_removals(removals, n, oldest, this_run));
            removals_since(coarse, coarse.len() as int, client_tick, this_run)
                == removal_candidates(fresh_removals(removals, n, client_tick, this_run))
        }),
    decreases n,
{
    let coarse = removal_candidates(fresh_removals(removals, n, oldest, this_run));
    let exact = removal_candidates(fresh_removals(removals, n, client_tick, this_run));
    if n > 0 {
        lemma_cut_fresh_removals(removals, n - 1, this_run, oldest, client_tick);
        let earlier = removal_candidates(fresh_removals(removals, n - 1, oldest, this_run));
        let earlier_exact = removal_candidates(
            fresh_removals(removals, n - 1, client_tick, this_run),
        );
        let tick = removals[n - 1].tick;
        if newer_than_at(tick@, client_tick@, this_run@) {
            lemma_newer_than_older_bound(tick@, client_tick@, oldest@, this_run@);
        }
        if newer_than_at(tick@, oldest@, this_run@) {
            assert(coarse =~= earlier.push(
                ComponentRemovalCandidate {
                    replication_id: removals[n - 1].replication_id,
                    tick,
                },
            ));
            lemma_removals_since_prefix(
                coarse,
                earlier,
                earlier.len() as int,
                client_tick,
                this_run,
            );
            if newer_than_at(tick@, client_tick@, this_run@) {
                assert(exact =~= earlier_exact.push(
                    ComponentRemovalCandidate {
                        replication_id: removals[n - 1].replication_id,
                        tick,
                    },
                ));
            } else {
                assert(exact =~= earlier_exact);
            }
        } else {
            assert(coarse =~= earlier);
            assert(exact =~= earlier_exact);
        }
    } else {
        assert(removals_since(coarse, coarse.len() as int, client_tick, this_run) =~= exact);
    }
}

/// Cutting what a scan bounded by `oldest` yields for an entity down to a
/// client gives what a scan bounded by the client's own tick yields for it.
proof fn lemma_cut_entity_candidate(
    world: &WorldView,
    rules: &ReplicationRules,
    archetype: &Archetype,
    entity: ArchetypeEntity,
    this_run: Tick,
    oldest: Tick,
    client_tick: Tick,
)
    requires
        tick_distance(client_tick@, this_run@) <= tick_distance(oldest@, this_run@),
    ensures
        client_candidate(
            entity_candidate(world, rules, archetype, entity, this_run, oldest),
            client_tick,
            this_run,
        ) == entity_candidate(world, rules, archetype, entity, this_run, client_tick),
{
    lemma_cut_changed_components(
        world,
        rules,
        archetype,
        entity,
        archetype.components@.len() as int,
        this_run,
        oldest,
        client_tick,
    );
    let removals = recorded_removals(world, archetype, entity)->0;
    lemma_cut_fresh_removals(removals, removals.len() as int, this_run, oldest, client_tick);
}

/// Two scans with different bounds yield equally many candidates.
proof fn lemma_scans_are_equally_long(
    world: &WorldView,
    rules: &ReplicationRules,
    n: int,
    this_run: Tick,
    first: Tick,
    second: Tick,
)
    requires
        0 <= n <= world.archetypes@.len(),
    ensures
        scanned_candidates(world, rules, n, this_run, first).len() == scanned_candidates(
            world,
            rules,
            n,
            this_run,
            second,
        ).len(),
    decreases n,
{
    if n > 0 {
        lemma_scans_are_equally_long(world, rules, n - 1, this_run, first, second);
    }
}

/// Two scans with different bounds yield their candidates for the same
/// entities at the same positions.
proof fn lemma_scans_are_aligned(
    world: &WorldView,
    rules: &ReplicationRules,
    n: int,
    this_run: Tick,
    first: Tick,
    second: Tick,
    i: int,
) -> (source: (int, int))
    requires
        0 <= n <= world.archetypes@.len(),
        0 <= i < scanned_candidates(world, rules, n, this_run, first).len(),
    ensures
        0 <= source.0 < n,
        0 <= source.1 < world.archetypes@[source.0].entities@.len(),
        i < scanned_candidates(world, rules, n, this_run, second).len(),
        scanned_candidates(world, rules, n, this_run, first)[i] == entity_candidate(
            world,
            rules,
            &world.archetypes@[source.0],
            world.archetypes@[source.0].entities@[source.1],
            this_run,
            first,
        ),
        scanned_candidates(world, rules, n, this_run, second)[i] == entity_candidate(
            world,
            rules,
            &world.archetypes@[source.0],
            world.archetypes@[source.0].entities@[source.1],
            this_run,
            second,
        ),
    decreases n,
{
    lemma_scans_are_equally_long(world, rules, n, this_run, first, second);
    lemma_scans_are_equally_long(world, rules, n - 1, this_run, first, second);
    let earlier = scanned_candidates(world, rules, n - 1, this_run, first);
    if i < earlier.len() {
        lemma_scans_are_aligned(world, rules, n - 1, this_run, first, second, i)
    } else {
        (n - 1, i - earlier.len())
    }
}

/// Lists that agree, candidate by candidate, in what a client lacks of them
/// are cut down to the same selection.
proof fn lemma_client_candidates_agree(
    first: Seq<EntityCandidateView>,
    second: Seq<EntityCandidateView>,
    n: int,
    client_tick: Tick,
    this_run: Tick,
)
    requires
        0 <= n <= first.len(),
        n <= second.len(),
        forall|i: int|
            0 <= i < n ==> client_candidate(#[trigger] first[i], client_tick, this_run)
                == client_candidate(second[i], client_tick, this_run),
    ensures
        client_candidates(first, n, client_tick, this_run) == client_candidates(
            second,
            n,
            client_tick,
            this_run,
        ),
    decreases n,
{
    if n > 0 {
        lemma_client_candidates_agree(first, second, n - 1, client_tick, this_run);
        assert(client_candidate(first[n - 1], client_tick, this_run) == client_candidate(
            second[n - 1],
            client_tick,
            this_run,
        ));
    }
}

/// The two phases of filtering lose nothing and let nothing through: the
/// scan is bounded by a tick that lies at least as far behind the current tick
/// as the client's, such as the oldest tick of all clients, and its result is
/// then cut down to the client. What comes out is what a scan bounded by the
/// client's own tick would have yielded for that client.
pub proof fn lemma_coarse_scan_then_cut(
    world: &WorldView,
    rules: &ReplicationRules,
    this_run: Tick,
    oldest: Tick,
    client_tick: Tick,
)
    requires
        tick_distance(client_tick@, this_run@) <= tick_distance(oldest@, this_run@),
    ensures
        ({
            let coarse = replication_candidates(world, rules, this_run, oldest);
            let exact = replication_candidates(world, rules, this_run, client_tick);
            client_candidates(coarse, coarse.len() as int, client_tick, this_run)
                == client_candidates(exact, exact.len() as int, client_tick, this_run)
        }),
{
    let n = world.archetypes@.len() as int;
    let coarse = replication_candidates(world, rules, this_run, oldest);
    let exact = replication_candidates(world, rules, this_run, client_tick);
    lemma_scans_are_equally_long(world, rules, n, this_run, oldest, client_tick);
    assert forall|i: int| 0 <= i < coarse.len() implies client_candidate(
        #[trigger] coarse[i],
        client_tick,
        this_run,
    ) == client_candidate(exact[i], client_tick, this_run) by {
        let (a, k) = lemma_scans_are_aligned(world, rules, n, this_run, oldest, client_tick, i);
        let archetype = &world.archetypes@[a];
        let entity = archetype.entities@[k];
        lemma_cut_entity_candidate(
            world,
            rules,
            archetype,
            entity,
            this_run,
            oldest,
            client_tick,
        );
        lemma_cut_entity_candidate(
            world,
            rules,
            archetype,
            entity,
            this_run,
            client_tick,
            client_tick,
        );
    }
    lemma_client_candidates_agree(coarse, exact, coarse.len() as int, client_tick, this_run);
}

/// What a scan bounded by a client's own tick yields for an entity is all
/// something that the client lacks: the cut leaves it as it is.
pub proof fn lemma_exact_scan_needs_no_cut(
    world: &WorldView,
    rules: &ReplicationRules,
    archetype: &Archetype,
    entity: ArchetypeEntity,
    this_run: Tick,
    client_tick: Tick,
)
    ensures
        client_candidate(
            entity_candidate(world, rules, archetype, entity, this_run, client_tick),
            client_tick,
            this_run,
        ) == entity_candidate(world, rules, archetype, entity, this_run, client_tick),
{
    lemma_cut_entity_candidate(
        world,
        rules,
        archetype,
        entity,
        this_run,
        client_tick,
        client_tick,
    );
}

} // verus!
