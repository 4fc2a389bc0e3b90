use bevy_replicon::entity::Entity;
use bevy_replicon::replicon_core::replication_rules::{
    ComponentId, ReplicationId, ReplicationRules,
};
use bevy_replicon::server::change_detection::{
    collect_candidates, collect_removals, try_collect_candidates, ComponentRemovalCandidate,
    EntityCandidate,
};
use bevy_replicon::server::removal_tracker::{Removal, RemovalTracker};
use bevy_replicon::storage::{
    Archetype, ArchetypeComponent, ArchetypeEntity, Column, ComponentSparseSet, PayloadLocation,
    SparseEntry, StorageType, Table, WorldView, EMPTY_ARCHETYPE, INVALID_ARCHETYPE,
};
use bevy_replicon::tick::{ComponentTicks, Tick};

const MARKER: ComponentId = ComponentId(1);
const TRACKER: ComponentId = ComponentId(2);
const COUNTER: ComponentId = ComponentId(3);
const LABEL: ComponentId = ComponentId(4);
const IGNORE_COUNTER: ComponentId = ComponentId(5);
const IGNORE_LABEL: ComponentId = ComponentId(6);
const LOCAL_ONLY: ComponentId = ComponentId(7);

fn rules() -> ReplicationRules {
    let mut rules = ReplicationRules::new(MARKER);
    assert_eq!(rules.register(COUNTER, IGNORE_COUNTER), ReplicationId(0));
    assert_eq!(rules.register(LABEL, IGNORE_LABEL), ReplicationId(1));
    rules
}

fn ticks(added: u32, changed: u32) -> ComponentTicks {
    ComponentTicks::new(Tick::new(added), Tick::new(changed))
}

fn table_component(id: ComponentId) -> ArchetypeComponent {
    ArchetypeComponent { component_id: id, storage_type: StorageType::Table }
}

fn sparse_component(id: ComponentId) -> ArchetypeComponent {
    ArchetypeComponent { component_id: id, storage_type: StorageType::SparseSet }
}

fn column(id: ComponentId, ticks: Vec<ComponentTicks>) -> Column {
    Column { component_id: id, ticks }
}

/// One archetype with the marker and a counter in a table; one row per
/// given counter ticks.
fn counter_world(counter_ticks: Vec<ComponentTicks>) -> WorldView {
    let rows = counter_ticks.len();
    let entities = (0..rows)
        .map(|row| ArchetypeEntity { entity: Entity::new(row as u32, 0), table_row: row })
        .collect();
    WorldView {
        archetypes: vec![Archetype {
            id: 1,
            table_id: 0,
            components: vec![table_component(MARKER), table_component(COUNTER)],
            entities,
        }],
        tables: vec![Table {
            columns: vec![column(MARKER, vec![ticks(1, 1); rows]), column(COUNTER, counter_ticks)],
            removals: vec![],
        }],
        sparse_sets: vec![],
        removal_tracker_id: TRACKER,
    }
}

fn removed(replication_id: usize, tick: u32) -> Removal {
    Removal { replication_id: ReplicationId(replication_id), tick: Tick::new(tick) }
}

fn changed_ids(candidate: &EntityCandidate) -> Vec<ReplicationId> {
    candidate.changed_component_candidates.iter().map(|change| change.replication_id).collect()
}

#[test]
fn unchanged_component_is_not_a_candidate() {
    // Last change at the bounding tick and before it: never yielded.
    let world = counter_world(vec![ticks(1, 5), ticks(1, 3)]);
    let found = collect_candidates(&world, &rules(), Tick::new(10), Tick::new(5));
    assert_eq!(found.len(), 2);
    assert!(found[0].changed_component_candidates.is_empty());
    assert!(found[1].changed_component_candidates.is_empty());
}

#[test]
fn changed_component_is_a_candidate_exactly_once() {
    let world = counter_world(vec![ticks(1, 6), ticks(1, 5), ticks(2, 10)]);
    let found = collect_candidates(&world, &rules(), Tick::new(10), Tick::new(5));
    assert_eq!(found.len(), 3);
    assert_eq!(found[0].entity, Entity::new(0, 0));
    assert_eq!(changed_ids(&found[0]), vec![ReplicationId(0)]);
    let change = found[0].changed_component_candidates[0];
    assert_eq!(change.component_id, COUNTER);
    assert_eq!(change.component_ticks, ticks(1, 6));
    assert_eq!(change.payload, PayloadLocation::Table { table_id: 0, column: 1, row: 0 });
    assert_eq!(found[0].replication_marker, PayloadLocation::Table {
        table_id: 0,
        column: 0,
        row: 0
    });
    assert_eq!(changed_ids(&found[1]), vec![]);
    assert_eq!(changed_ids(&found[2]), vec![ReplicationId(0)]);
    assert_eq!(found[2].changed_component_candidates[0].payload, PayloadLocation::Table {
        table_id: 0,
        column: 1,
        row: 2
    });
}

#[test]
fn candidates_follow_the_bounding_tick() {
    let world = counter_world(vec![ticks(1, 2), ticks(1, 4), ticks(1, 6), ticks(1, 8)]);
    for (bound, expected) in [(0u32, 4usize), (2, 3), (3, 3), (4, 2), (7, 1), (8, 0), (9, 0)] {
        let found = collect_candidates(&world, &rules(), Tick::new(9), Tick::new(bound));
        let yielded =
            found.iter().filter(|candidate| !candidate.changed_component_candidates.is_empty());
        assert_eq!(yielded.count(), expected, "bound {bound}");
    }
}

#[test]
fn change_across_wraparound_is_a_candidate() {
    let world = counter_world(vec![ticks(u32::MAX - 20, 2), ticks(u32::MAX - 20, u32::MAX - 8)]);
    let found = collect_candidates(&world, &rules(), Tick::new(4), Tick::new(u32::MAX - 5));
    assert_eq!(changed_ids(&found[0]), vec![ReplicationId(0)]);
    assert_eq!(changed_ids(&found[1]), vec![]);
}

#[test]
fn unregistered_component_is_skipped() {
    let mut world = counter_world(vec![ticks(1, 9)]);
    world.archetypes[0].components.push(table_component(LOCAL_ONLY));
    // No column for it either: the scan never looks at it.
    let found = collect_candidates(&world, &rules(), Tick::new(10), Tick::new(5));
    assert_eq!(changed_ids(&found[0]), vec![ReplicationId(0)]);
}

#[test]
fn marker_itself_is_not_a_candidate() {
    let mut world = counter_world(vec![ticks(1, 1)]);
    world.tables[0].columns[0].ticks[0] = ticks(9, 9);
    let found = collect_candidates(&world, &rules(), Tick::new(10), Tick::new(5));
    assert_eq!(found.len(), 1);
    assert!(found[0].changed_component_candidates.is_empty());
}

#[test]
fn ignored_component_is_skipped() {
    let mut world = counter_world(vec![ticks(1, 9)]);
    world.archetypes[0].components.push(table_component(IGNORE_COUNTER));
    let found = collect_candidates(&world, &rules(), Tick::new(10), Tick::new(5));
    assert_eq!(found.len(), 1);
    assert!(found[0].changed_component_candidates.is_empty());
    // The marker of another type does not ignore the counter.
    let mut world = counter_world(vec![ticks(1, 9)]);
    world.archetypes[0].components.push(table_component(IGNORE_LABEL));
    let found = collect_candidates(&world, &rules(), Tick::new(10), Tick::new(5));
    assert_eq!(changed_ids(&found[0]), vec![ReplicationId(0)]);
}

#[test]
fn sparse_component_is_a_candidate() {
    let mut world = counter_world(vec![ticks(1, 1), ticks(1, 1)]);
    world.archetypes[0].components.push(sparse_component(LABEL));
    world.sparse_sets.push(ComponentSparseSet {
        component_id: LABEL,
        entries: vec![
            SparseEntry { entity: Entity::new(1, 0), ticks: ticks(2, 3) },
            SparseEntry { entity: Entity::new(0, 0), ticks: ticks(2, 8) },
        ],
    });
    let found = collect_candidates(&world, &rules(), Tick::new(10), Tick::new(5));
    assert_eq!(changed_ids(&found[0]), vec![ReplicationId(1)]);
    let change = found[0].changed_component_candidates[0];
    assert_eq!(change.component_id, LABEL);
    assert_eq!(change.component_ticks, ticks(2, 8));
    assert_eq!(change.payload, PayloadLocation::SparseSet { sparse_set: 0, entry: 1 });
    assert_eq!(changed_ids(&found[1]), vec![]);
}

#[test]
fn layout_does_not_change_what_is_yielded() {
    let in_table = counter_world(vec![ticks(1, 4), ticks(1, 7), ticks(1, 9)]);
    let mut in_sparse_set = counter_world(vec![]);
    in_sparse_set.archetypes[0].entities = in_table.archetypes[0].entities.clone();
    in_sparse_set.archetypes[0].components[1] = sparse_component(COUNTER);
    in_sparse_set.tables[0].columns = vec![column(MARKER, vec![ticks(1, 1); 3])];
    in_sparse_set.sparse_sets.push(ComponentSparseSet {
        component_id: COUNTER,
        entries: vec![
            SparseEntry { entity: Entity::new(2, 0), ticks: ticks(1, 9) },
            SparseEntry { entity: Entity::new(0, 0), ticks: ticks(1, 4) },
            SparseEntry { entity: Entity::new(1, 0), ticks: ticks(1, 7) },
        ],
    });
    let from_table = collect_candidates(&in_table, &rules(), Tick::new(10), Tick::new(5));
    let from_sparse_set = collect_candidates(&in_sparse_set, &rules(), Tick::new(10), Tick::new(5));
    assert_eq!(from_table.len(), from_sparse_set.len());
    for (a, b) in from_table.iter().zip(from_sparse_set.iter()) {
        assert_eq!(a.entity, b.entity);
        assert_eq!(changed_ids(a), changed_ids(b));
        let ticks_a: Vec<_> =
            a.changed_component_candidates.iter().map(|c| c.component_ticks).collect();
        let ticks_b: Vec<_> =
            b.changed_component_candidates.iter().map(|c| c.component_ticks).collect();
        assert_eq!(ticks_a, ticks_b);
    }
    assert_eq!(changed_ids(&from_table[0]), vec![]);
    assert_eq!(changed_ids(&from_table[1]), vec![ReplicationId(0)]);
    assert_eq!(changed_ids(&from_table[2]), vec![ReplicationId(0)]);
}

#[test]
fn components_come_in_archetype_order() {
    let mut world = counter_world(vec![ticks(1, 9)]);
    world.archetypes[0].components =
        vec![sparse_component(LABEL), table_component(MARKER), table_component(COUNTER)];
    world.sparse_sets.push(ComponentSparseSet {
        component_id: LABEL,
        entries: vec![SparseEntry { entity: Entity::new(0, 0), ticks: ticks(2, 8) }],
    });
    let found = collect_candidates(&world, &rules(), Tick::new(10), Tick::new(5));
    assert_eq!(changed_ids(&found[0]), vec![ReplicationId(1), ReplicationId(0)]);
}

#[test]
fn missing_removal_tracker_means_no_removals() {
    let world = counter_world(vec![ticks(1, 9)]);
    let found = collect_candidates(&world, &rules(), Tick::new(10), Tick::new(5));
    assert!(found[0].removed_component_candidates.is_empty());
}

#[test]
fn removals_newer_than_the_bound_are_candidates() {
    let mut world = counter_world(vec![ticks(1, 1), ticks(1, 1)]);
    world.archetypes[0].components.push(table_component(TRACKER));
    world.tables[0].removals =
        vec![vec![], vec![removed(1, 4), removed(0, 7), removed(5, 5), removed(3, 6)]];
    let found = collect_candidates(&world, &rules(), Tick::new(10), Tick::new(5));
    assert!(found[0].removed_component_candidates.is_empty());
    assert_eq!(found[1].removed_component_candidates, vec![
        ComponentRemovalCandidate { replication_id: ReplicationId(0), tick: Tick::new(7) },
        ComponentRemovalCandidate { replication_id: ReplicationId(3), tick: Tick::new(6) },
    ]);
    assert!(found[1].changed_component_candidates.is_empty());
}

#[test]
fn collect_removals_of_a_tracker() {
    let mut tracker = RemovalTracker::new();
    tracker.insert(ReplicationId(2), Tick::new(3));
    tracker.insert(ReplicationId(4), Tick::new(9));
    let walk = tracker.entries();
    assert_eq!(collect_removals(&walk, Tick::new(10), Tick::new(3)), vec![
        ComponentRemovalCandidate { replication_id: ReplicationId(4), tick: Tick::new(9) }
    ]);
    assert_eq!(collect_removals(&walk, Tick::new(10), Tick::new(2)).len(), 2);
    assert_eq!(collect_removals(&walk, Tick::new(10), Tick::new(9)), vec![]);
    // The candidates keep the order of the list.
    let listed = vec![removed(7, 8), removed(1, 2), removed(3, 9)];
    assert_eq!(collect_removals(&listed, Tick::new(10), Tick::new(5)), vec![
        ComponentRemovalCandidate { replication_id: ReplicationId(7), tick: Tick::new(8) },
        ComponentRemovalCandidate { replication_id: ReplicationId(3), tick: Tick::new(9) },
    ]);
}

#[test]
fn only_replicated_archetypes_are_scanned() {
    let mut world = counter_world(vec![ticks(1, 9)]);
    let replicated = world.archetypes[0].clone();
    let mut unmarked = replicated.clone();
    unmarked.id = 2;
    unmarked.components = vec![table_component(COUNTER)];
    unmarked.entities = vec![ArchetypeEntity { entity: Entity::new(50, 0), table_row: 0 }];
    let mut empty = replicated.clone();
    empty.id = EMPTY_ARCHETYPE;
    // Their tables do not even exist: the scan never looks.
    empty.table_id = 17;
    let mut invalid = replicated.clone();
    invalid.id = INVALID_ARCHETYPE;
    invalid.table_id = 18;
    world.archetypes = vec![empty, unmarked, replicated, invalid];
    let found = collect_candidates(&world, &rules(), Tick::new(10), Tick::new(5));
    assert_eq!(found.len(), 1);
    assert_eq!(found[0].entity, Entity::new(0, 0));
}

#[test]
fn candidates_come_in_storage_order() {
    let mut world = counter_world(vec![ticks(1, 9), ticks(1, 9)]);
    world.archetypes[0].entities = vec![
        ArchetypeEntity { entity: Entity::new(8, 1), table_row: 1 },
        ArchetypeEntity { entity: Entity::new(3, 0), table_row: 0 },
    ];
    let mut second = world.archetypes[0].clone();
    second.id = 2;
    second.entities = vec![ArchetypeEntity { entity: Entity::new(1, 0), table_row: 0 }];
    world.archetypes.push(second);
    let found = collect_candidates(&world, &rules(), Tick::new(10), Tick::new(5));
    let entities: Vec<Entity> = found.iter().map(|candidate| candidate.entity).collect();
    assert_eq!(entities, vec![Entity::new(8, 1), Entity::new(3, 0), Entity::new(1, 0)]);
    assert_eq!(found[0].changed_component_candidates[0].payload, PayloadLocation::Table {
        table_id: 0,
        column: 1,
        row: 1
    });
}

#[test]
fn world_without_replicated_entities_yields_nothing() {
    let world = WorldView {
        archetypes: vec![],
        tables: vec![],
        sparse_sets: vec![],
        removal_tracker_id: TRACKER,
    };
    assert!(collect_candidates(&world, &rules(), Tick::new(10), Tick::new(5)).is_empty());
    let world = counter_world(vec![]);
    assert!(collect_candidates(&world, &rules(), Tick::new(10), Tick::new(5)).is_empty());
}

#[test]
fn consistent_storage_is_collected() {
    let world = counter_world(vec![ticks(1, 6), ticks(1, 5)]);
    let found = try_collect_candidates(&world, &rules(), Tick::new(10), Tick::new(5))
        .expect("storage is consistent");
    assert_eq!(found.len(), 2);
    assert_eq!(changed_ids(&found[0]), vec![ReplicationId(0)]);
    assert_eq!(changed_ids(&found[1]), vec![]);
}

#[test]
fn missing_table_is_reported() {
    let mut world = counter_world(vec![]);
    world.archetypes[0].table_id = 3;
    assert!(try_collect_candidates(&world, &rules(), Tick::new(10), Tick::new(5)).is_none());
}

#[test]
fn missing_marker_column_is_reported() {
    let mut world = counter_world(vec![ticks(1, 6)]);
    world.tables[0].columns.remove(0);
    assert!(try_collect_candidates(&world, &rules(), Tick::new(10), Tick::new(5)).is_none());
}

#[test]
fn missing_component_column_is_reported() {
    let mut world = counter_world(vec![ticks(1, 6)]);
    world.tables[0].columns.remove(1);
    assert!(try_collect_candidates(&world, &rules(), Tick::new(10), Tick::new(5)).is_none());
}

#[test]
fn row_outside_of_column_is_reported() {
    let mut world = counter_world(vec![ticks(1, 6)]);
    world.archetypes[0].entities[0].table_row = 1;
    assert!(try_collect_candidates(&world, &rules(), Tick::new(10), Tick::new(5)).is_none());
    // Even a component that did not change has to be there.
    let mut world = counter_world(vec![ticks(1, 2), ticks(1, 2)]);
    world.tables[0].columns[1].ticks.pop();
    assert!(try_collect_candidates(&world, &rules(), Tick::new(10), Tick::new(5)).is_none());
}

#[test]
fn missing_sparse_set_or_entry_is_reported() {
    let mut world = counter_world(vec![ticks(1, 1)]);
    world.archetypes[0].components.push(sparse_component(LABEL));
    assert!(try_collect_candidates(&world, &rules(), Tick::new(10), Tick::new(5)).is_none());
    world.sparse_sets.push(ComponentSparseSet {
        component_id: LABEL,
        entries: vec![SparseEntry { entity: Entity::new(9, 0), ticks: ticks(2, 8) }],
    });
    assert!(try_collect_candidates(&world, &rules(), Tick::new(10), Tick::new(5)).is_none());
    world.sparse_sets[0]
        .entries
        .push(SparseEntry { entity: Entity::new(0, 0), ticks: ticks(2, 8) });
    assert!(try_collect_candidates(&world, &rules(), Tick::new(10), Tick::new(5)).is_some());
}

#[test]
fn missing_removal_tracker_row_is_reported() {
    let mut world = counter_world(vec![ticks(1, 1)]);
    world.archetypes[0].components.push(table_component(TRACKER));
    assert!(try_collect_candidates(&world, &rules(), Tick::new(10), Tick::new(5)).is_none());
    world.tables[0].removals.push(vec![]);
    assert!(try_collect_candidates(&world, &rules(), Tick::new(10), Tick::new(5)).is_some());
}

#[test]
fn storage_types_and_columns_are_looked_up_by_component() {
    let world = counter_world(vec![ticks(1, 6)]);
    let archetype = &world.archetypes[0];
    assert!(archetype.contains(MARKER));
    assert!(!archetype.contains(LABEL));
    assert_eq!(archetype.get_storage_type(COUNTER), Some(StorageType::Table));
    assert_eq!(archetype.get_storage_type(LABEL), None);
    assert_eq!(world.tables[0].get_column(COUNTER), Some(1));
    assert_eq!(world.tables[0].get_column(LABEL), None);
    assert_eq!(world.get_sparse_set(LABEL), None);
    assert_eq!(
        world.locate_in_table(0, 0, COUNTER),
        Some((PayloadLocation::Table { table_id: 0, column: 1, row: 0 }, ticks(1, 6)))
    );
    assert_eq!(world.locate_in_table(0, 1, COUNTER), None);
    assert_eq!(world.locate_in_sparse_set(Entity::new(0, 0), LABEL), None);
    let set = ComponentSparseSet {
        component_id: LABEL,
        entries: vec![SparseEntry { entity: Entity::new(4, 2), ticks: ticks(3, 4) }],
    };
    assert_eq!(set.get_ticks(Entity::new(4, 2)), Some(ticks(3, 4)));
    assert_eq!(set.get_ticks(Entity::new(4, 1)), None);
    assert_eq!(set.get_entry(Entity::new(4, 2)), Some(0));
}

#[test]
fn replication_rules_lookup() {
    let mut rules = rules();
    assert_eq!(rules.get_marker_id(), MARKER);
    let (id, info) = rules.get(LABEL).expect("label is replicated");
    assert_eq!(id, ReplicationId(1));
    assert_eq!(info.component_id, LABEL);
    assert_eq!(info.ignored_id, IGNORE_LABEL);
    assert_eq!(rules.get(LOCAL_ONLY), None);
    assert_eq!(rules.info(ReplicationId(0)).map(|info| info.component_id), Some(COUNTER));
    assert_eq!(rules.info(ReplicationId(2)), None);
    // A second registration keeps the first.
    assert_eq!(rules.register(COUNTER, LOCAL_ONLY), ReplicationId(0));
    assert_eq!(rules.get(COUNTER).map(|(_, info)| info.ignored_id), Some(IGNORE_COUNTER));
    assert_eq!(rules.register(LOCAL_ONLY, ComponentId(8)), ReplicationId(2));
}

#[test]
fn no_entity_and_no_component_is_yielded_twice() {
    let mut world = counter_world(vec![ticks(1, 9), ticks(1, 9), ticks(1, 9)]);
    world.archetypes[0].components.push(sparse_component(LABEL));
    world.archetypes[0].components.push(table_component(TRACKER));
    world.sparse_sets.push(ComponentSparseSet {
        component_id: LABEL,
        entries: (0..3)
            .map(|i| SparseEntry { entity: Entity::new(i, 0), ticks: ticks(2, 8) })
            .collect(),
    });
    let mut tracker = RemovalTracker::new();
    tracker.insert(ReplicationId(4), Tick::new(7));
    tracker.insert(ReplicationId(5), Tick::new(8));
    tracker.insert(ReplicationId(4), Tick::new(9));
    let mut walk = tracker.entries();
    walk.sort_by_key(|removal| removal.replication_id.0);
    world.tables[0].removals = vec![walk.clone(), walk.clone(), walk];
    let found = collect_candidates(&world, &rules(), Tick::new(10), Tick::new(5));
    assert_eq!(found.len(), 3);
    for (i, candidate) in found.iter().enumerate() {
        for other in &found[i + 1..] {
            assert_ne!(candidate.entity, other.entity);
        }
        assert_eq!(changed_ids(candidate), vec![ReplicationId(0), ReplicationId(1)]);
        assert_eq!(candidate.removed_component_candidates, vec![
            ComponentRemovalCandidate { replication_id: ReplicationId(4), tick: Tick::new(9) },
            ComponentRemovalCandidate { replication_id: ReplicationId(5), tick: Tick::new(8) },
        ]);
    }
}
