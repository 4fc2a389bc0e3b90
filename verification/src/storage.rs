//! A read-only view of the simulation storage, as far as change detection
//! reads it: which archetypes exist, which entities and components they
//! hold, and the ticks stored for each component of each entity.
//!
//! Component data itself is not part of the view. A [`PayloadLocation`] says
//! where the data of one component of one entity lies, for whoever owns the
//! storage to fetch it.

use vstd::prelude::*;
use crate::entity::Entity;
use crate::lookup::{first_match, lemma_first_match_absent, lemma_first_match_found};
use crate::replicon_core::replication_rules::ComponentId;
use crate::server::removal_tracker::{distinct_removals, Removal};
use crate::tick::ComponentTicks;

verus! {

/// Identifier of the archetype that holds the entities without components.
pub const EMPTY_ARCHETYPE: u32 = 0;

/// Identifier that no real archetype has.
pub const INVALID_ARCHETYPE: u32 = u32::MAX;

/// How the data of a component type is laid out.
#[derive(Clone, Copy, Debug, PartialEq, Eq, Structural)]
pub enum StorageType {
    /// One column per component type, one row per entity.
    Table,
    /// One set per component type, with an entry for each entity that has it.
    SparseSet,
}

/// Where the data of one component of one entity lies.
#[derive(Clone, Copy, Debug, PartialEq, Eq, Structural)]
pub enum PayloadLocation {
    Table { table_id: usize, column: usize, row: usize },
    SparseSet { sparse_set: usize, entry: usize },
}

/// The ticks of one component type in a table, one per row.
#[derive(Clone, Debug)]
pub struct Column {
    pub component_id: ComponentId,
    pub ticks: Vec<ComponentTicks>,
}

/// A table: the columns of the component types stored in it, and, where the
/// table has a column of removal trackers, what the tracker of each row
/// records, as a walk of the tracker has handed it out.
#[derive(Clone, Debug)]
pub struct Table {
    pub columns: Vec<Column>,
    pub removals: Vec<Vec<Removal>>,
}

/// The ticks of a sparsely stored component of one entity.
#[derive(Clone, Copy, Debug, PartialEq, Eq, Structural)]
pub struct SparseEntry {
    pub entity: Entity,
    pub ticks: ComponentTicks,
}

/// The entities that have a sparsely stored component type.
#[derive(Clone, Debug)]
pub struct ComponentSparseSet {
    pub component_id: ComponentId,
    pub entries: Vec<SparseEntry>,
}

/// A component type of an archetype and the layout of its data.
#[derive(Clone, Copy, Debug, PartialEq, Eq, Structural)]
pub struct ArchetypeComponent {
    pub component_id: ComponentId,
    pub storage_type: StorageType,
}

/// An entity of an archetype and its row in the archetype's table.
#[derive(Clone, Copy, Debug, PartialEq, Eq, Structural)]
pub struct ArchetypeEntity {
    pub entity: Entity,
    pub table_row: usize,
}

/// A storage partition: the entities that have exactly the same component
/// types.
#[derive(Clone, Debug)]
pub struct Archetype {
    pub id: u32,
    pub table_id: usize,
    pub components: Vec<ArchetypeComponent>,
    pub entities: Vec<ArchetypeEntity>,
}

/// The storage as change detection sees it.
#[derive(Clone, Debug)]
pub struct WorldView {
    pub archetypes: Vec<Archetype>,
    pub tables: Vec<Table>,
    pub sparse_sets: Vec<ComponentSparseSet>,
    /// The component type under which removal trackers are stored.
    pub removal_tracker_id: ComponentId,
}

impl Table {
    /// The component types of the columns, in column order.
    pub open spec fn column_ids(&self) -> Seq<ComponentId> {
        self.columns@.map_values(|column: Column| column.component_id)
    }

    /// The position of the column of a component type.
    pub fn get_column(&self, component_id: ComponentId) -> (found: Option<usize>)
        ensures
            match found {
                Some(c) => first_match(self.column_ids(), component_id) == Some(c as int),
                None => first_match(self.column_ids(), component_id) is None,
            },
    {
        let mut i: usize = 0;
        while i < self.columns.len()
            invariant
                i <= self.columns@.len(),
                forall|j: int| 0 <= j < i ==> self.column_ids()[j] != component_id,
            decreases self.columns@.len() - i,
        {
            if self.columns[i].component_id == component_id {
                proof {
                    lemma_first_match_found(self.column_ids(), component_id, i as int);
                }
                return Some(i);
            }
            i += 1;
        }
        proof {
            lemma_first_match_absent(self.column_ids(), component_id);
        }
        None
    }
}

impl ComponentSparseSet {
    /// The entities of the entries, in entry order.
    pub open spec fn entities(&self) -> Seq<Entity> {
        self.entries@.map_values(|entry: SparseEntry| entry.entity)
    }

    /// The position of the entry of an entity.
    pub fn get_entry(&self, entity: Entity) -> (found: Option<usize>)
        ensures
            match found {
                Some(e) => first_match(self.entities(), entity) == Some(e as int),
                None => first_match(self.entities(), entity) is None,
            },
    {
        let mut i: usize = 0;
        while i < self.entries.len()
            invariant
                i <= self.entries@.len(),
                forall|j: int| 0 <= j < i ==> self.entities()[j] != entity,
            decreases self.entries@.len() - i,
        {
            if self.entries[i].entity == entity {
                proof {
                    lemma_first_match_found(self.entities(), entity, i as int);
                }
                return Some(i);
            }
            i += 1;
        }
        proof {
            lemma_first_match_absent(self.entities(), entity);
        }
        None
    }

    /// The ticks stored for an entity, if it has the component.
    pub fn get_ticks(&self, entity: Entity) -> (ticks: Option<ComponentTicks>)
        ensures
            ticks == match first_match(self.entities(), entity) {
                Some(e) => Some(self.entries@[e].ticks),
                None => None,
            },
    {
        match self.get_entry(entity) {
            Some(e) => Some(self.entries[e].ticks),
            None => None,
        }
    }
}

impl Archetype {
    /// The component types of the archetype, in order.
    pub open spec fn component_ids(&self) -> Seq<ComponentId> {
        self.components@.map_values(|component: ArchetypeComponent| component.component_id)
    }

    /// Whether the entities of this archetype have a component type.
    pub fn contains(&self, component_id: ComponentId) -> (present: bool)
        ensures
            present == self.component_ids().contains(component_id),
    {
        let mut i: usize = 0;
        while i < self.components.len()
            invariant
                i <= self.components@.len(),
                forall|j: int| 0 <= j < i ==> self.component_ids()[j] != component_id,
            decreases self.components@.len() - i,
        {
            if self.components[i].component_id == component_id {
                assert(self.component_ids()[i as int] == component_id);
                return true;
            }
            i += 1;
        }
        false
    }

    /// How a component type of this archetype is stored.
    pub fn get_storage_type(&self, component_id: ComponentId) -> (storage: Option<StorageType>)
        ensures
            storage == match first_match(self.component_ids(), component_id) {
                Some(i) => Some(self.components@[i].storage_type),
                None => None,
            },
    {
        let mut i: usize = 0;
        while i < self.components.len()
            invariant
                i <= self.components@.len(),
                forall|j: int| 0 <= j < i ==> self.component_ids()[j] != component_id,
            decreases self.components@.len() - i,
        {
            if self.components[i].component_id == component_id {
                proof {
                    lemma_first_match_found(self.component_ids(), component_id, i as int);
                }
                return Some(self.components[i].storage_type);
            }
            i += 1;
        }
        proof {
            lemma_first_match_absent(self.component_ids(), component_id);
        }
        None
    }
}

impl WorldView {
    /// The invariant of a storage: every entity is in one place, no archetype
    /// names a component type twice, and no row holds two removals of one
    /// component type.
    pub open spec fn wf(&self) -> bool {
        &&& forall|a: int, k: int, b: int, l: int|
            #![trigger self.archetypes@[a].entities@[k], self.archetypes@[b].entities@[l]]
            0 <= a < self.archetypes@.len() && 0 <= k < self.archetypes@[a].entities@.len() && 0
                <= b < self.archetypes@.len() && 0 <= l < self.archetypes@[b].entities@.len() && (a
                != b || k != l) ==> self.archetypes@[a].entities@[k].entity
                != self.archetypes@[b].entities@[l].entity
        &&& forall|a: int|
            0 <= a < self.archetypes@.len() ==> (#[trigger] self.archetypes@[a]).component_ids().no_duplicates()
        &&& forall|t: int, r: int|
            0 <= t < self.tables@.len() && 0 <= r < self.tables@[t].removals@.len()
                ==> distinct_removals((#[trigger] self.tables@[t].removals@[r])@)
    }

    /// The component types of the sparse sets, in order.
    pub open spec fn sparse_set_ids(&self) -> Seq<ComponentId> {
        self.sparse_sets@.map_values(|set: ComponentSparseSet| set.component_id)
    }

    /// Where the data of a table component lies and which ticks it has:
    /// the row of the entity in the column of that type. `None` where the
    /// table, the column or the row is missing.
    pub open spec fn table_location(
        &self,
        table_id: usize,
        row: usize,
        component_id: ComponentId,
    ) -> Option<(PayloadLocation, ComponentTicks)> {
        if table_id < self.tables@.len() {
            let table = self.tables@[table_id as int];
            match first_match(table.column_ids(), component_id) {
                Some(c) => if row < table.columns@[c].ticks@.len() {
                    Some(
                        (
                            PayloadLocation::Table { table_id, column: c as usize, row },
                            table.columns@[c].ticks@[row as int],
                        ),
                    )
                } else {
                    None
                },
                None => None,
            }
        } else {
            None
        }
    }

    /// Where the data of a sparsely stored component lies and which ticks it
    /// has: the entry of the entity in the sparse set of that type. `None`
    /// where the set or the entry is missing.
    pub open spec fn sparse_location(&self, entity: Entity, component_id: ComponentId) -> Option<
        (PayloadLocation, ComponentTicks),
    > {
        match first_match(self.sparse_set_ids(), component_id) {
            Some(s) => {
                let set = self.sparse_sets@[s];
                match first_match(set.entities(), entity) {
                    Some(e) => Some(
                        (
                            PayloadLocation::SparseSet { sparse_set: s as usize, entry: e as usize },
                            set.entries@[e].ticks,
                        ),
                    ),
                    None => None,
                }
            },
            None => None,
        }
    }

    /// Where the data of a component of an entity lies and which ticks it
    /// has, by the layout of the component type.
    pub open spec fn component_location(
        &self,
        table_id: usize,
        entity: ArchetypeEntity,
        component: ArchetypeComponent,
    ) -> Option<(PayloadLocation, ComponentTicks)> {
        match component.storage_type {
            StorageType::Table => self.table_location(
                table_id,
                entity.table_row,
                component.component_id,
            ),
            StorageType::SparseSet => self.sparse_location(entity.entity, component.component_id),
        }
    }

    /// The position of the sparse set of a component type.
    pub fn get_sparse_set(&self, component_id: ComponentId) -> (found: Option<usize>)
        ensures
            match found {
                Some(s) => first_match(self.sparse_set_ids(), component_id) == Some(s as int),
                None => first_match(self.sparse_set_ids(), component_id) is None,
            },
    {
        let mut i: usize = 0;
        while i < self.sparse_sets.len()
            invariant
                i <= self.sparse_sets@.len(),
                forall|j: int| 0 <= j < i ==> self.sparse_set_ids()[j] != component_id,
            decreases self.sparse_sets@.len() - i,
        {
            if self.sparse_sets[i].component_id == component_id {
                proof {
                    lemma_first_match_found(self.sparse_set_ids(), component_id, i as int);
                }
                return Some(i);
            }
            i += 1;
        }
        proof {
            lemma_first_match_absent(self.sparse_set_ids(), component_id);
        }
        None
    }

    /// Looks up a table component: see [`WorldView::table_location`].
    pub fn locate_in_table(&self, table_id: usize, row: usize, component_id: ComponentId) -> (found:
        Option<(PayloadLocation, ComponentTicks)>)
        ensures
            found == self.table_location(table_id, row, component_id),
    {
        if table_id >= self.tables.len() {
            return None;
        }
        let table = &self.tables[table_id];
        match table.get_column(component_id) {
            Some(c) => {
                let column = &table.columns[c];
                if row < column.ticks.len() {
                    Some((PayloadLocation::Table { table_id, column: c, row }, column.ticks[row]))
                } else {
                    None
                }
            },
            None => None,
        }
    }

    /// Looks up a sparsely stored component: see
    /// [`WorldView::sparse_location`].
    pub fn locate_in_sparse_set(&self, entity: Entity, component_id: ComponentId) -> (found: Option<
        (PayloadLocation, ComponentTicks),
    >)
        ensures
            found == self.sparse_location(entity, component_id),
    {
        match self.get_sparse_set(component_id) {
            Some(s) => {
                let set = &self.sparse_sets[s];
                match set.get_entry(entity) {
                    Some(e) => Some(
                        (PayloadLocation::SparseSet { sparse_set: s, entry: e }, set.entries[e].ticks),
                    ),
                    None => None,
                }
            },
            None => None,
        }
    }

    /// Looks up a component of an entity by the layout of its type. The two
    /// layouts differ in the path to the ticks, not in what is found.
    pub fn locate(&self, table_id: usize, entity: ArchetypeEntity, component: ArchetypeComponent) -> (found:
        Option<(PayloadLocation, ComponentTicks)>)
        ensures
            found == self.component_location(table_id, entity, component),
    {
        match component.storage_type {
            StorageType::Table => self.locate_in_table(
                table_id,
                entity.table_row,
                component.component_id,
            ),
            StorageType::SparseSet => self.locate_in_sparse_set(
                entity.entity,
                component.component_id,
            ),
        }
    }
}

} // verus!
