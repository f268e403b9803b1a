use crate::archetypes::{
    is_strictly_sorted, lemma_sorted_permutation, lemma_strictly_sorted_unique, lists, Archetype,
    ArchetypeKey,
};
use crate::components::{entries_map, entry_types, ComponentTuple, ComponentTypeIndexRegistry};
use crate::entities::{allocated, deallocated, EntityAllocator, EntityId, EntityLocationMap};
use crate::queries::{Query, QueryRow};
use std::any::TypeId;
use vstd::prelude::*;

verus! {

/// The archetype tables of a world, each with its key.
type Tables<V> = Seq<(ArchetypeKey, Archetype<V>)>;

/// The table at `a` is consistent with its key and with the registered
/// types `types`.
spec fn table_wf<V>(entry: (ArchetypeKey, Archetype<V>), types: Seq<TypeId>) -> bool {
    &&& entry.1.wf()
    &&& is_strictly_sorted(entry.0.indices())
    &&& entry.1.columns().len() <= types.len()
    &&& forall|j: int| #[trigger] entry.1.has_column(j) <==> lists(entry.0.indices(), j)
    &&& forall|j: int| #[trigger]
        entry.1.has_column(j) ==> entry.1.column(j).element_type() == types[j]
}

/// Every table is consistent, and no two tables share a key.
spec fn tables_wf<V>(archs: Tables<V>, types: Seq<TypeId>) -> bool {
    &&& forall|a: int| 0 <= a < archs.len() ==> table_wf(#[trigger] archs[a], types)
    &&& forall|a: int, b: int|
        0 <= a < archs.len() && 0 <= b < archs.len() && a != b ==> (#[trigger] archs[a]).0.indices()
            != (#[trigger] archs[b]).0.indices()
}

/// Each row's entity is alive, not queued for reuse, and recorded at that
/// row, and each recorded location holds the entity of that index.
spec fn locations_wf<V>(
    archs: Tables<V>,
    alloc: EntityAllocator,
    loc: EntityLocationMap,
) -> bool {
    &&& forall|a: int, r: int|
        0 <= a < archs.len() && 0 <= r < archs[a].1.entity_rows().len() ==> {
            &&& alloc.spec_is_alive(#[trigger] archs[a].1.entity_rows()[r])
            &&& !alloc.free_list().contains(archs[a].1.entity_rows()[r].index)
            &&& loc.spec_get(archs[a].1.entity_rows()[r]) matches Some(p) && p.0 == a && p.1 == r
        }
    &&& forall|i: int|
        0 <= i < loc.slots().len() && (#[trigger] loc.slots()[i]) is Some ==> {
            let p = loc.slots()[i]->Some_0;
            &&& p.0 < archs.len()
            &&& p.1 < archs[p.0 as int].1.entity_rows().len()
            &&& archs[p.0 as int].1.entity_rows()[p.1 as int].index == i
        }
}

/// Whether `e` is the entity stored at its recorded location.
spec fn located_in<V>(archs: Tables<V>, loc: EntityLocationMap, e: EntityId) -> bool {
    loc.spec_get(e) matches Some(p) && p.0 < archs.len() && p.1 < archs[p.0 as int].1.entity_rows().len()
        && archs[p.0 as int].1.entity_rows()[p.1 as int] == e
}

/// Whether the located entity `e` has a component of type `t`.
spec fn has_type_in<V>(
    archs: Tables<V>,
    types: Seq<TypeId>,
    loc: EntityLocationMap,
    e: EntityId,
    t: TypeId,
) -> bool {
    types.contains(t) && archs[loc.spec_get(e)->Some_0.0 as int].1.has_column(types.index_of(t))
}

/// The component of type `t` of the located entity `e`.
spec fn value_in<V>(
    archs: Tables<V>,
    types: Seq<TypeId>,
    loc: EntityLocationMap,
    e: EntityId,
    t: TypeId,
) -> V {
    let p = loc.spec_get(e)->Some_0;
    archs[p.0 as int].1.column(types.index_of(t)).elements()[p.1 as int]
}

/// Each stored entity with its components.
spec fn view_of<V>(archs: Tables<V>, types: Seq<TypeId>, loc: EntityLocationMap) -> Map<
    EntityId,
    Map<TypeId, V>,
> {
    Map::new(
        |e: EntityId| located_in(archs, loc, e),
        |e: EntityId|
            Map::new(
                |t: TypeId| has_type_in(archs, types, loc, e, t),
                |t: TypeId| value_in(archs, types, loc, e, t),
            ),
    )
}

/// The registered types of `types` that `table` has a column of.
spec fn types_of_table<V>(table: Archetype<V>, types: Seq<TypeId>) -> Set<TypeId> {
    Set::new(|t: TypeId| types.contains(t) && table.has_column(types.index_of(t)))
}

/// The entities of the first `n` tables, table by table, row by row.
spec fn storage_upto<V>(archs: Tables<V>, n: int) -> Seq<EntityId>
    decreases n,
{
    if n <= 0 {
        Seq::<EntityId>::empty()
    } else {
        storage_upto(archs, n - 1) + archs[n - 1].1.entity_rows()
    }
}

/// Whether the entity `e` of `view` has a component of each of `types`.
pub open spec fn has_all<V>(view: Map<EntityId, Map<TypeId, V>>, e: EntityId, types: Seq<TypeId>) -> bool {
    &&& view.contains_key(e)
    &&& forall|j: int| 0 <= j < types.len() ==> view[e].contains_key(#[trigger] types[j])
}

/// The test of `has_all` on `view` and `types`, as a predicate on entities.
pub open spec fn has_all_of<V>(view: Map<EntityId, Map<TypeId, V>>, types: Seq<TypeId>) -> spec_fn(
    EntityId,
) -> bool {
    |e: EntityId| has_all(view, e, types)
}

/// The entity of each row.
pub open spec fn row_entities<V>(rows: Seq<QueryRow<V>>) -> Seq<EntityId> {
    rows.map_values(|row: QueryRow<V>| row.entity)
}

/// `m` after each of `entries` is written into it in turn.
pub open spec fn overwrite<V>(m: Map<TypeId, V>, entries: Seq<(TypeId, V)>) -> Map<TypeId, V>
    decreases entries.len(),
{
    if entries.len() == 0 {
        m
    } else {
        overwrite(m, entries.drop_last()).insert(entries.last().0, entries.last().1)
    }
}

/// The storage of all entities and their components, in tables of the
/// entities that share a set of component types.
///
/// Each component is a value of `V` (typically an enum with a variant per
/// component type) filed under the `TypeId` of its component type. Reads go
/// through `get_component` and `query`; writes in place through
/// `get_component_mut`, one component at a time, or `set_components`, for
/// several components of one entity at once, so that no two mutable
/// borrows of the tables ever coexist.
pub struct World<V> {
    archetypes: Vec<(ArchetypeKey, Archetype<V>)>,
    type_registry: ComponentTypeIndexRegistry,
    entity_allocator: EntityAllocator,
    entity_location_map: EntityLocationMap,
}

impl<V> View for World<V> {
    type V = Map<EntityId, Map<TypeId, V>>;

    /// Each entity spawned in the world, with its components by type.
    closed spec fn view(&self) -> Map<EntityId, Map<TypeId, V>> {
        view_of(self.archetypes@, self.type_registry.types(), self.entity_location_map)
    }
}

impl<V> World<V> {
    /// The tables, the type registry, the allocator and the location map
    /// agree with one another.
    pub closed spec fn wf(&self) -> bool {
        &&& self.type_registry.wf()
        &&& self.entity_allocator.wf()
        &&& self.entity_allocator.free_list().no_duplicates()
        &&& tables_wf(self.archetypes@, self.type_registry.types())
        &&& locations_wf(self.archetypes@, self.entity_allocator, self.entity_location_map)
    }

    /// The number of entity slots ever opened.
    pub closed spec fn slot_count(&self) -> nat {
        self.entity_allocator.generations().len()
    }

    /// The number of slots handed back by `despawn` and not reused yet.
    pub closed spec fn free_slots(&self) -> nat {
        self.entity_allocator.free_list().len()
    }

    /// Whether one more entity can be spawned: a handed-back index can be
    /// reused, or a new index still fits in `u32`.
    pub open spec fn can_spawn(&self) -> bool {
        self.free_slots() > 0 || self.slot_count() <= u32::MAX
    }

    /// The handle the next `spawn` returns.
    pub closed spec fn next_handle(&self) -> EntityId {
        self.entity_allocator.next_handle()
    }

    /// The number of tables, in the order they were made.
    pub closed spec fn table_count(&self) -> int {
        self.archetypes@.len() as int
    }

    /// The entity of each row of table `a`.
    pub closed spec fn table_rows(&self, a: int) -> Seq<EntityId> {
        self.archetypes@[a].1.entity_rows()
    }

    /// The component types of table `a`.
    pub closed spec fn table_types(&self, a: int) -> Set<TypeId> {
        types_of_table(self.archetypes@[a].1, self.type_registry.types())
    }

    /// The row of `e` in its table.
    pub closed spec fn row_of(&self, e: EntityId) -> int {
        self.entity_location_map.spec_get(e)->Some_0.1 as int
    }

    /// All entities in storage order: table by table, in the order the
    /// tables were made, and row by row within a table.
    pub closed spec fn storage_order(&self) -> Seq<EntityId> {
        storage_upto(self.archetypes@, self.archetypes@.len() as int)
    }

    /// The table that holds `e`.
    pub closed spec fn archetype_of(&self, e: EntityId) -> int {
        self.entity_location_map.spec_get(e)->Some_0.0 as int
    }

    /// An empty world.
    pub fn new() -> (r: Self)
        ensures
            r.wf(),
            r@ == Map::<EntityId, Map<TypeId, V>>::empty(),
            r.storage_order() == Seq::<EntityId>::empty(),
            r.table_count() == 0,
            r.slot_count() == 0,
            r.free_slots() == 0,
            r.next_handle() == (EntityId { index: 0, generation: 0 }),
    {
        let r = Self {
            archetypes: Vec::new(),
            type_registry: ComponentTypeIndexRegistry::new(),
            entity_allocator: EntityAllocator::new(),
            entity_location_map: EntityLocationMap::new(),
        };
        proof {
            assert(r@ =~= Map::<EntityId, Map<TypeId, V>>::empty());
        }
        r
    }

    /// Whether another entity can be spawned.
    pub fn can_spawn_more(&self) -> (r: bool)
        requires
            self.wf(),
        ensures
            r == self.can_spawn(),
    {
        self.entity_allocator.has_capacity()
    }

    /// Creates an entity with `components`: it gets a fresh handle, and its
    /// row goes to the table of exactly its component types, made on first
    /// use. Every other entity keeps its table and its components.
    pub fn spawn(&mut self, components: ComponentTuple<V>) -> (e: EntityId)
        requires
            old(self).wf(),
            old(self).can_spawn(),
            components.wf(),
        ensures
            final(self).wf(),
            !old(self)@.contains_key(e),
            final(self)@ == old(self)@.insert(e, components.as_map()),
            e == old(self).next_handle(),
            old(self).free_slots() > 0 ==> final(self).free_slots() == old(self).free_slots() - 1
                && final(self).slot_count() == old(self).slot_count(),
            old(self).free_slots() == 0 ==> final(self).free_slots() == 0 && final(self).slot_count()
                == old(self).slot_count() + 1,
            // the table of `e`: an old one, or a new one added at the end
            0 <= final(self).archetype_of(e) <= old(self).table_count(),
            final(self).table_count() == if final(self).archetype_of(e) == old(self).table_count() {
                old(self).table_count() + 1
            } else {
                old(self).table_count()
            },
            final(self).table_types(final(self).archetype_of(e)) == components.as_map().dom(),
            final(self).archetype_of(e) == old(self).table_count() ==> forall|b: int|
                0 <= b < old(self).table_count() ==> old(self).table_types(b)
                    != components.as_map().dom(),
            forall|b: int|
                0 <= b < old(self).table_count() ==> #[trigger] final(self).table_types(b) == old(
                    self,
                ).table_types(b),
            final(self).storage_order() == old(self).storage_order().insert(
                if final(self).archetype_of(e) < old(self).table_count() {
                    tables_upto(old(self), final(self).archetype_of(e) + 1).len() as int
                } else {
                    old(self).storage_order().len() as int
                },
                e,
            ),
            // `e` is the new last row of its table; no other row moves
            final(self).row_of(e) == if final(self).archetype_of(e) < old(self).table_count() {
                old(self).table_rows(final(self).archetype_of(e)).len() as int
            } else {
                0
            },
            final(self).table_rows(final(self).archetype_of(e)) == if final(self).archetype_of(e)
                < old(self).table_count() {
                old(self).table_rows(final(self).archetype_of(e))
            } else {
                Seq::<EntityId>::empty()
            }.push(e),
            forall|b: int|
                0 <= b < old(self).table_count() && b != final(self).archetype_of(e)
                    ==> #[trigger] final(self).table_rows(b) == old(self).table_rows(b),
            forall|e2: EntityId|
                #[trigger] old(self)@.contains_key(e2) ==> final(self).archetype_of(e2) == old(
                    self,
                ).archetype_of(e2) && final(self).row_of(e2) == old(self).row_of(e2),
    {
        let ghost archs0 = self.archetypes@;
        let ghost types0 = self.type_registry.types();
        let ghost alloc0 = self.entity_allocator;
        let ghost loc0 = self.entity_location_map;
        let entity = self.entity_allocator.allocate();
        let ghost alloc1 = self.entity_allocator;
        let component_indices = components.component_indices(&mut self.type_registry);
        let ghost types1 = self.type_registry.types();
        let ghost entries = components.entries();
        let component_data = components.into_components();
        let layout_key = ArchetypeKey::new_sorted(component_indices.as_slice());
        proof {
            let ci = component_indices@;
            assert(ci.no_duplicates()) by {
                assert forall|x: int, y: int| 0 <= x < ci.len() && 0 <= y < ci.len() && x != y implies ci[x] != ci[y] by {
                    assert(entry_types(entries)[x] != entry_types(entries)[y]);
                }
            }
            lemma_sorted_permutation(layout_key.indices(), ci);
            lemma_tables_registry_growth(archs0, types0, types1);
        }
        let archetype_index = self.find_or_create_archetype(layout_key, component_indices.as_slice());
        let ghost archs1 = self.archetypes@;
        let row = self.archetypes[archetype_index].1.len();
        proof {
            assert(table_wf(archs1[archetype_index as int], types1));
        }
        self.archetypes[archetype_index].1.insert(entity, component_indices, component_data);
        let ghost archs2 = self.archetypes@;
        self.entity_location_map.insert(entity, (archetype_index, row));
        proof {
            assert(spawn_step(archs0, types0, alloc0, loc0, types1, alloc1, archs1, archs2, self.entity_location_map, entity, archetype_index as int, component_indices@, entries));
            lemma_spawn_tables(archs0, types0, alloc0, loc0, types1, alloc1, archs1, archs2, self.entity_location_map, entity, archetype_index as int, component_indices@, entries);
            lemma_spawn_locations(archs0, types0, alloc0, loc0, types1, alloc1, archs1, archs2, self.entity_location_map, entity, archetype_index as int, component_indices@, entries);
            lemma_spawn_view(archs0, types0, alloc0, loc0, types1, alloc1, archs1, archs2, self.entity_location_map, entity, archetype_index as int, component_indices@, entries);
            lemma_spawn_placement(archs0, types0, alloc0, loc0, types1, alloc1, archs1, archs2, self.entity_location_map, entity, archetype_index as int, component_indices@, entries);
            assert(self.archetype_of(entity) == archetype_index as int);
            assert(self.table_rows(archetype_index as int) == archs1[archetype_index as int].1.entity_rows().push(entity));
            if archetype_index < archs0.len() {
                assert(archs1 == archs0);
            } else {
                assert(archs1[archetype_index as int].1.entity_rows() =~= Seq::<EntityId>::empty());
            }
            lemma_spawn_storage_order(old(self), self, entity, archetype_index as int);
        }
        entity
    }

    /// Every entity that has a component of each type of `query`, in
    /// storage order, with those components in the order of the query. A
    /// type that was never registered matches nothing.
    pub fn query<'w>(&'w self, query: &Query) -> (r: Vec<QueryRow<'w, V>>)
        requires
            self.wf(),
        ensures
            row_entities(r@) == self.storage_order().filter(has_all_of(self@, query.types())),
            forall|k: int|
                0 <= k < r@.len() ==> {
                    &&& (#[trigger] r@[k]).components@.len() == query.types().len()
                    &&& forall|j: int|
                        0 <= j < query.types().len() ==> *(#[trigger] r@[k].components@[j])
                            == self@[r@[k].entity][query.types()[j]]
                },
    {
        let ghost archs = self.archetypes@;
        let ghost types = self.type_registry.types();
        let ghost loc = self.entity_location_map;
        let ghost qt = query.types();
        let ghost pred = has_all_of(self@, qt);
        let mut result: Vec<QueryRow<'w, V>> = Vec::new();
        let mut i: usize = 0;
        while i < self.archetypes.len()
            invariant
                self.wf(),
                archs == self.archetypes@,
                types == self.type_registry.types(),
                loc == self.entity_location_map,
                qt == query.types(),
                pred == has_all_of(self@, qt),
                i <= archs.len(),
                row_entities(result@) == storage_upto(archs, i as int).filter(pred),
                forall|k: int|
                    0 <= k < result@.len() ==> {
                        &&& (#[trigger] result@[k]).components@.len() == qt.len()
                        &&& forall|j: int|
                            0 <= j < qt.len() ==> *(#[trigger] result@[k].components@[j])
                                == self@[result@[k].entity][qt[j]]
                    },
            decreases archs.len() - i,
        {
            let ghost table = archs[i as int];
            proof {
                assert(table_wf(table, types));
                Seq::filter_distributes_over_add(storage_upto(archs, i as int), table.1.entity_rows(), pred);
            }
            match query.query_archetype(&self.archetypes[i].1, &self.type_registry) {
                Some(rows) => {
                    proof {
                        assert forall|k: int| 0 <= k < table.1.entity_rows().len() implies pred(table.1.entity_rows()[k]) by {
                            let e = table.1.entity_rows()[k];
                            assert(located_in(archs, loc, e));
                            assert forall|j: int| 0 <= j < qt.len() implies self@[e].contains_key(#[trigger] qt[j]) by {
                                assert(has_type_in(archs, types, loc, e, qt[j]));
                            }
                        }
                        lemma_filter_uniform(table.1.entity_rows(), pred, true);
                        assert forall|k: int| 0 <= k < rows@.len() implies forall|j: int|
                            0 <= j < qt.len() ==> *(#[trigger] (#[trigger] rows@[k]).components@[j])
                                == self@[rows@[k].entity][qt[j]] by {
                            let e = table.1.entity_rows()[k];
                            assert(located_in(archs, loc, e));
                            assert(rows@[k].entity == e);
                        }
                    }
                    let ghost before = result@;
                    let ghost appended = rows@;
                    let mut rows = rows;
                    result.append(&mut rows);
                    proof {
                        assert(row_entities(result@) =~= row_entities(before) + table.1.entity_rows());
                        assert forall|k: int| 0 <= k < result@.len() implies {
                            &&& (#[trigger] result@[k]).components@.len() == qt.len()
                            &&& forall|j: int|
                                0 <= j < qt.len() ==> *(#[trigger] result@[k].components@[j])
                                    == self@[result@[k].entity][qt[j]]
                        } by {
                            if k >= before.len() {
                                assert(result@[k] == appended[k - before.len()]);
                            } else {
                                assert(result@[k] == before[k]);
                            }
                        }
                    }
                },
                None => {
                    proof {
                        assert forall|k: int| 0 <= k < table.1.entity_rows().len() implies !pred(table.1.entity_rows()[k]) by {
                            let e = table.1.entity_rows()[k];
                            assert(located_in(archs, loc, e));
                            let j = choose|j: int| 0 <= j < qt.len() && !{
                                &&& types.contains(#[trigger] qt[j])
                                &&& table.1.has_column(types.index_of(qt[j]))
                                &&& table.1.column(types.index_of(qt[j])).element_type() == qt[j]
                            };
                            if types.contains(qt[j]) && table.1.has_column(types.index_of(qt[j])) {
                                let x = types.index_of(qt[j]);
                                assert(types[x] == qt[j]);
                            }
                            assert(!has_type_in(archs, types, loc, e, qt[j]));
                        }
                        lemma_filter_uniform(table.1.entity_rows(), pred, false);
                        assert(storage_upto(archs, i + 1) == storage_upto(archs, i as int) + table.1.entity_rows());
                    }
                },
            }
            i = i + 1;
        }
        result
    }

    /// The component of type `type_id` of `entity`, for writing in place;
    /// `None`, and the world unchanged, where `get_component` gives `None`.
    /// Whatever is written is what `get_component` and queries see next;
    /// no table, row or other component changes.
    pub fn get_component_mut(&mut self, entity: EntityId, type_id: TypeId) -> (r: Option<&mut V>)
        requires
            old(self).wf(),
        ensures
            final(self).wf(),
            final(self).storage_order() == old(self).storage_order(),
            final(self).can_spawn() == old(self).can_spawn(),
            final(self).next_handle() == old(self).next_handle(),
            final(self).table_count() == old(self).table_count(),
            forall|b: int|
                0 <= b < old(self).table_count() ==> #[trigger] final(self).table_rows(b) == old(
                    self,
                ).table_rows(b),
            forall|e2: EntityId| #[trigger] final(self).row_of(e2) == old(self).row_of(e2),
            forall|e2: EntityId| #[trigger]
                final(self).archetype_of(e2) == old(self).archetype_of(e2),
            old(self)@.contains_key(entity) && old(self)@[entity].contains_key(type_id) ==> {
                &&& r is Some
                &&& *r->Some_0 == old(self)@[entity][type_id]
                &&& final(self)@ == old(self)@.insert(
                    entity,
                    old(self)@[entity].insert(type_id, *final(r->Some_0)),
                )
            },
            !(old(self)@.contains_key(entity) && old(self)@[entity].contains_key(type_id)) ==> r is None
                && final(self)@ == old(self)@,
    {
        let ghost archs = self.archetypes@;
        let ghost types = self.type_registry.types();
        let ghost loc = self.entity_location_map;
        let index = match self.type_registry.get_index(type_id) {
            Some(index) => index,
            None => return None,
        };
        let (archetype_index, row) = match self.entity_location_map.get(entity) {
            Some(location) => location,
            None => return None,
        };
        if archetype_index >= self.archetypes.len() {
            return None;
        }
        if row >= self.archetypes[archetype_index].1.len()
            || self.archetypes[archetype_index].1.entities()[row] != entity {
            return None;
        }
        proof {
            lemma_index_of_unique(types, index as int);
            assert(table_wf(archs[archetype_index as int], types));
        }
        if self.archetypes[archetype_index].1.get_column(index, type_id).is_none() {
            return None;
        }
        let r = self.archetypes[archetype_index].1.get_mut(index, row);
        proof {
            lemma_value_replaced(
                archs,
                after_borrow(self.archetypes)@,
                types,
                self.entity_allocator,
                loc,
                entity,
                type_id,
                archetype_index as int,
                index as int,
                row as int,
            );
        }
        r
    }

    /// Writes the components of `components` over those of `entity`, all
    /// at once: only when the entity is in this world and already has a
    /// component of each of their types; otherwise nothing changes. No
    /// table or row changes.
    pub fn set_components(&mut self, entity: EntityId, components: ComponentTuple<V>) -> (r: bool)
        requires
            old(self).wf(),
        ensures
            final(self).wf(),
            r == (old(self)@.contains_key(entity) && forall|k: int|
                0 <= k < components.entries().len() ==> old(self)@[entity].contains_key(
                    #[trigger] components.entries()[k].0,
                )),
            r ==> final(self)@ == old(self)@.insert(
                entity,
                overwrite(old(self)@[entity], components.entries()),
            ),
            !r ==> final(self)@ == old(self)@,
            final(self).storage_order() == old(self).storage_order(),
            final(self).can_spawn() == old(self).can_spawn(),
            final(self).next_handle() == old(self).next_handle(),
            final(self).table_count() == old(self).table_count(),
            forall|b: int|
                0 <= b < old(self).table_count() ==> #[trigger] final(self).table_rows(b) == old(
                    self,
                ).table_rows(b),
            forall|e2: EntityId| #[trigger] final(self).row_of(e2) == old(self).row_of(e2),
            forall|e2: EntityId| #[trigger]
                final(self).archetype_of(e2) == old(self).archetype_of(e2),
    {
        let ghost entries = components.entries();
        let mut entries_left = components.into_entries();
        if !self.contains(entity) {
            return false;
        }
        let n = entries_left.len();
        let mut k: usize = 0;
        while k < n
            invariant
                self.wf(),
                *self == *old(self),
                entries == components.entries(),
                entries_left@ == entries,
                n == entries.len(),
                k <= n,
                self@.contains_key(entity),
                forall|x: int| 0 <= x < k ==> self@[entity].contains_key(#[trigger] entries[x].0),
            decreases n - k,
        {
            if self.get_component(entity, entries_left[k].0).is_none() {
                proof {
                    assert(!old(self)@[entity].contains_key(entries[k as int].0));
                    assert(!(forall|x: int|
                        0 <= x < entries.len() ==> old(self)@[entity].contains_key(
                            #[trigger] entries[x].0,
                        )));
                }
                return false;
            }
            k = k + 1;
        }
        let mut i: usize = 0;
        while entries_left.len() > 0
            invariant
                self.wf(),
                i + entries_left@.len() == n,
                entries == components.entries(),
                n == entries.len(),
                entries_left@ == entries.subrange(i as int, n as int),
                old(self)@.contains_key(entity),
                forall|x: int| 0 <= x < n ==> old(self)@[entity].contains_key(#[trigger] entries[x].0),
                self@ == old(self)@.insert(entity, overwrite(old(self)@[entity], entries.take(i as int))),
                self.storage_order() == old(self).storage_order(),
                self.can_spawn() == old(self).can_spawn(),
                self.next_handle() == old(self).next_handle(),
                self.table_count() == old(self).table_count(),
                forall|b: int|
                    0 <= b < old(self).table_count() ==> #[trigger] self.table_rows(b) == old(
                        self,
                    ).table_rows(b),
                forall|e2: EntityId| #[trigger] self.row_of(e2) == old(self).row_of(e2),
                forall|e2: EntityId| #[trigger] self.archetype_of(e2) == old(self).archetype_of(e2),
            decreases entries_left@.len(),
        {
            let (type_id, value) = entries_left.remove(0);
            proof {
                assert(entries[i as int] == (type_id, value));
                lemma_overwrite_keeps_keys(old(self)@[entity], entries.take(i as int), type_id);
            }
            match self.get_component_mut(entity, type_id) {
                Some(slot) => {
                    *slot = value;
                },
                None => {},
            }
            proof {
                assert(entries.take(i + 1).drop_last() =~= entries.take(i as int));
            }
            i = i + 1;
        }
        proof {
            assert(entries.take(n as int) =~= entries);
        }
        true
    }

    /// Removes `entity` and its components: the last row of its table
    /// moves into its row, and its handle stops being alive. Returns whether
    /// the entity was in this world; if it was not, nothing changes.
    pub fn despawn(&mut self, entity: EntityId) -> (r: bool)
        requires
            old(self).wf(),
            old(self)@.contains_key(entity) ==> entity.generation < u32::MAX,
        ensures
            final(self).wf(),
            r == old(self)@.contains_key(entity),
            final(self)@ == old(self)@.remove(entity),
            final(self).table_count() == old(self).table_count(),
            final(self).slot_count() == old(self).slot_count(),
            final(self).free_slots() == if r {
                old(self).free_slots() + 1
            } else {
                old(self).free_slots()
            },
            r ==> final(self).next_handle() == (EntityId {
                index: entity.index,
                generation: (entity.generation + 1) as u32,
            }),
            forall|e2: EntityId|
                old(self)@.contains_key(e2) && e2 != entity ==> #[trigger] final(self).archetype_of(e2)
                    == old(self).archetype_of(e2),
    {
        let (archetype_index, row) = match self.entity_location_map.get(entity) {
            Some(location) => location,
            None => return false,
        };
        if archetype_index >= self.archetypes.len() {
            return false;
        }
        if row >= self.archetypes[archetype_index].1.len()
            || self.archetypes[archetype_index].1.entities()[row] != entity {
            return false;
        }
        let ghost archs0 = self.archetypes@;
        let ghost alloc0 = self.entity_allocator;
        let ghost loc0 = self.entity_location_map;
        let last = self.archetypes[archetype_index].1.len() - 1;
        let moved = self.archetypes[archetype_index].1.entities()[last];
        proof {
            assert(table_wf(archs0[archetype_index as int], self.type_registry.types()));
            assert(loc0.spec_get(moved) matches Some(p) && p.0 == archetype_index && p.1 == last);
        }
        self.archetypes[archetype_index].1.remove_row(row);
        if row != last {
            self.entity_location_map.insert(moved, (archetype_index, row));
        }
        self.entity_location_map.remove(entity);
        self.entity_allocator.deallocate(entity);
        proof {
            lemma_despawn(
                archs0,
                self.type_registry.types(),
                alloc0,
                loc0,
                self.archetypes@,
                self.entity_allocator,
                self.entity_location_map,
                entity,
                archetype_index as int,
                row as int,
            );
        }
        true
    }

    /// The index of the table whose key is `key`, made (empty) and added
    /// after the others if there is none yet.
    fn find_or_create_archetype(&mut self, key: ArchetypeKey, component_indices: &[usize]) -> (r:
        usize)
        requires
            old(self).type_registry.wf(),
            tables_wf(old(self).archetypes@, old(self).type_registry.types()),
            is_strictly_sorted(key.indices()),
            forall|j: int| lists(key.indices(), j) <==> lists(component_indices@, j),
            forall|i: int|
                0 <= i < component_indices@.len() ==> #[trigger] component_indices@[i]
                    < old(self).type_registry.types().len(),
        ensures
            final(self).type_registry == old(self).type_registry,
            final(self).entity_allocator == old(self).entity_allocator,
            final(self).entity_location_map == old(self).entity_location_map,
            tables_wf(final(self).archetypes@, final(self).type_registry.types()),
            r < final(self).archetypes@.len(),
            final(self).archetypes@[r as int].0.indices() == key.indices(),
            r < old(self).archetypes@.len() ==> final(self).archetypes@ == old(self).archetypes@,
            r >= old(self).archetypes@.len() ==> {
                &&& r == old(self).archetypes@.len()
                &&& final(self).archetypes@ == old(self).archetypes@.push(
                    final(self).archetypes@[r as int],
                )
                &&& final(self).archetypes@[r as int].1.entity_rows().len() == 0
            },
    {
        let mut i: usize = 0;
        while i < self.archetypes.len()
            invariant
                *self == *old(self),
                tables_wf(self.archetypes@, self.type_registry.types()),
                i <= self.archetypes@.len(),
                forall|k: int| 0 <= k < i ==> self.archetypes@[k].0.indices() != key.indices(),
            decreases self.archetypes@.len() - i,
        {
            if self.archetypes[i].0.same_as(&key) {
                return i;
            }
            i = i + 1;
        }
        let new_arch = Archetype::new(component_indices, &self.type_registry);
        let ghost types = self.type_registry.types();
        self.archetypes.push((key, new_arch));
        proof {
            let archs = self.archetypes@;
            let n = (archs.len() - 1) as int;
            assert forall|j: int| #[trigger] archs[n].1.has_column(j) <==> lists(
                archs[n].0.indices(),
                j,
            ) by {}
            assert(table_wf(archs[n], types));
            assert forall|a: int| 0 <= a < archs.len() implies table_wf(#[trigger] archs[a], types) by {
                if a < n {
                    assert(archs[a] == old(self).archetypes@[a]);
                }
            }
            assert forall|a: int, b: int|
                0 <= a < archs.len() && 0 <= b < archs.len() && a != b implies (
                #[trigger] archs[a]).0.indices() != (#[trigger] archs[b]).0.indices() by {
                if a < n && b < n {
                    assert(archs[a] == old(self).archetypes@[a]);
                    assert(archs[b] == old(self).archetypes@[b]);
                }
            }
        }
        self.archetypes.len() - 1
    }

    /// Whether `entity` is in this world: spawned here and not despawned.
    pub fn contains(&self, entity: EntityId) -> (r: bool)
        requires
            self.wf(),
        ensures
            r == self@.contains_key(entity),
    {
        match self.entity_location_map.get(entity) {
            Some((archetype_index, row)) => {
                archetype_index < self.archetypes.len() && row < self.archetypes[archetype_index].1.len()
                    && self.archetypes[archetype_index].1.entities()[row] == entity
            },
            None => false,
        }
    }

    /// The component of type `type_id` of `entity`; `None` if the entity
    /// is not in this world (never spawned here, or despawned) or has no such
    /// component, whether or not the type was ever registered.
    pub fn get_component(&self, entity: EntityId, type_id: TypeId) -> (r: Option<&V>)
        requires
            self.wf(),
        ensures
            r == if self@.contains_key(entity) && self@[entity].contains_key(type_id) {
                Some(&self@[entity][type_id])
            } else {
                None
            },
    {
        let index = match self.type_registry.get_index(type_id) {
            Some(index) => index,
            None => return None,
        };
        let (archetype_index, row) = match self.entity_location_map.get(entity) {
            Some(location) => location,
            None => return None,
        };
        if archetype_index >= self.archetypes.len() {
            return None;
        }
        let archetype = &self.archetypes[archetype_index].1;
        if row >= archetype.len() || archetype.entities()[row] != entity {
            return None;
        }
        proof {
            lemma_index_of_unique(self.type_registry.types(), index as int);
        }
        match archetype.get_column(index, type_id) {
            Some(column) => Some(&column[row]),
            None => None,
        }
    }
}

/// `archs2` is `archs1` with the row of `e` appended to the table at `a`,
/// holding `entries[i].1` in the column for `ci[i]`.
spec fn row_appended<V>(
    archs1: Tables<V>,
    archs2: Tables<V>,
    a: int,
    e: EntityId,
    ci: Seq<usize>,
    entries: Seq<(TypeId, V)>,
) -> bool {
    let t1 = archs1[a].1;
    let t2 = archs2[a].1;
    &&& 0 <= a < archs1.len()
    &&& archs2.len() == archs1.len()
    &&& forall|k: int| 0 <= k < archs1.len() && k != a ==> archs2[k] == archs1[k]
    &&& archs2[a].0 == archs1[a].0
    &&& t2.wf()
    &&& t2.entity_rows() == t1.entity_rows().push(e)
    &&& t2.columns().len() == t1.columns().len()
    &&& forall|j: int| #[trigger] t2.has_column(j) == t1.has_column(j)
    &&& forall|j: int| #[trigger]
        t1.has_column(j) ==> t2.column(j).element_type() == t1.column(j).element_type()
    &&& forall|i: int|
        0 <= i < ci.len() ==> t2.column(#[trigger] ci[i] as int).elements() == t1.column(
            ci[i] as int,
        ).elements().push(entries[i].1)
}

/// `loc2` is `loc0` with `e` recorded at `(a, row)`.
spec fn location_recorded(
    loc0: EntityLocationMap,
    loc2: EntityLocationMap,
    e: EntityId,
    a: int,
    row: int,
) -> bool {
    &&& loc2.spec_get(e) == Some((a as usize, row as usize))
    &&& a as usize as int == a
    &&& row as usize as int == row
    &&& loc2.slots().len() >= loc0.slots().len()
    &&& forall|i: int|
        0 <= i < loc2.slots().len() && i != e.index as int ==> #[trigger] loc2.slots()[i] == if i
            < loc0.slots().len() {
            loc0.slots()[i]
        } else {
            None
        }
}

/// The facts a spawn step relies on, from the state before it to the state
/// after it.
spec fn spawn_step<V>(
    archs0: Tables<V>,
    types0: Seq<TypeId>,
    alloc0: EntityAllocator,
    loc0: EntityLocationMap,
    types1: Seq<TypeId>,
    alloc1: EntityAllocator,
    archs1: Tables<V>,
    archs2: Tables<V>,
    loc2: EntityLocationMap,
    e: EntityId,
    a: int,
    ci: Seq<usize>,
    entries: Seq<(TypeId, V)>,
) -> bool {
    &&& types0.no_duplicates()
    &&& alloc0.wf()
    &&& alloc0.free_list().no_duplicates()
    &&& tables_wf(archs0, types0)
    &&& locations_wf(archs0, alloc0, loc0)
    &&& allocated(&alloc0, &alloc1, e)
    &&& types1.no_duplicates()
    &&& types0.is_prefix_of(types1)
    &&& ci.len() == entries.len()
    &&& entry_types(entries).no_duplicates()
    &&& forall|i: int|
        0 <= i < ci.len() ==> #[trigger] ci[i] < types1.len() && types1[ci[i] as int]
            == entries[i].0
    &&& tables_wf(archs1, types1)
    &&& 0 <= a < archs1.len()
    &&& forall|j: int| lists(archs1[a].0.indices(), j) <==> lists(ci, j)
    &&& a < archs0.len() ==> archs1 == archs0
    &&& a >= archs0.len() ==> a == archs0.len() && archs1 == archs0.push(archs1[a])
        && archs1[a].1.entity_rows().len() == 0
    &&& row_appended(archs1, archs2, a, e, ci, entries)
    &&& location_recorded(loc0, loc2, e, a, archs1[a].1.entity_rows().len() as int)
}

/// A handle just allocated has an index that no stored entity has, and
/// no location is recorded for it.
proof fn lemma_fresh_entity<V>(
    archs0: Tables<V>,
    alloc0: EntityAllocator,
    loc0: EntityLocationMap,
    alloc1: EntityAllocator,
    e: EntityId,
)
    requires
        alloc0.wf(),
        locations_wf(archs0, alloc0, loc0),
        allocated(&alloc0, &alloc1, e),
    ensures
        forall|b: int, r: int|
            0 <= b < archs0.len() && 0 <= r < archs0[b].1.entity_rows().len() ==> (
            #[trigger] archs0[b].1.entity_rows()[r]).index != e.index,
        loc0.spec_get(e) is None,
{
    let fl = alloc0.free_list();
    if fl.len() > 0 {
        assert(fl[fl.len() - 1] == e.index);
        assert(fl.contains(e.index));
    }
    if loc0.spec_get(e) is Some {
        let i = e.index as int;
        assert(loc0.slots()[i] is Some);
        let p = loc0.slots()[i]->Some_0;
        assert(alloc0.spec_is_alive(archs0[p.0 as int].1.entity_rows()[p.1 as int]));
    }
}

/// A spawn step keeps the tables consistent.
proof fn lemma_spawn_tables<V>(
    archs0: Tables<V>,
    types0: Seq<TypeId>,
    alloc0: EntityAllocator,
    loc0: EntityLocationMap,
    types1: Seq<TypeId>,
    alloc1: EntityAllocator,
    archs1: Tables<V>,
    archs2: Tables<V>,
    loc2: EntityLocationMap,
    e: EntityId,
    a: int,
    ci: Seq<usize>,
    entries: Seq<(TypeId, V)>,
)
    requires
        spawn_step(archs0, types0, alloc0, loc0, types1, alloc1, archs1, archs2, loc2, e, a, ci, entries),
    ensures
        tables_wf(archs2, types1),
{
    assert(table_wf(archs1[a], types1));
    assert forall|b: int| 0 <= b < archs2.len() implies table_wf(#[trigger] archs2[b], types1) by {
        if b != a {
            assert(archs2[b] == archs1[b]);
        } else {
            assert forall|j: int| #[trigger] archs2[a].1.has_column(j) implies archs2[a].1.column(
                j,
            ).element_type() == types1[j] by {
                assert(archs1[a].1.has_column(j));
            }
            assert forall|j: int| #[trigger] archs2[a].1.has_column(j) <==> lists(
                archs2[a].0.indices(),
                j,
            ) by {
                assert(archs1[a].1.has_column(j) == archs2[a].1.has_column(j));
            }
        }
    }
    assert forall|b: int, c: int|
        0 <= b < archs2.len() && 0 <= c < archs2.len() && b != c implies (
        #[trigger] archs2[b]).0.indices() != (#[trigger] archs2[c]).0.indices() by {
        assert(archs2[b].0 == archs1[b].0);
        assert(archs2[c].0 == archs1[c].0);
        assert(archs1[b].0.indices() != archs1[c].0.indices());
    }
}

/// A spawn step keeps every row and recorded location consistent.
proof fn lemma_spawn_locations<V>(
    archs0: Tables<V>,
    types0: Seq<TypeId>,
    alloc0: EntityAllocator,
    loc0: EntityLocationMap,
    types1: Seq<TypeId>,
    alloc1: EntityAllocator,
    archs1: Tables<V>,
    archs2: Tables<V>,
    loc2: EntityLocationMap,
    e: EntityId,
    a: int,
    ci: Seq<usize>,
    entries: Seq<(TypeId, V)>,
)
    requires
        spawn_step(archs0, types0, alloc0, loc0, types1, alloc1, archs1, archs2, loc2, e, a, ci, entries),
    ensures
        locations_wf(archs2, alloc1, loc2),
        forall|e2: EntityId| e2.index != e.index ==> loc2.spec_get(e2) == loc0.spec_get(e2),
{
    lemma_fresh_entity(archs0, alloc0, loc0, alloc1, e);
    let row = archs1[a].1.entity_rows().len() as int;
    assert forall|e2: EntityId| e2.index != e.index implies loc2.spec_get(e2) == loc0.spec_get(
        e2,
    ) by {
        let i = e2.index as int;
        if i < loc2.slots().len() {
            assert(loc2.slots()[i] == if i < loc0.slots().len() {
                loc0.slots()[i]
            } else {
                None
            });
        }
    }
    assert forall|b: int, r: int|
        0 <= b < archs2.len() && 0 <= r < archs2[b].1.entity_rows().len() implies {
        &&& alloc1.spec_is_alive(#[trigger] archs2[b].1.entity_rows()[r])
        &&& loc2.spec_get(archs2[b].1.entity_rows()[r]) matches Some(p) && p.0 == b && p.1 == r
    } by {
        if b == a && r == row {
            assert(archs2[b].1.entity_rows()[r] == e);
            let fl = alloc0.free_list();
            if fl.len() > 0 {
                assert(alloc1.free_list() == fl.drop_last());
                if alloc1.free_list().contains(e.index) {
                    let k = choose|k: int| 0 <= k < alloc1.free_list().len() && alloc1.free_list()[k] == e.index;
                    assert(fl[k] == fl[fl.len() - 1]);
                }
            } else {
                if alloc1.free_list().contains(e.index) {
                    let k = choose|k: int| 0 <= k < alloc1.free_list().len() && alloc1.free_list()[k] == e.index;
                    assert(fl[k] == e.index);
                }
            }
        } else {
            let e2 = archs2[b].1.entity_rows()[r];
            if b == a {
                assert(e2 == archs1[a].1.entity_rows()[r]);
            } else {
                assert(e2 == archs1[b].1.entity_rows()[r]);
            }
            if a >= archs0.len() {
                assert(b != a);
                assert(archs1[b] == archs0[b]);
            }
            assert(e2 == archs0[b].1.entity_rows()[r]);
            assert(e2.index != e.index);
            assert(!alloc0.free_list().contains(e2.index));
            if alloc0.free_list().len() > 0 {
                assert(alloc1.free_list() == alloc0.free_list().drop_last());
                if alloc1.free_list().contains(e2.index) {
                    let k = choose|k: int| 0 <= k < alloc1.free_list().len() && alloc1.free_list()[k] == e2.index;
                    assert(alloc0.free_list()[k] == e2.index);
                }
            }
        }
    }
    assert forall|i: int| 0 <= i < loc2.slots().len() && (#[trigger] loc2.slots()[i]) is Some implies {
        let p = loc2.slots()[i]->Some_0;
        &&& p.0 < archs2.len()
        &&& p.1 < archs2[p.0 as int].1.entity_rows().len()
        &&& archs2[p.0 as int].1.entity_rows()[p.1 as int].index == i
    } by {
        if i == e.index as int {
            assert(loc2.slots()[i] == Some((a as usize, row as usize)));
        } else {
            assert(i < loc0.slots().len());
            assert(loc0.slots()[i] is Some);
            let p = loc0.slots()[i]->Some_0;
            assert(loc2.slots()[i] == loc0.slots()[i]);
            let b = p.0 as int;
            let r = p.1 as int;
            if a >= archs0.len() {
                assert(archs1[b] == archs0[b]);
            }
            if b == a {
                assert(archs2[b].1.entity_rows()[r] == archs1[a].1.entity_rows()[r]);
            } else {
                assert(archs2[b] == archs1[b]);
            }
        }
    }
}

/// A spawn step adds `e`, which was not there, with the components
/// `entries`, and changes no other entity.
proof fn lemma_spawn_view<V>(
    archs0: Tables<V>,
    types0: Seq<TypeId>,
    alloc0: EntityAllocator,
    loc0: EntityLocationMap,
    types1: Seq<TypeId>,
    alloc1: EntityAllocator,
    archs1: Tables<V>,
    archs2: Tables<V>,
    loc2: EntityLocationMap,
    e: EntityId,
    a: int,
    ci: Seq<usize>,
    entries: Seq<(TypeId, V)>,
)
    requires
        spawn_step(archs0, types0, alloc0, loc0, types1, alloc1, archs1, archs2, loc2, e, a, ci, entries),
    ensures
        !view_of(archs0, types0, loc0).contains_key(e),
        view_of(archs2, types1, loc2) == view_of(archs0, types0, loc0).insert(
            e,
            entries_map(entries),
        ),
{
    lemma_fresh_entity(archs0, alloc0, loc0, alloc1, e);
    lemma_spawn_locations(archs0, types0, alloc0, loc0, types1, alloc1, archs1, archs2, loc2, e, a, ci, entries);
    lemma_view_registry_growth(archs0, types0, types1, loc0);
    let v0 = view_of(archs0, types1, loc0);
    let v2 = view_of(archs2, types1, loc2);
    let expected = v0.insert(e, entries_map(entries));
    let row = archs1[a].1.entity_rows().len() as int;
    assert(table_wf(archs1[a], types1));
    assert forall|e2: EntityId| #[trigger] v2.contains_key(e2) <==> expected.contains_key(e2) by {
        if e2 == e {
            assert(archs2[a].1.entity_rows()[row] == e);
        } else if e2.index == e.index {
            assert(loc2.spec_get(e2) == loc2.spec_get(e));
        } else {
            if loc0.spec_get(e2) is Some {
                let p = loc0.spec_get(e2)->Some_0;
                let i = e2.index as int;
                assert(loc0.slots()[i] is Some);
                assert(p.0 < archs0.len() && p.1 < archs0[p.0 as int].1.entity_rows().len());
                if a >= archs0.len() {
                    assert(archs1[p.0 as int] == archs0[p.0 as int]);
                }
                if p.0 as int == a {
                    assert(archs2[a].1.entity_rows()[p.1 as int] == archs1[a].1.entity_rows()[p.1 as int]);
                } else {
                    assert(archs2[p.0 as int] == archs1[p.0 as int]);
                }
            }
        }
    }
    assert forall|e2: EntityId| #[trigger] v2.contains_key(e2) implies v2[e2] == expected[e2] by {
        if e2 == e {
            let m = entries_map(entries);
            assert forall|t: TypeId| has_type_in(archs2, types1, loc2, e, t) <==> m.contains_key(t) by {
                if has_type_in(archs2, types1, loc2, e, t) {
                    let j = types1.index_of(t);
                    assert(archs1[a].1.has_column(j));
                    assert(lists(ci, j));
                    let i = choose|i: int| 0 <= i < ci.len() && ci[i] as int == j;
                    assert(entry_types(entries)[i] == t);
                }
                if m.contains_key(t) {
                    let i = choose|i: int| 0 <= i < entry_types(entries).len() && entry_types(entries)[i] == t;
                    assert(types1[ci[i] as int] == t);
                    lemma_index_of_unique(types1, ci[i] as int);
                    assert(lists(ci, ci[i] as int));
                    assert(archs2[a].1.has_column(ci[i] as int) == archs1[a].1.has_column(ci[i] as int));
                }
            }
            assert forall|t: TypeId| #[trigger] m.contains_key(t) implies value_in(archs2, types1, loc2, e, t) == m[t] by {
                let i = choose|i: int| 0 <= i < entry_types(entries).len() && entry_types(entries)[i] == t;
                assert(types1[ci[i] as int] == t);
                lemma_index_of_unique(types1, ci[i] as int);
                lemma_index_of_unique(entry_types(entries), i);
                assert(lists(ci, ci[i] as int));
                assert(archs1[a].1.has_column(ci[i] as int));
                assert(archs1[a].1.column(ci[i] as int).elements().len() == row);
            }
            let inner = Map::new(
                |t: TypeId| has_type_in(archs2, types1, loc2, e, t),
                |t: TypeId| value_in(archs2, types1, loc2, e, t),
            );
            assert(v2[e] == inner);
            assert(inner.dom() =~= m.dom());
            assert forall|t: TypeId| #[trigger] inner.contains_key(t) implies inner[t] == m[t] by {
                assert(m.contains_key(t));
            }
            assert(inner =~= m);
        } else {
            let p = loc0.spec_get(e2)->Some_0;
            let b = p.0 as int;
            let r = p.1 as int;
            assert(loc0.slots()[e2.index as int] is Some);
            if a >= archs0.len() {
                assert(archs1[b] == archs0[b]);
            }
            assert forall|t: TypeId| has_type_in(archs2, types1, loc2, e2, t) == has_type_in(
                archs0,
                types1,
                loc0,
                e2,
                t,
            ) && (has_type_in(archs2, types1, loc2, e2, t) ==> value_in(archs2, types1, loc2, e2, t)
                == value_in(archs0, types1, loc0, e2, t)) by {
                let j = types1.index_of(t);
                if b == a {
                    assert(archs2[a].1.has_column(j) == archs1[a].1.has_column(j));
                    if archs1[a].1.has_column(j) {
                        assert(lists(ci, j));
                        let i = choose|i: int| 0 <= i < ci.len() && ci[i] as int == j;
                        assert(archs2[a].1.column(ci[i] as int).elements() == archs1[a].1.column(
                            ci[i] as int,
                        ).elements().push(entries[i].1));
                    }
                } else {
                    assert(archs2[b] == archs1[b]);
                }
            }
            assert(v2[e2] =~= v0[e2]);
        }
    }
    assert(v2 =~= expected);
}

/// Replacing the value at one row of one column changes only that
/// component of that row's entity.
proof fn lemma_value_replaced<V>(
    archs: Tables<V>,
    archs2: Tables<V>,
    types: Seq<TypeId>,
    alloc: EntityAllocator,
    loc: EntityLocationMap,
    e: EntityId,
    t: TypeId,
    a: int,
    j: int,
    row: int,
)
    requires
        types.no_duplicates(),
        tables_wf(archs, types),
        locations_wf(archs, alloc, loc),
        0 <= a < archs.len(),
        0 <= j < types.len(),
        types[j] == t,
        archs[a].1.has_column(j),
        0 <= row < archs[a].1.entity_rows().len(),
        archs[a].1.entity_rows()[row] == e,
        archs2.len() == archs.len(),
        forall|k: int| 0 <= k < archs.len() && k != a ==> archs2[k] == archs[k],
        archs2[a].0 == archs[a].0,
        archs2[a].1.entity_rows() == archs[a].1.entity_rows(),
        archs2[a].1.columns().len() == archs[a].1.columns().len(),
        forall|x: int|
            0 <= x < archs[a].1.columns().len() && x != j ==> archs2[a].1.columns()[x]
                == archs[a].1.columns()[x],
        archs2[a].1.has_column(j),
        archs2[a].1.column(j).element_type() == archs[a].1.column(j).element_type(),
        archs2[a].1.column(j).elements() == archs[a].1.column(j).elements().update(
            row,
            archs2[a].1.column(j).elements()[row],
        ),
    ensures
        tables_wf(archs2, types),
        locations_wf(archs2, alloc, loc),
        storage_upto(archs2, archs2.len() as int) == storage_upto(archs, archs.len() as int),
        view_of(archs, types, loc).contains_key(e),
        view_of(archs, types, loc)[e].contains_key(t),
        view_of(archs, types, loc)[e][t] == archs[a].1.column(j).elements()[row],
        view_of(archs2, types, loc) == view_of(archs, types, loc).insert(
            e,
            view_of(archs, types, loc)[e].insert(t, archs2[a].1.column(j).elements()[row]),
        ),
{
    let v = archs2[a].1.column(j).elements()[row];
    let t1 = archs[a].1;
    let t2 = archs2[a].1;
    lemma_index_of_unique(types, j);
    assert(table_wf(archs[a], types));
    assert forall|x: int| #[trigger] t2.has_column(x) == t1.has_column(x) by {
        if x != j && 0 <= x < t1.columns().len() {
            assert(t2.columns()[x] == t1.columns()[x]);
        }
    }
    assert forall|x: int| #[trigger] t2.has_column(x) implies t2.column(x).elements().len()
        == t2.entity_rows().len() && t2.column(x).element_type() == t1.column(x).element_type() by {
        if x != j {
            assert(t2.columns()[x] == t1.columns()[x]);
        }
    }
    assert forall|b: int| 0 <= b < archs2.len() implies table_wf(#[trigger] archs2[b], types) by {
        if b != a {
            assert(archs2[b] == archs[b]);
        } else {
            assert(archs2[a].1.wf());
        }
    }
    assert forall|b: int, c: int|
        0 <= b < archs2.len() && 0 <= c < archs2.len() && b != c implies (
        #[trigger] archs2[b]).0.indices() != (#[trigger] archs2[c]).0.indices() by {
        assert(archs2[b].0 == archs[b].0);
        assert(archs2[c].0 == archs[c].0);
    }
    assert forall|b: int, r: int|
        0 <= b < archs2.len() && 0 <= r < archs2[b].1.entity_rows().len() implies
        archs2[b].1.entity_rows()[r] == archs[b].1.entity_rows()[r] by {
        if b != a {
            assert(archs2[b] == archs[b]);
        }
    }
    assert forall|b: int| 0 <= b < archs2.len() implies #[trigger] archs2[b].1.entity_rows()
        == archs[b].1.entity_rows() by {
        if b != a {
            assert(archs2[b] == archs[b]);
        }
    }
    lemma_storage_same_rows(archs, archs2, archs.len() as int);
    let v0 = view_of(archs, types, loc);
    let v2 = view_of(archs2, types, loc);
    assert(loc.spec_get(e) == Some((a as usize, row as usize)));
    assert(located_in(archs, loc, e));
    assert(has_type_in(archs, types, loc, e, t));
    let expected = v0.insert(e, v0[e].insert(t, v));
    assert forall|e2: EntityId| #[trigger] v2.contains_key(e2) <==> expected.contains_key(e2) by {
        if loc.spec_get(e2) is Some {
            let p = loc.spec_get(e2)->Some_0;
            if p.0 < archs.len() {
                assert(archs2[p.0 as int].1.entity_rows() == archs[p.0 as int].1.entity_rows());
            }
        }
    }
    assert forall|e2: EntityId| #[trigger] v2.contains_key(e2) implies v2[e2] == expected[e2] by {
        let p = loc.spec_get(e2)->Some_0;
        let b = p.0 as int;
        let r = p.1 as int;
        assert(archs2[b].1.entity_rows() == archs[b].1.entity_rows());
        let inner2 = Map::new(
            |t2: TypeId| has_type_in(archs2, types, loc, e2, t2),
            |t2: TypeId| value_in(archs2, types, loc, e2, t2),
        );
        let inner0 = Map::new(
            |t2: TypeId| has_type_in(archs, types, loc, e2, t2),
            |t2: TypeId| value_in(archs, types, loc, e2, t2),
        );
        assert(v2[e2] == inner2);
        assert(v0[e2] == inner0);
        if b != a {
            assert(archs2[b] == archs[b]);
            assert(inner2 =~= inner0);
        } else if e2 != e {
            assert(r != row);
            assert forall|t2: TypeId| #[trigger] inner2.contains_key(t2) implies inner2[t2]
                == inner0[t2] by {
                let x = types.index_of(t2);
                if x != j {
                    assert(archs2[a].1.columns()[x] == archs[a].1.columns()[x]);
                }
            }
            assert(inner2 =~= inner0);
        } else {
            assert forall|t2: TypeId| #[trigger] inner2.contains_key(t2) implies inner2[t2]
                == v0[e].insert(t, v)[t2] by {
                let x = types.index_of(t2);
                if x != j {
                    assert(archs2[a].1.columns()[x] == archs[a].1.columns()[x]);
                } else {
                    assert(types.contains(t2));
                    let y = choose|y: int| 0 <= y < types.len() && types[y] == t2;
                    lemma_index_of_unique(types, y);
                }
            }
            assert forall|t2: TypeId| #[trigger] inner2.contains_key(t2) <==> v0[e].insert(
                t,
                v,
            ).contains_key(t2) by {}
            assert(inner2 =~= v0[e].insert(t, v));
        }
    }
    assert(v2 =~= expected);
}

/// Tables with the same rows list the same entities in storage order.
proof fn lemma_storage_same_rows<V>(archs: Tables<V>, archs2: Tables<V>, n: int)
    requires
        archs2.len() == archs.len(),
        0 <= n <= archs.len(),
        forall|b: int| 0 <= b < archs2.len() ==> #[trigger] archs2[b].1.entity_rows()
            == archs[b].1.entity_rows(),
    ensures
        storage_upto(archs2, n) == storage_upto(archs, n),
    decreases n,
{
    if n > 0 {
        lemma_storage_same_rows(archs, archs2, n - 1);
        assert(archs2[n - 1].1.entity_rows() == archs[n - 1].1.entity_rows());
    }
}

/// The facts a despawn step relies on: `e`, at row `row` of table `a`, is
/// removed by moving the last row of that table into its place.
spec fn despawn_step<V>(
    archs0: Tables<V>,
    types: Seq<TypeId>,
    alloc0: EntityAllocator,
    loc0: EntityLocationMap,
    archs1: Tables<V>,
    alloc1: EntityAllocator,
    loc1: EntityLocationMap,
    e: EntityId,
    a: int,
    row: int,
) -> bool {
    let rows = archs0[a].1.entity_rows();
    let last = rows.len() - 1;
    let moved = rows[last];
    let t0 = archs0[a].1;
    let t1 = archs1[a].1;
    &&& types.no_duplicates()
    &&& alloc0.wf()
    &&& alloc0.free_list().no_duplicates()
    &&& tables_wf(archs0, types)
    &&& locations_wf(archs0, alloc0, loc0)
    &&& 0 <= a < archs0.len()
    &&& 0 <= row < rows.len()
    &&& rows[row] == e
    &&& e.generation < u32::MAX
    &&& archs1.len() == archs0.len()
    &&& forall|k: int| 0 <= k < archs0.len() && k != a ==> archs1[k] == archs0[k]
    &&& archs1[a].0 == archs0[a].0
    &&& t1.wf()
    &&& t1.entity_rows() == rows.update(row, rows.last()).drop_last()
    &&& t1.columns().len() == t0.columns().len()
    &&& forall|j: int| #[trigger] t1.has_column(j) == t0.has_column(j)
    &&& forall|j: int| #[trigger]
        t0.has_column(j) ==> {
            &&& t1.column(j).element_type() == t0.column(j).element_type()
            &&& t1.column(j).elements() == t0.column(j).elements().update(
                row,
                t0.column(j).elements().last(),
            ).drop_last()
        }
    &&& loc1.slots().len() == loc0.slots().len()
    &&& forall|i: int|
        0 <= i < loc0.slots().len() ==> #[trigger] loc1.slots()[i] == if i == e.index as int {
            None
        } else if row != last && i == moved.index as int {
            Some((a as usize, row as usize))
        } else {
            loc0.slots()[i]
        }
    &&& deallocated(&alloc0, e, &alloc1)
}

/// A despawn step keeps the world consistent and removes exactly `e`.
proof fn lemma_despawn<V>(
    archs0: Tables<V>,
    types: Seq<TypeId>,
    alloc0: EntityAllocator,
    loc0: EntityLocationMap,
    archs1: Tables<V>,
    alloc1: EntityAllocator,
    loc1: EntityLocationMap,
    e: EntityId,
    a: int,
    row: int,
)
    requires
        despawn_step(archs0, types, alloc0, loc0, archs1, alloc1, loc1, e, a, row),
    ensures
        tables_wf(archs1, types),
        locations_wf(archs1, alloc1, loc1),
        alloc1.free_list().no_duplicates(),
        view_of(archs1, types, loc1) == view_of(archs0, types, loc0).remove(e),
        forall|e2: EntityId|
            view_of(archs0, types, loc0).contains_key(e2) && e2 != e ==> (#[trigger] loc1.spec_get(
                e2,
            ))->Some_0.0 == loc0.spec_get(e2)->Some_0.0,
{
    let rows = archs0[a].1.entity_rows();
    let last = rows.len() - 1;
    let moved = rows[last];
    let t0 = archs0[a].1;
    let t1 = archs1[a].1;
    assert(alloc0.spec_is_alive(e));
    assert(!alloc0.free_list().contains(e.index));
    assert(loc0.spec_get(e) == Some((a as usize, row as usize)));
    assert(loc0.spec_get(moved) == Some((a as usize, last as usize)));
    assert(row != last ==> moved.index != e.index);
    // the tables
    assert(table_wf(archs0[a], types));
    assert forall|b: int| 0 <= b < archs1.len() implies table_wf(#[trigger] archs1[b], types) by {
        if b != a {
            assert(archs1[b] == archs0[b]);
        } else {
            assert forall|j: int| #[trigger] t1.has_column(j) implies t1.column(j).element_type()
                == types[j] by {
                assert(t0.has_column(j));
            }
            assert forall|j: int| #[trigger] t1.has_column(j) <==> lists(archs1[a].0.indices(), j) by {
                assert(t1.has_column(j) == t0.has_column(j));
            }
        }
    }
    assert forall|b: int, c: int|
        0 <= b < archs1.len() && 0 <= c < archs1.len() && b != c implies (
        #[trigger] archs1[b]).0.indices() != (#[trigger] archs1[c]).0.indices() by {
        assert(archs1[b].0 == archs0[b].0);
        assert(archs1[c].0 == archs0[c].0);
    }
    // where each remaining entity was and is
    assert forall|b: int, r: int|
        0 <= b < archs1.len() && 0 <= r < archs1[b].1.entity_rows().len() implies {
        let e2 = #[trigger] archs1[b].1.entity_rows()[r];
        &&& e2 != e
        &&& e2.index != e.index
        &&& (b == a && r == row) ==> e2 == moved
        &&& !(b == a && r == row) ==> e2 == archs0[b].1.entity_rows()[r]
        &&& !(b == a && r == row) ==> (b != a || r != last)
    } by {
        if b != a {
            assert(archs1[b] == archs0[b]);
            assert(archs0[b].1.entity_rows()[r].index != e.index) by {
                let e2 = archs0[b].1.entity_rows()[r];
                assert(loc0.spec_get(e2) matches Some(p) && p.0 == b && p.1 == r);
            }
        } else if r == row {
            assert(t1.entity_rows()[r] == moved);
            assert(row != last);
        } else {
            assert(t1.entity_rows()[r] == rows[r]);
            let e2 = rows[r];
            assert(loc0.spec_get(e2) matches Some(p) && p.0 == a && p.1 == r);
        }
    }
    assert(deallocated(&alloc0, e, &alloc1));
    assert(alloc1.free_list() == alloc0.free_list().push(e.index));
    assert(alloc1.free_list().no_duplicates()) by {
        let fl = alloc1.free_list();
        assert forall|x: int, y: int| 0 <= x < fl.len() && 0 <= y < fl.len() && x != y implies fl[x] != fl[y] by {
            if x < fl.len() - 1 && y < fl.len() - 1 {
                assert(alloc0.free_list()[x] == fl[x] && alloc0.free_list()[y] == fl[y]);
            } else if x < fl.len() - 1 {
                assert(alloc0.free_list()[x] == fl[x]);
                assert(alloc0.free_list().contains(fl[x]));
            } else if y < fl.len() - 1 {
                assert(alloc0.free_list()[y] == fl[y]);
                assert(alloc0.free_list().contains(fl[y]));
            }
        }
    }
    assert forall|e2: EntityId| e2.index != e.index && !(row != last && e2.index == moved.index) implies
        #[trigger] loc1.spec_get(e2) == loc0.spec_get(e2) by {
        if (e2.index as int) < loc0.slots().len() {
            assert(loc1.slots()[e2.index as int] == loc0.slots()[e2.index as int]);
        }
    }
    assert(row != last ==> loc1.spec_get(moved) == Some((a as usize, row as usize))) by {
        if row != last {
            assert(loc1.slots()[moved.index as int] == Some((a as usize, row as usize)));
        }
    }
    assert forall|b: int, r: int|
        0 <= b < archs1.len() && 0 <= r < archs1[b].1.entity_rows().len() implies {
        &&& alloc1.spec_is_alive(#[trigger] archs1[b].1.entity_rows()[r])
        &&& !alloc1.free_list().contains(archs1[b].1.entity_rows()[r].index)
        &&& loc1.spec_get(archs1[b].1.entity_rows()[r]) matches Some(p) && p.0 == b && p.1 == r
    } by {
        let e2 = archs1[b].1.entity_rows()[r];
        if b == a && r == row {
            assert(e2 == moved);
        } else {
            assert(e2 == archs0[b].1.entity_rows()[r]);
            if row != last && e2.index == moved.index {
                assert(loc0.spec_get(e2) matches Some(p) && p.0 == b && p.1 == r);
                assert(loc0.spec_get(e2) == loc0.spec_get(moved));
            }
        }
        if alloc1.free_list().contains(e2.index) {
            let k = choose|k: int| 0 <= k < alloc1.free_list().len() && alloc1.free_list()[k] == e2.index;
            if k < alloc0.free_list().len() {
                assert(alloc0.free_list()[k] == e2.index);
            }
        }
    }
    assert forall|i: int| 0 <= i < loc1.slots().len() && (#[trigger] loc1.slots()[i]) is Some implies {
        let p = loc1.slots()[i]->Some_0;
        &&& p.0 < archs1.len()
        &&& p.1 < archs1[p.0 as int].1.entity_rows().len()
        &&& archs1[p.0 as int].1.entity_rows()[p.1 as int].index == i
    } by {
        if row != last && i == moved.index as int {
            assert(t1.entity_rows()[row] == moved);
        } else {
            assert(i != e.index as int);
            assert(loc1.slots()[i] == loc0.slots()[i]);
            let p = loc0.slots()[i]->Some_0;
            let b = p.0 as int;
            let r = p.1 as int;
            if b == a {
                if r == last {
                    assert(rows[last].index == i);
                    assert(r == row);
                    assert(rows[r].index == e.index);
                } else {
                    assert(r != row);
                    assert(t1.entity_rows()[r] == rows[r]);
                }
            } else {
                assert(archs1[b] == archs0[b]);
            }
        }
    }
    // the view
    let v0 = view_of(archs0, types, loc0);
    let v1 = view_of(archs1, types, loc1);
    let expected = v0.remove(e);
    assert forall|e2: EntityId| #[trigger] v1.contains_key(e2) <==> expected.contains_key(e2) by {
        if e2 == e {
            assert(loc1.spec_get(e) is None) by {
                assert(loc1.slots()[e.index as int] is None);
            }
        } else if e2.index == e.index {
            if loc0.spec_get(e2) is Some {
                assert(loc0.slots()[e.index as int] is Some);
            }
            assert(loc1.spec_get(e2) is None) by {
                assert(loc1.slots()[e.index as int] is None);
            }
        } else if row != last && e2.index == moved.index {
            if e2 != moved {
                assert(!located_in(archs0, loc0, e2));
                assert(t1.entity_rows()[row] == moved);
            } else {
                assert(t1.entity_rows()[row] == moved);
            }
        } else {
            assert(loc1.spec_get(e2) == loc0.spec_get(e2));
            if loc0.spec_get(e2) is Some {
                let p = loc0.spec_get(e2)->Some_0;
                let b = p.0 as int;
                let r = p.1 as int;
                if b < archs0.len() && r < archs0[b].1.entity_rows().len() && archs0[b].1.entity_rows()[r] == e2 {
                    if b == a {
                        assert(r != row);
                        assert(r != last);
                        assert(t1.entity_rows()[r] == rows[r]);
                    } else {
                        assert(archs1[b] == archs0[b]);
                    }
                }
                if b < archs1.len() && r < archs1[b].1.entity_rows().len() && archs1[b].1.entity_rows()[r] == e2 {
                    if b == a && r == row {
                        assert(e2 == moved);
                    }
                }
            }
        }
    }
    assert forall|e2: EntityId| #[trigger] v1.contains_key(e2) implies v1[e2] == expected[e2] by {
        let p1 = loc1.spec_get(e2)->Some_0;
        let p0 = loc0.spec_get(e2)->Some_0;
        let inner1 = Map::new(
            |t: TypeId| has_type_in(archs1, types, loc1, e2, t),
            |t: TypeId| value_in(archs1, types, loc1, e2, t),
        );
        let inner0 = Map::new(
            |t: TypeId| has_type_in(archs0, types, loc0, e2, t),
            |t: TypeId| value_in(archs0, types, loc0, e2, t),
        );
        assert(v1[e2] == inner1);
        assert(v0[e2] == inner0);
        assert(e2 != e);
        if row != last && e2 == moved {
            assert(p1 == (a as usize, row as usize));
            assert(p0 == (a as usize, last as usize));
            assert forall|t: TypeId| #[trigger] inner1.contains_key(t) == inner0.contains_key(t) by {
                let j = types.index_of(t);
                assert(t1.has_column(j) == t0.has_column(j));
            }
            assert forall|t: TypeId| #[trigger] inner1.contains_key(t) implies inner1[t] == inner0[t] by {
                let j = types.index_of(t);
                assert(t0.has_column(j));
                assert(t0.column(j).elements().len() == rows.len());
            }
        } else {
            assert(e2.index != e.index);
            assert(loc1.spec_get(e2) == loc0.spec_get(e2));
            let b = p0.0 as int;
            let r = p0.1 as int;
            if b == a {
                assert(r != row && r != last);
                assert forall|t: TypeId| #[trigger] inner1.contains_key(t) == inner0.contains_key(t) by {
                    let j = types.index_of(t);
                    assert(t1.has_column(j) == t0.has_column(j));
                }
                assert forall|t: TypeId| #[trigger] inner1.contains_key(t) implies inner1[t] == inner0[t] by {
                    let j = types.index_of(t);
                    assert(t0.has_column(j));
                    assert(t0.column(j).elements().len() == rows.len());
                }
            } else {
                assert(archs1[b] == archs0[b]);
            }
        }
        assert(inner1 =~= inner0);
    }
    assert(v1 =~= expected);
    assert forall|e2: EntityId|
        v0.contains_key(e2) && e2 != e implies (#[trigger] loc1.spec_get(e2))->Some_0.0
        == loc0.spec_get(e2)->Some_0.0 by {
        if row != last && e2.index == moved.index {
            assert(e2 == moved) by {
                assert(loc0.spec_get(e2) == loc0.spec_get(moved));
            }
        } else {
            if e2.index == e.index {
                assert(loc0.spec_get(e2) == loc0.spec_get(e));
            }
        }
    }
}

/// Where a spawn step puts `e`, and what it leaves in place: the types of
/// every old table, and the location of every old entity.
proof fn lemma_spawn_placement<V>(
    archs0: Tables<V>,
    types0: Seq<TypeId>,
    alloc0: EntityAllocator,
    loc0: EntityLocationMap,
    types1: Seq<TypeId>,
    alloc1: EntityAllocator,
    archs1: Tables<V>,
    archs2: Tables<V>,
    loc2: EntityLocationMap,
    e: EntityId,
    a: int,
    ci: Seq<usize>,
    entries: Seq<(TypeId, V)>,
)
    requires
        spawn_step(archs0, types0, alloc0, loc0, types1, alloc1, archs1, archs2, loc2, e, a, ci, entries),
    ensures
        types_of_table(archs2[a].1, types1) == entries_map(entries).dom(),
        forall|b: int|
            0 <= b < archs0.len() ==> #[trigger] types_of_table(archs2[b].1, types1)
                == types_of_table(archs0[b].1, types0),
        a == archs0.len() ==> forall|b: int|
            0 <= b < archs0.len() ==> types_of_table(archs0[b].1, types0) != entries_map(
                entries,
            ).dom(),
        forall|e2: EntityId|
            #[trigger] view_of(archs0, types0, loc0).contains_key(e2) ==> loc2.spec_get(e2)
                == loc0.spec_get(e2),
{
    lemma_fresh_entity(archs0, alloc0, loc0, alloc1, e);
    lemma_spawn_locations(archs0, types0, alloc0, loc0, types1, alloc1, archs1, archs2, loc2, e, a, ci, entries);
    lemma_spawn_view(archs0, types0, alloc0, loc0, types1, alloc1, archs1, archs2, loc2, e, a, ci, entries);
    let m = entries_map(entries);
    let v2 = view_of(archs2, types1, loc2);
    assert(loc2.spec_get(e) == Some((a as usize, archs1[a].1.entity_rows().len() as usize)));
    assert(v2.contains_key(e));
    assert(types_of_table(archs2[a].1, types1) =~= v2[e].dom());
    assert(types0.no_duplicates());
    assert forall|b: int| 0 <= b < archs0.len() implies #[trigger] types_of_table(archs2[b].1, types1)
        == types_of_table(archs0[b].1, types0) by {
        assert(archs1[b] == archs0[b]);
        assert(table_wf(archs0[b], types0));
        assert forall|t: TypeId| types_of_table(archs2[b].1, types1).contains(t)
            == types_of_table(archs0[b].1, types0).contains(t) by {
            let j = types1.index_of(t);
            if b == a {
                assert(archs2[a].1.has_column(j) == archs1[a].1.has_column(j));
            } else {
                assert(archs2[b] == archs1[b]);
            }
            if types0.contains(t) {
                let k = choose|k: int| 0 <= k < types0.len() && types0[k] == t;
                assert(types1[k] == t);
                lemma_index_of_unique(types0, k);
                lemma_index_of_unique(types1, k);
            } else if types1.contains(t) {
                let k = choose|k: int| 0 <= k < types1.len() && types1[k] == t;
                lemma_index_of_unique(types1, k);
                if k < types0.len() {
                    assert(types0[k] == t);
                }
                assert(!archs0[b].1.has_column(k));
            }
        }
        assert(types_of_table(archs2[b].1, types1) =~= types_of_table(archs0[b].1, types0));
    }
    if a == archs0.len() {
        assert forall|b: int| 0 <= b < archs0.len() implies types_of_table(archs0[b].1, types0)
            != m.dom() by {
            if types_of_table(archs0[b].1, types0) == m.dom() {
                assert(table_wf(archs0[b], types0));
                assert(table_wf(archs1[a], types1));
                assert(archs1[b] == archs0[b]);
                assert forall|j: int| lists(archs0[b].0.indices(), j) <==> lists(archs1[a].0.indices(), j) by {
                    if lists(archs0[b].0.indices(), j) {
                        assert(archs0[b].1.has_column(j));
                        let t = types0[j];
                        lemma_index_of_unique(types0, j);
                        assert(types0.contains(t));
                        assert(types_of_table(archs0[b].1, types0).contains(t));
                        let i = choose|i: int| 0 <= i < entry_types(entries).len() && entry_types(entries)[i] == t;
                        assert(types1[ci[i] as int] == t);
                        assert(types1[j] == t);
                        lemma_index_of_unique(types1, j);
                        lemma_index_of_unique(types1, ci[i] as int);
                        assert(lists(ci, j));
                    }
                    if lists(archs1[a].0.indices(), j) {
                        assert(lists(ci, j));
                        let i = choose|i: int| 0 <= i < ci.len() && ci[i] as int == j;
                        let t = entries[i].0;
                        assert(entry_types(entries)[i] == t);
                        assert(m.dom().contains(t));
                        assert(types_of_table(archs0[b].1, types0).contains(t));
                        let x = types0.index_of(t);
                        let k = choose|k: int| 0 <= k < types0.len() && types0[k] == t;
                        lemma_index_of_unique(types0, k);
                        assert(types1[k] == t);
                        assert(types1[j] == t);
                        lemma_index_of_unique(types1, k);
                        lemma_index_of_unique(types1, j);
                        assert(archs0[b].1.has_column(x));
                    }
                }
                lemma_strictly_sorted_unique(archs0[b].0.indices(), archs1[a].0.indices());
                assert(archs1[b].0.indices() != archs1[a].0.indices());
            }
        }
    }
    assert forall|e2: EntityId| #[trigger] view_of(archs0, types0, loc0).contains_key(e2) implies loc2.spec_get(e2)
        == loc0.spec_get(e2) by {
        let p = loc0.spec_get(e2)->Some_0;
        assert(archs0[p.0 as int].1.entity_rows()[p.1 as int] == e2);
    }
}

/// Registering more types keeps every table consistent.
proof fn lemma_tables_registry_growth<V>(archs: Tables<V>, types0: Seq<TypeId>, types1: Seq<TypeId>)
    requires
        tables_wf(archs, types0),
        types0.is_prefix_of(types1),
    ensures
        tables_wf(archs, types1),
{
    assert forall|a: int| 0 <= a < archs.len() implies table_wf(#[trigger] archs[a], types1) by {
        assert(table_wf(archs[a], types0));
        assert forall|j: int| #[trigger] archs[a].1.has_column(j) implies archs[a].1.column(
            j,
        ).element_type() == types1[j] by {
            assert(types0[j] == types1[j]);
        }
    }
}

/// Registering more types changes no entity's components.
proof fn lemma_view_registry_growth<V>(
    archs: Tables<V>,
    types0: Seq<TypeId>,
    types1: Seq<TypeId>,
    loc: EntityLocationMap,
)
    requires
        tables_wf(archs, types0),
        types0.is_prefix_of(types1),
        types1.no_duplicates(),
    ensures
        view_of(archs, types1, loc) == view_of(archs, types0, loc),
{
    let v0 = view_of(archs, types0, loc);
    let v1 = view_of(archs, types1, loc);
    assert forall|e: EntityId| #[trigger] v1.contains_key(e) implies v1[e] == v0[e] by {
        let a = loc.spec_get(e)->Some_0.0 as int;
        assert(table_wf(archs[a], types0));
        assert forall|t: TypeId| has_type_in(archs, types1, loc, e, t) == has_type_in(
            archs,
            types0,
            loc,
            e,
            t,
        ) && (has_type_in(archs, types1, loc, e, t) ==> value_in(archs, types1, loc, e, t)
            == value_in(archs, types0, loc, e, t)) by {
            if types0.contains(t) {
                let j = choose|j: int| 0 <= j < types0.len() && types0[j] == t;
                assert(types1[j] == t);
                assert(types0.no_duplicates()) by {
                    assert forall|x: int, y: int|
                        0 <= x < types0.len() && 0 <= y < types0.len() && x != y implies types0[x]
                        != types0[y] by {
                        assert(types1[x] == types0[x] && types1[y] == types0[y]);
                    }
                }
                lemma_index_of_unique(types0, j);
                lemma_index_of_unique(types1, j);
            } else if types1.contains(t) {
                let j = choose|j: int| 0 <= j < types1.len() && types1[j] == t;
                lemma_index_of_unique(types1, j);
                if j < types0.len() {
                    assert(types0[j] == t);
                }
                assert(!archs[a].1.has_column(j));
            }
        }
        assert(v1[e] =~= v0[e]);
    }
    assert(v1 =~= v0);
}

/// The entities of the first `n` tables are exactly the located entities
/// of those tables, each once.
proof fn lemma_storage_upto_contents<V>(
    archs: Tables<V>,
    alloc: EntityAllocator,
    loc: EntityLocationMap,
    n: int,
)
    requires
        locations_wf(archs, alloc, loc),
        0 <= n <= archs.len(),
    ensures
        storage_upto(archs, n).no_duplicates(),
        forall|e: EntityId|
            #[trigger] storage_upto(archs, n).contains(e) <==> (located_in(archs, loc, e)
                && loc.spec_get(e)->Some_0.0 < n),
    decreases n,
{
    if n > 0 {
        lemma_storage_upto_contents(archs, alloc, loc, n - 1);
        let prev = storage_upto(archs, n - 1);
        let rows = archs[n - 1].1.entity_rows();
        let s = storage_upto(archs, n);
        assert(s == prev + rows);
        assert forall|e: EntityId| #[trigger] s.contains(e) <==> (located_in(archs, loc, e)
            && loc.spec_get(e)->Some_0.0 < n) by {
            if s.contains(e) {
                let k = choose|k: int| 0 <= k < s.len() && s[k] == e;
                if k >= prev.len() {
                    assert(rows[k - prev.len()] == e);
                } else {
                    assert(prev[k] == e);
                    assert(prev.contains(e));
                }
            }
            if located_in(archs, loc, e) && loc.spec_get(e)->Some_0.0 < n {
                let p = loc.spec_get(e)->Some_0;
                if p.0 == n - 1 {
                    assert(s[prev.len() + p.1] == e);
                } else {
                    assert(prev.contains(e));
                    let k = choose|k: int| 0 <= k < prev.len() && prev[k] == e;
                    assert(s[k] == e);
                }
            }
        }
        assert forall|x: int, y: int| 0 <= x < s.len() && 0 <= y < s.len() && x != y implies s[x]
            != s[y] by {
            if x >= prev.len() && y >= prev.len() {
                let rx = x - prev.len();
                let ry = y - prev.len();
                assert(s[x] == archs[n - 1].1.entity_rows()[rx]);
                assert(s[y] == archs[n - 1].1.entity_rows()[ry]);
            } else if x < prev.len() && y >= prev.len() {
                assert(s[y] == archs[n - 1].1.entity_rows()[y - prev.len()]);
                assert(prev.contains(s[x]));
            } else if x >= prev.len() && y < prev.len() {
                assert(s[x] == archs[n - 1].1.entity_rows()[x - prev.len()]);
                assert(prev.contains(s[y]));
            } else {
                assert(prev[x] == s[x] && prev[y] == s[y]);
            }
        }
    }
}

/// Storage order lists every entity of the world exactly once.
pub proof fn lemma_storage_order_contents<V>(w: &World<V>)
    requires
        w.wf(),
    ensures
        w.storage_order().no_duplicates(),
        forall|e: EntityId| #[trigger] w.storage_order().contains(e) <==> w@.contains_key(e),
{
    lemma_storage_upto_contents(
        w.archetypes@,
        w.entity_allocator,
        w.entity_location_map,
        w.archetypes@.len() as int,
    );
}

/// A query returns an entity exactly when the entity has a component of
/// every requested type: one that has `{A, B}` is returned for `{A}`, `{B}`
/// and `{A, B}`, and never for `{A, C}` when it lacks `C`.
pub proof fn lemma_query_inner_join<V>(w: &World<V>, e: EntityId, types: Seq<TypeId>)
    requires
        w.wf(),
        w@.contains_key(e),
    ensures
        w.storage_order().filter(has_all_of(w@, types)).contains(e) <==> forall|j: int|
            0 <= j < types.len() ==> w@[e].contains_key(#[trigger] types[j]),
{
    broadcast use vstd::seq_lib::group_filter_ensures;

    lemma_storage_order_contents(w);
    let s = w.storage_order();
    let pred = has_all_of(w@, types);
    assert(s.contains(e));
    let k = choose|k: int| 0 <= k < s.len() && s[k] == e;
    if pred(e) {
        assert(s.filter(pred).contains(s[k]));
    }
    if s.filter(pred).contains(e) {
        let m = choose|m: int| 0 <= m < s.filter(pred).len() && s.filter(pred)[m] == e;
        assert(pred(s.filter(pred)[m]));
    }
}

/// Spawning gives a handle that no entity already in the world has, and
/// the new entity reads back exactly the components it was given.
pub proof fn lemma_spawn_fresh_and_readable<V>(
    before: &World<V>,
    after: &World<V>,
    components: &ComponentTuple<V>,
    e: EntityId,
    other: EntityId,
)
    requires
        !before@.contains_key(e),
        after@ == before@.insert(e, components.as_map()),
        before@.contains_key(other),
    ensures
        e != other,
        after@.contains_key(other) && after@[other] == before@[other],
        after@.contains_key(e),
        forall|t: TypeId| #[trigger]
            components.as_map().contains_key(t) ==> after@[e].contains_key(t) && after@[e][t]
                == components.as_map()[t],
        forall|t: TypeId| #[trigger]
            after@[e].contains_key(t) ==> components.as_map().contains_key(t),
{
}

/// After a component is written through `get_component_mut`, a query sees
/// the new value: the entity matches the same queries as before, and in
/// its row the written type holds the written value.
pub proof fn lemma_mutation_visible<V>(
    before: &World<V>,
    after: &World<V>,
    e: EntityId,
    t: TypeId,
    v: V,
    types: Seq<TypeId>,
    j: int,
)
    requires
        before@.contains_key(e),
        before@[e].contains_key(t),
        after@ == before@.insert(e, before@[e].insert(t, v)),
        after.storage_order() == before.storage_order(),
        0 <= j < types.len(),
        types[j] == t,
    ensures
        after.storage_order().filter(has_all_of(after@, types)) == before.storage_order().filter(
            has_all_of(before@, types),
        ),
        after@[e][types[j]] == v,
{
    assert(after@[e].dom() =~= before@[e].dom());
    assert forall|x: EntityId| #[trigger] has_all(after@, x, types) == has_all(before@, x, types) by {
        if x == e {
            assert(after@[e].dom() == before@[e].dom());
        }
    }
    assert(has_all_of(after@, types) =~= has_all_of(before@, types));
}

/// The entities of the first `n` tables of `w`, table by table, row by row.
pub open spec fn tables_upto<V>(w: &World<V>, n: int) -> Seq<EntityId>
    decreases n,
{
    if n <= 0 {
        Seq::<EntityId>::empty()
    } else {
        tables_upto(w, n - 1) + w.table_rows(n - 1)
    }
}

/// Storage order is the rows of every table, table by table.
pub proof fn lemma_storage_order_by_tables<V>(w: &World<V>)
    ensures
        w.table_count() >= 0,
        w.storage_order() == tables_upto(w, w.table_count()),
{
    lemma_tables_upto_is_storage(w, w.table_count());
}

proof fn lemma_tables_upto_is_storage<V>(w: &World<V>, n: int)
    requires
        n <= w.table_count(),
    ensures
        tables_upto(w, n) == storage_upto(w.archetypes@, n),
    decreases n,
{
    if n > 0 {
        lemma_tables_upto_is_storage(w, n - 1);
    }
}

/// A spawn that puts `e` last in table `a` (an old table, or a new one
/// after the others) and moves no other row inserts `e` into storage order
/// right after the last entity of table `a`, or at the very end for a new
/// table.
pub proof fn lemma_spawn_storage_order<V>(before: &World<V>, after: &World<V>, e: EntityId, a: int)
    requires
        0 <= a <= before.table_count(),
        after.table_count() == if a == before.table_count() {
            before.table_count() + 1
        } else {
            before.table_count()
        },
        forall|b: int|
            0 <= b < before.table_count() && b != a ==> #[trigger] after.table_rows(b)
                == before.table_rows(b),
        after.table_rows(a) == if a < before.table_count() {
            before.table_rows(a)
        } else {
            Seq::<EntityId>::empty()
        }.push(e),
    ensures
        after.storage_order() == before.storage_order().insert(
            if a < before.table_count() {
                tables_upto(before, a + 1).len() as int
            } else {
                before.storage_order().len() as int
            },
            e,
        ),
{
    lemma_storage_order_by_tables(before);
    lemma_storage_order_by_tables(after);
    lemma_tables_before(before, after, a, a);
    let pos = if a < before.table_count() {
        tables_upto(before, a + 1).len() as int
    } else {
        before.storage_order().len() as int
    };
    if a == before.table_count() {
        assert(tables_upto(after, a + 1) =~= tables_upto(before, a).insert(pos, e));
    } else {
        lemma_tables_after(before, after, e, a, before.table_count());
    }
}

proof fn lemma_tables_before<V>(before: &World<V>, after: &World<V>, a: int, k: int)
    requires
        0 <= k <= a,
        a <= before.table_count(),
        forall|b: int|
            0 <= b < before.table_count() && b != a ==> #[trigger] after.table_rows(b)
                == before.table_rows(b),
    ensures
        tables_upto(after, k) == tables_upto(before, k),
    decreases k,
{
    if k > 0 {
        lemma_tables_before(before, after, a, k - 1);
        assert(after.table_rows(k - 1) == before.table_rows(k - 1));
    }
}

proof fn lemma_tables_after<V>(before: &World<V>, after: &World<V>, e: EntityId, a: int, k: int)
    requires
        0 <= a < k <= before.table_count(),
        forall|b: int|
            0 <= b < before.table_count() && b != a ==> #[trigger] after.table_rows(b)
                == before.table_rows(b),
        after.table_rows(a) == before.table_rows(a).push(e),
        tables_upto(after, a) == tables_upto(before, a),
    ensures
        tables_upto(after, k) == tables_upto(before, k).insert(
            tables_upto(before, a + 1).len() as int,
            e,
        ),
    decreases k,
{
    let pos = tables_upto(before, a + 1).len() as int;
    if k == a + 1 {
        assert(tables_upto(after, k) =~= tables_upto(before, k).insert(pos, e));
    } else {
        lemma_tables_after(before, after, e, a, k - 1);
        assert(after.table_rows(k - 1) == before.table_rows(k - 1));
        lemma_prefix_len(before, a + 1, k - 1);
        assert(tables_upto(after, k) =~= tables_upto(before, k).insert(pos, e));
    }
}

proof fn lemma_prefix_len<V>(w: &World<V>, i: int, k: int)
    requires
        0 <= i <= k,
    ensures
        tables_upto(w, i).len() <= tables_upto(w, k).len(),
    decreases k,
{
    if k > i {
        lemma_prefix_len(w, i, k - 1);
    }
}

/// An entity of the world lies in a table and row of it, and its
/// component types are exactly those of its table.
pub proof fn lemma_entity_placement<V>(w: &World<V>, e: EntityId)
    requires
        w.wf(),
        w@.contains_key(e),
    ensures
        0 <= w.archetype_of(e) < w.table_count(),
        0 <= w.row_of(e) < w.table_rows(w.archetype_of(e)).len(),
        w.table_rows(w.archetype_of(e))[w.row_of(e)] == e,
        w@[e].dom() == w.table_types(w.archetype_of(e)),
{
    assert(w@[e].dom() =~= w.table_types(w.archetype_of(e)));
}

/// No two tables have the same set of component types.
pub proof fn lemma_table_types_distinct<V>(w: &World<V>, a: int, b: int)
    requires
        w.wf(),
        0 <= a < w.table_count(),
        0 <= b < w.table_count(),
        a != b,
    ensures
        w.table_types(a) != w.table_types(b),
{
    let archs = w.archetypes@;
    let types = w.type_registry.types();
    assert(table_wf(archs[a], types));
    assert(table_wf(archs[b], types));
    if w.table_types(a) == w.table_types(b) {
        assert forall|j: int| lists(archs[a].0.indices(), j) <==> lists(archs[b].0.indices(), j) by {
            if archs[a].1.has_column(j) || archs[b].1.has_column(j) {
                lemma_index_of_unique(types, j);
                assert(types.contains(types[j]));
                if archs[a].1.has_column(j) {
                    assert(w.table_types(a).contains(types[j]));
                }
                if archs[b].1.has_column(j) {
                    assert(w.table_types(b).contains(types[j]));
                }
            }
        }
        lemma_strictly_sorted_unique(archs[a].0.indices(), archs[b].0.indices());
    }
}

/// When an entity with the same set of component types as `e1`, the last
/// row of its table, is spawned next, it goes to the same table, right
/// after `e1`, and no table is added.
pub proof fn lemma_consecutive_spawns_adjacent<V>(
    w1: &World<V>,
    w2: &World<V>,
    e1: EntityId,
    e2: EntityId,
    types: Set<TypeId>,
)
    requires
        w1.wf(),
        w1@.contains_key(e1),
        w1@[e1].dom() == types,
        w1.row_of(e1) + 1 == w1.table_rows(w1.archetype_of(e1)).len(),
        0 <= w2.archetype_of(e2) <= w1.table_count(),
        w2.table_count() == if w2.archetype_of(e2) == w1.table_count() {
            w1.table_count() + 1
        } else {
            w1.table_count()
        },
        w2.table_types(w2.archetype_of(e2)) == types,
        w2.archetype_of(e2) == w1.table_count() ==> forall|b: int|
            0 <= b < w1.table_count() ==> w1.table_types(b) != types,
        forall|b: int|
            0 <= b < w1.table_count() ==> #[trigger] w2.table_types(b) == w1.table_types(b),
        w2.row_of(e2) == if w2.archetype_of(e2) < w1.table_count() {
            w1.table_rows(w2.archetype_of(e2)).len() as int
        } else {
            0
        },
        w2.archetype_of(e1) == w1.archetype_of(e1),
        w2.row_of(e1) == w1.row_of(e1),
    ensures
        w2.archetype_of(e2) == w2.archetype_of(e1),
        w2.table_count() == w1.table_count(),
        w2.row_of(e2) == w2.row_of(e1) + 1,
{
    lemma_entity_placement(w1, e1);
    let a1 = w1.archetype_of(e1);
    let a2 = w2.archetype_of(e2);
    assert(w1.table_types(a1) == types);
    if a2 == w1.table_count() {
        assert(w1.table_types(a1) != types);
    }
    assert(w1.table_types(a2) == types);
    if a2 != a1 {
        lemma_table_types_distinct(w1, a1, a2);
    }
}

/// Each world of `worlds` comes from the one before it by a spawn that
/// returned `ids[k]`: a handle not in the world before, in it after, and
/// every entity of the world before kept.
pub open spec fn spawn_chain<V>(worlds: Seq<World<V>>, ids: Seq<EntityId>) -> bool {
    forall|k: int|
        0 <= k < ids.len() ==> !(#[trigger] worlds[k])@.contains_key(ids[k]) && worlds[k
            + 1]@.contains_key(ids[k]) && worlds[k]@.dom().subset_of(worlds[k + 1]@.dom())
}

/// Handles returned by a sequence of spawns are all distinct: each spawn
/// gives a handle not in the world before it, and keeps every entity that
/// was there.
pub proof fn lemma_spawn_sequence_unique<V>(worlds: Seq<World<V>>, ids: Seq<EntityId>)
    requires
        worlds.len() == ids.len() + 1,
        spawn_chain(worlds, ids),
    ensures
        ids.no_duplicates(),
    decreases ids.len(),
{
    if ids.len() > 0 {
        let n = ids.len() - 1;
        assert forall|k: int| 0 <= k < n implies !(#[trigger] worlds.drop_last()[k])@.contains_key(
            ids.drop_last()[k],
        ) && worlds.drop_last()[k + 1]@.contains_key(ids.drop_last()[k])
            && worlds.drop_last()[k]@.dom().subset_of(worlds.drop_last()[k + 1]@.dom()) by {
            assert(worlds.drop_last()[k] == worlds[k]);
            assert(worlds.drop_last()[k + 1] == worlds[k + 1]);
        }
        lemma_spawn_sequence_unique(worlds.drop_last(), ids.drop_last());
        lemma_spawned_stay(worlds, ids, n);
        assert forall|i: int, j: int| 0 <= i < ids.len() && 0 <= j < ids.len() && i != j implies ids[i]
            != ids[j] by {
            if i < n && j < n {
                assert(ids.drop_last()[i] == ids[i] && ids.drop_last()[j] == ids[j]);
            } else if i < n {
                assert(worlds[n]@.contains_key(ids[i]));
            } else if j < n {
                assert(worlds[n]@.contains_key(ids[j]));
            }
        }
    }
}

/// Every handle returned before step `n` is still in the world at step `n`.
proof fn lemma_spawned_stay<V>(worlds: Seq<World<V>>, ids: Seq<EntityId>, n: int)
    requires
        worlds.len() == ids.len() + 1,
        0 <= n <= ids.len(),
        spawn_chain(worlds, ids),
    ensures
        forall|i: int| 0 <= i < n ==> worlds[n]@.contains_key(#[trigger] ids[i]),
    decreases n,
{
    if n > 0 {
        lemma_spawned_stay(worlds, ids, n - 1);
        assert(worlds[n - 1]@.dom().subset_of(worlds[n]@.dom()));
        assert forall|i: int| 0 <= i < n implies worlds[n]@.contains_key(#[trigger] ids[i]) by {
            if i < n - 1 {
                assert(worlds[n - 1]@.dom().contains(ids[i]));
            }
        }
    }
}

/// Entities with the same set of component types are returned together:
/// any query returns both of them or neither.
pub proof fn lemma_same_types_queried_together<V>(
    w: &World<V>,
    e1: EntityId,
    e2: EntityId,
    types: Seq<TypeId>,
)
    requires
        w.wf(),
        w@.contains_key(e1),
        w@.contains_key(e2),
        w@[e1].dom() == w@[e2].dom(),
    ensures
        w.storage_order().filter(has_all_of(w@, types)).contains(e1) <==> w.storage_order().filter(
            has_all_of(w@, types),
        ).contains(e2),
{
    lemma_query_inner_join(w, e1, types);
    lemma_query_inner_join(w, e2, types);
    assert forall|j: int| 0 <= j < types.len() implies w@[e1].contains_key(#[trigger] types[j])
        == w@[e2].contains_key(types[j]) by {
        assert(w@[e1].dom().contains(types[j]) == w@[e2].dom().contains(types[j]));
    }
}

/// Entities with the same set of component types share one table.
pub proof fn lemma_same_types_same_archetype<V>(w: &World<V>, e1: EntityId, e2: EntityId)
    requires
        w.wf(),
        w@.contains_key(e1),
        w@.contains_key(e2),
        w@[e1].dom() == w@[e2].dom(),
    ensures
        w.archetype_of(e1) == w.archetype_of(e2),
{
    let archs = w.archetypes@;
    let types = w.type_registry.types();
    let loc = w.entity_location_map;
    let b1 = w.archetype_of(e1);
    let b2 = w.archetype_of(e2);
    assert(table_wf(archs[b1], types));
    assert(table_wf(archs[b2], types));
    assert forall|j: int| lists(archs[b1].0.indices(), j) <==> lists(archs[b2].0.indices(), j) by {
        if archs[b1].1.has_column(j) || archs[b2].1.has_column(j) {
            let t = types[j];
            lemma_index_of_unique(types, j);
            assert(types.contains(t));
            if archs[b1].1.has_column(j) {
                assert(w@[e1].dom().contains(t));
                assert(w@[e2].dom().contains(t));
            }
            if archs[b2].1.has_column(j) {
                assert(w@[e2].dom().contains(t));
                assert(w@[e1].dom().contains(t));
            }
        }
    }
    lemma_strictly_sorted_unique(archs[b1].0.indices(), archs[b2].0.indices());
}

/// Filtering a sequence on which `pred` is constantly `b` keeps all of it
/// or none of it.
pub proof fn lemma_filter_uniform<A>(s: Seq<A>, pred: spec_fn(A) -> bool, b: bool)
    requires
        forall|k: int| 0 <= k < s.len() ==> pred(#[trigger] s[k]) == b,
    ensures
        s.filter(pred) == if b {
            s
        } else {
            Seq::<A>::empty()
        },
    decreases s.len(),
{
    reveal(Seq::filter);
    if s.len() > 0 {
        lemma_filter_uniform(s.drop_last(), pred, b);
        assert(s.drop_last().push(s.last()) =~= s);
    } else {
        assert(s.filter(pred) =~= s);
    }
}

/// Writing entries into a map keeps every key it had.
proof fn lemma_overwrite_keeps_keys<V>(m: Map<TypeId, V>, entries: Seq<(TypeId, V)>, t: TypeId)
    requires
        m.contains_key(t),
    ensures
        overwrite(m, entries).contains_key(t),
    decreases entries.len(),
{
    if entries.len() > 0 {
        lemma_overwrite_keeps_keys(m, entries.drop_last(), t);
    }
}

/// In a sequence without duplicates, the index of the element at `i` is `i`.
pub proof fn lemma_index_of_unique<A>(s: Seq<A>, i: int)
    requires
        s.no_duplicates(),
        0 <= i < s.len(),
    ensures
        s.index_of(s[i]) == i,
{
    assert(s.contains(s[i]));
}

} // verus!
