use crate::type_ids::same_type;
use std::any::TypeId;
use vstd::prelude::*;

verus! {

/// Marks the entity that the scene is viewed from.
#[derive(Debug, Clone, Copy, PartialEq, Eq, Structural)]
pub struct Camera;

/// Where an entity's mesh lies in the shared vertex and index buffers.
#[derive(Debug, Clone, Copy, PartialEq, Eq, Structural)]
pub struct MeshHandle {
    pub vertex_offset: u64,
    pub index_offset: u64,
    pub vertex_count: u32,
    pub index_count: u32,
}

/// `ts` after `t` is looked up and, if absent, appended.
pub open spec fn register_one(ts: Seq<TypeId>, t: TypeId) -> Seq<TypeId> {
    if ts.contains(t) {
        ts
    } else {
        ts.push(t)
    }
}

/// `ts` after each of `ids` is registered in turn.
pub open spec fn register_all(ts: Seq<TypeId>, ids: Seq<TypeId>) -> Seq<TypeId>
    decreases ids.len(),
{
    if ids.len() == 0 {
        ts
    } else {
        register_one(register_all(ts, ids.drop_last()), ids.last())
    }
}

/// Gives each component type a dense, stable index: the position at which
/// it was first registered.
pub struct ComponentTypeIndexRegistry {
    type_to_index: Vec<TypeId>,
}

impl ComponentTypeIndexRegistry {
    /// The registered types, by index.
    pub closed spec fn types(&self) -> Seq<TypeId> {
        self.type_to_index@
    }

    pub open spec fn wf(&self) -> bool {
        self.types().no_duplicates()
    }

    pub fn new() -> (r: Self)
        ensures
            r.wf(),
            r.types() == Seq::<TypeId>::empty(),
    {
        Self { type_to_index: Vec::new() }
    }

    /// The index of `type_id`, registering it first if it is new.
    pub fn get_or_register(&mut self, type_id: TypeId) -> (r: usize)
        requires
            old(self).wf(),
        ensures
            final(self).wf(),
            final(self).types() == register_one(old(self).types(), type_id),
            r < final(self).types().len(),
            final(self).types()[r as int] == type_id,
    {
        match self.get_index(type_id) {
            Some(i) => i,
            None => {
                let index = self.type_to_index.len();
                self.type_to_index.push(type_id);
                assert(self.types().no_duplicates()) by {
                    assert forall|i: int, j: int|
                        0 <= i < self.types().len() && 0 <= j < self.types().len() && i
                            != j implies self.types()[i] != self.types()[j] by {
                        if i < index && j < index {
                            assert(old(self).types()[i] != old(self).types()[j]);
                        } else if i < index {
                            assert(old(self).types()[i] != type_id);
                        } else if j < index {
                            assert(old(self).types()[j] != type_id);
                        }
                    }
                }
                index
            },
        }
    }

    /// The index of `type_id`, or `None` if it was never registered.
    pub fn get_index(&self, type_id: TypeId) -> (r: Option<usize>)
        ensures
            match r {
                Some(i) => i < self.types().len() && self.types()[i as int] == type_id,
                None => !self.types().contains(type_id),
            },
    {
        let mut i: usize = 0;
        while i < self.type_to_index.len()
            invariant
                i <= self.types().len(),
                forall|k: int| 0 <= k < i ==> self.types()[k] != type_id,
            decreases self.types().len() - i,
        {
            if same_type(&self.type_to_index[i], &type_id) {
                return Some(i);
            }
            i = i + 1;
        }
        None
    }

    /// The number of registered types.
    pub fn len(&self) -> (r: usize)
        ensures
            r == self.types().len(),
    {
        self.type_to_index.len()
    }

    /// An empty column for the type registered at `index`.
    pub fn create_empty_column<V>(&self, index: usize) -> (r: ComponentStorage<V>)
        requires
            index < self.types().len(),
        ensures
            r.element_type() == self.types()[index as int],
            r.elements() == Seq::<V>::empty(),
    {
        ComponentStorage::new(self.type_to_index[index])
    }
}

/// A column of component values, all of the type `element_type`.
pub struct ComponentStorage<V> {
    element_type: TypeId,
    values: Vec<V>,
}

impl<V> ComponentStorage<V> {
    /// The component type this column holds.
    pub closed spec fn element_type(&self) -> TypeId {
        self.element_type
    }

    /// The values, by row.
    pub closed spec fn elements(&self) -> Seq<V> {
        self.values@
    }

    /// An empty column of `element_type`.
    pub fn new(element_type: TypeId) -> (r: Self)
        ensures
            r.element_type() == element_type,
            r.elements() == Seq::<V>::empty(),
    {
        Self { element_type, values: Vec::new() }
    }

    /// A column holding the single value `value`.
    pub fn from_value(element_type: TypeId, value: V) -> (r: Self)
        ensures
            r.element_type() == element_type,
            r.elements() == seq![value],
    {
        let mut values = Vec::new();
        values.push(value);
        proof {
            assert(values@ =~= seq![value]);
        }
        Self { element_type, values }
    }

    /// The type of the values this column holds.
    pub fn element_type_id(&self) -> (r: TypeId)
        ensures
            r == self.element_type(),
    {
        self.element_type
    }

    /// The values, by row.
    pub fn values(&self) -> (r: &Vec<V>)
        ensures
            r@ == self.elements(),
    {
        &self.values
    }

    /// The values, by row, for writing; the column keeps its type.
    pub fn values_mut(&mut self) -> (r: &mut Vec<V>)
        ensures
            r@ == old(self).elements(),
            final(self).element_type() == old(self).element_type(),
            final(self).elements() == final(r)@,
    {
        &mut self.values
    }

    /// The number of rows.
    pub fn len(&self) -> (r: usize)
        ensures
            r == self.elements().len(),
    {
        self.values.len()
    }

    /// The value at `row`.
    pub fn get(&self, row: usize) -> (r: Option<&V>)
        ensures
            row < self.elements().len() ==> r == Some(&self.elements()[row as int]),
            row >= self.elements().len() ==> r is None,
    {
        if row < self.values.len() {
            Some(&self.values[row])
        } else {
            None
        }
    }

    /// The value at `row`, for writing.
    pub fn get_mut(&mut self, row: usize) -> (r: Option<&mut V>)
        ensures
            final(self).element_type() == old(self).element_type(),
            row < old(self).elements().len() ==> {
                &&& r is Some
                &&& *r->Some_0 == old(self).elements()[row as int]
                &&& final(self).elements() == old(self).elements().update(
                    row as int,
                    *final(r->Some_0),
                )
            },
            row >= old(self).elements().len() ==> r is None && *final(self) == *old(self),
    {
        if row < self.values.len() {
            Some(&mut self.values[row])
        } else {
            None
        }
    }

    /// Removes the value at `row`, moving the last value into its place.
    pub fn swap_remove(&mut self, row: usize) -> (r: V)
        requires
            row < old(self).elements().len(),
        ensures
            r == old(self).elements()[row as int],
            final(self).element_type() == old(self).element_type(),
            final(self).elements() == old(self).elements().update(
                row as int,
                old(self).elements().last(),
            ).drop_last(),
    {
        self.values.swap_remove(row)
    }

    /// Moves the first value of `other`, a column of the same type, to the
    /// end of this column.
    pub fn push_from_other(&mut self, other: &mut ComponentStorage<V>)
        requires
            old(other).element_type() == old(self).element_type(),
            old(other).elements().len() > 0,
        ensures
            final(self).element_type() == old(self).element_type(),
            final(self).elements() == old(self).elements().push(old(other).elements()[0]),
            final(other).element_type() == old(other).element_type(),
            final(other).elements() == old(other).elements().drop_first(),
    {
        let value = other.values.remove(0);
        self.values.push(value);
        proof {
            assert(other.values@ =~= old(other).elements().drop_first());
        }
    }
}

/// The initial components of one entity: a value for each of a set of
/// distinct component types, in the order given.
pub struct ComponentTuple<V> {
    components: Vec<(TypeId, V)>,
}

/// The type identities of `entries`, in order.
pub open spec fn entry_types<V>(entries: Seq<(TypeId, V)>) -> Seq<TypeId> {
    entries.map_values(|p: (TypeId, V)| p.0)
}

/// `entries` as a map from type to value.
pub open spec fn entries_map<V>(entries: Seq<(TypeId, V)>) -> Map<TypeId, V> {
    Map::new(
        |t: TypeId| entry_types(entries).contains(t),
        |t: TypeId| entries[entry_types(entries).index_of(t)].1,
    )
}

impl<V> ComponentTuple<V> {
    /// The (type, value) pairs, in the order given.
    pub closed spec fn entries(&self) -> Seq<(TypeId, V)> {
        self.components@
    }

    pub open spec fn type_ids(&self) -> Seq<TypeId> {
        entry_types(self.entries())
    }

    pub open spec fn wf(&self) -> bool {
        self.type_ids().no_duplicates()
    }

    /// The components as a map from type to value.
    pub open spec fn as_map(&self) -> Map<TypeId, V> {
        entries_map(self.entries())
    }

    /// Bundles `components`; `None` if two of them share a type.
    pub fn new(components: Vec<(TypeId, V)>) -> (r: Option<Self>)
        ensures
            r is Some <==> entry_types(components@).no_duplicates(),
            r matches Some(t) ==> t.entries() == components@ && t.wf(),
    {
        let n = components.len();
        let mut i: usize = 0;
        while i < n
            invariant
                n == components@.len(),
                i <= n,
                forall|a: int, b: int|
                    0 <= a < b < n && a < i ==> components@[a].0 != components@[b].0,
            decreases n - i,
        {
            let mut j: usize = i + 1;
            while j < n
                invariant
                    n == components@.len(),
                    i < n,
                    i < j <= n,
                    forall|a: int, b: int|
                        0 <= a < b < n && a < i ==> components@[a].0 != components@[b].0,
                    forall|b: int| i < b < j ==> components@[i as int].0 != components@[b].0,
                decreases n - j,
            {
                if same_type(&components[i].0, &components[j].0) {
                    proof {
                        assert(entry_types(components@)[i as int] == entry_types(
                            components@,
                        )[j as int]);
                    }
                    return None;
                }
                j = j + 1;
            }
            i = i + 1;
        }
        proof {
            assert forall|a: int, b: int|
                0 <= a < entry_types(components@).len() && 0 <= b < entry_types(
                    components@,
                ).len() && a != b implies entry_types(components@)[a] != entry_types(
                components@,
            )[b] by {
                if a < b {
                    assert(components@[a].0 != components@[b].0);
                } else {
                    assert(components@[b].0 != components@[a].0);
                }
            }
        }
        Some(Self { components })
    }

    /// The number of components.
    pub fn len(&self) -> (r: usize)
        ensures
            r == self.entries().len(),
    {
        self.components.len()
    }

    /// Registers the type of each component, in order, and returns the
    /// index of each.
    pub fn component_indices(&self, registry: &mut ComponentTypeIndexRegistry) -> (r: Vec<usize>)
        requires
            old(registry).wf(),
        ensures
            final(registry).wf(),
            final(registry).types() == register_all(old(registry).types(), self.type_ids()),
            old(registry).types().is_prefix_of(final(registry).types()),
            r@.len() == self.entries().len(),
            forall|i: int|
                0 <= i < r@.len() ==> {
                    &&& #[trigger] r@[i] < final(registry).types().len()
                    &&& final(registry).types()[r@[i] as int] == self.entries()[i].0
                },
    {
        let mut r: Vec<usize> = Vec::new();
        let n = self.components.len();
        let mut i: usize = 0;
        while i < n
            invariant
                n == self.entries().len(),
                i <= n,
                registry.wf(),
                registry.types() == register_all(
                    old(registry).types(),
                    self.type_ids().take(i as int),
                ),
                old(registry).types().is_prefix_of(registry.types()),
                r@.len() == i,
                forall|k: int|
                    0 <= k < i ==> {
                        &&& #[trigger] r@[k] < registry.types().len()
                        &&& registry.types()[r@[k] as int] == self.entries()[k].0
                    },
            decreases n - i,
        {
            let ghost before = registry.types();
            let index = registry.get_or_register(self.components[i].0);
            proof {
                assert(self.type_ids().take(i + 1).drop_last() =~= self.type_ids().take(i as int));
                assert(before.is_prefix_of(registry.types()));
            }
            r.push(index);
            i = i + 1;
        }
        proof {
            assert(self.type_ids().take(n as int) =~= self.type_ids());
        }
        r
    }

    /// The (type, value) pairs, in the order given.
    pub fn into_entries(self) -> (r: Vec<(TypeId, V)>)
        ensures
            r@ == self.entries(),
    {
        self.components
    }

    /// Each component as a single-value column of its type, in order.
    pub fn into_components(self) -> (r: Vec<ComponentStorage<V>>)
        ensures
            r@.len() == self.entries().len(),
            forall|i: int|
                0 <= i < r@.len() ==> {
                    &&& (#[trigger] r@[i]).element_type() == self.entries()[i].0
                    &&& r@[i].elements() == seq![self.entries()[i].1]
                },
    {
        let ghost entries = self.entries();
        let mut components = self.components;
        let mut r: Vec<ComponentStorage<V>> = Vec::new();
        while components.len() > 0
            invariant
                r@.len() + components@.len() == entries.len(),
                components@ == entries.subrange(r@.len() as int, entries.len() as int),
                forall|k: int|
                    0 <= k < r@.len() ==> {
                        &&& (#[trigger] r@[k]).element_type() == entries[k].0
                        &&& r@[k].elements() == seq![entries[k].1]
                    },
            decreases components@.len(),
        {
            let (type_id, value) = components.remove(0);
            r.push(ComponentStorage::from_value(type_id, value));
        }
        r
    }
}

} // verus!
