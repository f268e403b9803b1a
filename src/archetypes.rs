use crate::components::{ComponentStorage, ComponentTypeIndexRegistry};
use crate::entities::EntityId;
use crate::type_ids::same_type;
use std::any::TypeId;
use vstd::prelude::*;

verus! {

broadcast use vstd::seq_lib::group_to_multiset_ensures, vstd::multiset::group_multiset_axioms;

/// Whether `j` is one of the values of `s`.
pub open spec fn lists(s: Seq<usize>, j: int) -> bool {
    exists|k: int| 0 <= k < s.len() && s[k] as int == j
}

/// The values of `s` never decrease.
pub open spec fn is_sorted(s: Seq<usize>) -> bool {
    forall|a: int, b: int| 0 <= a < b < s.len() ==> s[a] <= s[b]
}

/// The values of `s` strictly increase.
pub open spec fn is_strictly_sorted(s: Seq<usize>) -> bool {
    forall|a: int, b: int| 0 <= a < b < s.len() ==> s[a] < s[b]
}

/// Two strictly increasing sequences with the same elements are equal.
pub proof fn lemma_strictly_sorted_unique(s: Seq<usize>, t: Seq<usize>)
    requires
        is_strictly_sorted(s),
        is_strictly_sorted(t),
        forall|j: int| lists(s, j) <==> lists(t, j),
    ensures
        s == t,
    decreases s.len() + t.len(),
{
    if s.len() == 0 || t.len() == 0 {
        if s.len() > 0 {
            assert(lists(s, s[0] as int));
        }
        if t.len() > 0 {
            assert(lists(t, t[0] as int));
        }
        assert(s =~= t);
    } else {
        assert(lists(s, s[0] as int));
        assert(lists(t, t[0] as int));
        let i = choose|i: int| 0 <= i < t.len() && t[i] as int == s[0] as int;
        let j = choose|j: int| 0 <= j < s.len() && s[j] as int == t[0] as int;
        assert(s[0] == t[0]) by {
            if s[0] < t[0] {
                assert(t[0] <= t[i]);
            } else if s[0] > t[0] {
                assert(s[0] <= s[j]);
            }
        }
        let s1 = s.drop_first();
        let t1 = t.drop_first();
        assert forall|x: int| lists(s1, x) implies lists(t1, x) by {
            let k = choose|k: int| 0 <= k < s1.len() && s1[k] as int == x;
            assert(s[k + 1] as int == x && s[0] < s[k + 1]);
            assert(lists(s, x));
            let m = choose|m: int| 0 <= m < t.len() && t[m] as int == x;
            assert(m != 0);
            assert(t1[m - 1] as int == x);
        }
        assert forall|x: int| lists(t1, x) implies lists(s1, x) by {
            let k = choose|k: int| 0 <= k < t1.len() && t1[k] as int == x;
            assert(t[k + 1] as int == x && t[0] < t[k + 1]);
            assert(lists(t, x));
            let m = choose|m: int| 0 <= m < s.len() && s[m] as int == x;
            assert(m != 0);
            assert(s1[m - 1] as int == x);
        }
        lemma_strictly_sorted_unique(s1, t1);
        assert(s =~= seq![s[0]] + s1);
        assert(t =~= seq![t[0]] + t1);
    }
}

/// A sorted sequence with the elements, counted with multiplicity, of a
/// sequence without duplicates is strictly increasing and lists the same
/// values.
pub proof fn lemma_sorted_permutation(key: Seq<usize>, s: Seq<usize>)
    requires
        is_sorted(key),
        key.to_multiset() == s.to_multiset(),
        s.no_duplicates(),
    ensures
        is_strictly_sorted(key),
        forall|j: int| lists(key, j) <==> lists(s, j),
{
    s.lemma_multiset_has_no_duplicates();
    key.lemma_multiset_has_no_duplicates_conv();
    assert forall|a: int, b: int| 0 <= a < b < key.len() implies key[a] < key[b] by {
        assert(key[a] <= key[b]);
        assert(key[a] != key[b]);
    }
    assert forall|j: int| lists(key, j) implies lists(s, j) by {
        let k = choose|k: int| 0 <= k < key.len() && key[k] as int == j;
        assert(key.contains(key[k]));
        assert(key.to_multiset().count(key[k]) > 0);
        assert(s.to_multiset().count(key[k]) > 0);
        assert(s.contains(key[k]));
        let m = choose|m: int| 0 <= m < s.len() && s[m] == key[k];
        assert(s[m] as int == j);
    }
    assert forall|j: int| lists(s, j) implies lists(key, j) by {
        let k = choose|k: int| 0 <= k < s.len() && s[k] as int == j;
        assert(s.contains(s[k]));
        assert(s.to_multiset().count(s[k]) > 0);
        assert(key.to_multiset().count(s[k]) > 0);
        assert(key.contains(s[k]));
        let m = choose|m: int| 0 <= m < key.len() && key[m] == s[k];
        assert(key[m] as int == j);
    }
}

/// Inserting `x` at `p` adds one `x` to the multiset of a sequence.
proof fn lemma_insert_to_multiset(s: Seq<usize>, p: int, x: usize)
    requires
        0 <= p <= s.len(),
    ensures
        s.insert(p, x).to_multiset() == s.to_multiset().insert(x),
{
    let s2 = s.insert(p, x);
    assert(s2.remove(p) =~= s);
    assert(s2[p] == x);
    assert(s2.to_multiset().count(x) > 0) by {
        assert(s2.contains(x));
    }
    assert(s2.to_multiset() =~= s.to_multiset().insert(x));
}

/// The identity of a table layout: the sorted indices of its component
/// types.
pub struct ArchetypeKey(Vec<usize>);

impl ArchetypeKey {
    /// The component indices, in order.
    pub closed spec fn indices(&self) -> Seq<usize> {
        self.0@
    }

    /// The key made of `indices`, sorted.
    pub fn new_sorted(indices: &[usize]) -> (r: Self)
        ensures
            is_sorted(r.indices()),
            r.indices().to_multiset() == indices@.to_multiset(),
    {
        let mut key: Vec<usize> = Vec::new();
        let n = indices.len();
        let mut i: usize = 0;
        while i < n
            invariant
                n == indices@.len(),
                i <= n,
                is_sorted(key@),
                key@.to_multiset() == indices@.take(i as int).to_multiset(),
            decreases n - i,
        {
            let x = indices[i];
            let mut p: usize = 0;
            while p < key.len() && key[p] <= x
                invariant
                    p <= key@.len(),
                    forall|k: int| 0 <= k < p ==> key@[k] <= x,
                decreases key@.len() - p,
            {
                p = p + 1;
            }
            let ghost before = key@;
            key.insert(p, x);
            proof {
                assert(is_sorted(key@)) by {
                    assert forall|a: int, b: int| 0 <= a < b < key@.len() implies key@[a]
                        <= key@[b] by {
                        if b < p {
                            assert(before[a] <= before[b]);
                        } else if b == p {
                            assert(key@[a] == before[a]);
                        } else if a == p {
                            assert(before[p as int] > x);
                            assert(before[p as int] <= before[b - 1]);
                        } else if a < p {
                            assert(before[a] <= x);
                            assert(before[p as int] > x);
                            assert(before[p as int] <= before[b - 1]);
                        } else {
                            assert(before[a - 1] <= before[b - 1]);
                        }
                    }
                }
                lemma_insert_to_multiset(before, p as int, x);
                assert(indices@.take(i + 1) =~= indices@.take(i as int).push(x));
            }
            i = i + 1;
        }
        proof {
            assert(indices@.take(n as int) =~= indices@);
        }
        ArchetypeKey(key)
    }

    /// Whether the two keys hold the same indices in the same order.
    pub fn same_as(&self, other: &ArchetypeKey) -> (r: bool)
        ensures
            r == (self.indices() == other.indices()),
    {
        if self.0.len() != other.0.len() {
            return false;
        }
        let mut i: usize = 0;
        while i < self.0.len()
            invariant
                self.indices().len() == other.indices().len(),
                i <= self.indices().len(),
                forall|k: int| 0 <= k < i ==> self.indices()[k] == other.indices()[k],
            decreases self.indices().len() - i,
        {
            if self.0[i] != other.0[i] {
                return false;
            }
            i = i + 1;
        }
        proof {
            assert(self.indices() =~= other.indices());
        }
        true
    }
}

/// A table of the entities that share one set of component types: a column
/// per component type present, and the entity of each row.
pub struct Archetype<V> {
    components: Vec<Option<ComponentStorage<V>>>,
    entities: Vec<EntityId>,
}

impl<V> Archetype<V> {
    /// The column slots, by component index; a slot is filled exactly when
    /// the table has that component type.
    pub closed spec fn columns(&self) -> Seq<Option<ComponentStorage<V>>> {
        self.components@
    }

    /// The entity of each row.
    pub closed spec fn entity_rows(&self) -> Seq<EntityId> {
        self.entities@
    }

    /// Whether the table has a column for component index `j`.
    pub open spec fn has_column(&self, j: int) -> bool {
        0 <= j < self.columns().len() && self.columns()[j] is Some
    }

    /// The column for component index `j`.
    pub open spec fn column(&self, j: int) -> ComponentStorage<V> {
        self.columns()[j]->Some_0
    }

    /// Every column has a value for every row.
    pub open spec fn wf(&self) -> bool {
        forall|j: int| #[trigger]
            self.has_column(j) ==> self.column(j).elements().len() == self.entity_rows().len()
    }

    /// An empty table with a column for each of `component_indices`, and a
    /// slot for each type the registry knows.
    pub fn new(component_indices: &[usize], registry: &ComponentTypeIndexRegistry) -> (r: Self)
        requires
            forall|i: int|
                0 <= i < component_indices@.len() ==> #[trigger] component_indices@[i]
                    < registry.types().len(),
        ensures
            r.wf(),
            r.columns().len() == registry.types().len(),
            r.entity_rows() == Seq::<EntityId>::empty(),
            forall|j: int| #[trigger] r.has_column(j) <==> lists(component_indices@, j),
            forall|j: int|
                #[trigger] r.has_column(j) ==> r.column(j).element_type() == registry.types()[j]
                    && r.column(j).elements() == Seq::<V>::empty(),
    {
        let total_types = registry.len();
        let mut components: Vec<Option<ComponentStorage<V>>> = Vec::with_capacity(total_types);
        let mut j: usize = 0;
        while j < total_types
            invariant
                j <= total_types,
                components@.len() == j,
                forall|k: int| 0 <= k < j ==> components@[k] is None,
            decreases total_types - j,
        {
            components.push(None);
            j = j + 1;
        }
        let n = component_indices.len();
        let mut i: usize = 0;
        while i < n
            invariant
                n == component_indices@.len(),
                i <= n,
                total_types == registry.types().len(),
                components@.len() == total_types,
                forall|k: int|
                    0 <= k < component_indices@.len() ==> #[trigger] component_indices@[k]
                        < registry.types().len(),
                forall|k: int|
                    0 <= k < total_types ==> ((#[trigger] components@[k]) is Some <==> lists(
                        component_indices@.take(i as int),
                        k,
                    )),
                forall|k: int| #[trigger] lists(component_indices@.take(i as int), k) ==> 0 <= k < total_types,
                forall|k: int|
                    0 <= k < total_types && (#[trigger] components@[k]) is Some ==> {
                        &&& components@[k]->Some_0.element_type() == registry.types()[k]
                        &&& components@[k]->Some_0.elements() == Seq::<V>::empty()
                    },
            decreases n - i,
        {
            let index = component_indices[i];
            components.set(index, Some(registry.create_empty_column(index)));
            proof {
                let t0 = component_indices@.take(i as int);
                let t1 = component_indices@.take(i + 1);
                assert(t1 =~= t0.push(index));
                assert forall|k: int| 0 <= k < total_types implies ((
                #[trigger] components@[k]) is Some <==> lists(t1, k)) by {
                    if k == index as int {
                        assert(t1[i as int] == index);
                    } else {
                        if lists(t1, k) {
                            let m = choose|m: int| 0 <= m < t1.len() && t1[m] as int == k;
                            assert(t0[m] as int == k);
                        }
                        if lists(t0, k) {
                            let m = choose|m: int| 0 <= m < t0.len() && t0[m] as int == k;
                            assert(t1[m] as int == k);
                        }
                    }
                }
                assert forall|k: int| #[trigger] lists(t1, k) implies 0 <= k < total_types by {
                    let m = choose|m: int| 0 <= m < t1.len() && t1[m] as int == k;
                    if m < i {
                        assert(t0[m] as int == k);
                    }
                }
            }
            i = i + 1;
        }
        proof {
            assert(component_indices@.take(n as int) =~= component_indices@);
        }
        Self { components, entities: Vec::new() }
    }

    /// The number of rows.
    pub fn len(&self) -> (r: usize)
        ensures
            r == self.entity_rows().len(),
    {
        self.entities.len()
    }

    /// The entity of each row.
    pub fn entities(&self) -> (r: &Vec<EntityId>)
        ensures
            r@ == self.entity_rows(),
    {
        &self.entities
    }

    /// The column for component index `index`, if the table has one and it
    /// holds values of `type_id`.
    pub fn get_column(&self, index: usize, type_id: TypeId) -> (r: Option<&Vec<V>>)
        ensures
            match r {
                Some(c) => self.has_column(index as int) && self.column(index as int).element_type()
                    == type_id && c@ == self.column(index as int).elements(),
                None => !(self.has_column(index as int) && self.column(
                    index as int,
                ).element_type() == type_id),
            },
    {
        if index < self.components.len() {
            match &self.components[index] {
                Some(storage) => {
                    if same_type(&storage.element_type_id(), &type_id) {
                        Some(storage.values())
                    } else {
                        None
                    }
                },
                None => None,
            }
        } else {
            None
        }
    }

    /// The column for component index `index`, for writing, if the table
    /// has one and it holds values of `type_id`. Changing the number of
    /// values in it breaks the table's consistency.
    pub fn get_column_mut(&mut self, index: usize, type_id: TypeId) -> (r: Option<&mut Vec<V>>)
        ensures
            final(self).columns().len() == old(self).columns().len(),
            final(self).entity_rows() == old(self).entity_rows(),
            forall|j: int|
                0 <= j < old(self).columns().len() && j != index ==> final(self).columns()[j]
                    == old(self).columns()[j],
            (old(self).has_column(index as int) && old(self).column(index as int).element_type()
                == type_id) ==> {
                &&& r is Some
                &&& r->Some_0@ == old(self).column(index as int).elements()
                &&& final(self).has_column(index as int)
                &&& final(self).column(index as int).element_type() == type_id
                &&& final(self).column(index as int).elements() == final(r->Some_0)@
            },
            !(old(self).has_column(index as int) && old(self).column(index as int).element_type()
                == type_id) ==> r is None && final(self).columns() == old(self).columns(),
    {
        if index < self.components.len() {
            match &mut self.components[index] {
                Some(storage) => {
                    if same_type(&storage.element_type_id(), &type_id) {
                        Some(storage.values_mut())
                    } else {
                        None
                    }
                },
                None => None,
            }
        } else {
            None
        }
    }

    /// The value at `row` of the column for `index`, for writing, if the
    /// table has that column and row.
    pub fn get_mut(&mut self, index: usize, row: usize) -> (r: Option<&mut V>)
        ensures
            final(self).columns().len() == old(self).columns().len(),
            final(self).entity_rows() == old(self).entity_rows(),
            forall|j: int|
                0 <= j < old(self).columns().len() && j != index ==> final(self).columns()[j]
                    == old(self).columns()[j],
            (old(self).has_column(index as int) && row < old(self).column(
                index as int,
            ).elements().len()) ==> {
                &&& r is Some
                &&& *r->Some_0 == old(self).column(index as int).elements()[row as int]
                &&& final(self).has_column(index as int)
                &&& final(self).column(index as int).element_type() == old(self).column(
                    index as int,
                ).element_type()
                &&& final(self).column(index as int).elements() == old(self).column(
                    index as int,
                ).elements().update(row as int, *final(r->Some_0))
            },
            !(old(self).has_column(index as int) && row < old(self).column(
                index as int,
            ).elements().len()) ==> r is None && final(self).columns() == old(self).columns(),
    {
        if index < self.components.len() {
            match &mut self.components[index] {
                Some(storage) => storage.get_mut(row),
                None => None,
            }
        } else {
            None
        }
    }

    /// Removes the row `row`: the last row takes its place in every column
    /// and in the entity list.
    pub fn remove_row(&mut self, row: usize)
        requires
            old(self).wf(),
            row < old(self).entity_rows().len(),
        ensures
            final(self).wf(),
            final(self).entity_rows() == old(self).entity_rows().update(
                row as int,
                old(self).entity_rows().last(),
            ).drop_last(),
            final(self).columns().len() == old(self).columns().len(),
            forall|j: int| #[trigger] final(self).has_column(j) == old(self).has_column(j),
            forall|j: int| #[trigger]
                old(self).has_column(j) ==> {
                    &&& final(self).column(j).element_type() == old(self).column(j).element_type()
                    &&& final(self).column(j).elements() == old(self).column(j).elements().update(
                        row as int,
                        old(self).column(j).elements().last(),
                    ).drop_last()
                },
    {
        let n = self.components.len();
        let mut j: usize = 0;
        while j < n
            invariant
                old(self).wf(),
                n == old(self).columns().len(),
                j <= n,
                row < old(self).entity_rows().len(),
                self.entity_rows() == old(self).entity_rows(),
                self.columns().len() == n,
                forall|x: int| #[trigger] self.has_column(x) == old(self).has_column(x),
                forall|x: int| #[trigger]
                    old(self).has_column(x) ==> self.column(x).element_type() == old(
                        self,
                    ).column(x).element_type(),
                forall|x: int|
                    0 <= x < j && #[trigger] old(self).has_column(x) ==> self.column(x).elements()
                        == old(self).column(x).elements().update(
                        row as int,
                        old(self).column(x).elements().last(),
                    ).drop_last(),
                forall|x: int|
                    j <= x < n ==> #[trigger] self.columns()[x] == old(self).columns()[x],
            decreases n - j,
        {
            let ghost pre = *self;
            let ghost before = self.columns();
            match &mut self.components[j] {
                Some(column) => {
                    proof {
                        assert(old(self).has_column(j as int));
                        assert(old(self).column(j as int).elements().len() == old(
                            self,
                        ).entity_rows().len());
                    }
                    column.swap_remove(row);
                },
                None => {},
            }
            proof {
                assert forall|x: int| #[trigger] self.has_column(x) == old(self).has_column(x) by {
                    assert(pre.has_column(x) == old(self).has_column(x));
                    if x != j && 0 <= x < n {
                        assert(self.columns()[x] == before[x]);
                    }
                }
                assert forall|x: int| #[trigger]
                    old(self).has_column(x) implies self.column(x).element_type() == old(
                    self,
                ).column(x).element_type() by {
                    assert(pre.has_column(x) == old(self).has_column(x));
                    assert(pre.column(x).element_type() == old(self).column(x).element_type());
                    if x != j {
                        assert(self.columns()[x] == before[x]);
                    }
                }
                assert forall|x: int|
                    0 <= x < j + 1 && #[trigger] old(self).has_column(x) implies self.column(
                    x,
                ).elements() == old(self).column(x).elements().update(
                    row as int,
                    old(self).column(x).elements().last(),
                ).drop_last() by {
                    if x != j {
                        assert(self.columns()[x] == before[x]);
                        assert(pre.has_column(x));
                    }
                }
                assert forall|x: int| j + 1 <= x < n implies #[trigger] self.columns()[x] == old(
                    self,
                ).columns()[x] by {
                    assert(self.columns()[x] == before[x]);
                }
            }
            j = j + 1;
        }
        let ghost at_end = *self;
        self.entities.swap_remove(row);
        proof {
            assert(self.columns() == at_end.columns());
            assert forall|x: int| #[trigger] self.has_column(x) == old(self).has_column(x) by {
                assert(at_end.has_column(x) == old(self).has_column(x));
            }
            assert forall|x: int| #[trigger] old(self).has_column(x) implies {
                &&& self.column(x).element_type() == old(self).column(x).element_type()
                &&& self.column(x).elements() == old(self).column(x).elements().update(
                    row as int,
                    old(self).column(x).elements().last(),
                ).drop_last()
            } by {
                assert(at_end.has_column(x));
                assert(old(self).column(x).elements().len() == old(self).entity_rows().len());
            }
            assert forall|x: int| #[trigger] self.has_column(x) implies self.column(
                x,
            ).elements().len() == self.entity_rows().len() by {
                assert(old(self).has_column(x));
                assert(old(self).column(x).elements().len() == old(self).entity_rows().len());
            }
        }
    }

    /// Appends a row: `entity`, and the single value of `components[i]` to
    /// the column for `component_indices[i]`. The indices must be exactly
    /// the columns of the table.
    pub fn insert(
        &mut self,
        entity: EntityId,
        component_indices: Vec<usize>,
        components: Vec<ComponentStorage<V>>,
    )
        requires
            old(self).wf(),
            component_indices@.len() == components@.len(),
            component_indices@.no_duplicates(),
            forall|i: int|
                0 <= i < component_indices@.len() ==> {
                    &&& old(self).has_column(#[trigger] component_indices@[i] as int)
                    &&& components@[i].element_type() == old(self).column(
                        component_indices@[i] as int,
                    ).element_type()
                },
            forall|i: int|
                0 <= i < components@.len() ==> (#[trigger] components@[i]).elements().len() == 1,
            forall|j: int| #[trigger] old(self).has_column(j) ==> lists(component_indices@, j),
        ensures
            final(self).wf(),
            final(self).entity_rows() == old(self).entity_rows().push(entity),
            final(self).columns().len() == old(self).columns().len(),
            forall|j: int| #[trigger]
                final(self).has_column(j) == old(self).has_column(j),
            forall|j: int| #[trigger]
                old(self).has_column(j) ==> final(self).column(j).element_type() == old(
                    self,
                ).column(j).element_type(),
            forall|i: int|
                0 <= i < component_indices@.len() ==> final(self).column(
                    #[trigger] component_indices@[i] as int,
                ).elements() == old(self).column(component_indices@[i] as int).elements().push(
                    components@[i].elements()[0],
                ),
    {
        self.entities.push(entity);
        let ghost given = components@;
        let mut components = components;
        let n = component_indices.len();
        let mut i: usize = 0;
        while i < n
            invariant
                n == component_indices@.len(),
                n == components@.len(),
                i <= n,
                component_indices@.no_duplicates(),
                self.entity_rows() == old(self).entity_rows().push(entity),
                self.columns().len() == old(self).columns().len(),
                forall|j: int| #[trigger] self.has_column(j) == old(self).has_column(j),
                forall|j: int| #[trigger]
                    old(self).has_column(j) ==> self.column(j).element_type() == old(
                        self,
                    ).column(j).element_type(),
                forall|k: int|
                    0 <= k < n ==> {
                        &&& old(self).has_column(#[trigger] component_indices@[k] as int)
                        &&& components@[k].element_type() == old(self).column(
                            component_indices@[k] as int,
                        ).element_type()
                    },
                forall|k: int| i <= k < n ==> (#[trigger] components@[k]).elements().len() == 1,
                forall|k: int|
                    0 <= k < n ==> (#[trigger] components@[k]).elements() == given[k].elements()
                        || k < i,
                forall|k: int|
                    0 <= k < i ==> self.column(#[trigger] component_indices@[k] as int).elements()
                        == old(self).column(component_indices@[k] as int).elements().push(
                        given[k].elements()[0],
                    ),
                forall|j: int|
                    #[trigger] self.has_column(j) && !lists(component_indices@.take(i as int), j)
                        ==> self.column(j).elements() == old(self).column(j).elements(),
            decreases n - i,
        {
            let index = component_indices[i];
            let ghost before = self.columns();
            let ghost pre = *self;
            assert(component_indices@[i as int] == index);
            assert(old(self).has_column(index as int));
            assert(self.has_column(index as int));
            match &mut self.components[index] {
                Some(column) => {
                    column.push_from_other(&mut components[i]);
                },
                None => {},
            }
            proof {
                assert(self.columns().len() == before.len());
                assert(self.has_column(index as int));
                assert forall|j: int| #[trigger] self.has_column(j) == old(self).has_column(j) by {
                    assert(pre.has_column(j) == old(self).has_column(j));
                    if j != index && 0 <= j < before.len() {
                        assert(self.columns()[j] == before[j]);
                    }
                }
                assert forall|j: int| #[trigger]
                    old(self).has_column(j) implies self.column(j).element_type() == old(
                    self,
                ).column(j).element_type() by {
                    assert(pre.has_column(j) == old(self).has_column(j));
                    assert(pre.column(j).element_type() == old(self).column(j).element_type());
                    if j != index {
                        assert(self.columns()[j] == before[j]);
                    }
                }
                let t0 = component_indices@.take(i as int);
                let t1 = component_indices@.take(i + 1);
                assert(t1 =~= t0.push(index));
                assert forall|k: int| 0 <= k < i implies component_indices@[k] != index by {
                    assert(component_indices@[k] != component_indices@[i as int]);
                }
                assert forall|j: int| #[trigger]
                    self.has_column(j) && !lists(t1, j) implies self.column(j).elements() == old(
                    self,
                ).column(j).elements() by {
                    assert(t1[i as int] == index);
                    assert(j != index as int);
                    assert(self.columns()[j] == before[j]);
                    assert(pre.has_column(j));
                    if lists(t0, j) {
                        let m = choose|m: int| 0 <= m < t0.len() && t0[m] as int == j;
                        assert(t1[m] as int == j);
                    }
                }
            }
            i = i + 1;
        }
        proof {
            assert(component_indices@.take(n as int) =~= component_indices@);
            assert forall|j: int| #[trigger] self.has_column(j) implies self.column(
                j,
            ).elements().len() == self.entity_rows().len() by {
                assert(lists(component_indices@, j));
                let m = choose|m: int|
                    0 <= m < component_indices@.len() && component_indices@[m] as int == j;
                assert(self.column(component_indices@[m] as int).elements() == old(self).column(
                    component_indices@[m] as int,
                ).elements().push(given[m].elements()[0]));
            }
        }
    }
}

} // verus!
