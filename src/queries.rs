use crate::archetypes::Archetype;
use crate::components::ComponentTypeIndexRegistry;
use crate::entities::EntityId;
use std::any::TypeId;
use vstd::prelude::*;

verus! {

/// One match of a query: an entity and its component of each requested
/// type, in the order of the request.
pub struct QueryRow<'a, V> {
    pub entity: EntityId,
    pub components: Vec<&'a V>,
}

/// A request for the entities that have a component of each of a list of
/// types.
pub struct Query {
    types: Vec<TypeId>,
}

/// Whether every type of `types` is registered and `archetype` has a
/// column of it.
pub open spec fn resolves<V>(
    types: Seq<TypeId>,
    archetype: &Archetype<V>,
    registry: &ComponentTypeIndexRegistry,
) -> bool {
    forall|j: int|
        0 <= j < types.len() ==> {
            &&& registry.types().contains(#[trigger] types[j])
            &&& archetype.has_column(registry.types().index_of(types[j]))
            &&& archetype.column(registry.types().index_of(types[j])).element_type() == types[j]
        }
}

impl Query {
    /// The requested types, in order.
    pub closed spec fn types(&self) -> Seq<TypeId> {
        self.types@
    }

    /// A query for the entities that have a component of each of `types`.
    pub fn new(types: Vec<TypeId>) -> (r: Self)
        ensures
            r.types() == types@,
    {
        Self { types }
    }

    /// The rows of `archetype`, each with its components of the requested
    /// types; `None` if a requested type is unregistered or the table has
    /// no column of it, so that no row of it can match.
    pub fn query_archetype<'a, V>(
        &self,
        archetype: &'a Archetype<V>,
        registry: &ComponentTypeIndexRegistry,
    ) -> (r: Option<Vec<QueryRow<'a, V>>>)
        requires
            registry.wf(),
            archetype.wf(),
        ensures
            r is Some <==> resolves(self.types(), archetype, registry),
            r matches Some(rows) ==> {
                &&& rows@.len() == archetype.entity_rows().len()
                &&& forall|k: int|
                    0 <= k < rows@.len() ==> {
                        &&& (#[trigger] rows@[k]).entity == archetype.entity_rows()[k]
                        &&& rows@[k].components@.len() == self.types().len()
                        &&& forall|j: int|
                            0 <= j < self.types().len() ==> *(#[trigger] rows@[k].components@[j])
                                == archetype.column(
                                registry.types().index_of(self.types()[j]),
                            ).elements()[k]
                    }
            },
    {
        let ghost types = self.types();
        let mut columns: Vec<&'a Vec<V>> = Vec::new();
        let n = self.types.len();
        let mut j: usize = 0;
        while j < n
            invariant
                types == self.types(),
                registry.wf(),
                n == types.len(),
                j <= n,
                columns@.len() == j,
                forall|i: int|
                    0 <= i < j ==> {
                        &&& registry.types().contains(#[trigger] types[i])
                        &&& archetype.has_column(registry.types().index_of(types[i]))
                        &&& archetype.column(registry.types().index_of(types[i])).element_type()
                            == types[i]
                        &&& columns@[i]@ == archetype.column(
                            registry.types().index_of(types[i]),
                        ).elements()
                    },
            decreases n - j,
        {
            let index = match registry.get_index(self.types[j]) {
                Some(index) => index,
                None => {
                    proof {
                        assert(!registry.types().contains(types[j as int]));
                    }
                    return None;
                },
            };
            proof {
                crate::world::lemma_index_of_unique(registry.types(), index as int);
            }
            let column = match archetype.get_column(index, self.types[j]) {
                Some(column) => column,
                None => {
                    proof {
                        assert(registry.types().contains(types[j as int]));
                    }
                    return None;
                },
            };
            columns.push(column);
            j = j + 1;
        }
        let rows_len = archetype.len();
        let mut rows: Vec<QueryRow<'a, V>> = Vec::new();
        let mut k: usize = 0;
        while k < rows_len
            invariant
                n == types.len(),
                columns@.len() == n,
                rows_len == archetype.entity_rows().len(),
                archetype.wf(),
                k <= rows_len,
                rows@.len() == k,
                forall|i: int|
                    0 <= i < n ==> {
                        &&& archetype.has_column(registry.types().index_of(#[trigger] types[i]))
                        &&& columns@[i]@ == archetype.column(
                            registry.types().index_of(types[i]),
                        ).elements()
                    },
                forall|m: int|
                    0 <= m < k ==> {
                        &&& (#[trigger] rows@[m]).entity == archetype.entity_rows()[m]
                        &&& rows@[m].components@.len() == n
                        &&& forall|i: int|
                            0 <= i < n ==> *(#[trigger] rows@[m].components@[i])
                                == archetype.column(
                                registry.types().index_of(types[i]),
                            ).elements()[m]
                    },
            decreases rows_len - k,
        {
            let mut components: Vec<&'a V> = Vec::new();
            let mut i: usize = 0;
            while i < n
                invariant
                    n == types.len(),
                    columns@.len() == n,
                    rows_len == archetype.entity_rows().len(),
                    archetype.wf(),
                    k < rows_len,
                    i <= n,
                    components@.len() == i,
                    forall|x: int|
                        0 <= x < n ==> {
                            &&& archetype.has_column(
                                registry.types().index_of(#[trigger] types[x]),
                            )
                            &&& columns@[x]@ == archetype.column(
                                registry.types().index_of(types[x]),
                            ).elements()
                        },
                    forall|x: int|
                        0 <= x < i ==> *(#[trigger] components@[x]) == archetype.column(
                            registry.types().index_of(types[x]),
                        ).elements()[k as int],
                decreases n - i,
            {
                let column: &'a Vec<V> = columns[i];
                proof {
                    assert(archetype.has_column(registry.types().index_of(types[i as int])));
                }
                components.push(&column[k]);
                i = i + 1;
            }
            rows.push(QueryRow { entity: archetype.entities()[k], components });
            k = k + 1;
        }
        Some(rows)
    }
}

} // verus!
