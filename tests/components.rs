use ecs::{
    Archetype, ArchetypeKey, ComponentStorage, ComponentTuple, ComponentTypeIndexRegistry,
    EntityAllocator, Query,
};
use std::any::TypeId;

struct A;
struct B;
struct C;

#[test]
fn registry_gives_stable_dense_indices() {
    let mut registry = ComponentTypeIndexRegistry::new();
    assert_eq!(registry.len(), 0);
    assert_eq!(registry.get_or_register(TypeId::of::<A>()), 0);
    assert_eq!(registry.get_or_register(TypeId::of::<B>()), 1);
    assert_eq!(registry.get_or_register(TypeId::of::<A>()), 0);
    assert_eq!(registry.len(), 2);
    assert_eq!(registry.get_index(TypeId::of::<B>()), Some(1));
    assert_eq!(registry.get_index(TypeId::of::<C>()), None);
}

#[test]
fn empty_column_has_the_registered_type() {
    let mut registry = ComponentTypeIndexRegistry::new();
    registry.get_or_register(TypeId::of::<A>());
    registry.get_or_register(TypeId::of::<B>());
    let column: ComponentStorage<u8> = registry.create_empty_column(1);
    assert_eq!(column.element_type_id(), TypeId::of::<B>());
    assert_eq!(column.len(), 0);
}

#[test]
fn push_from_other_moves_the_first_value() {
    let mut column = ComponentStorage::new(TypeId::of::<A>());
    let mut carrier = ComponentStorage::from_value(TypeId::of::<A>(), 7u32);
    column.push_from_other(&mut carrier);
    assert_eq!(column.values(), &vec![7u32]);
    assert_eq!(carrier.len(), 0);
    assert_eq!(column.get(0), Some(&7));
    assert_eq!(column.get(1), None);
    if let Some(v) = column.get_mut(0) {
        *v = 8;
    }
    assert_eq!(column.values(), &vec![8u32]);
}

#[test]
fn component_tuple_rejects_repeated_types() {
    assert!(ComponentTuple::new(vec![(TypeId::of::<A>(), 1u8), (TypeId::of::<A>(), 2u8)]).is_none());
    assert!(ComponentTuple::new(vec![(TypeId::of::<A>(), 1u8), (TypeId::of::<B>(), 2u8), (TypeId::of::<A>(), 3u8)]).is_none());
    let t = ComponentTuple::new(vec![(TypeId::of::<A>(), 1u8), (TypeId::of::<B>(), 2u8)]).unwrap();
    assert_eq!(t.len(), 2);
    assert_eq!(ComponentTuple::<u8>::new(vec![]).map(|t| t.len()), Some(0));
}

#[test]
fn component_tuple_registers_its_types_and_splits_into_columns() {
    let mut registry = ComponentTypeIndexRegistry::new();
    registry.get_or_register(TypeId::of::<C>());
    let t = ComponentTuple::new(vec![(TypeId::of::<B>(), 10u8), (TypeId::of::<C>(), 20u8), (TypeId::of::<A>(), 30u8)]).unwrap();
    assert_eq!(t.component_indices(&mut registry), vec![1, 0, 2]);
    assert_eq!(registry.len(), 3);
    let columns = t.into_components();
    assert_eq!(columns.len(), 3);
    assert_eq!(columns[0].element_type_id(), TypeId::of::<B>());
    assert_eq!(columns[0].values(), &vec![10u8]);
    assert_eq!(columns[2].element_type_id(), TypeId::of::<A>());
    assert_eq!(columns[2].values(), &vec![30u8]);
}

#[test]
fn archetype_key_ignores_order() {
    let a = ArchetypeKey::new_sorted(&[2, 0, 1]);
    let b = ArchetypeKey::new_sorted(&[0, 1, 2]);
    let c = ArchetypeKey::new_sorted(&[0, 2]);
    assert!(a.same_as(&b));
    assert!(!a.same_as(&c));
    assert!(ArchetypeKey::new_sorted(&[]).same_as(&ArchetypeKey::new_sorted(&[])));
}

#[test]
fn archetype_holds_one_row_per_insert() {
    let mut registry = ComponentTypeIndexRegistry::new();
    let ia = registry.get_or_register(TypeId::of::<A>());
    let ib = registry.get_or_register(TypeId::of::<B>());
    registry.get_or_register(TypeId::of::<C>());
    let mut archetype: Archetype<u32> = Archetype::new(&[ib, ia], &registry);
    let mut allocator = EntityAllocator::new();
    let e = allocator.allocate();
    archetype.insert(
        e,
        vec![ia, ib],
        vec![ComponentStorage::from_value(TypeId::of::<A>(), 1), ComponentStorage::from_value(TypeId::of::<B>(), 2)],
    );
    assert_eq!(archetype.len(), 1);
    assert_eq!(archetype.entities(), &vec![e]);
    assert_eq!(archetype.get_column(ia, TypeId::of::<A>()), Some(&vec![1]));
    assert_eq!(archetype.get_column(ib, TypeId::of::<B>()), Some(&vec![2]));
    // a mismatched type, a missing column and an index past the slots
    assert_eq!(archetype.get_column(ia, TypeId::of::<B>()), None);
    assert_eq!(archetype.get_column(2, TypeId::of::<C>()), None);
    assert_eq!(archetype.get_column(9, TypeId::of::<C>()), None);
    if let Some(column) = archetype.get_column_mut(ib, TypeId::of::<B>()) {
        column[0] = 5;
    }
    assert_eq!(archetype.get_column(ib, TypeId::of::<B>()), Some(&vec![5]));
    assert!(archetype.get_column_mut(ib, TypeId::of::<A>()).is_none());
    if let Some(v) = archetype.get_mut(ia, 0) {
        *v = 4;
    }
    assert_eq!(archetype.get_column(ia, TypeId::of::<A>()), Some(&vec![4]));
    assert!(archetype.get_mut(ia, 1).is_none());
}

#[test]
fn query_archetype_resolves_or_skips_a_table() {
    let mut registry = ComponentTypeIndexRegistry::new();
    let ia = registry.get_or_register(TypeId::of::<A>());
    let ib = registry.get_or_register(TypeId::of::<B>());
    let mut archetype: Archetype<u32> = Archetype::new(&[ia, ib], &registry);
    let mut allocator = EntityAllocator::new();
    let e = allocator.allocate();
    archetype.insert(
        e,
        vec![ia, ib],
        vec![ComponentStorage::from_value(TypeId::of::<A>(), 1), ComponentStorage::from_value(TypeId::of::<B>(), 2)],
    );
    let rows = Query::new(vec![TypeId::of::<B>()]).query_archetype(&archetype, &registry).unwrap();
    assert_eq!(rows.len(), 1);
    assert_eq!(rows[0].entity, e);
    assert_eq!(*rows[0].components[0], 2);
    assert!(Query::new(vec![TypeId::of::<C>()]).query_archetype(&archetype, &registry).is_none());
    registry.get_or_register(TypeId::of::<C>());
    assert!(Query::new(vec![TypeId::of::<A>(), TypeId::of::<C>()]).query_archetype(&archetype, &registry).is_none());
}

#[test]
fn remove_row_moves_the_last_row_into_place() {
    let mut registry = ComponentTypeIndexRegistry::new();
    let ia = registry.get_or_register(TypeId::of::<A>());
    let mut archetype: Archetype<u32> = Archetype::new(&[ia], &registry);
    let mut allocator = EntityAllocator::new();
    let mut handles = Vec::new();
    for value in [10u32, 20, 30] {
        let e = allocator.allocate();
        handles.push(e);
        archetype.insert(e, vec![ia], vec![ComponentStorage::from_value(TypeId::of::<A>(), value)]);
    }
    archetype.remove_row(0);
    assert_eq!(archetype.entities(), &vec![handles[2], handles[1]]);
    assert_eq!(archetype.get_column(ia, TypeId::of::<A>()), Some(&vec![30, 20]));
    archetype.remove_row(1);
    assert_eq!(archetype.entities(), &vec![handles[2]]);
    assert_eq!(archetype.get_column(ia, TypeId::of::<A>()), Some(&vec![30]));
}

#[test]
fn column_swap_remove_returns_the_value() {
    let mut column = ComponentStorage::new(TypeId::of::<A>());
    for value in [1u8, 2, 3] {
        let mut carrier = ComponentStorage::from_value(TypeId::of::<A>(), value);
        column.push_from_other(&mut carrier);
    }
    assert_eq!(column.swap_remove(0), 1);
    assert_eq!(column.values(), &vec![3, 2]);
}
