use ecs::{ComponentTuple, EntityId, MeshHandle, Query, World};
use std::any::TypeId;

#[derive(Debug, Clone, Copy, PartialEq)]
struct Position(f32, f32, f32);

#[derive(Debug, Clone, Copy, PartialEq)]
struct Velocity(f32, f32, f32);

#[derive(Debug, Clone, Copy, PartialEq)]
struct Health(u32);

#[derive(Debug, Clone, Copy, PartialEq)]
enum Component {
    Position(Position),
    Velocity(Velocity),
    Mesh(MeshHandle),
    Health(Health),
}

fn pos(x: f32, y: f32, z: f32) -> (TypeId, Component) {
    (TypeId::of::<Position>(), Component::Position(Position(x, y, z)))
}

fn vel(x: f32, y: f32, z: f32) -> (TypeId, Component) {
    (TypeId::of::<Velocity>(), Component::Velocity(Velocity(x, y, z)))
}

fn health(h: u32) -> (TypeId, Component) {
    (TypeId::of::<Health>(), Component::Health(Health(h)))
}

fn mesh(vertex_offset: u64) -> (TypeId, Component) {
    let handle = MeshHandle { vertex_offset, index_offset: 0, vertex_count: 3, index_count: 3 };
    (TypeId::of::<MeshHandle>(), Component::Mesh(handle))
}

fn tuple(components: Vec<(TypeId, Component)>) -> ComponentTuple<Component> {
    ComponentTuple::new(components).expect("distinct component types")
}

fn entities_of(world: &World<Component>, types: Vec<TypeId>) -> Vec<EntityId> {
    world.query(&Query::new(types)).iter().map(|row| row.entity).collect()
}

#[test]
fn spawned_handles_are_unique_and_components_read_back() {
    let mut world = World::new();
    let mut handles = Vec::new();
    for i in 0..20u32 {
        let e = world.spawn(tuple(vec![pos(i as f32, 0.0, 0.0), health(i)]));
        assert!(!handles.contains(&e));
        handles.push(e);
        assert_eq!(
            world.get_component(e, TypeId::of::<Position>()),
            Some(&Component::Position(Position(i as f32, 0.0, 0.0)))
        );
        assert_eq!(world.get_component(e, TypeId::of::<Health>()), Some(&Component::Health(Health(i))));
    }
    for (i, e) in handles.iter().enumerate() {
        assert_eq!(world.get_component(*e, TypeId::of::<Health>()), Some(&Component::Health(Health(i as u32))));
    }
}

#[test]
fn missing_component_and_unregistered_type_read_as_none() {
    let mut world = World::new();
    let e = world.spawn(tuple(vec![pos(1.0, 2.0, 3.0)]));
    world.spawn(tuple(vec![health(5)]));
    assert_eq!(world.get_component(e, TypeId::of::<Health>()), None);
    assert_eq!(world.get_component(e, TypeId::of::<Velocity>()), None);
}

#[test]
fn handle_from_another_world_reads_as_none() {
    let mut first = World::new();
    let mut second: World<Component> = World::new();
    first.spawn(tuple(vec![pos(0.0, 0.0, 0.0)]));
    let e = first.spawn(tuple(vec![pos(1.0, 0.0, 0.0)]));
    second.spawn(tuple(vec![pos(2.0, 0.0, 0.0)]));
    assert_eq!(second.get_component(e, TypeId::of::<Position>()), None);
}

#[test]
fn same_component_set_in_any_order_shares_a_table() {
    let mut world = World::new();
    let a = world.spawn(tuple(vec![pos(1.0, 0.0, 0.0), vel(0.0, 1.0, 0.0)]));
    let other = world.spawn(tuple(vec![pos(5.0, 5.0, 5.0)]));
    let b = world.spawn(tuple(vec![vel(0.0, 2.0, 0.0), pos(2.0, 0.0, 0.0)]));
    // rows of one table come out together, in storage order
    assert_eq!(entities_of(&world, vec![TypeId::of::<Velocity>()]), vec![a, b]);
    assert_eq!(
        entities_of(&world, vec![TypeId::of::<Velocity>(), TypeId::of::<Position>()]),
        vec![a, b]
    );
    assert_eq!(entities_of(&world, vec![TypeId::of::<Position>()]), vec![a, b, other]);
}

#[test]
fn query_is_an_inner_join() {
    let mut world = World::new();
    let e = world.spawn(tuple(vec![pos(1.0, 0.0, 0.0), health(3)]));
    world.spawn(tuple(vec![vel(1.0, 1.0, 1.0)]));
    assert_eq!(entities_of(&world, vec![TypeId::of::<Position>()]), vec![e]);
    assert_eq!(entities_of(&world, vec![TypeId::of::<Health>()]), vec![e]);
    assert_eq!(entities_of(&world, vec![TypeId::of::<Position>(), TypeId::of::<Health>()]), vec![e]);
    assert_eq!(entities_of(&world, vec![TypeId::of::<Position>(), TypeId::of::<Velocity>()]), vec![]);
    assert_eq!(entities_of(&world, vec![TypeId::of::<Position>(), TypeId::of::<MeshHandle>()]), vec![]);
}

#[test]
fn query_rows_follow_the_requested_order() {
    let mut world = World::new();
    let e = world.spawn(tuple(vec![pos(1.0, 2.0, 3.0), health(9)]));
    let rows = world.query(&Query::new(vec![TypeId::of::<Health>(), TypeId::of::<Position>()]));
    assert_eq!(rows.len(), 1);
    assert_eq!(rows[0].entity, e);
    assert_eq!(*rows[0].components[0], Component::Health(Health(9)));
    assert_eq!(*rows[0].components[1], Component::Position(Position(1.0, 2.0, 3.0)));
}

#[test]
fn mutation_through_get_component_mut_is_seen_by_queries() {
    let mut world = World::new();
    let e = world.spawn(tuple(vec![pos(0.0, 0.0, 0.0), vel(1.0, 0.0, 0.0)]));
    let rows = world.query(&Query::new(vec![TypeId::of::<Position>(), TypeId::of::<Velocity>()]));
    let targets: Vec<EntityId> = rows.iter().map(|row| row.entity).collect();
    for target in targets {
        if let Some(value) = world.get_component_mut(target, TypeId::of::<Position>()) {
            *value = Component::Position(Position(1.0, 0.0, 0.0));
        }
    }
    let rows = world.query(&Query::new(vec![TypeId::of::<Position>()]));
    assert_eq!(rows.len(), 1);
    assert_eq!(rows[0].entity, e);
    assert_eq!(*rows[0].components[0], Component::Position(Position(1.0, 0.0, 0.0)));
    assert_eq!(world.get_component(e, TypeId::of::<Velocity>()), Some(&Component::Velocity(Velocity(1.0, 0.0, 0.0))));
}

#[test]
fn get_component_mut_of_missing_component_is_none() {
    let mut world = World::new();
    let e = world.spawn(tuple(vec![pos(0.0, 0.0, 0.0)]));
    assert!(world.get_component_mut(e, TypeId::of::<Health>()).is_none());
    assert!(world.get_component_mut(e, TypeId::of::<Velocity>()).is_none());
}

#[test]
fn position_and_mesh_query_scenario() {
    let mut world = World::new();
    let first = world.spawn(tuple(vec![pos(0.0, 0.0, 0.0), mesh(64)]));
    let both = Query::new(vec![TypeId::of::<Position>(), TypeId::of::<MeshHandle>()]);
    let rows = world.query(&both);
    assert_eq!(rows.len(), 1);
    assert_eq!(rows[0].entity, first);
    assert_eq!(*rows[0].components[0], Component::Position(Position(0.0, 0.0, 0.0)));
    assert_eq!(*rows[0].components[1], mesh(64).1);
    world.spawn(tuple(vec![pos(1.0, 1.0, 1.0)]));
    let rows = world.query(&both);
    assert_eq!(rows.len(), 1);
    assert_eq!(rows[0].entity, first);
}

#[test]
fn query_of_unregistered_type_is_empty() {
    let world: World<Component> = World::new();
    let rows = world.query(&Query::new(vec![TypeId::of::<Velocity>()]));
    assert!(rows.is_empty());
    let mut world = World::new();
    world.spawn(tuple(vec![pos(0.0, 0.0, 0.0)]));
    assert!(world.query(&Query::new(vec![TypeId::of::<Velocity>()])).is_empty());
}

#[test]
fn empty_query_matches_every_entity() {
    let mut world = World::new();
    let a = world.spawn(tuple(vec![pos(0.0, 0.0, 0.0)]));
    let b = world.spawn(tuple(vec![health(1)]));
    let rows = world.query(&Query::new(vec![]));
    let found: Vec<EntityId> = rows.iter().map(|row| row.entity).collect();
    assert_eq!(found, vec![a, b]);
    assert!(rows.iter().all(|row| row.components.is_empty()));
}

#[test]
fn new_world_can_spawn() {
    let world: World<Component> = World::new();
    assert!(world.can_spawn_more());
}

#[test]
fn despawn_moves_the_last_row_and_keeps_the_others_readable() {
    let mut world = World::new();
    let a = world.spawn(tuple(vec![pos(1.0, 0.0, 0.0), health(1)]));
    let b = world.spawn(tuple(vec![pos(2.0, 0.0, 0.0), health(2)]));
    let c = world.spawn(tuple(vec![pos(3.0, 0.0, 0.0), health(3)]));
    assert!(world.despawn(a));
    assert_eq!(world.get_component(a, TypeId::of::<Position>()), None);
    assert_eq!(world.get_component(c, TypeId::of::<Health>()), Some(&Component::Health(Health(3))));
    assert_eq!(world.get_component(b, TypeId::of::<Health>()), Some(&Component::Health(Health(2))));
    // the last row took the place of the removed one
    assert_eq!(entities_of(&world, vec![TypeId::of::<Health>()]), vec![c, b]);
    assert!(!world.despawn(a));
    assert_eq!(entities_of(&world, vec![TypeId::of::<Position>()]), vec![c, b]);
}

#[test]
fn despawned_slot_is_reused_with_a_new_generation() {
    let mut world = World::new();
    let a = world.spawn(tuple(vec![pos(1.0, 0.0, 0.0)]));
    let b = world.spawn(tuple(vec![health(7)]));
    assert!(world.despawn(a));
    let c = world.spawn(tuple(vec![vel(0.0, 0.0, 1.0)]));
    assert_eq!(c.index, a.index);
    assert!(c.generation > a.generation);
    assert_ne!(c, a);
    assert_eq!(world.get_component(a, TypeId::of::<Velocity>()), None);
    assert_eq!(world.get_component(c, TypeId::of::<Velocity>()), Some(&Component::Velocity(Velocity(0.0, 0.0, 1.0))));
    assert_eq!(world.get_component(b, TypeId::of::<Health>()), Some(&Component::Health(Health(7))));
    assert!(!world.despawn(a));
    assert!(world.despawn(c));
    assert!(world.despawn(b));
    assert!(world.query(&Query::new(vec![])).is_empty());
}

#[test]
fn despawning_the_last_row_leaves_the_rest_in_place() {
    let mut world = World::new();
    let a = world.spawn(tuple(vec![health(1)]));
    let b = world.spawn(tuple(vec![health(2)]));
    assert!(world.despawn(b));
    assert_eq!(entities_of(&world, vec![TypeId::of::<Health>()]), vec![a]);
    assert_eq!(world.get_component(a, TypeId::of::<Health>()), Some(&Component::Health(Health(1))));
}

#[test]
fn first_spawn_of_a_new_world_is_index_zero_generation_zero() {
    let mut world = World::new();
    let e = world.spawn(tuple(vec![health(1)]));
    assert_eq!(e.index, 0);
    assert_eq!(e.generation, 0);
    let f = world.spawn(tuple(vec![health(2)]));
    assert_eq!(f.index, 1);
    assert_eq!(f.generation, 0);
}

#[test]
fn spawn_joins_its_table_after_the_last_row() {
    let mut world = World::new();
    let a1 = world.spawn(tuple(vec![pos(1.0, 0.0, 0.0)]));
    let b1 = world.spawn(tuple(vec![pos(2.0, 0.0, 0.0), health(1)]));
    let a2 = world.spawn(tuple(vec![pos(3.0, 0.0, 0.0)]));
    let c1 = world.spawn(tuple(vec![vel(0.0, 0.0, 0.0)]));
    let b2 = world.spawn(tuple(vec![health(2), pos(4.0, 0.0, 0.0)]));
    assert_eq!(entities_of(&world, vec![]), vec![a1, a2, b1, b2, c1]);
    let rows = world.query(&Query::new(vec![TypeId::of::<Position>(), TypeId::of::<Health>()]));
    assert_eq!(rows.len(), 2);
    assert_eq!(rows[0].entity, b1);
    assert_eq!(*rows[0].components[0], Component::Position(Position(2.0, 0.0, 0.0)));
    assert_eq!(rows[1].entity, b2);
    assert_eq!(*rows[1].components[1], Component::Health(Health(2)));
}

#[test]
fn set_components_writes_several_types_at_once() {
    let mut world = World::new();
    let e = world.spawn(tuple(vec![pos(0.0, 0.0, 0.0), vel(1.0, 0.0, 0.0), health(3)]));
    assert!(world.set_components(e, tuple(vec![vel(0.0, 2.0, 0.0), pos(5.0, 5.0, 5.0)])));
    assert_eq!(world.get_component(e, TypeId::of::<Position>()), Some(&Component::Position(Position(5.0, 5.0, 5.0))));
    assert_eq!(world.get_component(e, TypeId::of::<Velocity>()), Some(&Component::Velocity(Velocity(0.0, 2.0, 0.0))));
    assert_eq!(world.get_component(e, TypeId::of::<Health>()), Some(&Component::Health(Health(3))));
    // a type the entity lacks: nothing is written
    assert!(!world.set_components(e, tuple(vec![pos(9.0, 9.0, 9.0), mesh(1)])));
    assert_eq!(world.get_component(e, TypeId::of::<Position>()), Some(&Component::Position(Position(5.0, 5.0, 5.0))));
    assert!(world.despawn(e));
    assert!(!world.set_components(e, tuple(vec![health(4)])));
}

#[test]
fn contains_follows_spawn_and_despawn() {
    let mut world = World::new();
    let e = world.spawn(tuple(vec![health(1)]));
    assert!(world.contains(e));
    assert!(world.despawn(e));
    assert!(!world.contains(e));
    let f = world.spawn(tuple(vec![health(2)]));
    assert!(world.contains(f));
    assert!(!world.contains(e));
}
