use engine_core::ecs::commands::Commands;
use engine_core::ecs::component::{
    Children, Component, ComponentData, Networked, Parent, CHILDREN_TYPE_ID, NETWORKED_TYPE_ID,
    PARENT_TYPE_ID,
};
use engine_core::ecs::query::{Query, QueryFilter, Single, SingleError, With, Without};
use engine_core::ecs::resources::ResourceError;
use engine_core::ecs::world::World;
use engine_core::entity::Entity;

type TestWorld = World<String, u32>;

fn data(type_id: u64, bytes: &[u8]) -> Component<String> {
    Component::Data(ComponentData { type_id, bytes: bytes.to_vec() })
}

fn bytes_of(world: &TestWorld, e: Entity, t: u64) -> Option<Vec<u8>> {
    match world.get_component(e, t) {
        Some(Component::Data(d)) => Some(d.bytes.clone()),
        _ => None,
    }
}

#[test]
fn spawn_gives_fresh_entities_in_order() {
    let mut world = TestWorld::new();
    let a = world.spawn();
    let b = world.spawn();
    assert_eq!(a, Entity { index: 0, generation: 0 });
    assert_eq!(b, Entity { index: 1, generation: 0 });
    assert!(world.contains(a));
    assert!(world.contains(b));
    assert_eq!(world.entity_count(), 2);
}

#[test]
fn despawn_frees_slot_for_reuse_under_generation_one() {
    let mut world = TestWorld::new();
    let a = world.spawn();
    let _b = world.spawn();
    assert!(world.despawn(a));
    assert!(!world.contains(a));
    assert!(!world.despawn(a));
    let c = world.spawn();
    assert_eq!(c, Entity { index: 0, generation: 1 });
    assert_ne!(c, a);
    assert_eq!(world.entity_count(), 2);
}

#[test]
fn each_reuse_of_a_slot_takes_a_new_generation() {
    let mut world = TestWorld::new();
    let a = world.spawn();
    world.despawn(a);
    let b = world.spawn();
    world.despawn(b);
    let c = world.spawn();
    assert_eq!(b, Entity { index: 0, generation: 1 });
    assert_eq!(c, Entity { index: 0, generation: 2 });
    assert_ne!(c, a);
    assert_ne!(c, b);
    assert!(!world.contains(b));
    assert!(world.contains(c));
}

#[test]
fn component_read_after_add_and_replace() {
    let mut world = TestWorld::new();
    let e = world.spawn();
    world.add_component(e, data(10, &[1, 2]));
    assert!(world.has_component(e, 10));
    assert_eq!(bytes_of(&world, e, 10), Some(vec![1, 2]));
    world.add_component(e, data(10, &[7]));
    assert_eq!(bytes_of(&world, e, 10), Some(vec![7]));
    assert!(!world.has_component(e, 11));
}

#[test]
fn add_component_to_dead_entity_does_nothing() {
    let mut world = TestWorld::new();
    let e = world.spawn();
    world.despawn(e);
    world.add_component(e, data(10, &[1]));
    assert!(!world.has_component(e, 10));
    assert_eq!(world.entity_count(), 0);
}

#[test]
fn remove_after_add_gives_component_back() {
    let mut world = TestWorld::new();
    let e = world.spawn();
    world.add_component(e, data(10, &[3]));
    world.add_component(e, data(12, &[4]));
    let removed = world.remove_component(e, 10);
    match removed {
        Some(Component::Data(d)) => assert_eq!(d.bytes, vec![3]),
        _ => panic!("expected the added component"),
    }
    assert!(!world.has_component(e, 10));
    assert_eq!(bytes_of(&world, e, 12), Some(vec![4]));
    assert!(world.remove_component(e, 10).is_none());
    world.remove_component_by_type_id(e, 12);
    assert!(!world.has_component(e, 12));
}

#[test]
fn component_types_lists_sorted_signature() {
    let mut world = TestWorld::new();
    let e = world.spawn();
    world.add_component(e, data(30, &[]));
    world.add_component(e, data(20, &[]));
    assert_eq!(world.component_types(e).cloned(), Some(vec![20, 30]));
    let dead = Entity { index: 9, generation: 0 };
    assert!(world.component_types(dead).is_none());
}

#[test]
fn archetypes_are_shared_by_signature() {
    let mut world = TestWorld::new();
    assert_eq!(world.archetypes().len(), 1);
    let a = world.spawn();
    let b = world.spawn();
    world.add_component(a, data(5, &[]));
    world.add_component(b, data(5, &[]));
    assert_eq!(world.archetypes().len(), 2);
}

#[test]
fn set_parent_links_child_and_parent() {
    let mut world = TestWorld::new();
    let p = world.spawn();
    let c = world.spawn();
    world.set_parent(c, Some(p));
    match world.get_component(c, PARENT_TYPE_ID) {
        Some(Component::Parent(Parent(x))) => assert_eq!(*x, p),
        _ => panic!("child should name its parent"),
    }
    match world.get_component(p, CHILDREN_TYPE_ID) {
        Some(Component::Children(Children(list))) => assert_eq!(list.clone(), vec![c]),
        _ => panic!("parent should list the child"),
    }
}

#[test]
fn set_parent_moves_child_between_parents_and_clears() {
    let mut world = TestWorld::new();
    let p1 = world.spawn();
    let p2 = world.spawn();
    let c = world.spawn();
    let d = world.spawn();
    world.set_parent(c, Some(p1));
    world.set_parent(d, Some(p1));
    world.set_parent(c, Some(p2));
    match world.get_component(p1, CHILDREN_TYPE_ID) {
        Some(Component::Children(Children(list))) => assert_eq!(list.clone(), vec![d]),
        _ => panic!("old parent keeps its list"),
    }
    match world.get_component(p2, CHILDREN_TYPE_ID) {
        Some(Component::Children(Children(list))) => assert_eq!(list.clone(), vec![c]),
        _ => panic!("new parent lists the child"),
    }
    world.set_parent(c, None);
    assert!(!world.has_component(c, PARENT_TYPE_ID));
    match world.get_component(p2, CHILDREN_TYPE_ID) {
        Some(Component::Children(Children(list))) => assert!(list.is_empty()),
        _ => panic!("list stays, empty"),
    }
}

#[test]
fn resources_add_get_replace_remove() {
    let mut world = TestWorld::new();
    assert_eq!(world.get_resource(1).err(), Some(ResourceError::Missing(1)));
    assert!(!world.has_resource(1));
    world.add_resource(1, 10);
    assert_eq!(world.get_resource(1).ok().copied(), Some(10));
    world.add_resource(1, 11);
    assert_eq!(world.get_resource(1).ok().copied(), Some(11));
    if let Ok(v) = world.get_resource_mut(1) {
        *v = 12;
    }
    assert_eq!(world.get_resource(1).ok().copied(), Some(12));
    assert_eq!(world.remove_resource(1), Some(12));
    assert_eq!(world.remove_resource(1), None);
    assert!(world.get_resource_mut(1).is_err());
}

#[test]
fn assets_through_world() {
    let mut world = TestWorld::new();
    let h = world.add_asset("mesh".to_string(), "meshes/a.glb".to_string());
    assert_eq!(world.get_asset(h).cloned(), Some("mesh".to_string()));
    assert_eq!(world.get_asset_by_path("meshes/a.glb").cloned(), Some("mesh".to_string()));
    assert_eq!(world.get_asset_handle("meshes/a.glb"), Some(h));
    if let Some(v) = world.get_asset_mut(h) {
        v.push('!');
    }
    assert_eq!(world.remove_asset(h), Some("mesh!".to_string()));
    assert!(world.get_asset(h).is_none());
    assert!(world.get_asset_handle("meshes/a.glb").is_none());
    assert_eq!(world.assets_of().len(), 0);
}

#[test]
fn query_yields_exactly_matching_entities() {
    let mut world = TestWorld::new();
    let a = world.spawn();
    let b = world.spawn();
    let c = world.spawn();
    world.add_component(a, data(1, &[]));
    world.add_component(b, data(1, &[]));
    world.add_component(b, data(2, &[]));
    world.add_component(c, data(2, &[]));
    let fetched = vec![1u64];
    let all = Query::new(&world, &fetched, &QueryFilter::none()).entities();
    assert_eq!(all.len(), 2);
    assert!(all.contains(&a) && all.contains(&b));
    let without = QueryFilter::none().without(Without(2));
    assert_eq!(Query::new(&world, &fetched, &without).entities(), vec![a]);
    let with = QueryFilter::none().with(With(2));
    assert_eq!(Query::new(&world, &fetched, &with).entities(), vec![b]);
    let mut it = Query::new(&world, &vec![2u64], &QueryFilter::none()).iter();
    let mut seen = Vec::new();
    while let Some(e) = it.next() {
        seen.push(e);
    }
    assert_eq!(seen.len(), 2);
}

#[test]
fn single_reports_no_match_and_more_than_one() {
    let mut world = TestWorld::new();
    let f = QueryFilter::none();
    assert_eq!(Single::new(&world, &vec![7u64], &f).err(), Some(SingleError::NoMatch));
    let a = world.spawn();
    world.add_component(a, data(7, &[]));
    assert_eq!(Single::new(&world, &vec![7u64], &f).ok().map(|s| s.entity()), Some(a));
    let b = world.spawn();
    world.add_component(b, data(7, &[]));
    assert_eq!(Single::new(&world, &vec![7u64], &f).err(), Some(SingleError::MoreThanOne));
}

#[test]
fn commands_apply_in_order() {
    let mut world = TestWorld::new();
    let existing = world.spawn();
    let mut commands: Commands<String, u32> = Commands::new(world.entity_counter());
    let e = commands.spawn();
    assert_eq!(e, Entity { index: 1, generation: 0 });
    commands.add_component(e, data(4, &[9]));
    commands.add_component(e, Component::Networked(Networked { id: 77 }));
    commands.remove_component(e, 4);
    commands.add_resource(3, 33);
    commands.set_parent(e, Some(existing));
    commands.despawn(existing);
    commands.remove_resource(3);
    commands.add_resource(5, 55);
    commands.apply(&mut world);
    assert!(world.contains(e));
    assert!(!world.contains(existing));
    assert!(!world.has_component(e, 4));
    assert!(world.has_component(e, NETWORKED_TYPE_ID));
    assert!(world.has_component(e, PARENT_TYPE_ID));
    assert!(!world.has_resource(3));
    assert_eq!(world.get_resource(5).ok().copied(), Some(55));
    assert_eq!(world.entity_counter(), 2);
}

#[test]
fn commands_clear_parent_detaches() {
    let mut world = TestWorld::new();
    let p = world.spawn();
    let c = world.spawn();
    world.set_parent(c, Some(p));
    let mut commands: Commands<String, u32> = Commands::new(world.entity_counter());
    commands.clear_parent(c);
    commands.apply(&mut world);
    assert!(!world.has_component(c, PARENT_TYPE_ID));
}

#[test]
fn spawn_reserved_skips_slot_in_use() {
    let mut world = TestWorld::new();
    let a = world.spawn();
    world.spawn_reserved(Entity { index: 0, generation: 5 });
    assert!(world.contains(a));
    assert!(!world.contains(Entity { index: 0, generation: 5 }));
    world.spawn_reserved(Entity { index: 3, generation: 0 });
    assert!(world.contains(Entity { index: 3, generation: 0 }));
    assert_eq!(world.entity_counter(), 4);
    let next = world.spawn();
    assert_eq!(next, Entity { index: 4, generation: 0 });
}

#[test]
fn component_written_through_mutable_access() {
    let mut world = TestWorld::new();
    let e = world.spawn();
    world.add_component(e, data(7, &[1, 2]));
    world.add_component(e, data(9, &[5]));
    match world.get_component_mut(e, 7) {
        Some(c) => *c = data(7, &[3, 4]),
        None => panic!("component missing"),
    }
    assert_eq!(bytes_of(&world, e, 7), Some(vec![3, 4]));
    assert_eq!(bytes_of(&world, e, 9), Some(vec![5]));
    assert!(world.get_component_mut(e, 8).is_none());
    world.despawn(e);
    assert!(world.get_component_mut(e, 7).is_none());
}
