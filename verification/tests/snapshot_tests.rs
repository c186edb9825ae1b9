use engine_core::ecs::component::{
    Component, ComponentData, ModelRenderer, Networked, MODEL_RENDERER_TYPE_ID, NETWORKED_TYPE_ID,
};
use engine_core::ecs::component_registry::{
    find_component_registration, find_component_registration_by_name, ComponentRegistration,
};
use engine_core::ecs::world::World;
use engine_core::entity::Entity;
use engine_core::networking::packet::{frame_packet, handle_server_message, ServerMessage};
use engine_core::networking::snapshot::{apply_snapshot, build_snapshot, EntitySnapshot, Snapshot};

type TestWorld = World<String, u32>;

fn regs() -> Vec<ComponentRegistration> {
    vec![
        ComponentRegistration { type_id: 100, name: "Health".to_string() },
        ComponentRegistration { type_id: 101, name: "Score".to_string() },
    ]
}

fn data(type_id: u64, bytes: &[u8]) -> Component<String> {
    Component::Data(ComponentData { type_id, bytes: bytes.to_vec() })
}

fn net_id(world: &TestWorld, e: Entity) -> Option<u64> {
    match world.get_component(e, NETWORKED_TYPE_ID) {
        Some(Component::Networked(n)) => Some(n.id),
        _ => None,
    }
}

fn find_by_id(world: &TestWorld, id: u64) -> Option<Entity> {
    (0..8u32)
        .flat_map(|i| (0..3u32).map(move |g| Entity { index: i, generation: g }))
        .find(|e| world.contains(*e) && net_id(world, *e) == Some(id))
}

#[test]
fn registrations_are_found_by_type_and_name() {
    let r = regs();
    assert_eq!(find_component_registration(&r, 101).map(|x| x.name.clone()), Some("Score".to_string()));
    assert!(find_component_registration(&r, 5).is_none());
    assert_eq!(find_component_registration_by_name(&r, &"Health".to_string()).map(|x| x.type_id), Some(100));
    assert!(find_component_registration_by_name(&r, &"Nope".to_string()).is_none());
}

#[test]
fn build_snapshot_lists_networked_entities_with_registered_components() {
    let mut world = TestWorld::new();
    let a = world.spawn();
    world.add_component(a, Component::Networked(Networked { id: 7 }));
    world.add_component(a, data(100, &[5]));
    world.add_component(a, data(55, &[1]));
    let b = world.spawn();
    world.add_component(b, data(100, &[6]));
    let snap = build_snapshot(&world, &regs());
    assert_eq!(snap.entities.len(), 1);
    assert_eq!(snap.entities[0].network_id, 7);
    assert_eq!(snap.entities[0].components, vec![("Health".to_string(), vec![5u8])]);
}

#[test]
fn apply_snapshot_spawns_updates_and_despawns() {
    let mut world = TestWorld::new();
    let model = world.add_asset("cube".to_string(), "meshes/cube.glb".to_string());
    let stale = world.spawn();
    world.add_component(stale, Component::Networked(Networked { id: 1 }));
    let kept = world.spawn();
    world.add_component(kept, Component::Networked(Networked { id: 2 }));
    world.add_component(kept, data(100, &[1]));
    let local = world.spawn();
    let snapshot = Snapshot {
        entities: vec![
            EntitySnapshot {
                network_id: 2,
                components: vec![("Health".to_string(), vec![9]), ("Unknown".to_string(), vec![3])],
            },
            EntitySnapshot { network_id: 3, components: vec![("Score".to_string(), vec![4, 4])] },
        ],
    };
    apply_snapshot(&mut world, snapshot, &regs());
    assert!(!world.contains(stale));
    assert!(world.contains(local));
    assert!(world.contains(kept));
    match world.get_component(kept, 100) {
        Some(Component::Data(d)) => assert_eq!(d.bytes, vec![9]),
        _ => panic!("health replaced"),
    }
    let fresh = find_by_id(&world, 3).expect("entity spawned for id 3");
    match world.get_component(fresh, 101) {
        Some(Component::Data(d)) => assert_eq!(d.bytes, vec![4, 4]),
        _ => panic!("score set"),
    }
    match world.get_component(fresh, MODEL_RENDERER_TYPE_ID) {
        Some(Component::ModelRenderer(ModelRenderer { model: m })) => assert_eq!(*m, model),
        _ => panic!("default model added"),
    }
    assert_eq!(world.entity_count(), 3);
}

#[test]
fn apply_snapshot_without_model_asset_adds_no_renderer() {
    let mut world = TestWorld::new();
    let snapshot = Snapshot { entities: vec![EntitySnapshot { network_id: 9, components: vec![] }] };
    handle_server_message(&mut world, ServerMessage::Snapshot(snapshot), &regs());
    let e = find_by_id(&world, 9).expect("spawned");
    assert!(!world.has_component(e, MODEL_RENDERER_TYPE_ID));
}

#[test]
fn empty_snapshot_despawns_all_networked() {
    let mut world = TestWorld::new();
    let a = world.spawn();
    world.add_component(a, Component::Networked(Networked { id: 1 }));
    let b = world.spawn();
    apply_snapshot(&mut world, Snapshot { entities: vec![] }, &regs());
    assert!(!world.contains(a));
    assert!(world.contains(b));
}

#[test]
fn frame_starts_with_little_endian_id() {
    let frame = frame_packet(0x0403_0201, &vec![9, 8]);
    assert_eq!(frame, vec![1, 2, 3, 4, 9, 8]);
    assert_eq!(frame_packet(1, &vec![]), vec![1, 0, 0, 0]);
}

#[test]
fn replication_round_trip_restores_registered_components() {
    let mut server = TestWorld::new();
    let a = server.spawn();
    server.add_component(a, Component::Networked(Networked { id: 42 }));
    server.add_component(a, data(100, &[1, 2, 3]));
    server.add_component(a, data(101, &[7]));
    server.add_component(a, data(60, &[0]));
    let snap = build_snapshot(&server, &regs());
    let mut client = TestWorld::new();
    apply_snapshot(&mut client, snap, &regs());
    let e = find_by_id(&client, 42).expect("replicated entity");
    match client.get_component(e, 100) {
        Some(Component::Data(d)) => assert_eq!(d.bytes, vec![1, 2, 3]),
        _ => panic!("health replicated"),
    }
    match client.get_component(e, 101) {
        Some(Component::Data(d)) => assert_eq!(d.bytes, vec![7]),
        _ => panic!("score replicated"),
    }
    assert!(!client.has_component(e, 60));
}

#[test]
fn frame_id_decodes_back() {
    let id: u32 = 0xDEAD_BEEF;
    let frame = frame_packet(id, &vec![5]);
    let decoded = u32::from_le_bytes([frame[0], frame[1], frame[2], frame[3]]);
    assert_eq!(decoded, id);
    assert_eq!(&frame[4..], &[5]);
}
