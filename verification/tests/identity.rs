use ecs_core::{Component, EcsError, Entity, EntityRegistry, World};

struct Unit;

impl Component for Unit {}

#[test]
fn live_entities_differ_and_dead_handles_never_return() {
    let mut world: World<Unit> = World::new();
    let mut live: Vec<Entity> = Vec::new();
    let mut dead: Vec<Entity> = Vec::new();
    for round in 0..50usize {
        let entity = world.spawn_entity().unwrap();
        assert!(!live.contains(&entity));
        assert!(!dead.contains(&entity));
        live.push(entity);
        if round % 3 != 0 {
            let victim = live.remove((round * 7) % live.len());
            assert_eq!(world.despawn_entity(victim), Ok(()));
            dead.push(victim);
        }
        for entity in &dead {
            assert!(!world.is_alive(entity));
        }
        for entity in &live {
            assert!(world.is_alive(entity));
        }
    }
    assert_eq!(world.query(&[]).len(), live.len());
}

#[test]
fn the_handle_freed_last_is_reused_first() {
    let mut registry = EntityRegistry::new();
    let a = registry.new_entity().unwrap();
    let b = registry.new_entity().unwrap();
    registry.remove_entity(a);
    registry.remove_entity(b);
    assert_eq!(registry.new_entity(), Ok(Entity { id: 1, generation: 1 }));
    assert_eq!(registry.new_entity(), Ok(Entity { id: 0, generation: 1 }));
    assert_eq!(registry.new_entity(), Ok(Entity { id: 2, generation: 0 }));
}

#[test]
fn a_worn_out_id_is_retired() {
    let mut registry = EntityRegistry::new();
    let first = registry.new_entity().unwrap();
    assert_eq!(first, Entity { id: 0, generation: 0 });
    registry.remove_entity(Entity { id: 0, generation: u32::MAX });
    assert_eq!(registry.new_entity(), Ok(Entity { id: 1, generation: 0 }));
    assert_eq!(registry.new_entity(), Ok(Entity { id: 2, generation: 0 }));
}

#[test]
fn accessors_of_a_handle() {
    let entity = Entity { id: 4, generation: 9 };
    assert_eq!(entity.id(), 4);
    assert_eq!(entity.generation(), 9);
}

#[test]
fn every_error_has_its_text() {
    assert_eq!(EcsError::EntityNotFound.describe(), "entity not found in world");
    assert_eq!(EcsError::DuplicateComponent.describe(), "entity already contains specified component");
    assert_eq!(EcsError::RegistryExhausted.describe(), "maximum number of identities exceeded");
    assert_eq!(EcsError::ComponentTypeMismatch.describe(), "component type mismatch");
}

#[test]
fn fresh_ids_count_up_from_zero() {
    let mut registry = EntityRegistry::new();
    let a = registry.new_entity().unwrap();
    let b = registry.new_entity().unwrap();
    assert_eq!(a, Entity { id: 0, generation: 0 });
    assert_eq!(b, Entity { id: 1, generation: 0 });
}

#[test]
fn freed_handle_comes_back_with_next_generation() {
    let mut registry = EntityRegistry::new();
    let a = registry.new_entity().unwrap();
    registry.remove_entity(a);
    let b = registry.new_entity().unwrap();
    assert_eq!(b, Entity { id: 0, generation: 1 });
    assert_ne!(a, b);
}

#[test]
fn a_stale_handle_does_not_reach_the_entity_that_reuses_its_id() {
    let mut world: World<Unit> = World::new();
    let first = world.spawn_entity().unwrap();
    world.add_component(&first, 1, Unit).unwrap();
    world.despawn_entity(first).unwrap();
    let second = world.spawn_entity().unwrap();
    assert_eq!(second.id(), first.id());
    assert_eq!(second.generation(), first.generation() + 1);
    world.add_component(&second, 1, Unit).unwrap();
    assert!(world.is_alive(&second));
    assert!(!world.is_alive(&first));
    assert!(world.get_component_mut(&first, 1).is_none());
    assert_eq!(world.add_component(&first, 2, Unit), Err(EcsError::EntityNotFound));
    assert_eq!(world.despawn_entity(first), Err(EcsError::EntityNotFound));
    assert!(world.get_component_mut(&second, 1).is_some());
    assert_eq!(world.query(&[1]), vec![second]);
}
