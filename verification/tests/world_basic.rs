use ecs_core::{Component, EcsError, Entity, World};

#[derive(Debug, PartialEq)]
enum Part {
    Position(i32, i32, i32),
    Velocity(i32, i32, i32),
}

impl Component for Part {}

const POSITION: u64 = 10;
const VELOCITY: u64 = 20;

#[test]
fn add_then_get_gives_the_value_back() {
    let mut world: World<Part> = World::new();
    let e = world.spawn_entity().unwrap();
    assert_eq!(world.add_component(&e, POSITION, Part::Position(6, 6, 0)), Ok(()));
    assert_eq!(world.get_component_mut(&e, POSITION), Some(&mut Part::Position(6, 6, 0)));
    *world.get_component_mut(&e, POSITION).unwrap() = Part::Position(7, 8, 9);
    assert_eq!(world.get_component_mut(&e, POSITION), Some(&mut Part::Position(7, 8, 9)));
    assert_eq!(world.get_component_mut(&e, VELOCITY), None);
}

#[test]
fn errors_of_add_component() {
    let mut world: World<Part> = World::new();
    let e = world.spawn_entity().unwrap();
    let stranger = Entity { id: 5, generation: 0 };
    assert_eq!(
        world.add_component(&stranger, POSITION, Part::Position(0, 0, 0)),
        Err(EcsError::EntityNotFound)
    );
    assert_eq!(world.add_component(&e, POSITION, Part::Position(0, 0, 0)), Ok(()));
    assert_eq!(
        world.add_component(&e, POSITION, Part::Position(1, 1, 1)),
        Err(EcsError::DuplicateComponent)
    );
    assert_eq!(world.get_component_mut(&e, POSITION), Some(&mut Part::Position(0, 0, 0)));
}

#[test]
fn despawn_moves_the_last_value_into_the_gap() {
    let mut world: World<Part> = World::new();
    let a = world.spawn_entity().unwrap();
    let b = world.spawn_entity().unwrap();
    let c = world.spawn_entity().unwrap();
    world.add_component(&a, POSITION, Part::Position(1, 0, 0)).unwrap();
    world.add_component(&b, POSITION, Part::Position(2, 0, 0)).unwrap();
    world.add_component(&c, POSITION, Part::Position(3, 0, 0)).unwrap();
    world.add_component(&c, VELOCITY, Part::Velocity(3, 3, 3)).unwrap();
    world.add_component(&a, VELOCITY, Part::Velocity(1, 1, 1)).unwrap();
    assert_eq!(world.despawn_entity(a), Ok(()));
    assert_eq!(world.get_component_mut(&a, POSITION), None);
    assert_eq!(world.get_component_mut(&b, POSITION), Some(&mut Part::Position(2, 0, 0)));
    assert_eq!(world.get_component_mut(&c, POSITION), Some(&mut Part::Position(3, 0, 0)));
    assert_eq!(world.get_component_mut(&c, VELOCITY), Some(&mut Part::Velocity(3, 3, 3)));
    assert_eq!(world.get_component_mut(&b, VELOCITY), None);
    assert_eq!(world.despawn_entity(a), Err(EcsError::EntityNotFound));
    assert_eq!(
        world.add_component(&a, POSITION, Part::Position(0, 0, 0)),
        Err(EcsError::EntityNotFound)
    );
    let again = world.spawn_entity().unwrap();
    assert_eq!(again, Entity { id: a.id, generation: a.generation + 1 });
    assert_ne!(again, a);
    assert_eq!(world.get_component_mut(&again, POSITION), None);
    assert_eq!(world.get_component_mut(&a, POSITION), None);
}

#[test]
fn component_ids_count_up_in_order_of_first_use() {
    let mut world: World<Part> = World::new();
    assert_eq!(world.component_id(VELOCITY), Ok(0));
    assert_eq!(world.component_id(POSITION), Ok(1));
    assert_eq!(world.component_id(VELOCITY), Ok(0));
    let e = world.spawn_entity().unwrap();
    world.add_component(&e, 99, Part::Position(0, 0, 0)).unwrap();
    assert_eq!(world.component_id(99), Ok(2));
}
