use ecs_core::{Component, EcsError, Entity, World};

#[derive(Debug, PartialEq, Clone)]
enum Part {
    Position { x: f32, y: f32, z: f32 },
    Velocity { x: f32, y: f32, z: f32 },
    Sprite { texture_name: String },
}

impl Component for Part {}

const POSITION: u64 = 1;
const VELOCITY: u64 = 2;
const SPRITE: u64 = 3;

fn position(x: f32, y: f32, z: f32) -> Part {
    Part::Position { x, y, z }
}

fn velocity(x: f32, y: f32, z: f32) -> Part {
    Part::Velocity { x, y, z }
}

fn advance(row: &mut [Part]) {
    if let [Part::Position { x, y, z }, Part::Velocity { x: dx, y: dy, z: dz }] = row {
        *x += *dx;
        *y += *dy;
        *z += *dz;
    } else {
        panic!("a position and a velocity were asked for");
    }
}

#[test]
fn moving_entities_scenario() {
    let mut world: World<Part> = World::new();
    let e1 = world.spawn_entity().unwrap();
    world.add_component(&e1, POSITION, position(6.0, 6.0, 0.0)).unwrap();
    let e2 = world.spawn_entity().unwrap();
    world.add_component(&e2, POSITION, position(0.0, 0.0, 0.0)).unwrap();
    world.add_component(&e1, VELOCITY, velocity(-0.01, -0.01, 0.0)).unwrap();

    let mut seen: Vec<Entity> = Vec::new();
    let visited = world.system(&[POSITION, VELOCITY], |entity, row| {
        seen.push(entity);
        advance(row);
    });
    assert_eq!(seen, vec![e1]);
    assert_eq!(visited, vec![e1]);
    assert_eq!(world.get_component_mut(&e1, POSITION), Some(&mut position(6.0 - 0.01, 6.0 - 0.01, 0.0)));
    assert_eq!(world.get_component_mut(&e1, VELOCITY), Some(&mut velocity(-0.01, -0.01, 0.0)));
    assert_eq!(world.get_component_mut(&e2, POSITION), Some(&mut position(0.0, 0.0, 0.0)));

    assert_eq!(world.despawn_entity(e1), Ok(()));
    let mut calls = 0;
    let visited = world.system(&[POSITION, VELOCITY], |_, _| calls += 1);
    assert_eq!(calls, 0);
    assert!(visited.is_empty());
    assert_eq!(world.get_component_mut(&e1, POSITION), None);
    assert_eq!(world.add_component(&e1, POSITION, position(1.0, 1.0, 1.0)), Err(EcsError::EntityNotFound));
    assert_eq!(world.despawn_entity(e1), Err(EcsError::EntityNotFound));
    assert_eq!(world.get_component_mut(&e2, POSITION), Some(&mut position(0.0, 0.0, 0.0)));
}

fn six_entities(world: &mut World<Part>) -> Vec<Entity> {
    let mut entities = Vec::new();
    for i in 0..6 {
        let e = world.spawn_entity().unwrap();
        if i % 2 == 0 {
            world.add_component(&e, POSITION, position(i as f32, 0.0, 0.0)).unwrap();
        }
        if i % 3 == 0 {
            world.add_component(&e, VELOCITY, velocity(1.0, 0.0, 0.0)).unwrap();
        }
        if i == 0 || i == 4 {
            world.add_component(&e, SPRITE, Part::Sprite { texture_name: format!("sprite {i}") }).unwrap();
        }
        entities.push(e);
    }
    entities
}

#[test]
fn system_visits_each_holder_of_all_once() {
    let mut world: World<Part> = World::new();
    let entities = six_entities(&mut world);
    let mut seen: Vec<Entity> = Vec::new();
    let visited = world.system(&[VELOCITY, POSITION], |entity, row| {
        assert_eq!(row.len(), 2);
        assert!(matches!(row[0], Part::Velocity { .. }));
        assert!(matches!(row[1], Part::Position { .. }));
        seen.push(entity);
    });
    assert_eq!(seen, vec![entities[0]]);
    assert_eq!(visited, seen);

    let mut names: Vec<String> = Vec::new();
    let visited = world.system(&[SPRITE, POSITION], |_, row| {
        if let [Part::Sprite { texture_name }, Part::Position { x, .. }] = row {
            names.push(texture_name.clone());
            *x += 100.0;
        }
    });
    assert_eq!(visited, vec![entities[0], entities[4]]);
    assert_eq!(names, vec![String::from("sprite 0"), String::from("sprite 4")]);
    assert_eq!(world.get_component_mut(&entities[0], POSITION), Some(&mut position(100.0, 0.0, 0.0)));
    assert_eq!(world.get_component_mut(&entities[2], POSITION), Some(&mut position(2.0, 0.0, 0.0)));
    assert_eq!(world.get_component_mut(&entities[4], POSITION), Some(&mut position(104.0, 0.0, 0.0)));

    let visited = world.system(&[POSITION, VELOCITY, SPRITE], |_, row| assert_eq!(row.len(), 3));
    assert_eq!(visited, vec![entities[0]]);
    let visited = world.system(&[VELOCITY], |_, row| assert_eq!(row.len(), 1));
    assert_eq!(visited, vec![entities[0], entities[3]]);
    let visited = world.system(&[], |_, row| assert!(row.is_empty()));
    assert_eq!(visited, entities);
}

#[test]
fn system_leaves_every_other_value_alone() {
    let mut world: World<Part> = World::new();
    let entities = six_entities(&mut world);
    world.system(&[POSITION], |_, row| row[0] = position(-1.0, -1.0, -1.0));
    for (i, entity) in entities.iter().enumerate() {
        let expected = if i % 2 == 0 { Some(position(-1.0, -1.0, -1.0)) } else { None };
        assert_eq!(world.get_component_mut(entity, POSITION).cloned(), expected);
        let expected = if i % 3 == 0 { Some(velocity(1.0, 0.0, 0.0)) } else { None };
        assert_eq!(world.get_component_mut(entity, VELOCITY).cloned(), expected);
    }
    assert_eq!(
        world.get_component_mut(&entities[4], SPRITE),
        Some(&mut Part::Sprite { texture_name: String::from("sprite 4") })
    );
}

#[test]
fn a_type_named_twice_runs_nothing() {
    let mut world: World<Part> = World::new();
    let entities = six_entities(&mut world);
    let mut calls = 0;
    assert!(world.system(&[POSITION, VELOCITY, POSITION], |_, _| calls += 1).is_empty());
    assert!(!world.entity_system(&entities[0], &[POSITION, POSITION], |_, _| calls += 1));
    assert_eq!(calls, 0);
    assert_eq!(world.get_component_mut(&entities[0], POSITION), Some(&mut position(0.0, 0.0, 0.0)));
}

#[test]
fn queries_find_the_holders() {
    let mut world: World<Part> = World::new();
    let entities = six_entities(&mut world);
    assert_eq!(world.query(&[POSITION]), vec![entities[0], entities[2], entities[4]]);
    assert_eq!(world.query(&[VELOCITY]), vec![entities[0], entities[3]]);
    assert_eq!(world.query(&[POSITION, VELOCITY, SPRITE]), vec![entities[0]]);
    assert_eq!(world.query(&[]), entities);
    assert_eq!(world.query(&[77]), Vec::<Entity>::new());
    assert_eq!(world.query(&[POSITION, 77]), Vec::<Entity>::new());
}

#[test]
fn entity_system_runs_on_a_holder_only() {
    let mut world: World<Part> = World::new();
    let e1 = world.spawn_entity().unwrap();
    let e2 = world.spawn_entity().unwrap();
    world.add_component(&e1, POSITION, position(1.0, 2.0, 3.0)).unwrap();
    world.add_component(&e1, SPRITE, Part::Sprite { texture_name: String::from("grass") }).unwrap();
    world.add_component(&e2, POSITION, position(0.0, 0.0, 0.0)).unwrap();
    let mut names: Vec<String> = Vec::new();
    let mut f = |_: Entity, row: &mut [Part]| {
        if let [Part::Position { .. }, Part::Sprite { texture_name }] = row {
            names.push(texture_name.clone());
        }
    };
    assert!(world.entity_system(&e1, &[POSITION, SPRITE], &mut f));
    assert!(!world.entity_system(&e2, &[POSITION, SPRITE], &mut f));
    assert!(!world.entity_system(&Entity { id: 9, generation: 0 }, &[POSITION, SPRITE], f));
    assert_eq!(names, vec![String::from("grass")]);
}

#[test]
fn values_return_to_their_slots_after_a_visit() {
    // the visited entity is neither first nor last in its columns
    let mut world: World<Part> = World::new();
    let mut entities = Vec::new();
    for i in 0..5 {
        let e = world.spawn_entity().unwrap();
        world.add_component(&e, POSITION, position(i as f32, 0.0, 0.0)).unwrap();
        world.add_component(&e, VELOCITY, velocity(0.0, i as f32, 0.0)).unwrap();
        entities.push(e);
    }
    for target in 0..5 {
        assert!(world.entity_system(&entities[target], &[VELOCITY, POSITION], |_, row| {
            row.swap(0, 1);
            row.swap(0, 1);
            if let Part::Velocity { z, .. } = &mut row[0] {
                *z += 1.0;
            }
        }));
        for (i, e) in entities.iter().enumerate() {
            let z = if i <= target { 1.0 } else { 0.0 };
            assert_eq!(world.get_component_mut(e, POSITION), Some(&mut position(i as f32, 0.0, 0.0)));
            assert_eq!(world.get_component_mut(e, VELOCITY), Some(&mut velocity(0.0, i as f32, z)));
        }
    }
}
