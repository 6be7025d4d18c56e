use ecs_core::{Component, Entity, World};

#[derive(Debug, PartialEq)]
struct Value(u32);

impl Component for Value {}

const KEYS: [u64; 3] = [100, 200, 300];

/// Checks on a store, by looking, that forward and reverse index are each
/// other's inverse and that the buckets part the live entities.
fn inspect(world: &mut World<Value>, all: &[Entity]) {
    let live = world.query(&[]);
    let mut type_ids = Vec::new();
    for key in KEYS {
        type_ids.push(world.component_id(key).unwrap());
    }
    // forward, then reverse
    for entity in all {
        for (n, id) in type_ids.iter().enumerate() {
            let holds = world.query(&[KEYS[n]]).contains(entity);
            match world.slot(entity, *id) {
                Some(slot) => {
                    assert!(holds);
                    assert_eq!(world.owner(*id, slot), Some(*entity));
                }
                None => assert!(!holds),
            }
        }
    }
    // reverse, then forward
    for id in &type_ids {
        let len = world.column_len(*id);
        for slot in 0..len {
            let owner = world.owner(*id, slot).unwrap();
            assert!(live.contains(&owner));
            assert_eq!(world.slot(&owner, *id), Some(slot));
        }
        assert_eq!(world.owner(*id, len), None);
    }
    // the buckets
    let mut total = 0;
    let mut seen: Vec<Entity> = Vec::new();
    let buckets = world.archetypes().len();
    for b in 0..buckets {
        let ids: Vec<u32> = world.archetypes()[b].component_ids().clone();
        let members: Vec<Entity> = world.archetypes()[b].members().clone();
        assert!(ids.windows(2).all(|w| w[0] < w[1]));
        for other in 0..b {
            assert_ne!(world.archetypes()[other].component_ids(), &ids);
        }
        total += members.len();
        for (position, member) in members.iter().enumerate() {
            assert!(live.contains(member));
            assert!(!seen.contains(member));
            seen.push(*member);
            assert_eq!(world.home(member), Some((b, position)));
            for id in &type_ids {
                assert_eq!(ids.contains(id), world.slot(member, *id).is_some());
            }
        }
    }
    assert_eq!(total, live.len());
    for entity in all {
        assert_eq!(world.home(entity).is_some(), live.contains(entity));
    }
}

#[test]
fn indexes_and_buckets_agree_after_every_step() {
    let mut world: World<Value> = World::new();
    let mut all: Vec<Entity> = Vec::new();
    inspect(&mut world, &all);
    for round in 0..4u32 {
        for n in 0..5u32 {
            let entity = world.spawn_entity().unwrap();
            all.push(entity);
            inspect(&mut world, &all);
            for (k, key) in KEYS.iter().enumerate() {
                if (n + round + k as u32) % 2 == 0 {
                    world.add_component(&entity, *key, Value(n * 10 + k as u32)).unwrap();
                    inspect(&mut world, &all);
                }
            }
        }
        let live = world.query(&[]);
        for (n, entity) in live.iter().enumerate() {
            if (n as u32 + round) % 3 == 0 {
                world.despawn_entity(*entity).unwrap();
                inspect(&mut world, &all);
            }
        }
    }
}

#[test]
fn values_stay_with_their_entities_when_slots_move() {
    let mut world: World<Value> = World::new();
    let mut entities = Vec::new();
    for n in 0..8u32 {
        let entity = world.spawn_entity().unwrap();
        world.add_component(&entity, 100, Value(n)).unwrap();
        if n % 2 == 1 {
            world.add_component(&entity, 200, Value(100 + n)).unwrap();
        }
        entities.push(entity);
    }
    for n in [0usize, 3, 4] {
        world.despawn_entity(entities[n]).unwrap();
    }
    for (n, entity) in entities.iter().enumerate() {
        let gone = n == 0 || n == 3 || n == 4;
        let first = world.get_component_mut(entity, 100).map(|v| v.0);
        let second = world.get_component_mut(entity, 200).map(|v| v.0);
        if gone {
            assert_eq!(first, None);
            assert_eq!(second, None);
        } else {
            assert_eq!(first, Some(n as u32));
            assert_eq!(second, if n % 2 == 1 { Some(100 + n as u32) } else { None });
        }
    }
}

#[test]
fn a_new_entity_stands_in_the_first_bucket() {
    let mut world: World<Value> = World::new();
    let a = world.spawn_entity().unwrap();
    let b = world.spawn_entity().unwrap();
    assert_eq!(world.home(&a), Some((0, 0)));
    assert_eq!(world.home(&b), Some((0, 1)));
    assert!(world.archetypes()[0].component_ids().is_empty());
    world.add_component(&a, 100, Value(1)).unwrap();
    assert_eq!(world.home(&a), Some((1, 0)));
    assert_eq!(world.home(&b), Some((0, 0)));
    assert_eq!(world.archetypes()[1].component_ids(), &vec![0u32]);
    world.add_component(&b, 200, Value(2)).unwrap();
    world.add_component(&b, 100, Value(3)).unwrap();
    world.add_component(&a, 200, Value(4)).unwrap();
    assert_eq!(world.home(&b), Some((3, 0)));
    assert_eq!(world.home(&a), Some((3, 1)));
    assert_eq!(world.archetypes()[3].component_ids(), &vec![0u32, 1u32]);
    assert_eq!(world.archetypes().len(), 4);
}

#[test]
fn a_value_goes_last_and_the_last_closes_a_gap() {
    let mut world: World<Value> = World::new();
    let a = world.spawn_entity().unwrap();
    let b = world.spawn_entity().unwrap();
    let c = world.spawn_entity().unwrap();
    world.add_component(&a, 100, Value(1)).unwrap();
    world.add_component(&b, 100, Value(2)).unwrap();
    world.add_component(&c, 100, Value(3)).unwrap();
    let id = world.component_id(100).unwrap();
    assert_eq!(id, 0);
    assert_eq!(world.column_len(id), 3);
    assert_eq!([world.slot(&a, id), world.slot(&b, id), world.slot(&c, id)], [Some(0), Some(1), Some(2)]);
    assert_eq!([world.owner(id, 0), world.owner(id, 1), world.owner(id, 2)], [Some(a), Some(b), Some(c)]);
    assert_eq!(world.archetypes()[1].members(), &vec![a, b, c]);

    world.despawn_entity(a).unwrap();
    assert_eq!(world.column_len(id), 2);
    assert_eq!([world.slot(&a, id), world.slot(&b, id), world.slot(&c, id)], [None, Some(1), Some(0)]);
    assert_eq!([world.owner(id, 0), world.owner(id, 1), world.owner(id, 2)], [Some(c), Some(b), None]);
    assert_eq!(world.archetypes()[1].members(), &vec![c, b]);
    assert_eq!(world.home(&c), Some((1, 0)));
    assert_eq!(world.home(&b), Some((1, 1)));
    assert_eq!(world.home(&a), None);
    assert_eq!(world.get_component_mut(&c, 100), Some(&mut Value(3)));

    // the last one leaves: nothing moves
    world.despawn_entity(b).unwrap();
    assert_eq!(world.column_len(id), 1);
    assert_eq!(world.owner(id, 0), Some(c));
    assert_eq!(world.archetypes()[1].members(), &vec![c]);

    // columns and buckets stay when they are empty
    world.despawn_entity(c).unwrap();
    assert_eq!(world.column_len(id), 0);
    assert_eq!(world.archetypes().len(), 2);
    assert!(world.archetypes()[1].members().is_empty());
    assert_eq!(world.archetypes()[1].component_ids(), &vec![0u32]);
    assert_eq!(world.component_id(100), Ok(0));
}

#[test]
fn a_bucket_is_found_again_by_its_name() {
    let mut world: World<Value> = World::new();
    let a = world.spawn_entity().unwrap();
    let b = world.spawn_entity().unwrap();
    // the same two types, added in either order, name one bucket
    world.add_component(&a, 100, Value(1)).unwrap();
    world.add_component(&a, 200, Value(2)).unwrap();
    world.add_component(&b, 200, Value(3)).unwrap();
    world.add_component(&b, 100, Value(4)).unwrap();
    assert_eq!(world.home(&a), Some((2, 0)));
    assert_eq!(world.home(&b), Some((2, 1)));
    let names: Vec<Vec<u32>> =
        world.archetypes().iter().map(|bucket| bucket.component_ids().clone()).collect();
    assert_eq!(names, vec![vec![], vec![0], vec![0, 1], vec![1]]);
}
