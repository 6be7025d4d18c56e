use ecs_core::{Bundle, Component, EcsError, Entity, World};

#[derive(Debug, PartialEq)]
enum Part {
    Position(i32, i32),
    Name(String),
}

impl Component for Part {}

const POSITION: u64 = 1;
const NAME: u64 = 2;

struct Player {
    at: (i32, i32),
    name: String,
}

impl Bundle<Part> for Player {
    fn components(self) -> Vec<(u64, Part)> {
        vec![(POSITION, Part::Position(self.at.0, self.at.1)), (NAME, Part::Name(self.name))]
    }
}

#[test]
fn spawn_bundle_adds_each_part() {
    let mut world: World<Part> = World::new();
    let player = world.spawn_bundle(Player { at: (3, 4), name: String::from("ann") }).unwrap();
    assert_eq!(player, Entity { id: 0, generation: 0 });
    assert_eq!(world.get_component_mut(&player, POSITION), Some(&mut Part::Position(3, 4)));
    assert_eq!(world.get_component_mut(&player, NAME), Some(&mut Part::Name(String::from("ann"))));
}

#[test]
fn spawn_with_stops_at_a_second_component_of_one_type() {
    let mut world: World<Part> = World::new();
    let spawned = world.spawn_with(vec![
        (POSITION, Part::Position(1, 1)),
        (POSITION, Part::Position(2, 2)),
        (NAME, Part::Name(String::from("late"))),
    ]);
    assert_eq!(spawned, Err(EcsError::DuplicateComponent));
    let entity = Entity { id: 0, generation: 0 };
    assert_eq!(world.get_component_mut(&entity, POSITION), Some(&mut Part::Position(1, 1)));
    assert_eq!(world.get_component_mut(&entity, NAME), None);
    assert_eq!(world.query(&[]), vec![entity]);
}

#[test]
fn spawn_with_nothing_is_a_plain_spawn() {
    let mut world: World<Part> = World::new();
    let entity = world.spawn_with(Vec::new()).unwrap();
    assert_eq!(world.query(&[]), vec![entity]);
    assert_eq!(world.query(&[POSITION]), Vec::<Entity>::new());
}
