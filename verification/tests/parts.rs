use ecs_core::{Archetype, Component, ComponentList, ComponentListOps, ComponentRegistry, Entity};

#[derive(Debug, PartialEq)]
struct Value(u32);

impl Component for Value {}

#[test]
fn registry_gives_dense_ids_in_order_of_first_use() {
    let mut registry = ComponentRegistry::new();
    assert_eq!(registry.find(5), None);
    assert_eq!(registry.id(5), Ok(0));
    assert_eq!(registry.id(3), Ok(1));
    assert_eq!(registry.id(5), Ok(0));
    assert_eq!(registry.id(900), Ok(2));
    assert_eq!(registry.id(3), Ok(1));
    assert_eq!(registry.find(900), Some(2));
    assert_eq!(registry.find(4), None);
}

#[test]
fn column_swap_remove_reports_what_moved() {
    let mut column: ComponentList<Value> = ComponentList::new();
    assert_eq!(column.len(), 0);
    assert_eq!(column.push(Value(10)), 0);
    assert_eq!(column.push(Value(11)), 1);
    assert_eq!(column.push(Value(12)), 2);
    assert_eq!(column.swap_remove(0), Some(2));
    assert_eq!(column.components, vec![Value(12), Value(11)]);
    assert_eq!(column.swap_remove(1), None);
    assert_eq!(column.components, vec![Value(12)]);
    assert_eq!(column.get_mut(0), Some(&mut Value(12)));
    assert_eq!(column.get_mut(1), None);
    *column.get_mut(0).unwrap() = Value(7);
    assert_eq!(column.components, vec![Value(7)]);
    assert_eq!(column.swap_remove(0), None);
    assert_eq!(column.len(), 0);
}

#[test]
fn archetype_keeps_its_name_and_its_entities() {
    let mut bucket = Archetype::new(&[1, 4, 6]);
    assert_eq!(bucket.component_ids(), &vec![1, 4, 6]);
    assert!(bucket.has_components(&[4, 1]));
    assert!(bucket.has_components(&[]));
    assert!(!bucket.has_components(&[1, 2]));
    assert!(bucket.is_named(&[1, 4, 6]));
    assert!(!bucket.is_named(&[1, 4]));
    assert!(!bucket.is_named(&[1, 6, 4]));
    let a = Entity { id: 0, generation: 0 };
    let b = Entity { id: 1, generation: 3 };
    let c = Entity { id: 2, generation: 0 };
    bucket.push_entity(a);
    bucket.push_entity(b);
    bucket.push_entity(c);
    assert_eq!(bucket.len(), 3);
    assert_eq!(bucket.entity_index(&b), Some(1));
    assert_eq!(bucket.entity_index(&Entity { id: 1, generation: 2 }), None);
    assert_eq!(bucket.remove_entity(0), Some(c));
    assert_eq!(bucket.members(), &vec![c, b]);
    assert_eq!(bucket.remove_entity(1), None);
    assert_eq!(bucket.members(), &vec![c]);
    assert_eq!(bucket.entity_index(&c), Some(0));
}
