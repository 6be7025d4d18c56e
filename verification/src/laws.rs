//! What holds of every store, proved from the model.

use vstd::prelude::*;
use crate::component::{id_of, ComponentId, TypeKey};
use crate::entity::Entity;
use crate::archetype::ascending;
use crate::model::{inserted, Layout, Step, WorldView};

verus! {

/// The empty store is a store.
pub proof fn lemma_empty_inv<C>()
    ensures
        WorldView::<C>::empty().inv(),
{
}

/// An index found for a key among keys without repetition is the key's id.
pub proof fn lemma_id_of_index(types: Seq<TypeKey>, i: int)
    requires
        types.no_duplicates(),
        types.len() <= ComponentId::MAX,
        0 <= i < types.len(),
    ensures
        id_of(types, types[i]) == Some(i as ComponentId),
{
    assert(types.contains(types[i]));
}

/// Registering a type changes the id of no other type, and gives the type an
/// id unless none is left.
pub proof fn lemma_register_keeps_ids<C>(view: WorldView<C>, key: TypeKey, other: TypeKey)
    requires
        view.inv(),
    ensures
        view.register(key).types.no_duplicates(),
        view.register(key).types.len() <= ComponentId::MAX,
        view.component_id(other) is Some ==> view.register(key).component_id(other)
            == view.component_id(other),
        view.component_id(key) is None ==> view.register(key).component_id(key) == if view.types.len()
            < ComponentId::MAX {
            Some(view.types.len() as ComponentId)
        } else {
            None
        },
        other != key ==> view.register(key).component_id(other) == view.component_id(other),
{
    let after = view.register(key).types;
    if after != view.types {
        assert(after == view.types.push(key));
        assert(after[view.types.len() as int] == key);
        assert(after.contains(key));
        lemma_id_of_index(after, view.types.len() as int);
        if view.types.contains(other) {
            let i = view.types.index_of(other);
            assert(after[i] == other);
            lemma_id_of_index(after, i);
            lemma_id_of_index(view.types, i);
        } else if other != key {
            if after.contains(other) {
                let i = after.index_of(other);
                assert(view.types[i] == other);
            }
        }
    }
}

/// Every request takes a store to a store.
pub proof fn lemma_step_inv<C>(view: WorldView<C>, step: Step<C>)
    requires
        view.inv(),
    ensures
        view.step(step).inv(),
{
    let after = view.step(step);
    match step {
        Step::Spawn => {
            let entity = view.next_entity();
            if !view.exhausted() {
                if view.can_recycle() {
                    let top = view.free.last();
                    assert(view.free[view.free.len() - 1] == top);
                    assert forall|i: int| 0 <= i < after.free.len() implies after.issued(
                        #[trigger] after.free[i],
                    ) && !after.is_live(after.free[i]) && after.free[i].generation
                        == after.latest[after.free[i].id as int] by {
                        assert(after.free[i] == view.free[i]);
                        assert(view.free[i].id != view.free[view.free.len() - 1].id);
                    }
                    assert forall|other: Entity| #[trigger] after.is_live(other) implies after.issued(
                        other,
                    ) && other.generation == after.latest[other.id as int] by {
                        if other != entity {
                            assert(view.is_live(other));
                            if other.id == top.id {
                                assert(other == top);
                            }
                        }
                    }
                } else {
                    assert forall|i: int| 0 <= i < after.free.len() implies after.issued(
                        #[trigger] after.free[i],
                    ) && !after.is_live(after.free[i]) && after.free[i].generation
                        == after.latest[after.free[i].id as int] by {
                        assert(after.free[i] == view.free[i]);
                    }
                    assert forall|other: Entity| #[trigger] after.is_live(other) implies after.issued(
                        other,
                    ) && other.generation == after.latest[other.id as int] by {
                        if other != entity {
                            assert(view.is_live(other));
                        }
                    }
                }
                assert forall|other: Entity, id: ComponentId|
                    after.is_live(other) && #[trigger] after.entities[other].dom().contains(
                        id,
                    ) implies id < after.types.len() by {
                    if other != entity {
                        assert(view.is_live(other));
                    }
                }
                assert forall|i: int, j: int| 0 <= i < j < after.free.len() implies (
                #[trigger] after.free[i]).id != (#[trigger] after.free[j]).id by {
                    assert(after.free[i] == view.free[i]);
                    assert(after.free[j] == view.free[j]);
                }
            }
        },
        Step::Register(key) => {
            lemma_register_keeps_ids(view, key, key);
            assert forall|other: Entity| #[trigger] after.is_live(other) implies after.issued(other)
                && other.generation == after.latest[other.id as int] by {
                assert(view.is_live(other));
            }
            assert forall|other: Entity, id: ComponentId|
                after.is_live(other) && #[trigger] after.entities[other].dom().contains(
                    id,
                ) implies id < after.types.len() by {
                assert(view.is_live(other));
            }
        },
        Step::Add(entity, key, value) => {
            lemma_register_keeps_ids(view, key, key);
            if view.can_add(entity, key) {
                assert forall|other: Entity| #[trigger] after.is_live(other) implies after.issued(
                    other,
                ) && other.generation == after.latest[other.id as int] by {
                    assert(view.is_live(other));
                }
                assert forall|other: Entity, id: ComponentId|
                    after.is_live(other) && #[trigger] after.entities[other].dom().contains(
                        id,
                    ) implies id < after.types.len() by {
                    assert(view.is_live(other));
                    if other != entity || id != after.component_id(key).unwrap() {
                        assert(view.entities[other].dom().contains(id));
                    }
                }
            }
        },
        Step::Write(entity, key, value) => {
            if view.has(entity, key) {
                assert forall|other: Entity| #[trigger] after.is_live(other) implies after.issued(
                    other,
                ) && other.generation == after.latest[other.id as int] by {
                    assert(view.is_live(other));
                }
                assert forall|other: Entity, id: ComponentId|
                    after.is_live(other) && #[trigger] after.entities[other].dom().contains(
                        id,
                    ) implies id < after.types.len() by {
                    assert(view.is_live(other));
                    assert(view.entities[other].dom().contains(id));
                }
            }
        },
        Step::Despawn(entity) => {
            if view.is_live(entity) {
                assert forall|other: Entity| #[trigger] after.is_live(other) implies after.issued(
                    other,
                ) && other.generation == after.latest[other.id as int] by {
                    assert(view.is_live(other));
                }
                assert forall|i: int| 0 <= i < after.free.len() implies after.issued(
                    #[trigger] after.free[i],
                ) && !after.is_live(after.free[i]) && after.free[i].generation
                    == after.latest[after.free[i].id as int] by {
                    if i < view.free.len() {
                        assert(after.free[i] == view.free[i]);
                    }
                }
                assert forall|i: int, j: int| 0 <= i < j < after.free.len() implies (
                #[trigger] after.free[i]).id != (#[trigger] after.free[j]).id by {
                    assert(after.free[i] == view.free[i]);
                    if j < view.free.len() {
                        assert(after.free[j] == view.free[j]);
                    } else {
                        if view.free[i].id == entity.id {
                            assert(view.free[i] == entity);
                        }
                    }
                }
            }
        },
    }
}

/// Every sequence of requests takes a store to a store.
pub proof fn lemma_run_inv<C>(view: WorldView<C>, steps: Seq<Step<C>>)
    requires
        view.inv(),
    ensures
        view.run(steps).inv(),
    decreases steps.len(),
{
    if steps.len() > 0 {
        lemma_run_inv(view, steps.drop_last());
        lemma_step_inv(view.run(steps.drop_last()), steps.last());
    }
}

/// The id of a component type, once assigned, is never changed or taken
/// back, whatever is asked of the store afterwards, and the ids in use are
/// those from 0 up to their number.
pub proof fn lemma_ids_are_stable<C>(view: WorldView<C>, steps: Seq<Step<C>>, key: TypeKey)
    requires
        view.inv(),
    ensures
        view.component_id(key) is Some ==> view.run(steps).component_id(key) == view.component_id(
            key,
        ),
        view.component_id(key) matches Some(id) ==> id < view.types.len(),
        forall|id: ComponentId|
            id < view.types.len() ==> view.component_id(#[trigger] view.types[id as int]) == Some(
                id,
            ),
    decreases steps.len(),
{
    assert forall|id: ComponentId| id < view.types.len() implies view.component_id(
        #[trigger] view.types[id as int],
    ) == Some(id) by {
        lemma_id_of_index(view.types, id as int);
    }
    if steps.len() > 0 {
        let before = view.run(steps.drop_last());
        lemma_ids_are_stable(view, steps.drop_last(), key);
        lemma_run_inv(view, steps.drop_last());
        match steps.last() {
            Step::Register(other) => {
                lemma_register_keeps_ids(before, other, key);
            },
            Step::Add(entity, other, value) => {
                lemma_register_keeps_ids(before, other, key);
            },
            _ => {},
        }
    }
}

/// Two live entities never share an id: handles of live entities that are
/// equal in id are the same handle.
pub proof fn lemma_live_ids_are_unique<C>(view: WorldView<C>, a: Entity, b: Entity)
    requires
        view.inv(),
        view.is_live(a),
        view.is_live(b),
        a.id == b.id,
    ensures
        a == b,
{
}

/// The handle that a spawn hands out was never handed out before, and is
/// live afterwards.
pub proof fn lemma_spawn_is_fresh<C>(view: WorldView<C>)
    requires
        view.inv(),
        !view.exhausted(),
    ensures
        !view.issued(view.next_entity()),
        !view.is_live(view.next_entity()),
        view.spawn().is_live(view.next_entity()),
        view.spawn().issued(view.next_entity()),
{
    if view.can_recycle() {
        assert(view.free[view.free.len() - 1] == view.free.last());
    }
    if view.is_live(view.next_entity()) {
        assert(view.issued(view.next_entity()));
    }
}

/// A request forgets no handle, and brings no handle back to life that was
/// handed out and is dead.
pub proof fn lemma_step_keeps_dead<C>(view: WorldView<C>, step: Step<C>, entity: Entity)
    requires
        view.inv(),
        view.issued(entity),
        !view.is_live(entity),
    ensures
        view.step(step).issued(entity),
        !view.step(step).is_live(entity),
{
    match step {
        Step::Spawn => {
            if !view.exhausted() {
                lemma_spawn_is_fresh(view);
            }
        },
        _ => {},
    }
}

/// Whatever is asked of the store afterwards, a handle that was handed out
/// and is dead stays dead: no entity spawned later equals it.
pub proof fn lemma_dead_handles_stay_dead<C>(
    view: WorldView<C>,
    steps: Seq<Step<C>>,
    entity: Entity,
)
    requires
        view.inv(),
        view.issued(entity),
        !view.is_live(entity),
    ensures
        view.run(steps).issued(entity),
        !view.run(steps).is_live(entity),
    decreases steps.len(),
{
    if steps.len() > 0 {
        lemma_dead_handles_stay_dead(view, steps.drop_last(), entity);
        lemma_run_inv(view, steps.drop_last());
        lemma_step_keeps_dead(view.run(steps.drop_last()), steps.last(), entity);
    }
}

/// A despawned entity is dead and on record, so it stays dead; and asking for
/// one of its components, adding one to it or despawning it again finds no
/// entity and changes nothing.
pub proof fn lemma_despawned_is_gone<C>(
    view: WorldView<C>,
    entity: Entity,
    key: TypeKey,
    value: C,
)
    requires
        view.inv(),
        view.is_live(entity),
    ensures
        !view.despawn(entity).is_live(entity),
        view.despawn(entity).issued(entity),
        view.despawn(entity).get(entity, key) is None,
        !view.despawn(entity).can_add(entity, key),
        view.despawn(entity).add(entity, key, value) == view.despawn(entity),
        view.despawn(entity).write(entity, key, value) == view.despawn(entity),
        view.despawn(entity).despawn(entity) == view.despawn(entity),
{
}

/// Adding components to a live entity leaves it live.
pub proof fn lemma_added_entity_is_live<C>(
    view: WorldView<C>,
    entity: Entity,
    items: Seq<(TypeKey, C)>,
)
    requires
        view.is_live(entity),
    ensures
        view.add_all(entity, items).is_live(entity),
    decreases items.len(),
{
    if items.len() > 0 {
        lemma_added_entity_is_live(view, entity, items.drop_last());
    }
}

/// A component that was added is the one that is found, and a value written
/// over it is the one that is found next.
pub proof fn lemma_round_trip<C>(
    view: WorldView<C>,
    entity: Entity,
    key: TypeKey,
    value: C,
    changed: C,
)
    requires
        view.inv(),
        view.can_add(entity, key),
    ensures
        view.add(entity, key, value).get(entity, key) == Some(value),
        view.add(entity, key, value).write(entity, key, changed).get(entity, key) == Some(changed),
{
    lemma_register_keeps_ids(view, key, key);
}

/// Adding a component to one entity, or writing one, changes no component of
/// another entity and no component of another type.
pub proof fn lemma_add_changes_nothing_else<C>(
    view: WorldView<C>,
    entity: Entity,
    key: TypeKey,
    value: C,
    other: Entity,
    other_key: TypeKey,
)
    requires
        view.inv(),
        other != entity || other_key != key,
    ensures
        view.add(entity, key, value).get(other, other_key) == view.get(other, other_key),
        view.write(entity, key, value).get(other, other_key) == view.get(other, other_key),
{
    lemma_register_keeps_ids(view, key, other_key);
    lemma_register_keeps_ids(view, key, key);
    if view.can_add(entity, key) {
        let after = view.add(entity, key, value);
        let id = after.component_id(key).unwrap();
        if view.component_id(other_key) is None {
            if after.component_id(other_key) is Some {
                assert(other_key == key);
            }
        } else if other == entity {
            let other_id = view.component_id(other_key).unwrap();
            if other_id == id {
                let i = view.types.index_of(other_key);
                assert(view.register(key).types[i as int] == other_key);
                assert(view.register(key).types[id as int] == key);
            }
        }
    }
    if view.has(entity, key) {
        let id = view.component_id(key).unwrap();
        if other == entity && view.component_id(other_key) is Some {
            let other_id = view.component_id(other_key).unwrap();
            if other_id == id {
                assert(view.types[view.types.index_of(key)] == key);
                assert(view.types[view.types.index_of(other_key)] == other_key);
            }
        }
    }
}

/// Writing a component of an entity changes that one value and nothing else.
pub proof fn lemma_write_differs<C>(view: WorldView<C>, entity: Entity, key: TypeKey, value: C)
    requires
        view.inv(),
    ensures
        view.write(entity, key, value).inv(),
        view.differs_only_in(view.write(entity, key, value), seq![entity], seq![key]),
{
    let after = view.write(entity, key, value);
    lemma_step_inv(view, Step::Write(entity, key, value));
    if view.has(entity, key) {
        assert(after.entities.dom() =~= view.entities.dom());
        assert forall|other: Entity| #[trigger] view.is_live(other) implies after.entities[other].dom()
            == view.entities[other].dom() by {
            assert(after.entities[other].dom() =~= view.entities[other].dom());
        }
        assert forall|other: Entity, other_key: TypeKey|
            !(seq![entity].contains(other) && seq![key].contains(other_key)) implies #[trigger] after.get(
            other,
            other_key,
        ) == view.get(other, other_key) by {
            if other == entity && other_key == key {
                assert(seq![entity][0] == other);
                assert(seq![key][0] == other_key);
            }
            lemma_add_changes_nothing_else(view, entity, key, value, other, other_key);
        }
    }
}

/// What differs only in some values, and then only in some more, differs only
/// in those and these.
pub proof fn lemma_differs_trans<C>(
    first: WorldView<C>,
    second: WorldView<C>,
    third: WorldView<C>,
    entities: Seq<Entity>,
    more_entities: Seq<Entity>,
    all_entities: Seq<Entity>,
    keys: Seq<TypeKey>,
    more_keys: Seq<TypeKey>,
    all_keys: Seq<TypeKey>,
)
    requires
        first.differs_only_in(second, entities, keys),
        second.differs_only_in(third, more_entities, more_keys),
        forall|entity: Entity|
            entities.contains(entity) || more_entities.contains(entity) ==> all_entities.contains(
                entity,
            ),
        forall|key: TypeKey| keys.contains(key) || more_keys.contains(key) ==> all_keys.contains(key),
    ensures
        first.differs_only_in(third, all_entities, all_keys),
{
    assert forall|entity: Entity| #[trigger] first.is_live(entity) implies third.entities[entity].dom()
        == first.entities[entity].dom() by {
        assert(second.is_live(entity));
    }
    assert forall|entity: Entity, key: TypeKey|
        !(all_entities.contains(entity) && all_keys.contains(key)) implies #[trigger] third.get(
        entity,
        key,
    ) == first.get(entity, key) by {
        assert(second.get(entity, key) == first.get(entity, key));
    }
}

/// A store that differs from a store only in values is a store, with the same
/// entities live and the same handles handed out.
pub proof fn lemma_differs_inv<C>(
    view: WorldView<C>,
    after: WorldView<C>,
    entities: Seq<Entity>,
    keys: Seq<TypeKey>,
    entity: Entity,
)
    requires
        view.inv(),
        view.differs_only_in(after, entities, keys),
    ensures
        after.inv(),
        after.is_live(entity) == view.is_live(entity),
        after.issued(entity) == view.issued(entity),
        forall|key: TypeKey| after.has(entity, key) == view.has(entity, key),
        forall|some: Seq<TypeKey>| after.holds_all(entity, some) == view.holds_all(entity, some),
{
    assert forall|other: Entity| #[trigger] after.is_live(other) implies after.issued(other)
        && other.generation == after.latest[other.id as int] by {
        assert(view.is_live(other));
    }
    assert forall|other: Entity, id: ComponentId|
        after.is_live(other) && #[trigger] after.entities[other].dom().contains(id) implies id
        < after.types.len() by {
        assert(view.is_live(other));
        assert(view.entities[other].dom().contains(id));
    }
    assert forall|i: int| 0 <= i < after.free.len() implies after.issued(#[trigger] after.free[i])
        && !after.is_live(after.free[i]) && after.free[i].generation
        == after.latest[after.free[i].id as int] by {
        assert(view.issued(view.free[i]));
    }
    assert forall|key: TypeKey| after.has(entity, key) == view.has(entity, key) by {
        if view.is_live(entity) {
            assert(after.entities[entity].dom() == view.entities[entity].dom());
        }
    }
    assert forall|some: Seq<TypeKey>| after.holds_all(entity, some) == view.holds_all(
        entity,
        some,
    ) by {
        if view.holds_all(entity, some) {
            assert forall|i: int| 0 <= i < some.len() implies after.has(entity, #[trigger] some[i]) by {
                assert(view.has(entity, some[i]));
            }
        }
        if after.holds_all(entity, some) {
            assert forall|i: int| 0 <= i < some.len() implies view.has(entity, #[trigger] some[i]) by {
                assert(after.has(entity, some[i]));
            }
        }
    }
}

/// An entity holds a component of each of two types exactly if it holds one
/// of the first and one of the second.
pub proof fn lemma_holds_both<C>(
    view: WorldView<C>,
    entity: Entity,
    first: TypeKey,
    second: TypeKey,
)
    ensures
        view.holds_all(entity, seq![first, second]) <==> view.is_live(entity) && view.has(
            entity,
            first,
        ) && view.has(entity, second),
        view.holds_all(entity, Seq::empty()) <==> view.is_live(entity),
{
    let keys = seq![first, second];
    assert(keys[0] == first && keys[1] == second);
}

/// Among ascending ids, one more id goes between those below it and those
/// above it.
pub proof fn lemma_inserted(types: Seq<ComponentId>, id: ComponentId, k: int)
    requires
        ascending(types),
        0 <= k <= types.len(),
        forall|j: int| 0 <= j < k ==> types[j] < id,
        forall|j: int| k <= j < types.len() ==> types[j] > id,
    ensures
        inserted(types, id) == types.insert(k, id),
        ascending(inserted(types, id)),
    decreases types.len(),
{
    if types.len() == 0 {
        assert(types.insert(k, id) =~= seq![id]);
    } else if types.last() < id {
        assert(k == types.len());
        assert(types.insert(k, id) =~= types.push(id));
    } else {
        assert(k < types.len());
        let rest = types.drop_last();
        assert forall|a: int, b: int| 0 <= a < b < rest.len() implies rest[a] < rest[b] by {
            assert(types[a] < types[b]);
        }
        lemma_inserted(rest, id, k);
        assert(rest.insert(k, id).push(types.last()) =~= types.insert(k, id));
    }
    let after = types.insert(k, id);
    assert forall|a: int, b: int| 0 <= a < b < after.len() implies after[a] < after[b] by {
        let a0 = if a < k { a } else { a - 1 };
        let b0 = if b < k { b } else { b - 1 };
        if a != k && b != k {
            assert(types[a0] < types[b0]);
        }
    }
}

/// Whether every column and every bucket of the first layout is still there
/// in the second, each bucket under its name.
pub open spec fn persists<C>(before: Layout<C>, after: Layout<C>) -> bool {
    &&& before.columns.len() <= after.columns.len()
    &&& before.owners.len() <= after.owners.len()
    &&& before.buckets.len() <= after.buckets.len()
    &&& forall|b: int|
        0 <= b < before.buckets.len() ==> (#[trigger] after.buckets[b]).types == before.buckets[b].types
}

/// Columns and buckets are made on first use and never taken away: they may
/// become empty, but whatever is done to the store, they stay.
pub proof fn lemma_nothing_is_destroyed<C>(
    layout: Layout<C>,
    entity: Entity,
    home: (int, int),
    id: ComponentId,
    slot: usize,
    value: C,
    slots: Map<ComponentId, usize>,
)
    requires
        layout.buckets.len() > 0,
        0 <= home.0 < layout.buckets.len(),
        id < layout.columns.len(),
        layout.owners.len() == layout.columns.len(),
    ensures
        persists(layout, layout.spawned(entity)),
        persists(layout, layout.registered()),
        persists(layout, layout.added(entity, home, id, value)),
        persists(layout, layout.despawned(home, slots)),
        persists(layout, layout.written(id, slot, value)),
{
    let grown = Layout {
        columns: layout.columns.update(id as int, layout.columns[id as int].push(value)),
        owners: layout.owners.update(id as int, layout.owners[id as int].push(entity)),
        ..layout
    };
    let taken = grown.without(home);
    let name = inserted(layout.buckets[home.0].types, id);
    let b = taken.bucket_named(name);
    let after = taken.with(entity, name);
    assert forall|k: int| 0 <= k < layout.buckets.len() implies (#[trigger] after.buckets[k]).types
        == layout.buckets[k].types by {
        assert(taken.buckets[k].types == layout.buckets[k].types);
    }
}

} // verus!
