//! The tables of the store: when they are consistent, and why each step of an
//! operation keeps them so.

use vstd::prelude::*;
use vstd::seq_lib::lemma_no_dup_in_concat;
use crate::archetype::{ascending, members, views, Archetype};
use crate::component::{id_of, swap_removed, Component, ComponentId, ComponentList, TypeKey};
use crate::entity::{Entity, EntityId};

verus! {

/// What the store keeps for one entity id: the forward index.
pub(crate) struct EntityRecord {
    /// The generation that the id was last issued with.
    pub(crate) generation: EntityId,
    /// Whether the entity of that generation is live.
    pub(crate) live: bool,
    /// The ids of the component types that the entity holds, ascending.
    pub(crate) ids: Vec<ComponentId>,
    /// For each of `ids`, the slot of the entity's value in that column.
    pub(crate) slots: Vec<usize>,
}

/// Where an entity stands among the buckets.
pub(crate) struct Home {
    /// The bucket that the entity is in.
    pub(crate) archetype: usize,
    /// The position of the entity in its bucket.
    pub(crate) position: usize,
}

impl EntityRecord {
    /// Whether the record says that the entity's value of type `id` is in
    /// slot `slot`.
    pub(crate) open spec fn claims(&self, id: int, slot: int) -> bool {
        exists|k: int|
            0 <= k < self.ids@.len() && #[trigger] self.ids@[k] == id && self.slots@[k] == slot
    }
}

/// The handle of the entity that record `i` describes.
pub(crate) open spec fn handle(entities: Seq<EntityRecord>, i: int) -> Entity {
    Entity { id: i as EntityId, generation: entities[i].generation }
}

/// Whether the handle names a live entity.
pub(crate) open spec fn alive(entities: Seq<EntityRecord>, entity: Entity) -> bool {
    &&& entity.id < entities.len()
    &&& entities[entity.id as int].live
    &&& entities[entity.id as int].generation == entity.generation
}

/// The record of a live entity points at slots that point back at it.
pub(crate) open spec fn record_ok(
    entities: Seq<EntityRecord>,
    lookup: Seq<Vec<Entity>>,
    i: int,
) -> bool {
    let record = entities[i];
    &&& record.ids@.len() == record.slots@.len()
    &&& ascending(record.ids@)
    &&& forall|k: int|
        0 <= k < record.ids@.len() ==> {
            let id = #[trigger] record.ids@[k];
            &&& id < lookup.len()
            &&& record.slots@[k] < lookup[id as int]@.len()
            &&& lookup[id as int]@[record.slots@[k] as int] == handle(entities, i)
        }
}

/// The owner of an occupied slot is live and its record points at the slot.
pub(crate) open spec fn owner_ok(
    entities: Seq<EntityRecord>,
    lookup: Seq<Vec<Entity>>,
    c: int,
    s: int,
) -> bool {
    let owner = lookup[c]@[s];
    alive(entities, owner) && entities[owner.id as int].claims(c, s)
}

/// Forward and reverse index agree.
pub(crate) open spec fn slots_ok(entities: Seq<EntityRecord>, lookup: Seq<Vec<Entity>>) -> bool {
    &&& entities.len() <= EntityId::MAX
    &&& forall|i: int|
        0 <= i < entities.len() && (#[trigger] entities[i]).live ==> record_ok(entities, lookup, i)
    &&& forall|c: int, s: int|
        0 <= c < lookup.len() && 0 <= s < lookup[c]@.len() ==> #[trigger] owner_ok(
            entities,
            lookup,
            c,
            s,
        )
}

/// The record of a live entity points at its place in the bucket named by
/// what the entity holds.
pub(crate) open spec fn homed(
    entities: Seq<EntityRecord>,
    homes: Seq<Home>,
    archetypes: Seq<Archetype>,
    i: int,
) -> bool {
    let home = homes[i];
    &&& home.archetype < archetypes.len()
    &&& home.position < archetypes[home.archetype as int]@.entities.len()
    &&& archetypes[home.archetype as int]@.entities[home.position as int] == handle(entities, i)
    &&& archetypes[home.archetype as int]@.types == entities[i].ids@
}

/// The entity at a place in a bucket is live and its record points at the
/// place.
pub(crate) open spec fn member_ok(
    entities: Seq<EntityRecord>,
    homes: Seq<Home>,
    archetypes: Seq<Archetype>,
    a: int,
    p: int,
) -> bool {
    let member = archetypes[a]@.entities[p];
    &&& alive(entities, member)
    &&& homes[member.id as int].archetype == a
    &&& homes[member.id as int].position == p
}

/// Buckets and records agree, but for the entity with id `skip`, which is in
/// no bucket.
pub(crate) open spec fn buckets_ok(
    entities: Seq<EntityRecord>,
    homes: Seq<Home>,
    archetypes: Seq<Archetype>,
    skip: int,
) -> bool {
    &&& homes.len() == entities.len()
    &&& entities.len() <= EntityId::MAX
    &&& archetypes.len() > 0
    &&& archetypes[0]@.types.len() == 0
    &&& forall|i: int|
        0 <= i < entities.len() && (#[trigger] entities[i]).live && i != skip ==> homed(
            entities,
            homes,
            archetypes,
            i,
        )
    &&& forall|a: int, p: int|
        0 <= a < archetypes.len() && 0 <= p < archetypes[a]@.entities.len() ==> #[trigger] member_ok(
            entities,
            homes,
            archetypes,
            a,
            p,
        ) && archetypes[a]@.entities[p].id != skip
    &&& forall|a: int|
        0 <= a < archetypes.len() ==> ascending((#[trigger] archetypes[a])@.types)
    &&& forall|a: int, b: int|
        0 <= a < b < archetypes.len() ==> (#[trigger] archetypes[a])@.types != (
        #[trigger] archetypes[b])@.types
}

/// The free list names dead entities, each id once.
pub(crate) open spec fn free_ok(free: Seq<Entity>, entities: Seq<EntityRecord>) -> bool {
    &&& forall|i: int|
        0 <= i < free.len() ==> {
            let freed = #[trigger] free[i];
            &&& freed.id < entities.len()
            &&& !entities[freed.id as int].live
            &&& entities[freed.id as int].generation == freed.generation
        }
    &&& forall|i: int, j: int|
        0 <= i < j < free.len() ==> (#[trigger] free[i]).id != (#[trigger] free[j]).id
}

/// Each column is as long as its part of the reverse index.
pub(crate) open spec fn columns_ok<C: Component>(
    lookup: Seq<Vec<Entity>>,
    columns: Seq<ComponentList<C>>,
) -> bool {
    &&& columns.len() == lookup.len()
    &&& forall|c: int| 0 <= c < columns.len() ==> (#[trigger] lookup[c])@.len() == columns[c]@.len()
}

/// The `k`-th component of the entity of record `i`.
pub(crate) open spec fn value_at<C: Component>(
    entities: Seq<EntityRecord>,
    columns: Seq<ComponentList<C>>,
    i: int,
    k: int,
) -> C {
    columns[entities[i].ids@[k] as int]@[entities[i].slots@[k] as int]
}

/// The components of the entity of record `i`, by component id.
pub(crate) open spec fn held<C: Component>(
    entities: Seq<EntityRecord>,
    columns: Seq<ComponentList<C>>,
    i: int,
) -> Map<ComponentId, C> {
    Map::new(
        |id: ComponentId| entities[i].ids@.contains(id),
        |id: ComponentId| value_at(entities, columns, i, entities[i].ids@.index_of(id)),
    )
}

/// What each of the columns holds.
pub(crate) open spec fn column_views<C: Component>(columns: Seq<ComponentList<C>>) -> Seq<Seq<C>> {
    Seq::new(columns.len(), |c: int| columns[c]@)
}

/// What each part of the reverse index holds.
pub(crate) open spec fn owner_views(lookup: Seq<Vec<Entity>>) -> Seq<Seq<Entity>> {
    Seq::new(lookup.len(), |c: int| lookup[c]@)
}

/// The live entities with what they hold.
pub(crate) open spec fn population<C: Component>(
    entities: Seq<EntityRecord>,
    columns: Seq<ComponentList<C>>,
) -> Map<Entity, Map<ComponentId, C>> {
    Map::new(
        |entity: Entity| alive(entities, entity),
        |entity: Entity| held(entities, columns, entity.id as int),
    )
}

/// The latest generation of each id.
pub(crate) open spec fn generations(entities: Seq<EntityRecord>) -> Seq<EntityId> {
    Seq::new(entities.len(), |i: int| entities[i].generation)
}

/// The components of an entity are the same in two states where its record
/// and the values in its slots are.
pub(crate) proof fn lemma_same_held<C: Component>(
    entities: Seq<EntityRecord>,
    columns: Seq<ComponentList<C>>,
    other_entities: Seq<EntityRecord>,
    other_columns: Seq<ComponentList<C>>,
    i: int,
)
    requires
        entities[i].ids@ == other_entities[i].ids@,
        forall|k: int|
            0 <= k < entities[i].ids@.len() ==> #[trigger] value_at(entities, columns, i, k)
                == value_at(other_entities, other_columns, i, k),
    ensures
        held(entities, columns, i) == held(other_entities, other_columns, i),
{
    let ids = entities[i].ids@;
    assert forall|id: ComponentId| ids.contains(id) implies value_at(
        entities,
        columns,
        i,
        ids.index_of(id),
    ) == value_at(other_entities, other_columns, i, ids.index_of(id)) by {
        let k = ids.index_of(id);
        assert(0 <= k < ids.len());
    }
    assert(held(entities, columns, i) =~= held(other_entities, other_columns, i));
}

/// Among ascending ids, an id is found where it stands.
pub(crate) proof fn lemma_index_of_ascending(ids: Seq<ComponentId>, k: int)
    requires
        ascending(ids),
        0 <= k < ids.len(),
    ensures
        ids.contains(ids[k]),
        ids.index_of(ids[k]) == k,
{
    assert(ids.contains(ids[k]));
    let j = ids.index_of(ids[k]);
    if j < k {
        assert(ids[j] < ids[k]);
    } else if k < j {
        assert(ids[k] < ids[j]);
    }
}

/// Whether `after` is `before` with the value in slot `s` of column `c`
/// replaced, and nothing else changed.
pub(crate) open spec fn one_value_changed<C: Component>(
    before: Seq<ComponentList<C>>,
    after: Seq<ComponentList<C>>,
    c: int,
    s: int,
) -> bool {
    &&& after.len() == before.len()
    &&& forall|other: int| 0 <= other < before.len() && other != c ==> after[other] == before[other]
    &&& after[c]@ == before[c]@.update(s, after[c]@[s])
}

/// Replacing a value that an entity holds writes that component of that
/// entity, and nothing else.
pub(crate) proof fn lemma_write<C: Component>(
    entities: Seq<EntityRecord>,
    lookup: Seq<Vec<Entity>>,
    before: Seq<ComponentList<C>>,
    after: Seq<ComponentList<C>>,
    i: int,
    k: int,
)
    requires
        slots_ok(entities, lookup),
        columns_ok(lookup, before),
        0 <= i < entities.len(),
        entities[i].live,
        0 <= k < entities[i].ids@.len(),
        one_value_changed(before, after, entities[i].ids@[k] as int, entities[i].slots@[k] as int),
    ensures
        columns_ok(lookup, after),
        population(entities, after) == population(entities, before).insert(
            handle(entities, i),
            held(entities, before, i).insert(entities[i].ids@[k], value_at(entities, after, i, k)),
        ),
        column_views(after) == column_views(before).update(
            entities[i].ids@[k] as int,
            before[entities[i].ids@[k] as int]@.update(
                entities[i].slots@[k] as int,
                value_at(entities, after, i, k),
            ),
        ),
{
    let c = entities[i].ids@[k] as int;
    let s = entities[i].slots@[k] as int;
    assert(record_ok(entities, lookup, i));
    assert forall|other: int| 0 <= other < before.len() implies column_views(after)[other]
        == column_views(before).update(c, before[c]@.update(s, value_at(entities, after, i, k)))[other] by {
        if other != c {
            assert(after[other] == before[other]);
        }
    }
    assert(column_views(after) =~= column_views(before).update(
        c,
        before[c]@.update(s, value_at(entities, after, i, k)),
    ));
    let entity = handle(entities, i);
    assert(record_ok(entities, lookup, i));
    assert forall|other: int| 0 <= other < after.len() implies (#[trigger] lookup[other])@.len()
        == after[other]@.len() by {
        if other != c {
            assert(after[other] == before[other]);
        }
    }
    lemma_index_of_ascending(entities[i].ids@, k);
    assert forall|other: Entity| alive(entities, other) && other != entity implies held(
        entities,
        after,
        other.id as int,
    ) == held(entities, before, other.id as int) by {
        let j = other.id as int;
        assert(record_ok(entities, lookup, j));
        assert forall|m: int| 0 <= m < entities[j].ids@.len() implies #[trigger] value_at(
            entities,
            after,
            j,
            m,
        ) == value_at(entities, before, j, m) by {
            let id = entities[j].ids@[m];
            if id == c && entities[j].slots@[m] == s {
                assert(lookup[c]@[s] == handle(entities, j));
            }
        }
        lemma_same_held(entities, after, entities, before, j);
    }
    assert forall|id: ComponentId| entities[i].ids@.contains(id) && id != c implies value_at(
        entities,
        after,
        i,
        entities[i].ids@.index_of(id),
    ) == value_at(entities, before, i, entities[i].ids@.index_of(id)) by {
        let m = entities[i].ids@.index_of(id);
        assert(entities[i].ids@[m] == id);
    }
    assert(held(entities, after, i) =~= held(entities, before, i).insert(
        entities[i].ids@[k],
        value_at(entities, after, i, k),
    ));
    assert(population(entities, after) =~= population(entities, before).insert(
        entity,
        held(entities, before, i).insert(entities[i].ids@[k], value_at(entities, after, i, k)),
    ));
}

/// Whether `after` is `before` with one more live entity: a record for the
/// id `id`, new or dead before, with the given generation and nothing held,
/// and the entity standing last in the first bucket.
pub(crate) open spec fn enlisted(
    entities: Seq<EntityRecord>,
    homes: Seq<Home>,
    buckets: Seq<Archetype>,
    after_entities: Seq<EntityRecord>,
    after_homes: Seq<Home>,
    after_buckets: Seq<Archetype>,
    id: int,
    generation: EntityId,
) -> bool {
    &&& 0 <= id <= entities.len()
    &&& id < entities.len() ==> !entities[id].live && after_entities.len() == entities.len()
    &&& id == entities.len() ==> after_entities.len() == entities.len() + 1
    &&& after_entities.len() <= EntityId::MAX
    &&& after_homes.len() == after_entities.len()
    &&& forall|i: int|
        0 <= i < entities.len() && i != id ==> #[trigger] after_entities[i] == entities[i]
            && after_homes[i] == homes[i]
    &&& after_entities[id].live
    &&& after_entities[id].generation == generation
    &&& after_entities[id].ids@.len() == 0
    &&& after_entities[id].slots@.len() == 0
    &&& after_homes[id].archetype == 0
    &&& after_homes[id].position == buckets[0]@.entities.len()
    &&& after_buckets.len() == buckets.len()
    &&& forall|b: int| 0 < b < buckets.len() ==> #[trigger] after_buckets[b] == buckets[b]
    &&& after_buckets[0]@.types == buckets[0]@.types
    &&& after_buckets[0]@.entities == buckets[0]@.entities.push(
        Entity { id: id as EntityId, generation },
    )
}

/// Entering a new entity in the records and in the first bucket leaves a
/// consistent store with that entity more, holding nothing.
pub(crate) proof fn lemma_enlist<C: Component>(
    free: Seq<Entity>,
    lookup: Seq<Vec<Entity>>,
    columns: Seq<ComponentList<C>>,
    entities: Seq<EntityRecord>,
    homes: Seq<Home>,
    buckets: Seq<Archetype>,
    after_entities: Seq<EntityRecord>,
    after_homes: Seq<Home>,
    after_buckets: Seq<Archetype>,
    id: int,
    generation: EntityId,
)
    requires
        slots_ok(entities, lookup),
        buckets_ok(entities, homes, buckets, -1),
        enlisted(
            entities,
            homes,
            buckets,
            after_entities,
            after_homes,
            after_buckets,
            id,
            generation,
        ),
        forall|i: int|
            0 <= i < free.len() ==> {
                let freed = #[trigger] free[i];
                &&& freed.id < entities.len()
                &&& freed.id != id
                &&& !entities[freed.id as int].live
                &&& entities[freed.id as int].generation == freed.generation
            },
        forall|i: int, j: int|
            0 <= i < j < free.len() ==> (#[trigger] free[i]).id != (#[trigger] free[j]).id,
    ensures
        free_ok(free, after_entities),
        slots_ok(after_entities, lookup),
        buckets_ok(after_entities, after_homes, after_buckets, -1),
        population(after_entities, columns) == population(entities, columns).insert(
            Entity { id: id as EntityId, generation },
            Map::empty(),
        ),
{
    let entity = Entity { id: id as EntityId, generation };
    assert(handle(after_entities, id) == entity);
    assert forall|i: int| 0 <= i < entities.len() && i != id implies handle(after_entities, i)
        == handle(entities, i) by {
        assert(after_entities[i] == entities[i]);
    }
    assert forall|i: int| 0 <= i < free.len() implies {
        let freed = #[trigger] free[i];
        &&& freed.id < after_entities.len()
        &&& !after_entities[freed.id as int].live
        &&& after_entities[freed.id as int].generation == freed.generation
    } by {
        assert(after_entities[free[i].id as int] == entities[free[i].id as int]);
    }
    assert forall|i: int|
        0 <= i < after_entities.len() && (#[trigger] after_entities[i]).live implies record_ok(
        after_entities,
        lookup,
        i,
    ) by {
        if i != id {
            assert(after_entities[i] == entities[i]);
            assert(record_ok(entities, lookup, i));
        }
    }
    assert forall|c: int, s: int|
        0 <= c < lookup.len() && 0 <= s < lookup[c]@.len() implies #[trigger] owner_ok(
        after_entities,
        lookup,
        c,
        s,
    ) by {
        assert(owner_ok(entities, lookup, c, s));
        let owner = lookup[c]@[s];
        assert(after_entities[owner.id as int] == entities[owner.id as int]);
    }
    assert forall|i: int|
        0 <= i < after_entities.len() && (#[trigger] after_entities[i]).live implies homed(
        after_entities,
        after_homes,
        after_buckets,
        i,
    ) by {
        if i != id {
            assert(after_entities[i] == entities[i]);
            assert(homed(entities, homes, buckets, i));
            let a = homes[i].archetype as int;
            if a != 0 {
                assert(after_buckets[a] == buckets[a]);
            }
        } else {
            assert(after_entities[i].ids@ =~= after_buckets[0]@.types);
        }
    }
    assert forall|a: int, p: int|
        0 <= a < after_buckets.len() && 0 <= p
            < after_buckets[a]@.entities.len() implies #[trigger] member_ok(
        after_entities,
        after_homes,
        after_buckets,
        a,
        p,
    ) by {
        if a != 0 {
            assert(after_buckets[a] == buckets[a]);
        }
        if a != 0 || p < buckets[0]@.entities.len() {
            assert(member_ok(entities, homes, buckets, a, p));
            let member = buckets[a]@.entities[p];
            assert(after_entities[member.id as int] == entities[member.id as int]);
        }
    }
    assert forall|a: int| 0 <= a < after_buckets.len() implies (#[trigger] after_buckets[a])@.types
        == buckets[a]@.types by {
        if a != 0 {
            assert(after_buckets[a] == buckets[a]);
        }
    }
    assert forall|a: int| 0 <= a < after_buckets.len() implies ascending(
        (#[trigger] after_buckets[a])@.types,
    ) by {
        assert(ascending(buckets[a]@.types));
    }
    assert forall|a: int, b: int| 0 <= a < b < after_buckets.len() implies (
    #[trigger] after_buckets[a])@.types != (#[trigger] after_buckets[b])@.types by {
        assert(buckets[a]@.types != buckets[b]@.types);
    }
    assert forall|other: Entity| alive(after_entities, other) && other != entity implies held(
        after_entities,
        columns,
        other.id as int,
    ) == held(entities, columns, other.id as int) by {
        assert(after_entities[other.id as int] == entities[other.id as int]);
        lemma_same_held(after_entities, columns, entities, columns, other.id as int);
    }
    assert(held(after_entities, columns, id) =~= Map::empty());
    assert(population(after_entities, columns) =~= population(entities, columns).insert(
        entity,
        Map::empty(),
    ));
}

/// Taking an entity out of its bucket, and telling the entity that closed the
/// gap its new position, leaves the buckets in order, with that one entity in
/// none.
pub(crate) proof fn lemma_detach(
    entities: Seq<EntityRecord>,
    old_homes: Seq<Home>,
    homes: Seq<Home>,
    old_buckets: Seq<Archetype>,
    buckets: Seq<Archetype>,
    id: int,
)
    requires
        buckets_ok(entities, old_homes, old_buckets, -1),
        0 <= id < entities.len(),
        entities[id].live,
        buckets.len() == old_buckets.len(),
        homes.len() == old_homes.len(),
        forall|b: int|
            0 <= b < buckets.len() && b != old_homes[id].archetype ==> #[trigger] buckets[b]
                == old_buckets[b],
        buckets[old_homes[id].archetype as int]@.types
            == old_buckets[old_homes[id].archetype as int]@.types,
        buckets[old_homes[id].archetype as int]@.entities == swap_removed(
            old_buckets[old_homes[id].archetype as int]@.entities,
            old_homes[id].position as int,
        ),
        ({
            let a = old_homes[id].archetype as int;
            let position = old_homes[id].position;
            let moved = old_buckets[a]@.entities.last();
            if position + 1 == old_buckets[a]@.entities.len() {
                forall|i: int| 0 <= i < homes.len() ==> #[trigger] homes[i] == old_homes[i]
            } else {
                &&& forall|i: int|
                    0 <= i < homes.len() && i != moved.id ==> #[trigger] homes[i] == old_homes[i]
                &&& homes[moved.id as int].archetype == a
                &&& homes[moved.id as int].position == position
            }
        }),
    ensures
        buckets_ok(entities, homes, buckets, id),
{
    let a = old_homes[id].archetype as int;
    let position = old_homes[id].position as int;
    assert(homed(entities, old_homes, old_buckets, id));
    let last = old_buckets[a]@.entities.len() - 1;
    let moved = old_buckets[a]@.entities.last();
    assert(member_ok(entities, old_homes, old_buckets, a, last));
    assert(member_ok(entities, old_homes, old_buckets, a, position));
    assert forall|i: int|
        0 <= i < entities.len() && (#[trigger] entities[i]).live && i != id implies homed(
        entities,
        homes,
        buckets,
        i,
    ) by {
        assert(homed(entities, old_homes, old_buckets, i));
        let home = old_homes[i];
        if home.archetype == a {
            assert(member_ok(entities, old_homes, old_buckets, a, home.position as int));
        } else {
            assert(buckets[home.archetype as int] == old_buckets[home.archetype as int]);
        }
    }
    assert forall|b: int, p: int|
        0 <= b < buckets.len() && 0 <= p < buckets[b]@.entities.len() implies #[trigger] member_ok(
        entities,
        homes,
        buckets,
        b,
        p,
    ) && buckets[b]@.entities[p].id != id by {
        if b != a {
            assert(buckets[b] == old_buckets[b]);
            assert(member_ok(entities, old_homes, old_buckets, b, p));
        } else if p == position {
            assert(member_ok(entities, old_homes, old_buckets, a, last));
        } else {
            assert(member_ok(entities, old_homes, old_buckets, a, p));
        }
    }
    assert forall|b: int| 0 <= b < buckets.len() implies (#[trigger] buckets[b])@.types
        == old_buckets[b]@.types by {
        if b != a {
            assert(buckets[b] == old_buckets[b]);
        }
    }
    assert forall|b: int| 0 <= b < buckets.len() implies ascending(
        (#[trigger] buckets[b])@.types,
    ) by {
        assert(ascending(old_buckets[b]@.types));
    }
    assert forall|b: int, c: int| 0 <= b < c < buckets.len() implies (
    #[trigger] buckets[b])@.types != (#[trigger] buckets[c])@.types by {
        assert(old_buckets[b]@.types != old_buckets[c]@.types);
    }
}

/// Whether `after` is `before` with one more component for the entity of
/// record `id`: a value of type `c` appended to that column, the entity
/// appended to that part of the reverse index, and the slot entered in the
/// record at index `k`.
pub(crate) open spec fn stored<C: Component>(
    entities: Seq<EntityRecord>,
    lookup: Seq<Vec<Entity>>,
    columns: Seq<ComponentList<C>>,
    after_entities: Seq<EntityRecord>,
    after_lookup: Seq<Vec<Entity>>,
    after_columns: Seq<ComponentList<C>>,
    id: int,
    c: ComponentId,
    k: int,
    slot: usize,
    value: C,
) -> bool {
    &&& slot == lookup[c as int]@.len()
    &&& after_entities.len() == entities.len()
    &&& forall|i: int| 0 <= i < entities.len() && i != id ==> #[trigger] after_entities[i] == entities[i]
    &&& after_entities[id].live
    &&& after_entities[id].generation == entities[id].generation
    &&& after_entities[id].ids@ == entities[id].ids@.insert(k, c)
    &&& after_entities[id].slots@ == entities[id].slots@.insert(k, slot)
    &&& after_lookup.len() == lookup.len()
    &&& forall|other: int|
        0 <= other < lookup.len() && other != c ==> #[trigger] after_lookup[other] == lookup[other]
    &&& after_lookup[c as int]@ == lookup[c as int]@.push(handle(entities, id))
    &&& after_columns.len() == columns.len()
    &&& forall|other: int|
        0 <= other < columns.len() && other != c ==> #[trigger] after_columns[other] == columns[other]
    &&& after_columns[c as int]@ == columns[c as int]@.push(value)
}

/// Storing one more component for an entity that is in no bucket keeps the
/// indexes in order and adds that component to what the entity holds, and
/// nothing else.
pub(crate) proof fn lemma_store<C: Component>(
    free: Seq<Entity>,
    homes: Seq<Home>,
    archetypes: Seq<Archetype>,
    entities: Seq<EntityRecord>,
    lookup: Seq<Vec<Entity>>,
    columns: Seq<ComponentList<C>>,
    after_entities: Seq<EntityRecord>,
    after_lookup: Seq<Vec<Entity>>,
    after_columns: Seq<ComponentList<C>>,
    id: int,
    c: ComponentId,
    k: int,
    slot: usize,
    value: C,
)
    requires
        free_ok(free, entities),
        slots_ok(entities, lookup),
        columns_ok(lookup, columns),
        buckets_ok(entities, homes, archetypes, id),
        0 <= id < entities.len(),
        entities[id].live,
        c < lookup.len(),
        0 <= k <= entities[id].ids@.len(),
        forall|j: int| 0 <= j < k ==> entities[id].ids@[j] < c,
        forall|j: int| k <= j < entities[id].ids@.len() ==> entities[id].ids@[j] > c,
        stored(
            entities,
            lookup,
            columns,
            after_entities,
            after_lookup,
            after_columns,
            id,
            c,
            k,
            slot,
            value,
        ),
    ensures
        free_ok(free, after_entities),
        slots_ok(after_entities, after_lookup),
        columns_ok(after_lookup, after_columns),
        buckets_ok(after_entities, homes, archetypes, id),
        ascending(after_entities[id].ids@),
        !entities[id].ids@.contains(c),
        population(after_entities, after_columns) == population(entities, columns).insert(
            handle(entities, id),
            held(entities, columns, id).insert(c, value),
        ),
{
    let entity = handle(entities, id);
    let ids = entities[id].ids@;
    let slots = entities[id].slots@;
    let new_ids = after_entities[id].ids@;
    let new_slots = after_entities[id].slots@;
    assert(record_ok(entities, lookup, id));
    assert(handle(after_entities, id) == entity);
    assert forall|i: int| 0 <= i < entities.len() && i != id implies handle(after_entities, i)
        == handle(entities, i) by {
        assert(after_entities[i] == entities[i]);
    }
    if ids.contains(c) {
        let j = ids.index_of(c);
        assert(ids[j] == c);
    }
    // the free list
    assert forall|i: int| 0 <= i < free.len() implies {
        let freed = #[trigger] free[i];
        &&& freed.id < after_entities.len()
        &&& !after_entities[freed.id as int].live
        &&& after_entities[freed.id as int].generation == freed.generation
    } by {
        let freed = free[i];
        assert(freed.id != id);
        assert(after_entities[freed.id as int] == entities[freed.id as int]);
    }
    // the records
    assert forall|a: int, b: int| 0 <= a < b < new_ids.len() implies new_ids[a] < new_ids[b] by {
        let a0 = if a < k { a } else { a - 1 };
        let b0 = if b < k { b } else { b - 1 };
        if a != k && b != k {
            assert(ids[a0] < ids[b0]);
        }
    }
    assert forall|i: int|
        0 <= i < after_entities.len() && (#[trigger] after_entities[i]).live implies record_ok(
        after_entities,
        after_lookup,
        i,
    ) by {
        if i != id {
            assert(after_entities[i] == entities[i]);
            assert(record_ok(entities, lookup, i));
            assert forall|m: int| 0 <= m < entities[i].ids@.len() implies {
                let x = #[trigger] entities[i].ids@[m];
                &&& x < after_lookup.len()
                &&& entities[i].slots@[m] < after_lookup[x as int]@.len()
                &&& after_lookup[x as int]@[entities[i].slots@[m] as int] == handle(
                    after_entities,
                    i,
                )
            } by {
                let x = entities[i].ids@[m];
                if x != c {
                    assert(after_lookup[x as int] == lookup[x as int]);
                }
            }
        } else {
            assert forall|m: int| 0 <= m < new_ids.len() implies {
                let x = #[trigger] new_ids[m];
                &&& x < after_lookup.len()
                &&& new_slots[m] < after_lookup[x as int]@.len()
                &&& after_lookup[x as int]@[new_slots[m] as int] == handle(after_entities, id)
            } by {
                if m != k {
                    let m0 = if m < k { m } else { m - 1 };
                    let x = ids[m0];
                    assert(new_ids[m] == x);
                    assert(new_slots[m] == slots[m0]);
                    assert(x != c);
                    assert(after_lookup[x as int] == lookup[x as int]);
                }
            }
        }
    }
    assert forall|x: int, s: int|
        0 <= x < after_lookup.len() && 0 <= s < after_lookup[x]@.len() implies #[trigger] owner_ok(
        after_entities,
        after_lookup,
        x,
        s,
    ) by {
        if x == c && s == slot {
            assert(new_ids[k] == c && new_slots[k] == slot);
        } else {
            if x != c {
                assert(after_lookup[x] == lookup[x]);
            }
            assert(owner_ok(entities, lookup, x, s));
            let owner = lookup[x]@[s];
            if owner.id != id {
                assert(after_entities[owner.id as int] == entities[owner.id as int]);
            } else {
                let m0 = choose|m0: int|
                    0 <= m0 < ids.len() && #[trigger] ids[m0] == x && slots[m0] == s;
                let m = if m0 < k { m0 } else { m0 + 1 };
                assert(new_ids[m] == x && new_slots[m] == s);
            }
        }
    }
    // the columns
    assert forall|x: int| 0 <= x < after_columns.len() implies (#[trigger] after_lookup[x])@.len()
        == after_columns[x]@.len() by {
        if x != c {
            assert(after_lookup[x] == lookup[x]);
            assert(after_columns[x] == columns[x]);
        }
    }
    // the buckets
    assert forall|i: int|
        0 <= i < after_entities.len() && (#[trigger] after_entities[i]).live && i != id implies homed(
        after_entities,
        homes,
        archetypes,
        i,
    ) by {
        assert(after_entities[i] == entities[i]);
        assert(homed(entities, homes, archetypes, i));
    }
    assert forall|a: int, p: int|
        0 <= a < archetypes.len() && 0 <= p < archetypes[a]@.entities.len() implies #[trigger] member_ok(
        after_entities,
        homes,
        archetypes,
        a,
        p,
    ) && archetypes[a]@.entities[p].id != id by {
        assert(member_ok(entities, homes, archetypes, a, p));
        let member = archetypes[a]@.entities[p];
        assert(after_entities[member.id as int] == entities[member.id as int]);
    }
    // what is held
    assert forall|other: Entity| alive(after_entities, other) && other != entity implies held(
        after_entities,
        after_columns,
        other.id as int,
    ) == held(entities, columns, other.id as int) by {
        let i = other.id as int;
        assert(after_entities[i] == entities[i]);
        assert(record_ok(entities, lookup, i));
        assert forall|m: int| 0 <= m < entities[i].ids@.len() implies #[trigger] value_at(
            after_entities,
            after_columns,
            i,
            m,
        ) == value_at(entities, columns, i, m) by {
            let x = entities[i].ids@[m];
            if x != c {
                assert(after_columns[x as int] == columns[x as int]);
            }
        }
        lemma_same_held(after_entities, after_columns, entities, columns, i);
    }
    lemma_index_of_ascending(new_ids, k);
    assert forall|x: ComponentId| ids.contains(x) implies new_ids.contains(x) && value_at(
        after_entities,
        after_columns,
        id,
        new_ids.index_of(x),
    ) == value_at(entities, columns, id, ids.index_of(x)) by {
        let m0 = ids.index_of(x);
        let m = if m0 < k { m0 } else { m0 + 1 };
        assert(new_ids[m] == x);
        lemma_index_of_ascending(new_ids, m);
        assert(new_slots[m] == slots[m0]);
        assert(ids[m0] == x);
        if x != c {
            assert(after_columns[x as int] == columns[x as int]);
        }
    }
    assert forall|x: ComponentId| new_ids.contains(x) && x != c implies ids.contains(x) by {
        let m = new_ids.index_of(x);
        let m0 = if m < k { m } else { m - 1 };
        assert(new_ids[m] == x);
        assert(ids[m0] == x);
    }
    assert(held(after_entities, after_columns, id) =~= held(entities, columns, id).insert(c, value));
    assert(population(after_entities, after_columns) =~= population(entities, columns).insert(
        entity,
        held(entities, columns, id).insert(c, value),
    ));
}

/// Whether `after` is `before` without the last component of the entity of
/// record `id`: its slot emptied and refilled from the end of the column, in
/// the column and in the reverse index alike, and the record of the entity
/// whose value moved, if one did, pointing at index `moved_k` to the slot that
/// the value moved to.
pub(crate) open spec fn released<C: Component>(
    entities: Seq<EntityRecord>,
    lookup: Seq<Vec<Entity>>,
    columns: Seq<ComponentList<C>>,
    after_entities: Seq<EntityRecord>,
    after_lookup: Seq<Vec<Entity>>,
    after_columns: Seq<ComponentList<C>>,
    id: int,
    moved_k: int,
) -> bool {
    let c = entities[id].ids@.last() as int;
    let s = entities[id].slots@.last() as int;
    let moved = lookup[c]@.last().id as int;
    let touched = s + 1 != lookup[c]@.len();
    &&& after_entities.len() == entities.len()
    &&& forall|i: int|
        0 <= i < entities.len() && i != id && !(touched && i == moved) ==> #[trigger] after_entities[i]
            == entities[i]
    &&& after_entities[id].live == entities[id].live
    &&& after_entities[id].generation == entities[id].generation
    &&& after_entities[id].ids@ == entities[id].ids@.drop_last()
    &&& after_entities[id].slots@ == entities[id].slots@.drop_last()
    &&& touched ==> {
        &&& after_entities[moved].live == entities[moved].live
        &&& after_entities[moved].generation == entities[moved].generation
        &&& after_entities[moved].ids@ == entities[moved].ids@
        &&& 0 <= moved_k < entities[moved].ids@.len()
        &&& entities[moved].ids@[moved_k] == c
        &&& after_entities[moved].slots@ == entities[moved].slots@.update(moved_k, s as usize)
    }
    &&& after_lookup.len() == lookup.len()
    &&& forall|other: int|
        0 <= other < lookup.len() && other != c ==> #[trigger] after_lookup[other] == lookup[other]
    &&& after_lookup[c]@ == swap_removed(lookup[c]@, s)
    &&& after_columns.len() == columns.len()
    &&& forall|other: int|
        0 <= other < columns.len() && other != c ==> #[trigger] after_columns[other] == columns[other]
    &&& after_columns[c]@ == swap_removed(columns[c]@, s)
}

/// Releasing the last component of an entity that is in no bucket keeps the
/// indexes in order and changes nothing of what any other entity holds.
pub(crate) proof fn lemma_release<C: Component>(
    free: Seq<Entity>,
    homes: Seq<Home>,
    archetypes: Seq<Archetype>,
    entities: Seq<EntityRecord>,
    lookup: Seq<Vec<Entity>>,
    columns: Seq<ComponentList<C>>,
    after_entities: Seq<EntityRecord>,
    after_lookup: Seq<Vec<Entity>>,
    after_columns: Seq<ComponentList<C>>,
    id: int,
    moved_k: int,
)
    requires
        free_ok(free, entities),
        slots_ok(entities, lookup),
        columns_ok(lookup, columns),
        buckets_ok(entities, homes, archetypes, id),
        0 <= id < entities.len(),
        entities[id].live,
        entities[id].ids@.len() > 0,
        released(
            entities,
            lookup,
            columns,
            after_entities,
            after_lookup,
            after_columns,
            id,
            moved_k,
        ),
    ensures
        free_ok(free, after_entities),
        slots_ok(after_entities, after_lookup),
        columns_ok(after_lookup, after_columns),
        buckets_ok(after_entities, homes, archetypes, id),
        forall|i: int|
            0 <= i < entities.len() ==> (#[trigger] after_entities[i]).live == entities[i].live
                && after_entities[i].generation == entities[i].generation,
        forall|i: int|
            0 <= i < entities.len() && i != id && entities[i].live ==> #[trigger] held(
                after_entities,
                after_columns,
                i,
            ) == held(entities, columns, i),
{
    let ids = entities[id].ids@;
    let slots = entities[id].slots@;
    let top = ids.len() - 1;
    let c = ids.last() as int;
    let s = slots.last() as int;
    let last = lookup[c]@.len() - 1;
    let moved = lookup[c]@.last().id as int;
    let touched = s + 1 != lookup[c]@.len();
    assert(record_ok(entities, lookup, id));
    assert(ids[top] == c);
    assert(owner_ok(entities, lookup, c, last));
    assert(owner_ok(entities, lookup, c, s));
    if touched {
        // the value that moved belongs to another entity
        if moved == id {
            let m = choose|m: int| 0 <= m < ids.len() && #[trigger] ids[m] == c && slots[m] == last;
            if m < top {
                assert(ids[m] < ids[top]);
            }
        }
        assert(record_ok(entities, lookup, moved));
        lemma_index_of_ascending(entities[moved].ids@, moved_k);
        let m = choose|m: int|
            0 <= m < entities[moved].ids@.len() && #[trigger] entities[moved].ids@[m] == c
                && entities[moved].slots@[m] == last;
        lemma_index_of_ascending(entities[moved].ids@, m);
        assert(m == moved_k);
    }
    assert forall|i: int| 0 <= i < entities.len() implies (#[trigger] after_entities[i]).live
        == entities[i].live && after_entities[i].generation == entities[i].generation
        && handle(after_entities, i) == handle(entities, i) by {
        if i != id && !(touched && i == moved) {
            assert(after_entities[i] == entities[i]);
        }
    }
    assert forall|i: int| 0 <= i < entities.len() && i != id implies (
    #[trigger] after_entities[i]).ids@ == entities[i].ids@ by {
        if !(touched && i == moved) {
            assert(after_entities[i] == entities[i]);
        }
    }
    // the free list
    assert forall|i: int| 0 <= i < free.len() implies {
        let freed = #[trigger] free[i];
        &&& freed.id < after_entities.len()
        &&& !after_entities[freed.id as int].live
        &&& after_entities[freed.id as int].generation == freed.generation
    } by {
        let freed = free[i];
        assert(after_entities[freed.id as int].live == entities[freed.id as int].live);
    }
    // the records
    assert forall|i: int|
        0 <= i < after_entities.len() && (#[trigger] after_entities[i]).live implies record_ok(
        after_entities,
        after_lookup,
        i,
    ) by {
        assert(record_ok(entities, lookup, i));
        let new_ids = after_entities[i].ids@;
        let new_slots = after_entities[i].slots@;
        assert forall|m: int| 0 <= m < new_ids.len() implies {
            let x = #[trigger] new_ids[m];
            &&& x < after_lookup.len()
            &&& new_slots[m] < after_lookup[x as int]@.len()
            &&& after_lookup[x as int]@[new_slots[m] as int] == handle(after_entities, i)
        } by {
            let x = entities[i].ids@[m];
            assert(new_ids[m] == x);
            if x != c {
                assert(after_lookup[x as int] == lookup[x as int]);
                if i != id && !(touched && i == moved) {
                    assert(after_entities[i] == entities[i]);
                }
            } else if i == id {
                assert(ids[m] < ids[top]);
            } else if touched && i == moved {
                lemma_index_of_ascending(entities[i].ids@, m);
                lemma_index_of_ascending(entities[i].ids@, moved_k);
            } else {
                assert(after_entities[i] == entities[i]);
                let slot = entities[i].slots@[m] as int;
                assert(lookup[c]@[slot] == handle(entities, i));
                assert(slot != s);
                if slot == last {
                    assert(touched);
                    assert(lookup[c]@.last() == handle(entities, i));
                }
            }
        }
        assert forall|a: int, b: int| 0 <= a < b < new_ids.len() implies new_ids[a] < new_ids[b] by {
            assert(entities[i].ids@[a] < entities[i].ids@[b]);
        }
    }
    assert forall|x: int, t: int|
        0 <= x < after_lookup.len() && 0 <= t < after_lookup[x]@.len() implies #[trigger] owner_ok(
        after_entities,
        after_lookup,
        x,
        t,
    ) by {
        if x != c {
            assert(after_lookup[x] == lookup[x]);
            assert(owner_ok(entities, lookup, x, t));
            let owner = lookup[x]@[t];
            let o = owner.id as int;
            let m = choose|m: int|
                0 <= m < entities[o].ids@.len() && #[trigger] entities[o].ids@[m] == x
                    && entities[o].slots@[m] == t;
            if o == id {
                assert(m != top);
                assert(after_entities[o].ids@[m] == x && after_entities[o].slots@[m] == t);
            } else if touched && o == moved {
                assert(m != moved_k);
                assert(after_entities[o].ids@[m] == x && after_entities[o].slots@[m] == t);
            } else {
                assert(after_entities[o] == entities[o]);
            }
        } else if t == s {
            // the slot that was refilled
            assert(touched);
            assert(after_lookup[c]@[s] == lookup[c]@.last());
            assert(after_entities[moved].ids@[moved_k] == c && after_entities[moved].slots@[moved_k]
                == s);
        } else {
            assert(after_lookup[c]@[t] == lookup[c]@[t]);
            assert(owner_ok(entities, lookup, c, t));
            let owner = lookup[c]@[t];
            let o = owner.id as int;
            let m = choose|m: int|
                0 <= m < entities[o].ids@.len() && #[trigger] entities[o].ids@[m] == c
                    && entities[o].slots@[m] == t;
            if o == id {
                lemma_index_of_ascending(ids, m);
                lemma_index_of_ascending(ids, top);
            } else if touched && o == moved {
                lemma_index_of_ascending(entities[o].ids@, m);
                lemma_index_of_ascending(entities[o].ids@, moved_k);
            } else {
                assert(after_entities[o] == entities[o]);
            }
        }
    }
    // the columns
    assert forall|x: int| 0 <= x < after_columns.len() implies (#[trigger] after_lookup[x])@.len()
        == after_columns[x]@.len() by {
        if x != c {
            assert(after_lookup[x] == lookup[x]);
            assert(after_columns[x] == columns[x]);
        }
    }
    // the buckets
    assert forall|i: int|
        0 <= i < after_entities.len() && (#[trigger] after_entities[i]).live && i != id implies homed(
        after_entities,
        homes,
        archetypes,
        i,
    ) by {
        assert(homed(entities, homes, archetypes, i));
    }
    assert forall|a: int, p: int|
        0 <= a < archetypes.len() && 0 <= p < archetypes[a]@.entities.len() implies #[trigger] member_ok(
        after_entities,
        homes,
        archetypes,
        a,
        p,
    ) && archetypes[a]@.entities[p].id != id by {
        assert(member_ok(entities, homes, archetypes, a, p));
    }
    // what is held
    assert forall|i: int| 0 <= i < entities.len() && i != id && entities[i].live implies #[trigger] held(
        after_entities,
        after_columns,
        i,
    ) == held(entities, columns, i) by {
        assert(record_ok(entities, lookup, i));
        assert forall|m: int| 0 <= m < after_entities[i].ids@.len() implies #[trigger] value_at(
            after_entities,
            after_columns,
            i,
            m,
        ) == value_at(entities, columns, i, m) by {
            let x = entities[i].ids@[m];
            if x != c {
                assert(after_columns[x as int] == columns[x as int]);
                if !(touched && i == moved) {
                    assert(after_entities[i] == entities[i]);
                }
            } else if touched && i == moved {
                lemma_index_of_ascending(entities[i].ids@, m);
                lemma_index_of_ascending(entities[i].ids@, moved_k);
            } else {
                assert(after_entities[i] == entities[i]);
                let slot = entities[i].slots@[m] as int;
                assert(lookup[c]@[slot] == handle(entities, i));
                if slot == last {
                    assert(lookup[c]@.last() == handle(entities, i));
                }
            }
        }
        lemma_same_held(after_entities, after_columns, entities, columns, i);
    }
}

/// Striking a live entity that holds nothing and is in no bucket off the
/// records, and putting its handle on the free list, leaves a consistent
/// store without that entity.
pub(crate) proof fn lemma_retire<C: Component>(
    free: Seq<Entity>,
    homes: Seq<Home>,
    archetypes: Seq<Archetype>,
    lookup: Seq<Vec<Entity>>,
    columns: Seq<ComponentList<C>>,
    entities: Seq<EntityRecord>,
    after_entities: Seq<EntityRecord>,
    id: int,
)
    requires
        free_ok(free, entities),
        slots_ok(entities, lookup),
        buckets_ok(entities, homes, archetypes, id),
        0 <= id < entities.len(),
        entities[id].live,
        entities[id].ids@.len() == 0,
        after_entities.len() == entities.len(),
        forall|i: int| 0 <= i < entities.len() && i != id ==> #[trigger] after_entities[i] == entities[i],
        !after_entities[id].live,
        after_entities[id].generation == entities[id].generation,
    ensures
        free_ok(free.push(handle(entities, id)), after_entities),
        slots_ok(after_entities, lookup),
        buckets_ok(after_entities, homes, archetypes, -1),
        generations(after_entities) == generations(entities),
        population(after_entities, columns) == population(entities, columns).remove(
            handle(entities, id),
        ),
{
    let entity = handle(entities, id);
    let after_free = free.push(entity);
    assert forall|i: int| 0 <= i < entities.len() && i != id implies handle(after_entities, i)
        == handle(entities, i) by {
        assert(after_entities[i] == entities[i]);
    }
    assert forall|i: int| 0 <= i < after_free.len() implies {
        let freed = #[trigger] after_free[i];
        &&& freed.id < after_entities.len()
        &&& !after_entities[freed.id as int].live
        &&& after_entities[freed.id as int].generation == freed.generation
    } by {
        if i < free.len() {
            let freed = free[i];
            assert(after_free[i] == freed);
            assert(freed.id != id);
            assert(after_entities[freed.id as int] == entities[freed.id as int]);
        }
    }
    assert forall|i: int, j: int| 0 <= i < j < after_free.len() implies (#[trigger] after_free[i]).id
        != (#[trigger] after_free[j]).id by {
        assert(after_free[i] == free[i]);
        if j < free.len() {
            assert(after_free[j] == free[j]);
        }
    }
    assert forall|i: int|
        0 <= i < after_entities.len() && (#[trigger] after_entities[i]).live implies record_ok(
        after_entities,
        lookup,
        i,
    ) by {
        assert(after_entities[i] == entities[i]);
        assert(record_ok(entities, lookup, i));
    }
    assert forall|c: int, s: int|
        0 <= c < lookup.len() && 0 <= s < lookup[c]@.len() implies #[trigger] owner_ok(
        after_entities,
        lookup,
        c,
        s,
    ) by {
        assert(owner_ok(entities, lookup, c, s));
        let owner = lookup[c]@[s];
        assert(owner.id != id);
        assert(after_entities[owner.id as int] == entities[owner.id as int]);
    }
    assert forall|i: int|
        0 <= i < after_entities.len() && (#[trigger] after_entities[i]).live implies homed(
        after_entities,
        homes,
        archetypes,
        i,
    ) by {
        assert(after_entities[i] == entities[i]);
        assert(homed(entities, homes, archetypes, i));
    }
    assert forall|a: int, p: int|
        0 <= a < archetypes.len() && 0 <= p < archetypes[a]@.entities.len() implies #[trigger] member_ok(
        after_entities,
        homes,
        archetypes,
        a,
        p,
    ) by {
        assert(member_ok(entities, homes, archetypes, a, p));
        let member = archetypes[a]@.entities[p];
        assert(after_entities[member.id as int] == entities[member.id as int]);
    }
    assert(generations(after_entities) =~= generations(entities));
    assert forall|other: Entity| alive(after_entities, other) implies held(
        after_entities,
        columns,
        other.id as int,
    ) == held(entities, columns, other.id as int) by {
        let i = other.id as int;
        assert(after_entities[i] == entities[i]);
        lemma_same_held(after_entities, columns, entities, columns, i);
    }
    assert(population(after_entities, columns) =~= population(entities, columns).remove(entity));
}

/// The entities of the first `n` buckets are the live entities whose bucket
/// is among them, each once.
pub(crate) proof fn lemma_members_prefix(
    entities: Seq<EntityRecord>,
    homes: Seq<Home>,
    buckets: Seq<Archetype>,
    n: int,
)
    requires
        buckets_ok(entities, homes, buckets, -1),
        0 <= n <= buckets.len(),
    ensures
        members(views(buckets).take(n)).no_duplicates(),
        forall|x: Entity| #[trigger]
            members(views(buckets).take(n)).contains(x) <==> alive(entities, x)
                && homes[x.id as int].archetype < n,
    decreases n,
{
    if n == 0 {
        assert(views(buckets).take(0).len() == 0);
    } else {
        lemma_members_prefix(entities, homes, buckets, n - 1);
        let before = members(views(buckets).take(n - 1));
        let here = buckets[n - 1]@.entities;
        assert(views(buckets).take(n).drop_last() =~= views(buckets).take(n - 1));
        assert(views(buckets).take(n).last() == buckets[n - 1]@);
        assert(members(views(buckets).take(n)) == before + here);
        assert forall|p: int, q: int| 0 <= p < q < here.len() implies here[p] != here[q] by {
            assert(member_ok(entities, homes, buckets, n - 1, p));
            assert(member_ok(entities, homes, buckets, n - 1, q));
        }
        assert forall|i: int, p: int| 0 <= i < before.len() && 0 <= p < here.len() implies before[i]
            != here[p] by {
            assert(before.contains(before[i]));
            assert(member_ok(entities, homes, buckets, n - 1, p));
        }
        lemma_no_dup_in_concat(before, here);
        assert forall|x: Entity| #[trigger]
            members(views(buckets).take(n)).contains(x) <==> alive(entities, x)
                && homes[x.id as int].archetype < n by {
            let all = before + here;
            if all.contains(x) {
                let i = choose|i: int| 0 <= i < all.len() && all[i] == x;
                if i < before.len() {
                    assert(before[i] == x);
                    assert(before.contains(x));
                } else {
                    assert(here[i - before.len()] == x);
                    assert(member_ok(entities, homes, buckets, n - 1, i - before.len()));
                }
            }
            if alive(entities, x) && homes[x.id as int].archetype < n {
                if homes[x.id as int].archetype < n - 1 {
                    assert(before.contains(x));
                    let i = choose|i: int| 0 <= i < before.len() && before[i] == x;
                    assert(all[i] == x);
                } else {
                    assert(entities[x.id as int].live);
                    assert(homed(entities, homes, buckets, x.id as int));
                    let p = homes[x.id as int].position as int;
                    assert(here[p] == x);
                    assert(all[before.len() + p] == x);
                }
            }
        }
    }
}

/// In a list without repetition, an item is found where it stands.
pub(crate) proof fn lemma_index_of_unique<A>(items: Seq<A>, k: int)
    requires
        items.no_duplicates(),
        0 <= k < items.len(),
    ensures
        items.contains(items[k]),
        items.index_of(items[k]) == k,
{
    assert(items.contains(items[k]));
}

/// The ids of keys that differ, differ.
pub(crate) proof fn lemma_ids_differ(types: Seq<TypeKey>, keys: Seq<TypeKey>, ids: Seq<ComponentId>)
    requires
        keys.no_duplicates(),
        ids.len() == keys.len(),
        types.len() <= ComponentId::MAX,
        forall|m: int| 0 <= m < keys.len() ==> id_of(types, keys[m]) == Some(#[trigger] ids[m]),
    ensures
        ids.no_duplicates(),
{
    assert forall|a: int, b: int| 0 <= a < ids.len() && 0 <= b < ids.len() && a != b implies ids[a]
        != ids[b] by {
        assert(id_of(types, keys[a]) == Some(ids[a]));
        assert(id_of(types, keys[b]) == Some(ids[b]));
        let i = types.index_of(keys[a]);
        let j = types.index_of(keys[b]);
        assert(types.contains(keys[a]) && types.contains(keys[b]));
        assert(types[i] == keys[a] && types[j] == keys[b]);
    }
}

/// A column while some values of a list are out of the store: the column as
/// it was, where the list names no slot of it; with the slot emptied and
/// refilled from the end, where the value of that slot is still out, which
/// are the places of the list before `out_below`; and with the value of the
/// list in the slot, where it is back.
pub(crate) open spec fn column_now<C>(
    intact: Seq<C>,
    ids: Seq<ComponentId>,
    slots: Seq<usize>,
    values: Seq<C>,
    out_below: int,
    c: int,
) -> Seq<C> {
    if ids.contains(c as ComponentId) {
        let m = ids.index_of(c as ComponentId);
        if m < out_below {
            swap_removed(intact, slots[m] as int)
        } else {
            intact.update(slots[m] as int, values[m])
        }
    } else {
        intact
    }
}

/// Writing over values that one entity holds changes those components of
/// that entity, and nothing else.
pub(crate) proof fn lemma_values_changed<C: Component>(
    entities: Seq<EntityRecord>,
    lookup: Seq<Vec<Entity>>,
    before: Seq<ComponentList<C>>,
    after: Seq<ComponentList<C>>,
    id: int,
    ids: Seq<ComponentId>,
    slots: Seq<usize>,
    values: Seq<C>,
)
    requires
        slots_ok(entities, lookup),
        columns_ok(lookup, before),
        0 <= id < entities.len(),
        entities[id].live,
        before.len() <= ComponentId::MAX,
        ids.len() == slots.len(),
        ids.len() == values.len(),
        ids.no_duplicates(),
        forall|j: int|
            0 <= j < ids.len() ==> entities[id].ids@.contains(#[trigger] ids[j]) && slots[j]
                == entities[id].slots@[entities[id].ids@.index_of(ids[j])],
        after.len() == before.len(),
        forall|c: int|
            0 <= c < before.len() ==> (#[trigger] after[c])@ == column_now(
                before[c]@,
                ids,
                slots,
                values,
                0,
                c,
            ),
    ensures
        columns_ok(lookup, after),
        forall|i: int|
            0 <= i < entities.len() && entities[i].live && i != id ==> #[trigger] held(
                entities,
                after,
                i,
            ) == held(entities, before, i),
        held(entities, after, id).dom() == held(entities, before, id).dom(),
        forall|c: ComponentId|
            held(entities, before, id).dom().contains(c) && !ids.contains(c) ==> #[trigger] held(
                entities,
                after,
                id,
            )[c] == held(entities, before, id)[c],
{
    assert(record_ok(entities, lookup, id));
    assert forall|c: int| 0 <= c < after.len() implies (#[trigger] lookup[c])@.len()
        == after[c]@.len() by {
        assert(after[c]@ == column_now(before[c]@, ids, slots, values, 0, c));
        if ids.contains(c as ComponentId) {
            let m = ids.index_of(c as ComponentId);
            assert(ids[m] == c);
        }
    }
    // a value of another entity, or of a type that is not listed, is the same
    assert forall|i: int, k: int|
        0 <= i < entities.len() && entities[i].live && 0 <= k < entities[i].ids@.len() && (i != id
            || !ids.contains(entities[i].ids@[k])) implies #[trigger] value_at(entities, after, i, k)
        == value_at(entities, before, i, k) by {
        assert(record_ok(entities, lookup, i));
        let c = entities[i].ids@[k];
        let s = entities[i].slots@[k];
        assert(after[c as int]@ == column_now(before[c as int]@, ids, slots, values, 0, c as int));
        if ids.contains(c) {
            let m = ids.index_of(c);
            assert(ids[m] == c);
            let own = entities[id].ids@.index_of(c);
            assert(entities[id].ids@[own] == c);
            assert(lookup[c as int]@[slots[m] as int] == handle(entities, id));
            assert(lookup[c as int]@[s as int] == handle(entities, i));
        }
    }
    assert forall|i: int| 0 <= i < entities.len() && entities[i].live && i != id implies #[trigger] held(
        entities,
        after,
        i,
    ) == held(entities, before, i) by {
        lemma_same_held(entities, after, entities, before, i);
    }
    assert(held(entities, after, id).dom() =~= held(entities, before, id).dom());
    assert forall|c: ComponentId|
        held(entities, before, id).dom().contains(c) && !ids.contains(c) implies #[trigger] held(
        entities,
        after,
        id,
    )[c] == held(entities, before, id)[c] by {
        let k = entities[id].ids@.index_of(c);
        assert(entities[id].ids@[k] == c);
    }
}

} // verus!
