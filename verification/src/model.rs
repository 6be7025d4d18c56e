//! What a store holds and how it keeps it, as mathematics: the values that the
//! contracts of the store speak of, with the operations as functions on them.

use vstd::prelude::*;
use crate::archetype::Bucket;
use crate::component::{id_of, swap_removed, ComponentId, TypeKey};
use crate::entity::{Entity, EntityId};

verus! {

/// What a store of components of type `C` holds, as mathematics.
///
/// The operations of the store are stated as functions on this value; the
/// executable store promises to follow them.
#[verifier::ext_equal]
pub struct WorldView<C> {
    /// For each entity id handed out so far, the generation it was last
    /// issued with.
    pub latest: Seq<EntityId>,
    /// The freed handles waiting for reuse; the last one is reused first.
    pub free: Seq<Entity>,
    /// The live entities, each with the components it holds, by component id.
    pub entities: Map<Entity, Map<ComponentId, C>>,
    /// The component types in use, in the order of their first use; the id of
    /// a type is its index.
    pub types: Seq<TypeKey>,
}

/// One request to the store.
pub enum Step<C> {
    Spawn,
    Register(TypeKey),
    Add(Entity, TypeKey, C),
    Write(Entity, TypeKey, C),
    Despawn(Entity),
}

impl<C> WorldView<C> {
    /// The store before anything was done to it.
    pub open spec fn empty() -> Self {
        WorldView {
            latest: Seq::empty(),
            free: Seq::empty(),
            entities: Map::empty(),
            types: Seq::empty(),
        }
    }

    /// Whether the entity is live: spawned and not despawned since.
    pub open spec fn is_live(self, entity: Entity) -> bool {
        self.entities.dom().contains(entity)
    }

    /// Whether the handle was handed out at some time, live or not.
    pub open spec fn issued(self, entity: Entity) -> bool {
        entity.id < self.latest.len() && entity.generation <= self.latest[entity.id as int]
    }

    /// Whether the handle on top of the free list can be issued once more.
    pub open spec fn can_recycle(self) -> bool {
        self.free.len() > 0 && self.free.last().generation != EntityId::MAX
    }

    /// Whether no identity is left to hand out.
    pub open spec fn exhausted(self) -> bool {
        !self.can_recycle() && self.latest.len() >= EntityId::MAX
    }

    /// The handle that the next spawn hands out.
    pub open spec fn next_entity(self) -> Entity {
        if self.can_recycle() {
            Entity {
                id: self.free.last().id,
                generation: (self.free.last().generation + 1) as EntityId,
            }
        } else {
            Entity { id: self.latest.len() as EntityId, generation: 0 }
        }
    }

    /// The free list once a spawn has issued a handle: a handle whose
    /// generation cannot grow is dropped from it, its id retired.
    pub open spec fn free_after_spawn(self) -> Seq<Entity> {
        if self.free.len() > 0 {
            self.free.drop_last()
        } else {
            self.free
        }
    }

    /// The store after a spawn: the next handle is live and holds nothing.
    /// The store as it was where no identity is left.
    pub open spec fn spawn(self) -> Self {
        if self.exhausted() {
            self
        } else {
            let entity = self.next_entity();
            WorldView {
                latest: if self.can_recycle() {
                    self.latest.update(entity.id as int, entity.generation)
                } else {
                    self.latest.push(0)
                },
                free: self.free_after_spawn(),
                entities: self.entities.insert(entity, Map::empty()),
                types: self.types,
            }
        }
    }

    /// The id of a component type, if the type is in use.
    pub open spec fn component_id(self, key: TypeKey) -> Option<ComponentId> {
        id_of(self.types, key)
    }

    /// The store after a component type was looked up for use: a type seen for
    /// the first time gets the next id.
    pub open spec fn register(self, key: TypeKey) -> Self {
        if self.types.contains(key) || self.types.len() >= ComponentId::MAX {
            self
        } else {
            WorldView { types: self.types.push(key), ..self }
        }
    }

    /// The component of the given type that the entity holds, if it is live
    /// and holds one.
    pub open spec fn get(self, entity: Entity, key: TypeKey) -> Option<C> {
        match self.component_id(key) {
            Some(id) => if self.is_live(entity) && self.entities[entity].dom().contains(id) {
                Some(self.entities[entity][id])
            } else {
                None
            },
            None => None,
        }
    }

    /// Whether the entity holds a component of the given type.
    pub open spec fn has(self, entity: Entity, key: TypeKey) -> bool {
        self.get(entity, key) is Some
    }

    /// Whether a component of the given type can be added to the entity.
    pub open spec fn can_add(self, entity: Entity, key: TypeKey) -> bool {
        &&& self.is_live(entity)
        &&& !self.has(entity, key)
        &&& self.register(key).types.contains(key)
    }

    /// The store after the entity was given a component of the given type; the
    /// store as it was where that is refused.
    pub open spec fn add(self, entity: Entity, key: TypeKey, value: C) -> Self {
        if self.can_add(entity, key) {
            let registered = self.register(key);
            let id = registered.component_id(key).unwrap();
            WorldView {
                entities: self.entities.insert(entity, self.entities[entity].insert(id, value)),
                ..registered
            }
        } else {
            self
        }
    }

    /// The store after the entity was given the components of a list, one
    /// after the other.
    pub open spec fn add_all(self, entity: Entity, items: Seq<(TypeKey, C)>) -> Self
        decreases items.len(),
    {
        if items.len() == 0 {
            self
        } else {
            self.add_all(entity, items.drop_last()).add(entity, items.last().0, items.last().1)
        }
    }

    /// The store after a component that the entity holds was overwritten; the
    /// store as it was where the entity holds none of that type.
    pub open spec fn write(self, entity: Entity, key: TypeKey, value: C) -> Self {
        if self.has(entity, key) {
            let id = self.component_id(key).unwrap();
            WorldView {
                entities: self.entities.insert(entity, self.entities[entity].insert(id, value)),
                ..self
            }
        } else {
            self
        }
    }

    /// The store after the entity was despawned: it is gone with all it held,
    /// and its handle waits for reuse. The store as it was where the entity is
    /// not live.
    pub open spec fn despawn(self, entity: Entity) -> Self {
        if self.is_live(entity) {
            WorldView {
                free: self.free.push(entity),
                entities: self.entities.remove(entity),
                ..self
            }
        } else {
            self
        }
    }

    /// The components of the given types that the entity holds, in the order
    /// of the keys.
    pub open spec fn values(self, entity: Entity, keys: Seq<TypeKey>) -> Seq<C> {
        Seq::new(keys.len(), |i: int| self.get(entity, keys[i]).unwrap())
    }

    /// Whether the entity is live and holds a component of each given type.
    pub open spec fn holds_all(self, entity: Entity, keys: Seq<TypeKey>) -> bool {
        self.is_live(entity) && forall|i: int|
            0 <= i < keys.len() ==> self.has(entity, #[trigger] keys[i])
    }

    /// Whether `after` is this store but for the values of components of the
    /// given types that the given entities hold: the same entities hold
    /// components of the same types, and every other value is the same.
    pub open spec fn differs_only_in(
        self,
        after: Self,
        entities: Seq<Entity>,
        keys: Seq<TypeKey>,
    ) -> bool {
        &&& after.latest == self.latest
        &&& after.free == self.free
        &&& after.types == self.types
        &&& after.entities.dom() == self.entities.dom()
        &&& forall|entity: Entity| #[trigger]
            self.is_live(entity) ==> after.entities[entity].dom() == self.entities[entity].dom()
        &&& forall|entity: Entity, key: TypeKey|
            !(entities.contains(entity) && keys.contains(key)) ==> #[trigger] after.get(entity, key)
                == self.get(entity, key)
    }

    /// The store after one request.
    pub open spec fn step(self, step: Step<C>) -> Self {
        match step {
            Step::Spawn => self.spawn(),
            Step::Register(key) => self.register(key),
            Step::Add(entity, key, value) => self.add(entity, key, value),
            Step::Write(entity, key, value) => self.write(entity, key, value),
            Step::Despawn(entity) => self.despawn(entity),
        }
    }

    /// The store after a sequence of requests, made in order.
    pub open spec fn run(self, steps: Seq<Step<C>>) -> Self
        decreases steps.len(),
    {
        if steps.len() == 0 {
            self
        } else {
            self.run(steps.drop_last()).step(steps.last())
        }
    }

    /// What holds of every store that was reached from the empty one.
    pub open spec fn inv(self) -> bool {
        &&& self.latest.len() <= EntityId::MAX
        &&& self.types.no_duplicates()
        &&& self.types.len() <= ComponentId::MAX
        &&& forall|entity: Entity| #[trigger]
            self.is_live(entity) ==> self.issued(entity) && entity.generation
                == self.latest[entity.id as int]
        &&& forall|entity: Entity, id: ComponentId|
            self.is_live(entity) && #[trigger] self.entities[entity].dom().contains(id) ==> id
                < self.types.len()
        &&& forall|i: int|
            0 <= i < self.free.len() ==> self.issued(#[trigger] self.free[i]) && !self.is_live(
                self.free[i],
            ) && self.free[i].generation == self.latest[self.free[i].id as int]
        &&& forall|i: int, j: int|
            0 <= i < j < self.free.len() ==> (#[trigger] self.free[i]).id != (
            #[trigger] self.free[j]).id
    }
}

/// How a store keeps what it holds: the columns, the reverse index and the
/// buckets. The forward index is not listed, being the inverse of the reverse
/// index and of the buckets.
#[verifier::ext_equal]
pub struct Layout<C> {
    /// By component id: the values of that type, by slot.
    pub columns: Seq<Seq<C>>,
    /// By component id and slot: the entity whose value is in the slot.
    pub owners: Seq<Seq<Entity>>,
    /// The buckets, in the order in which they were made. The first is that
    /// of the entities that hold nothing.
    pub buckets: Seq<Bucket>,
}

/// The ids with one more, put where it belongs among ascending ids.
pub open spec fn inserted(types: Seq<ComponentId>, id: ComponentId) -> Seq<ComponentId>
    decreases types.len(),
{
    if types.len() == 0 {
        seq![id]
    } else if types.last() < id {
        types.push(id)
    } else {
        inserted(types.drop_last(), id).push(types.last())
    }
}

impl<C> Layout<C> {
    /// The layout of the store before anything was done to it.
    pub open spec fn empty() -> Self {
        Layout {
            columns: Seq::empty(),
            owners: Seq::empty(),
            buckets: seq![Bucket { types: Seq::empty(), entities: Seq::empty() }],
        }
    }

    /// Whether the other layout has the same reverse index and buckets, and
    /// columns of the same lengths: it differs in values at most.
    pub open spec fn same_shape(self, other: Self) -> bool {
        &&& other.owners == self.owners
        &&& other.buckets == self.buckets
        &&& other.columns.len() == self.columns.len()
        &&& forall|c: int|
            0 <= c < self.columns.len() ==> (#[trigger] other.columns[c]).len()
                == self.columns[c].len()
    }

    /// After a spawn: the new entity stands last in the first bucket.
    pub open spec fn spawned(self, entity: Entity) -> Self {
        Layout {
            buckets: self.buckets.update(
                0,
                Bucket { entities: self.buckets[0].entities.push(entity), ..self.buckets[0] },
            ),
            ..self
        }
    }

    /// After a component type was used for the first time: it has an empty
    /// column.
    pub open spec fn registered(self) -> Self {
        Layout {
            columns: self.columns.push(Seq::empty()),
            owners: self.owners.push(Seq::empty()),
            ..self
        }
    }

    /// The index of the bucket with the given name, or the number of buckets
    /// where there is none.
    pub open spec fn bucket_named(self, types: Seq<ComponentId>) -> int {
        if exists|b: int| 0 <= b < self.buckets.len() && (#[trigger] self.buckets[b]).types == types {
            choose|b: int| 0 <= b < self.buckets.len() && (#[trigger] self.buckets[b]).types == types
        } else {
            self.buckets.len() as int
        }
    }

    /// After the entity at the given place, bucket and position, was taken
    /// out: the last entity of the bucket stands in its place.
    pub open spec fn without(self, home: (int, int)) -> Self {
        Layout {
            buckets: self.buckets.update(
                home.0,
                Bucket {
                    entities: swap_removed(self.buckets[home.0].entities, home.1),
                    ..self.buckets[home.0]
                },
            ),
            ..self
        }
    }

    /// After an entity was put into the bucket with the given name: it stands
    /// last there. The bucket is made, as the last one, where there was none.
    pub open spec fn with(self, entity: Entity, types: Seq<ComponentId>) -> Self {
        let b = self.bucket_named(types);
        if b < self.buckets.len() {
            Layout {
                buckets: self.buckets.update(
                    b,
                    Bucket { entities: self.buckets[b].entities.push(entity), ..self.buckets[b] },
                ),
                ..self
            }
        } else {
            Layout { buckets: self.buckets.push(Bucket { types, entities: seq![entity] }), ..self }
        }
    }

    /// After the entity at the given place was given a component of the type
    /// with the given id: the value is last in its column, the entity is named
    /// as its owner, and the entity has moved to the bucket named by what it
    /// holds now.
    pub open spec fn added(
        self,
        entity: Entity,
        home: (int, int),
        id: ComponentId,
        value: C,
    ) -> Self {
        Layout {
            columns: self.columns.update(id as int, self.columns[id as int].push(value)),
            owners: self.owners.update(id as int, self.owners[id as int].push(entity)),
            ..self
        }.without(home).with(entity, inserted(self.buckets[home.0].types, id))
    }

    /// After the entity at the given place, which kept its values in the given
    /// slots, was despawned: it is out of its bucket, and each of its slots was
    /// emptied and refilled from the end of the column, in the reverse index
    /// as in the column.
    pub open spec fn despawned(self, home: (int, int), slots: Map<ComponentId, usize>) -> Self {
        Layout {
            columns: Seq::new(
                self.columns.len(),
                |c: int|
                    if slots.dom().contains(c as ComponentId) {
                        swap_removed(self.columns[c], slots[c as ComponentId] as int)
                    } else {
                        self.columns[c]
                    },
            ),
            owners: Seq::new(
                self.owners.len(),
                |c: int|
                    if slots.dom().contains(c as ComponentId) {
                        swap_removed(self.owners[c], slots[c as ComponentId] as int)
                    } else {
                        self.owners[c]
                    },
            ),
            ..self.without(home)
        }
    }

    /// The place at which the entity stands, as bucket and position.
    pub open spec fn place_of(self, entity: Entity) -> (int, int) {
        choose|place: (int, int)|
            0 <= place.0 < self.buckets.len() && 0 <= place.1 < self.buckets[place.0].entities.len()
                && self.buckets[place.0].entities[place.1] == entity
    }

    /// After the entity was given the components of a list, one after the
    /// other, in a store that showed the given view before: each component
    /// that the view accepts is added, its type getting a column where it is
    /// new, and each that it refuses changes nothing.
    pub open spec fn added_all(
        self,
        view: WorldView<C>,
        entity: Entity,
        items: Seq<(TypeKey, C)>,
    ) -> Self
        decreases items.len(),
    {
        if items.len() == 0 {
            self
        } else {
            let before = self.added_all(view, entity, items.drop_last());
            let shown = view.add_all(entity, items.drop_last());
            let key = items.last().0;
            if shown.can_add(entity, key) {
                (if shown.component_id(key) is None {
                    before.registered()
                } else {
                    before
                }).added(
                    entity,
                    before.place_of(entity),
                    shown.register(key).component_id(key).unwrap(),
                    items.last().1,
                )
            } else {
                before
            }
        }
    }

    /// After the value in a slot was overwritten.
    pub open spec fn written(self, id: ComponentId, slot: usize, value: C) -> Self {
        Layout {
            columns: self.columns.update(
                id as int,
                self.columns[id as int].update(slot as int, value),
            ),
            ..self
        }
    }
}

} // verus!
