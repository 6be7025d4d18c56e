//! The store and what can be done to it: spawning and despawning entities,
//! attaching components, reaching a component, and looking at the indexes.

use vstd::prelude::*;
use crate::archetype::{
    ascending, lemma_members_len, members, total_size, views, Archetype, Bucket,
};
use crate::component::{
    swap_removed, Bundle, Component, ComponentId, ComponentList, ComponentListOps,
    ComponentRegistry, TypeKey,
};
use crate::entity::{Entity, EntityRegistry};
use crate::error::EcsError;
use crate::index::{
    alive, buckets_ok, column_views, columns_ok, free_ok, generations, handle, held, homed,
    lemma_detach, lemma_enlist, lemma_index_of_ascending,
    lemma_members_prefix,
    lemma_release, lemma_retire, lemma_same_held, lemma_store, lemma_write, member_ok,
    one_value_changed,
    owner_ok, owner_views, population, record_ok, slots_ok, EntityRecord, Home,
};
use crate::laws::{
    lemma_added_entity_is_live, lemma_inserted, lemma_register_keeps_ids, lemma_spawn_is_fresh,
};
use crate::model::{Layout, WorldView};

verus! {

/// The store: entities, the components attached to them, and the indexes that
/// find one from the other.
pub struct World<C: Component> {
    pub(crate) entity_registry: EntityRegistry,
    /// By entity id: what each id holds. The forward index.
    pub(crate) entities: Vec<EntityRecord>,
    /// By component id and slot: the entity whose value is in that slot. The
    /// reverse index.
    pub(crate) entity_lookup: Vec<Vec<Entity>>,
    pub(crate) component_registry: ComponentRegistry,
    /// By component id: the column of that type's values.
    pub(crate) components: Vec<ComponentList<C>>,
    /// By entity id: the place of each entity among the buckets.
    pub(crate) archetype_lookup: Vec<Home>,
    /// The buckets. The first is that of the entities that hold nothing.
    pub(crate) archetypes: Vec<Archetype>,
}

impl<C: Component> View for World<C> {
    type V = WorldView<C>;

    closed spec fn view(&self) -> WorldView<C> {
        self.shown()
    }
}

impl<C: Component> World<C> {
    /// Registries and tables fit each other.
    pub(crate) open spec fn wf_tables(&self) -> bool {
        &&& self.component_registry.wf()
        &&& self.entities@.len() == self.entity_registry.next()
        &&& free_ok(self.entity_registry.free(), self.entities@)
        &&& columns_ok(self.entity_lookup@, self.components@)
        &&& self.components@.len() == self.component_registry@.len()
    }

    /// What `wf` says, for the rest of the crate to see.
    pub(crate) open spec fn consistent(&self) -> bool {
        &&& self.wf_tables()
        &&& slots_ok(self.entities@, self.entity_lookup@)
        &&& buckets_ok(self.entities@, self.archetype_lookup@, self.archetypes@, -1)
    }

    /// The store is consistent: registries, columns, both indexes and the
    /// buckets say the same.
    pub closed spec fn wf(&self) -> bool {
        self.consistent()
    }

    /// What the view is, for the rest of the crate to see.
    pub(crate) open spec fn shown(&self) -> WorldView<C> {
        WorldView {
            latest: generations(self.entities@),
            free: self.entity_registry.free(),
            entities: population(self.entities@, self.components@),
            types: self.component_registry@,
        }
    }

    /// What the layout is, for the rest of the crate to see.
    pub(crate) open spec fn layout_shown(&self) -> Layout<C> {
        Layout {
            columns: column_views(self.components@),
            owners: owner_views(self.entity_lookup@),
            buckets: views(self.archetypes@),
        }
    }

    /// How the store keeps what it holds.
    pub closed spec fn layout(&self) -> Layout<C> {
        self.layout_shown()
    }

    /// Opens `wf`, the view and the layout to the rest of the crate.
    pub(crate) proof fn lemma_open(&self)
        ensures
            self.wf() == self.consistent(),
            self@ == self.shown(),
            self.layout() == self.layout_shown(),
    {
    }

    /// A consistent store shows a view that the model accepts.
    pub proof fn lemma_view_inv(&self)
        requires
            self.wf(),
        ensures
            self@.inv(),
    {
        let view = self@;
        self.component_registry.lemma_ids_are_unique();
        assert forall|entity: Entity, id: ComponentId|
            view.is_live(entity) && #[trigger] view.entities[entity].dom().contains(id) implies id
            < view.types.len() by {
            let record = self.entities@[entity.id as int];
            assert(record.live);
            assert(record_ok(self.entities@, self.entity_lookup@, entity.id as int));
            let k = record.ids@.index_of(id);
            assert(record.ids@[k] == id);
        }
        assert forall|i: int| 0 <= i < view.free.len() implies view.issued(#[trigger] view.free[i])
            && !view.is_live(view.free[i]) && view.free[i].generation
            == view.latest[view.free[i].id as int] by {
            let freed = self.entity_registry.free()[i];
        }
    }

    /// An empty store.
    pub fn new() -> (world: Self)
        ensures
            world.wf(),
            world@ == WorldView::<C>::empty(),
            world.layout() == Layout::<C>::empty(),
    {
        let mut archetypes: Vec<Archetype> = Vec::new();
        let no_ids: Vec<ComponentId> = Vec::new();
        archetypes.push(Archetype::new(no_ids.as_slice()));
        let world = Self {
            entity_registry: EntityRegistry::new(),
            entities: Vec::new(),
            entity_lookup: Vec::new(),
            component_registry: ComponentRegistry::new(),
            components: Vec::new(),
            archetype_lookup: Vec::new(),
            archetypes,
        };
        proof {
            assert(world@.latest =~= Seq::empty());
            assert(world@.entities =~= Map::empty());
            assert(world@ =~= WorldView::<C>::empty());
            assert(world.layout().buckets[0] == Layout::<C>::empty().buckets[0]);
            assert(world.layout() =~~= Layout::<C>::empty());
        }
        world
    }

    /// Whether the handle names a live entity.
    pub fn is_alive(&self, entity: &Entity) -> (live: bool)
        ensures
            live == self@.is_live(*entity),
    {
        let id: usize = entity.id as usize;
        id < self.entities.len() && self.entities[id].live && self.entities[id].generation
            == entity.generation
    }

    /// Where the entity of record `id` keeps its component of the given type:
    /// the index into its record, if it holds one.
    pub(crate) fn slot_index(&self, id: usize, component_id: ComponentId) -> (index: Option<usize>)
        requires
            id < self.entities@.len(),
            ascending(self.entities@[id as int].ids@),
        ensures
            match index {
                Some(k) => {
                    &&& k < self.entities@[id as int].ids@.len()
                    &&& self.entities@[id as int].ids@[k as int] == component_id
                    &&& self.entities@[id as int].ids@.index_of(component_id) == k
                    &&& self.entities@[id as int].ids@.contains(component_id)
                },
                None => !self.entities@[id as int].ids@.contains(component_id),
            },
    {
        let mut k: usize = 0;
        while k < self.entities[id].ids.len()
            invariant
                id < self.entities@.len(),
                ascending(self.entities@[id as int].ids@),
                k <= self.entities@[id as int].ids@.len(),
                forall|m: int| 0 <= m < k ==> self.entities@[id as int].ids@[m] != component_id,
            decreases self.entities@[id as int].ids@.len() - k,
        {
            if self.entities[id].ids[k] == component_id {
                proof {
                    lemma_index_of_ascending(self.entities@[id as int].ids@, k as int);
                }
                return Some(k);
            }
            k += 1;
        }
        None
    }

    /// Makes a new entity that holds nothing.
    ///
    /// It is in the bucket of the entities that hold nothing. The call fails
    /// where no identity is left to hand out.
    pub fn spawn_entity(&mut self) -> (spawned: Result<Entity, EcsError>)
        requires
            old(self).wf(),
        ensures
            final(self).wf(),
            final(self)@ == old(self)@.spawn(),
            match spawned {
                Ok(entity) => {
                    &&& !old(self)@.exhausted()
                    &&& entity == old(self)@.next_entity()
                    &&& final(self).layout() == old(self).layout().spawned(entity)
                },
                Err(error) => {
                    &&& old(self)@.exhausted()
                    &&& error == EcsError::RegistryExhausted
                    &&& final(self).layout() == old(self).layout()
                },
            },
    {
        proof {
            old(self).lemma_view_inv();
        }
        let entity = match self.entity_registry.new_entity() {
            Ok(entity) => entity,
            Err(error) => {
                return Err(error);
            },
        };
        let id: usize = entity.id as usize;
        let record = EntityRecord {
            generation: entity.generation,
            live: true,
            ids: Vec::new(),
            slots: Vec::new(),
        };
        let home = Home { archetype: 0, position: self.archetypes[0].len() };
        if id < self.entities.len() {
            self.entities[id] = record;
            self.archetype_lookup[id] = home;
        } else {
            self.entities.push(record);
            self.archetype_lookup.push(home);
        }
        self.archetypes[0].push_entity(entity);
        proof {
            let free = self.entity_registry.free();
            let freed = old(self).entity_registry.free();
            if old(self)@.can_recycle() {
                assert(freed[freed.len() - 1] == freed.last());
            }
            assert forall|i: int| 0 <= i < free.len() implies free[i] == freed[i] && free[i].id
                != id by {
                if old(self)@.can_recycle() {
                    assert(freed[i].id != freed[freed.len() - 1].id);
                }
            }
            lemma_enlist(
                free,
                self.entity_lookup@,
                self.components@,
                old(self).entities@,
                old(self).archetype_lookup@,
                old(self).archetypes@,
                self.entities@,
                self.archetype_lookup@,
                self.archetypes@,
                id as int,
                entity.generation,
            );
            assert(self@.latest =~= old(self)@.spawn().latest);
            assert(self@ =~= old(self)@.spawn());
            assert(self.layout().buckets =~= old(self).layout().spawned(entity).buckets);
        }
        Ok(entity)
    }

    /// The id of a component type. A type seen for the first time gets the
    /// next id and an empty column; where no id is left, the call fails and
    /// changes nothing.
    pub fn component_id(&mut self, key: TypeKey) -> (assigned: Result<ComponentId, EcsError>)
        requires
            old(self).wf(),
        ensures
            final(self).wf(),
            final(self)@ == old(self)@.register(key),
            final(self).layout() == if final(self)@.types == old(self)@.types {
                old(self).layout()
            } else {
                old(self).layout().registered()
            },
            forall|entity: Entity| #[trigger]
                final(self).home_of(entity) == old(self).home_of(entity),
            forall|entity: Entity| #[trigger]
                final(self).slots_of(entity) == old(self).slots_of(entity),
            match assigned {
                Ok(id) => final(self)@.component_id(key) == Some(id),
                Err(error) => {
                    &&& error == EcsError::RegistryExhausted
                    &&& old(self)@.component_id(key) is None
                    &&& final(self)@.component_id(key) is None
                },
            },
    {
        proof {
            old(self).component_registry.lemma_ids_are_unique();
        }
        let id = match self.component_registry.id(key) {
            Ok(id) => id,
            Err(error) => {
                return Err(error);
            },
        };
        if id as usize == self.components.len() {
            self.components.push(ComponentList::new());
            self.entity_lookup.push(Vec::new());
            proof {
                let entities = self.entities@;
                let before = old(self).components@;
                let after = self.components@;
                self.component_registry.lemma_ids_are_unique();
                if old(self).component_registry@.contains(key) {
                    let j = old(self).component_registry@.index_of(key);
                    assert(0 <= j < old(self).component_registry@.len());
                }
                assert forall|i: int| 0 <= i < entities.len() && (
                #[trigger] entities[i]).live implies record_ok(entities, self.entity_lookup@, i) by {
                    assert(record_ok(entities, old(self).entity_lookup@, i));
                }
                assert forall|c: int, s: int|
                    0 <= c < self.entity_lookup@.len() && 0 <= s
                        < self.entity_lookup@[c]@.len() implies #[trigger] owner_ok(
                    entities,
                    self.entity_lookup@,
                    c,
                    s,
                ) by {
                    assert(owner_ok(entities, old(self).entity_lookup@, c, s));
                }
                assert forall|other: Entity| alive(entities, other) implies held(
                    entities,
                    after,
                    other.id as int,
                ) == held(entities, before, other.id as int) by {
                    assert(record_ok(entities, old(self).entity_lookup@, other.id as int));
                    lemma_same_held(entities, after, entities, before, other.id as int);
                }
                assert(self@.entities =~= old(self)@.entities);
                assert(self@ =~= old(self)@.register(key));
                assert(self@.types.len() == old(self)@.types.len() + 1);
                assert(self.layout().columns =~= old(self).layout().registered().columns);
                assert(self.layout().owners =~= old(self).layout().registered().owners);
            }
        } else {
            proof {
                self.component_registry.lemma_ids_are_unique();
                if !old(self).component_registry@.contains(key) {
                    let len = old(self).component_registry@.len() as int;
                    assert(self.component_registry@[len] == key);
                }
                assert(self@ =~= old(self)@.register(key));
                assert(self@.types == old(self)@.types);
            }
        }
        Ok(id)
    }

    /// Takes a live entity out of its bucket. The entity that closed the gap,
    /// if any, is told its new position.
    fn detach(&mut self, entity: Entity)
        requires
            alive(old(self).entities@, entity),
            buckets_ok(old(self).entities@, old(self).archetype_lookup@, old(self).archetypes@, -1),
        ensures
            buckets_ok(
                final(self).entities@,
                final(self).archetype_lookup@,
                final(self).archetypes@,
                entity.id as int,
            ),
            final(self).entities == old(self).entities,
            final(self).entity_lookup == old(self).entity_lookup,
            final(self).components == old(self).components,
            final(self).entity_registry == old(self).entity_registry,
            final(self).component_registry == old(self).component_registry,
            final(self).layout_shown() == old(self).layout_shown().without(
                (
                    old(self).archetype_lookup@[entity.id as int].archetype as int,
                    old(self).archetype_lookup@[entity.id as int].position as int,
                ),
            ),
    {
        let id: usize = entity.id as usize;
        let archetype: usize = self.archetype_lookup[id].archetype;
        let position: usize = self.archetype_lookup[id].position;
        proof {
            assert(homed(self.entities@, self.archetype_lookup@, self.archetypes@, id as int));
        }
        let moved = self.archetypes[archetype].remove_entity(position);
        if let Some(moved) = moved {
            proof {
                let last = old(self).archetypes@[archetype as int]@.entities.len() - 1;
                assert(member_ok(
                    old(self).entities@,
                    old(self).archetype_lookup@,
                    old(self).archetypes@,
                    archetype as int,
                    last,
                ));
            }
            self.archetype_lookup[moved.id as usize].position = position;
        }
        proof {
            lemma_detach(
                self.entities@,
                old(self).archetype_lookup@,
                self.archetype_lookup@,
                old(self).archetypes@,
                self.archetypes@,
                id as int,
            );
            assert(self.layout_shown().buckets =~= old(self).layout_shown().without(
                (archetype as int, position as int),
            ).buckets);
        }
    }

    /// Puts a live entity that is in no bucket into the bucket named by what
    /// it holds. The bucket is made where it does not exist yet.
    fn attach(&mut self, entity: Entity)
        requires
            alive(old(self).entities@, entity),
            ascending(old(self).entities@[entity.id as int].ids@),
            buckets_ok(
                old(self).entities@,
                old(self).archetype_lookup@,
                old(self).archetypes@,
                entity.id as int,
            ),
        ensures
            buckets_ok(final(self).entities@, final(self).archetype_lookup@, final(self).archetypes@, -1),
            final(self).entities == old(self).entities,
            final(self).entity_lookup == old(self).entity_lookup,
            final(self).components == old(self).components,
            final(self).entity_registry == old(self).entity_registry,
            final(self).component_registry == old(self).component_registry,
            final(self).layout_shown() == old(self).layout_shown().with(
                entity,
                old(self).entities@[entity.id as int].ids@,
            ),
    {
        let id: usize = entity.id as usize;
        let mut bucket: usize = 0;
        let mut found = false;
        while bucket < self.archetypes.len() && !found
            invariant
                *self == *old(self),
                id < self.entities@.len(),
                bucket <= self.archetypes@.len(),
                forall|b: int|
                    0 <= b < bucket ==> (#[trigger] self.archetypes@[b])@.types
                        != self.entities@[id as int].ids@,
                found ==> bucket < self.archetypes@.len()
                    && self.archetypes@[bucket as int]@.types
                    == self.entities@[id as int].ids@,
            decreases self.archetypes@.len() - bucket, if found { 0int } else { 1int },
        {
            if self.archetypes[bucket].is_named(self.entities[id].ids.as_slice()) {
                found = true;
            } else {
                bucket += 1;
            }
        }
        if !found {
            self.archetypes.push(Archetype::new(self.entities[id].ids.as_slice()));
        }
        let position: usize = self.archetypes[bucket].len();
        self.archetypes[bucket].push_entity(entity);
        self.archetype_lookup[id] = Home { archetype: bucket, position };
        proof {
            let before = old(self).layout_shown();
            let name = self.entities@[id as int].ids@;
            if found {
                assert(before.buckets[bucket as int].types == name);
                let named = before.bucket_named(name);
                if named < bucket {
                    assert(old(self).archetypes@[named]@.types != old(
                        self,
                    ).archetypes@[bucket as int]@.types);
                } else if bucket < named {
                    assert(old(self).archetypes@[bucket as int]@.types != old(
                        self,
                    ).archetypes@[named]@.types);
                }
            } else {
                assert forall|b: int| 0 <= b < before.buckets.len() implies (
                #[trigger] before.buckets[b]).types != name by {
                    assert(old(self).archetypes@[b]@.types != name);
                }
                assert(self.archetypes@[bucket as int]@.entities =~= seq![entity]);
            }
            assert(self.layout_shown().buckets =~= before.with(entity, name).buckets);
        }
        proof {
            let entities = self.entities@;
            let homes = self.archetype_lookup@;
            let buckets = self.archetypes@;
            let old_homes = old(self).archetype_lookup@;
            let old_buckets = old(self).archetypes@;
            assert forall|b: int| 0 <= b < old_buckets.len() implies (
            #[trigger] buckets[b])@.types == old_buckets[b]@.types by {}
            assert forall|i: int|
                0 <= i < entities.len() && (#[trigger] entities[i]).live implies homed(
                entities,
                homes,
                buckets,
                i,
            ) by {
                if i != id {
                    assert(homed(entities, old_homes, old_buckets, i));
                }
            }
            assert forall|b: int, p: int|
                0 <= b < buckets.len() && 0 <= p < buckets[b]@.entities.len() implies #[trigger] member_ok(
                entities,
                homes,
                buckets,
                b,
                p,
            ) by {
                if b != bucket || p != position {
                    assert(member_ok(entities, old_homes, old_buckets, b, p));
                }
            }
            assert forall|b: int| 0 <= b < buckets.len() implies ascending(
                (#[trigger] buckets[b])@.types,
            ) by {
                if b < old_buckets.len() {
                    assert(ascending(old_buckets[b]@.types));
                }
            }
            assert forall|b: int, c: int| 0 <= b < c < buckets.len() implies (
            #[trigger] buckets[b])@.types != (#[trigger] buckets[c])@.types by {
                if c < old_buckets.len() {
                    assert(old_buckets[b]@.types != old_buckets[c]@.types);
                }
            }
        }
    }

    /// Gives the entity a component of the given type.
    ///
    /// The value goes to the end of the column of its type, which is made on
    /// the type's first use, and the entity moves from the bucket of what it
    /// held to the bucket of what it holds now. The call is refused, and
    /// changes nothing, where the entity is not live, where it holds a
    /// component of that type already, and where the type is new and no id is
    /// left for it.
    pub fn add_component(&mut self, entity: &Entity, key: TypeKey, component: C) -> (added: Result<
        (),
        EcsError,
    >)
        requires
            old(self).wf(),
        ensures
            final(self).wf(),
            final(self)@ == old(self)@.add(*entity, key, component),
            match added {
                Ok(()) => {
                    &&& old(self)@.can_add(*entity, key)
                    &&& final(self).layout() == (if old(self)@.component_id(key) is None {
                        old(self).layout().registered()
                    } else {
                        old(self).layout()
                    }).added(
                        *entity,
                        old(self).home_of(*entity).unwrap(),
                        final(self)@.component_id(key).unwrap(),
                        component,
                    )
                },
                Err(error) => {
                    &&& !old(self)@.can_add(*entity, key)
                    &&& error == if !old(self)@.is_live(*entity) {
                        EcsError::EntityNotFound
                    } else if old(self)@.has(*entity, key) {
                        EcsError::DuplicateComponent
                    } else {
                        EcsError::RegistryExhausted
                    }
                    &&& final(self).layout() == old(self).layout()
                },
            },
    {
        if !self.is_alive(entity) {
            return Err(EcsError::EntityNotFound);
        }
        let id: usize = entity.id as usize;
        proof {
            assert(record_ok(self.entities@, self.entity_lookup@, id as int));
            self.lemma_view_inv();
        }
        if let Some(component_id) = self.component_registry.find(key) {
            if self.slot_index(id, component_id).is_some() {
                return Err(EcsError::DuplicateComponent);
            }
        }
        proof {
            lemma_register_keeps_ids(old(self)@, key, key);
        }
        let component_id = match self.component_id(key) {
            Ok(component_id) => component_id,
            Err(error) => {
                return Err(error);
            },
        };
        let ghost registered = *self;
        proof {
            assert(alive(self.entities@, *entity));
            assert(homed(self.entities@, self.archetype_lookup@, self.archetypes@, id as int));
            assert(self.home_of(*entity) == old(self).home_of(*entity));
            assert(self.slots_of(*entity) == old(self).slots_of(*entity));
            assert(record_ok(self.entities@, self.entity_lookup@, id as int));
            let ids = self.entities@[id as int].ids@;
            if ids.contains(component_id) {
                assert(self.slots_of(*entity).dom().contains(component_id));
                assert(old(self).entities@[id as int].ids@.contains(component_id));
                if old(self)@.component_id(key) is None {
                    let j = old(self).entities@[id as int].ids@.index_of(component_id);
                    assert(old(self).entities@[id as int].ids@[j] == component_id);
                    assert(component_id == old(self).components@.len());
                }
            }
            if old(self)@.component_id(key) is None {
                assert(self@.types.len() == old(self)@.types.len() + 1);
            }
        }
        self.detach(*entity);
        let ghost detached = *self;
        let slot: usize = self.components[component_id as usize].push(component);
        self.entity_lookup[component_id as usize].push(*entity);
        let mut k: usize = 0;
        while k < self.entities[id].ids.len() && self.entities[id].ids[k] < component_id
            invariant
                id < self.entities@.len(),
                k <= self.entities@[id as int].ids@.len(),
                forall|j: int| 0 <= j < k ==> self.entities@[id as int].ids@[j] < component_id,
            decreases self.entities@[id as int].ids@.len() - k,
        {
            k += 1;
        }
        proof {
            assert(record_ok(self.entities@, registered.entity_lookup@, id as int));
            let ids = self.entities@[id as int].ids@;
            assert(!ids.contains(component_id));
            assert forall|j: int| k <= j < ids.len() implies ids[j] > component_id by {
                assert(ids.contains(ids[j]));
                assert(ids[k as int] <= ids[j]);
            }
        }
        self.entities[id].ids.insert(k, component_id);
        self.entities[id].slots.insert(k, slot);
        proof {
            lemma_store(
                self.entity_registry.free(),
                self.archetype_lookup@,
                self.archetypes@,
                registered.entities@,
                registered.entity_lookup@,
                registered.components@,
                self.entities@,
                self.entity_lookup@,
                self.components@,
                id as int,
                component_id,
                k as int,
                slot,
                component,
            );
        }
        let ghost stored = *self;
        self.attach(*entity);
        proof {
            let start = registered.layout_shown();
            let home = registered.home_of(*entity).unwrap();
            let name = registered.entities@[id as int].ids@;
            lemma_inserted(name, component_id, k as int);
            assert(start.buckets[home.0].types == name);
            let grown = Layout {
                columns: start.columns.update(
                    component_id as int,
                    start.columns[component_id as int].push(component),
                ),
                owners: start.owners.update(
                    component_id as int,
                    start.owners[component_id as int].push(*entity),
                ),
                ..start
            };
            assert(stored.layout_shown().columns =~= grown.columns);
            assert(stored.layout_shown().owners =~= grown.owners);
            assert(stored.layout_shown() =~= grown.without(home));
            assert(self.layout() == start.added(*entity, home, component_id, component));
        }
        Ok(())
    }

    /// Takes from a live entity that is in no bucket the component that its
    /// record lists last.
    ///
    /// The slot is emptied and refilled from the end of the column. Where a
    /// value of another entity moved, the reverse index moves with it and names
    /// its owner, whose record is then pointed at the slot it moved to.
    fn release_last(&mut self, entity: Entity)
        requires
            old(self).wf_tables(),
            slots_ok(old(self).entities@, old(self).entity_lookup@),
            buckets_ok(
                old(self).entities@,
                old(self).archetype_lookup@,
                old(self).archetypes@,
                entity.id as int,
            ),
            alive(old(self).entities@, entity),
            old(self).entities@[entity.id as int].ids@.len() > 0,
        ensures
            final(self).wf_tables(),
            slots_ok(final(self).entities@, final(self).entity_lookup@),
            buckets_ok(
                final(self).entities@,
                final(self).archetype_lookup@,
                final(self).archetypes@,
                entity.id as int,
            ),
            alive(final(self).entities@, entity),
            final(self).entities@.len() == old(self).entities@.len(),
            final(self).entities@[entity.id as int].ids@
                == old(self).entities@[entity.id as int].ids@.drop_last(),
            final(self).entities@[entity.id as int].slots@
                == old(self).entities@[entity.id as int].slots@.drop_last(),
            final(self).entity_registry == old(self).entity_registry,
            final(self).component_registry == old(self).component_registry,
            final(self).archetypes == old(self).archetypes,
            final(self).archetype_lookup == old(self).archetype_lookup,
            column_views(final(self).components@) == column_views(old(self).components@).update(
                old(self).entities@[entity.id as int].ids@.last() as int,
                swap_removed(
                    old(self).components@[old(self).entities@[entity.id as int].ids@.last() as int]@,
                    old(self).entities@[entity.id as int].slots@.last() as int,
                ),
            ),
            owner_views(final(self).entity_lookup@) == owner_views(old(self).entity_lookup@).update(
                old(self).entities@[entity.id as int].ids@.last() as int,
                swap_removed(
                    old(self).entity_lookup@[old(self).entities@[entity.id as int].ids@.last() as int]@,
                    old(self).entities@[entity.id as int].slots@.last() as int,
                ),
            ),
            forall|i: int|
                0 <= i < old(self).entities@.len() ==> (#[trigger] final(self).entities@[i]).live
                    == old(self).entities@[i].live && final(self).entities@[i].generation
                    == old(self).entities@[i].generation,
            forall|i: int|
                0 <= i < old(self).entities@.len() && i != entity.id && old(self).entities@[i].live
                    ==> #[trigger] held(final(self).entities@, final(self).components@, i) == held(
                    old(self).entities@,
                    old(self).components@,
                    i,
                ),
    {
        let id: usize = entity.id as usize;
        proof {
            assert(record_ok(self.entities@, self.entity_lookup@, id as int));
        }
        let top: usize = self.entities[id].ids.len() - 1;
        let component_id: ComponentId = self.entities[id].ids[top];
        let slot: usize = self.entities[id].slots[top];
        let column: usize = component_id as usize;
        proof {
            assert(self.entities@[id as int].ids@[top as int] == component_id);
            let last = self.entity_lookup@[column as int]@.len() - 1;
            assert(owner_ok(self.entities@, self.entity_lookup@, column as int, last));
        }
        let _ = self.entities[id].ids.pop();
        let _ = self.entities[id].slots.pop();
        let moved = self.components[column].swap_remove(slot);
        let _ = self.entity_lookup[column].swap_remove(slot);
        let mut moved_k: usize = 0;
        if moved.is_some() {
            let owner: usize = self.entity_lookup[column][slot].id as usize;
            proof {
                let before = old(self).entities@;
                let lookup = old(self).entity_lookup@;
                let last = lookup[column as int]@.len() - 1;
                assert(lookup[column as int]@.last() == lookup[column as int]@[last]);
                assert(self.entity_lookup@[column as int]@[slot as int] == lookup[column as int]@[last]);
                assert(owner_ok(before, lookup, column as int, last));
                if owner == id {
                    let m = choose|m: int|
                        0 <= m < before[id as int].ids@.len() && #[trigger] before[id as int].ids@[m]
                            == column && before[id as int].slots@[m] == last;
                    if m < top {
                        assert(before[id as int].ids@[m] < before[id as int].ids@[top as int]);
                    }
                }
                assert(self.entities@[owner as int] == before[owner as int]);
                assert(record_ok(before, lookup, owner as int));
                let m = choose|m: int|
                    0 <= m < before[owner as int].ids@.len() && #[trigger] before[owner as int].ids@[m]
                        == column && before[owner as int].slots@[m] == last;
                assert(before[owner as int].ids@.contains(component_id));
            }
            match self.slot_index(owner, component_id) {
                Some(k) => {
                    self.entities[owner].slots[k] = slot;
                    moved_k = k;
                },
                None => {},
            }
        }
        proof {
            lemma_release(
                self.entity_registry.free(),
                self.archetype_lookup@,
                self.archetypes@,
                old(self).entities@,
                old(self).entity_lookup@,
                old(self).components@,
                self.entities@,
                self.entity_lookup@,
                self.components@,
                id as int,
                moved_k as int,
            );
            assert(self.entities@[id as int].ids@ =~= old(self).entities@[id as int].ids@.drop_last());
            assert(self.entities@[id as int].slots@ =~= old(self).entities@[id as int].slots@.drop_last());
            assert(column_views(self.components@) =~= column_views(old(self).components@).update(
                column as int,
                swap_removed(old(self).components@[column as int]@, slot as int),
            ));
            assert(owner_views(self.entity_lookup@) =~= owner_views(old(self).entity_lookup@).update(
                column as int,
                swap_removed(old(self).entity_lookup@[column as int]@, slot as int),
            ));
        }
    }

    /// Removes a live entity with all that it holds, and frees its handle for
    /// reuse. The call is refused, and changes nothing, where the entity is not
    /// live.
    ///
    /// The entity leaves its bucket, each of its values leaves its column, and
    /// wherever a value of another entity closes a gap, both indexes are told.
    pub fn despawn_entity(&mut self, entity: Entity) -> (despawned: Result<(), EcsError>)
        requires
            old(self).wf(),
        ensures
            final(self).wf(),
            final(self)@ == old(self)@.despawn(entity),
            match despawned {
                Ok(()) => {
                    &&& old(self)@.is_live(entity)
                    &&& final(self).layout() == old(self).layout().despawned(
                        old(self).home_of(entity).unwrap(),
                        old(self).slots_of(entity),
                    )
                },
                Err(error) => {
                    &&& !old(self)@.is_live(entity)
                    &&& error == EcsError::EntityNotFound
                    &&& *final(self) == *old(self)
                },
            },
    {
        if !self.is_alive(&entity) {
            return Err(EcsError::EntityNotFound);
        }
        let id: usize = entity.id as usize;
        self.detach(entity);
        let ghost detached = *self;
        let ghost ids = self.entities@[id as int].ids@;
        let ghost slots = self.entities@[id as int].slots@;
        proof {
            assert(record_ok(self.entities@, self.entity_lookup@, id as int));
            self.component_registry.lemma_ids_are_unique();
            assert(ids.take(ids.len() as int) =~= ids);
            assert(slots.take(ids.len() as int) =~= slots);
        }
        while self.entities[id].ids.len() > 0
            invariant
                id == entity.id,
                self.archetypes == detached.archetypes,
                self.archetype_lookup == detached.archetype_lookup,
                ids.len() == slots.len(),
                ascending(ids),
                self.components@.len() == detached.components@.len(),
                self.components@.len() <= ComponentId::MAX,
                self.entity_lookup@.len() == detached.components@.len(),
                detached.entity_lookup@.len() == detached.components@.len(),
                forall|m: int| 0 <= m < ids.len() ==> (#[trigger] ids[m]) < detached.components@.len(),
                self.entities@[id as int].ids@ == ids.take(self.entities@[id as int].ids@.len() as int),
                self.entities@[id as int].slots@ == slots.take(
                    self.entities@[id as int].ids@.len() as int,
                ),
                self.entities@[id as int].ids@.len() <= ids.len(),
                forall|c: int|
                    0 <= c < detached.components@.len() ==> #[trigger] column_views(
                        self.components@,
                    )[c] == (if ids.contains(c as ComponentId) && ids.index_of(c as ComponentId)
                        >= self.entities@[id as int].ids@.len() {
                        swap_removed(
                            detached.components@[c]@,
                            slots[ids.index_of(c as ComponentId)] as int,
                        )
                    } else {
                        detached.components@[c]@
                    }),
                forall|c: int|
                    0 <= c < detached.components@.len() ==> #[trigger] owner_views(
                        self.entity_lookup@,
                    )[c] == (if ids.contains(c as ComponentId) && ids.index_of(c as ComponentId)
                        >= self.entities@[id as int].ids@.len() {
                        swap_removed(
                            detached.entity_lookup@[c]@,
                            slots[ids.index_of(c as ComponentId)] as int,
                        )
                    } else {
                        detached.entity_lookup@[c]@
                    }),
                self.wf_tables(),
                slots_ok(self.entities@, self.entity_lookup@),
                buckets_ok(self.entities@, self.archetype_lookup@, self.archetypes@, id as int),
                alive(self.entities@, entity),
                self.entities@.len() == old(self).entities@.len(),
                self.entity_registry == old(self).entity_registry,
                self.component_registry == old(self).component_registry,
                forall|i: int|
                    0 <= i < old(self).entities@.len() ==> (#[trigger] self.entities@[i]).live
                        == old(self).entities@[i].live && self.entities@[i].generation
                        == old(self).entities@[i].generation,
                forall|i: int|
                    0 <= i < old(self).entities@.len() && i != id && old(self).entities@[i].live
                        ==> #[trigger] held(self.entities@, self.components@, i) == held(
                        old(self).entities@,
                        old(self).components@,
                        i,
                    ),
            decreases self.entities@[id as int].ids@.len(),
        {
            let ghost before = *self;
            let ghost n = self.entities@[id as int].ids@.len() as int;
            self.release_last(entity);
            proof {
                let c_last = ids[n - 1];
                assert(before.entities@[id as int].ids@.last() == c_last);
                assert(before.entities@[id as int].slots@.last() == slots[n - 1]);
                lemma_index_of_ascending(ids, n - 1);
                assert(ids.take(n).drop_last() =~= ids.take(n - 1));
                assert(slots.take(n).drop_last() =~= slots.take(n - 1));
                assert forall|c: int| 0 <= c < detached.components@.len() implies #[trigger] column_views(
                    self.components@,
                )[c] == (if ids.contains(c as ComponentId) && ids.index_of(c as ComponentId) >= n
                    - 1 {
                    swap_removed(
                        detached.components@[c]@,
                        slots[ids.index_of(c as ComponentId)] as int,
                    )
                } else {
                    detached.components@[c]@
                }) by {
                    assert(column_views(before.components@)[c] == before.components@[c]@);
                    if c != c_last && ids.contains(c as ComponentId) {
                        let m = ids.index_of(c as ComponentId);
                        assert(ids[m] == c);
                    }
                }
                assert forall|c: int| 0 <= c < detached.components@.len() implies #[trigger] owner_views(
                    self.entity_lookup@,
                )[c] == (if ids.contains(c as ComponentId) && ids.index_of(c as ComponentId) >= n
                    - 1 {
                    swap_removed(
                        detached.entity_lookup@[c]@,
                        slots[ids.index_of(c as ComponentId)] as int,
                    )
                } else {
                    detached.entity_lookup@[c]@
                }) by {
                    assert(owner_views(before.entity_lookup@)[c] == before.entity_lookup@[c]@);
                    if c != c_last && ids.contains(c as ComponentId) {
                        let m = ids.index_of(c as ComponentId);
                        assert(ids[m] == c);
                    }
                }
            }
        }
        let ghost emptied = *self;
        self.entities[id].live = false;
        self.entity_registry.remove_entity(entity);
        proof {
            lemma_retire(
                emptied.entity_registry.free(),
                self.archetype_lookup@,
                self.archetypes@,
                self.entity_lookup@,
                self.components@,
                emptied.entities@,
                self.entities@,
                id as int,
            );
            assert(generations(emptied.entities@) =~= generations(old(self).entities@));
            assert forall|other: Entity| alive(emptied.entities@, other) && other != entity implies held(
                emptied.entities@,
                emptied.components@,
                other.id as int,
            ) == held(old(self).entities@, old(self).components@, other.id as int) by {
                assert(emptied.entities@[other.id as int].live);
            }
            assert(population(emptied.entities@, emptied.components@).remove(entity) =~= population(
                old(self).entities@,
                old(self).components@,
            ).remove(entity));
            assert(self@ =~= old(self)@.despawn(entity));
            let home = old(self).home_of(entity).unwrap();
            let held = old(self).slots_of(entity);
            let target = old(self).layout().despawned(home, held);
            assert(self.layout().buckets == detached.layout_shown().buckets);
            assert forall|c: int| 0 <= c < target.columns.len() implies self.layout().columns[c]
                == target.columns[c] by {
                assert(self.layout().columns[c] == column_views(emptied.components@)[c]);
                if ids.contains(c as ComponentId) {
                    let m = ids.index_of(c as ComponentId);
                    assert(ids[m] == c);
                }
            }
            assert forall|c: int| 0 <= c < target.owners.len() implies self.layout().owners[c]
                == target.owners[c] by {
                assert(self.layout().owners[c] == owner_views(emptied.entity_lookup@)[c]);
                if ids.contains(c as ComponentId) {
                    let m = ids.index_of(c as ComponentId);
                    assert(ids[m] == c);
                }
            }
            assert(self.layout() =~~= target);
        }
        Ok(())
    }

    /// The component of the given type that the entity holds, for reading and
    /// writing, or nothing where the entity is not live or holds none.
    ///
    /// The type is only looked up: one that was never used gets no id here.
    pub fn get_component_mut(&mut self, entity: &Entity, key: TypeKey) -> (found: Option<&mut C>)
        requires
            old(self).wf(),
        ensures
            final(self).wf(),
            match found {
                Some(value) => {
                    &&& old(self)@.get(*entity, key) == Some(*value)
                    &&& final(self)@ == old(self)@.write(*entity, key, *final(value))
                    &&& old(self)@.component_id(key) matches Some(id) && old(self).slot_of(*entity, id)
                        matches Some(slot) && final(self).layout() == old(self).layout().written(
                        id,
                        slot,
                        *final(value),
                    )
                },
                None => old(self)@.get(*entity, key) is None && *final(self) == *old(self),
            },
    {
        if !self.is_alive(entity) {
            return None;
        }
        let id: usize = entity.id as usize;
        let component_id = match self.component_registry.find(key) {
            Some(component_id) => component_id,
            None => {
                return None;
            },
        };
        proof {
            assert(record_ok(self.entities@, self.entity_lookup@, id as int));
        }
        let k = match self.slot_index(id, component_id) {
            Some(k) => k,
            None => {
                return None;
            },
        };
        let slot: usize = self.entities[id].slots[k];
        proof {
            let entities = self.entities@;
            let lookup = self.entity_lookup@;
            let columns = self.components@;
            assert(entities[id as int].ids@[k as int] == component_id);
            assert(handle(entities, id as int) == *entity);
            assert forall|after: Seq<ComponentList<C>>|
                one_value_changed(columns, after, component_id as int, slot as int) implies #[trigger] columns_ok(
                lookup,
                after,
            ) by {
                lemma_write(entities, lookup, columns, after, id as int, k as int);
            }
            assert forall|after: Seq<ComponentList<C>>|
                one_value_changed(
                    columns,
                    after,
                    component_id as int,
                    slot as int,
                ) implies #[trigger] population(entities, after) == population(
                entities,
                columns,
            ).insert(
                *entity,
                held(entities, columns, id as int).insert(
                    component_id,
                    after[component_id as int]@[slot as int],
                ),
            ) by {
                lemma_write(entities, lookup, columns, after, id as int, k as int);
            }
            assert forall|after: Seq<ComponentList<C>>|
                one_value_changed(
                    columns,
                    after,
                    component_id as int,
                    slot as int,
                ) implies #[trigger] column_views(after) == column_views(columns).update(
                component_id as int,
                columns[component_id as int]@.update(
                    slot as int,
                    after[component_id as int]@[slot as int],
                ),
            ) by {
                lemma_write(entities, lookup, columns, after, id as int, k as int);
            }
            assert(self.slot_of(*entity, component_id) == Some(slot));
        }
        self.components[component_id as usize].get_mut(slot)
    }

    /// Makes a new entity and gives it the components of a list, one after the
    /// other, as `spawn_entity` and `add_component` do.
    ///
    /// The call stops at the first component that is refused and reports why;
    /// the entity then stays, with the components that came before.
    pub fn spawn_with(&mut self, components: Vec<(TypeKey, C)>) -> (spawned: Result<
        Entity,
        EcsError,
    >)
        requires
            old(self).wf(),
        ensures
            final(self).wf(),
            match spawned {
                Ok(entity) => {
                    &&& !old(self)@.exhausted()
                    &&& entity == old(self)@.next_entity()
                    &&& final(self)@ == old(self)@.spawn().add_all(entity, components@)
                    &&& final(self).layout() == old(self).layout().spawned(entity).added_all(
                        old(self)@.spawn(),
                        entity,
                        components@,
                    )
                    &&& forall|k: int|
                        0 <= k < components@.len() ==> (#[trigger] old(self)@.spawn().add_all(
                            entity,
                            components@.take(k),
                        )).can_add(entity, components@[k].0)
                },
                Err(error) => if old(self)@.exhausted() {
                    &&& error == EcsError::RegistryExhausted
                    &&& final(self)@ == old(self)@.spawn()
                    &&& final(self).layout() == old(self).layout()
                } else {
                    exists|k: int|
                        {
                            &&& 0 <= k < components@.len()
                            &&& final(self)@ == #[trigger] old(self)@.spawn().add_all(
                                old(self)@.next_entity(),
                                components@.take(k),
                            )
                            &&& final(self).layout() == old(self).layout().spawned(
                                old(self)@.next_entity(),
                            ).added_all(
                                old(self)@.spawn(),
                                old(self)@.next_entity(),
                                components@.take(k),
                            )
                            &&& !final(self)@.can_add(old(self)@.next_entity(), components@[k].0)
                            &&& error == if final(self)@.has(
                                old(self)@.next_entity(),
                                components@[k].0,
                            ) {
                                EcsError::DuplicateComponent
                            } else {
                                EcsError::RegistryExhausted
                            }
                        }
                },
            },
    {
        let entity = match self.spawn_entity() {
            Ok(entity) => entity,
            Err(error) => {
                return Err(error);
            },
        };
        let ghost spawned = self@;
        let ghost placed = self.layout();
        let ghost items = components@;
        let mut rest = components;
        let mut reversed: Vec<(TypeKey, C)> = Vec::new();
        while rest.len() > 0
            invariant
                rest@.len() + reversed@.len() == items.len(),
                forall|j: int| 0 <= j < rest@.len() ==> rest@[j] == items[j],
                forall|j: int|
                    0 <= j < reversed@.len() ==> reversed@[j] == items[items.len() - 1 - j],
            decreases rest@.len(),
        {
            match rest.pop() {
                Some(item) => {
                    reversed.push(item);
                },
                None => {},
            }
        }
        let ghost mut done: int = 0;
        proof {
            assert(items.take(0) =~= Seq::empty());
            old(self).lemma_view_inv();
            lemma_spawn_is_fresh(old(self)@);
        }
        while reversed.len() > 0
            invariant
                self.wf(),
                spawned == old(self)@.spawn(),
                entity == old(self)@.next_entity(),
                !old(self)@.exhausted(),
                done + reversed@.len() == items.len(),
                forall|j: int|
                    0 <= j < reversed@.len() ==> reversed@[j] == items[items.len() - 1 - j],
                0 <= done,
                items == components@,
                self@ == spawned.add_all(entity, items.take(done)),
                placed == old(self).layout().spawned(entity),
                self.layout() == placed.added_all(spawned, entity, items.take(done)),
                forall|k: int|
                    0 <= k < done ==> (#[trigger] spawned.add_all(entity, items.take(k))).can_add(
                        entity,
                        items[k].0,
                    ),
            decreases reversed@.len(),
        {
            match reversed.pop() {
                Some((key, component)) => {
                    let ghost before = self@;
                    proof {
                        assert(items.take(done + 1).drop_last() =~= items.take(done));
                        assert(items.take(done + 1).last() == items[done]);
                        assert(items[done] == (key, component));
                        lemma_added_entity_is_live(spawned, entity, items.take(done));
                        self.lemma_place_of(entity);
                    }
                    match self.add_component(&entity, key, component) {
                        Ok(()) => {},
                        Err(error) => {
                            proof {
                                lemma_added_entity_is_live(spawned, entity, items.take(done));
                                assert(self@ == before);
                                assert(self@ == old(self)@.spawn().add_all(
                                    old(self)@.next_entity(),
                                    components@.take(done),
                                ));
                                assert(!self@.can_add(entity, components@[done].0));
                            }
                            return Err(error);
                        },
                    }
                    proof {
                        done = done + 1;
                    }
                },
                None => {},
            }
        }
        proof {
            assert(items.take(done) =~= items);
        }
        Ok(entity)
    }

    /// Makes a new entity and gives it the components of a group, as
    /// `spawn_with` does with the list that the group is taken apart into.
    /// What that list is, is the group's affair.
    pub fn spawn_bundle<B: Bundle<C>>(&mut self, bundle: B) -> (spawned: Result<Entity, EcsError>)
        requires
            old(self).wf(),
        ensures
            final(self).wf(),
            old(self)@.exhausted() ==> spawned == Err::<Entity, EcsError>(
                EcsError::RegistryExhausted,
            ) && final(self)@ == old(self)@.spawn() && final(self).layout() == old(self).layout(),
            spawned is Ok ==> !old(self)@.exhausted() && spawned == Ok::<Entity, EcsError>(
                old(self)@.next_entity(),
            ),
            !old(self)@.exhausted() ==> exists|parts: Seq<(TypeKey, C)>|
                {
                    &&& final(self)@ == #[trigger] old(self)@.spawn().add_all(
                        old(self)@.next_entity(),
                        parts,
                    )
                    &&& final(self).layout() == old(self).layout().spawned(
                        old(self)@.next_entity(),
                    ).added_all(old(self)@.spawn(), old(self)@.next_entity(), parts)
                },
    {
        let components = bundle.components();
        self.spawn_with(components)
    }

    /// The forward index of one entity: for each component type that it
    /// holds, by id, the slot in which it keeps its value. Empty for an entity
    /// that is not live.
    pub closed spec fn slots_of(&self, entity: Entity) -> Map<ComponentId, usize> {
        let record = self.entities@[entity.id as int];
        if alive(self.entities@, entity) {
            Map::new(
                |id: ComponentId| record.ids@.contains(id),
                |id: ComponentId| record.slots@[record.ids@.index_of(id)],
            )
        } else {
            Map::empty()
        }
    }

    /// The forward index: the slot in which the entity keeps its value of the
    /// component type with the given id, if it is live and holds one.
    pub open spec fn slot_of(&self, entity: Entity, id: ComponentId) -> Option<usize> {
        if self.slots_of(entity).dom().contains(id) {
            Some(self.slots_of(entity)[id])
        } else {
            None
        }
    }

    /// The reverse index: the entity whose value is in the given slot of the
    /// column of the component type with the given id, if the slot is occupied.
    pub open spec fn owner_of(&self, id: ComponentId, slot: usize) -> Option<Entity> {
        if id < self.layout().owners.len() && slot < self.layout().owners[id as int].len() {
            Some(self.layout().owners[id as int][slot as int])
        } else {
            None
        }
    }

    /// The column of the component type with the given id: its values by slot.
    pub open spec fn column(&self, id: ComponentId) -> Seq<C> {
        if id < self.layout().columns.len() {
            self.layout().columns[id as int]
        } else {
            Seq::empty()
        }
    }

    /// Forward and reverse index are each other's inverse: a slot names an
    /// entity as its owner exactly where that entity names the slot as its
    /// own. The slots that have an owner are the occupied ones, the entities
    /// that have a slot are those that hold the component, and the value in
    /// the slot is the component that the entity holds.
    pub proof fn lemma_indexes_are_inverse(&self, entity: Entity, id: ComponentId, slot: usize)
        requires
            self.wf(),
        ensures
            self.owner_of(id, slot) == Some(entity) <==> self.slot_of(entity, id) == Some(slot),
            self.owner_of(id, slot) is Some <==> slot < self.column(id).len(),
            self.slot_of(entity, id) is Some <==> self@.is_live(entity)
                && self@.entities[entity].dom().contains(id),
            self.slot_of(entity, id) == Some(slot) ==> self@.entities[entity][id] == self.column(
                id,
            )[slot as int],
    {
                let entities = self.entities@;
        let lookup = self.entity_lookup@;
        if self.owner_of(id, slot) == Some(entity) {
            assert(owner_ok(entities, lookup, id as int, slot as int));
            let record = entities[entity.id as int];
            let k = choose|k: int|
                0 <= k < record.ids@.len() && #[trigger] record.ids@[k] == id && record.slots@[k]
                    == slot;
            assert(record_ok(entities, lookup, entity.id as int));
            lemma_index_of_ascending(record.ids@, k);
        }
        if self.slot_of(entity, id) == Some(slot) {
            let record = entities[entity.id as int];
            assert(record_ok(entities, lookup, entity.id as int));
            let k = record.ids@.index_of(id);
            assert(record.ids@[k] == id);
            assert(handle(entities, entity.id as int) == entity);
        }
    }

    /// The slot in which the entity keeps its value of the component type with
    /// the given id, if it is live and holds one.
    pub fn slot(&self, entity: &Entity, id: ComponentId) -> (slot: Option<usize>)
        requires
            self.wf(),
        ensures
            slot == self.slot_of(*entity, id),
    {
        if !self.is_alive(entity) {
            return None;
        }
        let index: usize = entity.id as usize;
        proof {
            assert(record_ok(self.entities@, self.entity_lookup@, index as int));
        }
        match self.slot_index(index, id) {
            Some(k) => Some(self.entities[index].slots[k]),
            None => None,
        }
    }

    /// The entity whose value is in the given slot of the column of the
    /// component type with the given id, if the slot is occupied.
    pub fn owner(&self, id: ComponentId, slot: usize) -> (owner: Option<Entity>)
        ensures
            owner == self.owner_of(id, slot),
    {
        let column: usize = id as usize;
        if column < self.entity_lookup.len() && slot < self.entity_lookup[column].len() {
            Some(self.entity_lookup[column][slot])
        } else {
            None
        }
    }

    /// The number of values in the column of the component type with the
    /// given id.
    pub fn column_len(&self, id: ComponentId) -> (len: usize)
        ensures
            len == self.column(id).len(),
    {
        let column: usize = id as usize;
        if column < self.components.len() {
            self.components[column].len()
        } else {
            0
        }
    }

    /// The buckets, in the order in which they were made.
    pub open spec fn buckets(&self) -> Seq<Bucket> {
        self.layout().buckets
    }

    /// Where the entity stands, if it is live: the index of its bucket and
    /// its position there.
    pub closed spec fn home_of(&self, entity: Entity) -> Option<(int, int)> {
        if alive(self.entities@, entity) {
            let home = self.archetype_lookup@[entity.id as int];
            Some((home.archetype as int, home.position as int))
        } else {
            None
        }
    }

    /// The buckets part the live entities: a live entity stands at one place
    /// in one bucket and nowhere else, no other entity stands anywhere, and the
    /// bucket of an entity is the one named by exactly the component types that
    /// the entity holds.
    pub proof fn lemma_buckets_partition(&self, entity: Entity, bucket: int, position: int)
        requires
            self.wf(),
        ensures
            self.home_of(entity) is Some <==> self@.is_live(entity),
            self.home_of(entity) == Some((bucket, position)) <==> 0 <= bucket < self.buckets().len()
                && 0 <= position < self.buckets()[bucket].entities.len()
                && self.buckets()[bucket].entities[position] == entity,
            self.home_of(entity) == Some((bucket, position)) ==> self.buckets()[bucket].types.to_set()
                == self@.entities[entity].dom(),
    {
                let entities = self.entities@;
        let homes = self.archetype_lookup@;
        let buckets = self.archetypes@;
        if alive(entities, entity) {
            assert(entities[entity.id as int].live);
            assert(homed(entities, homes, buckets, entity.id as int));
            assert(handle(entities, entity.id as int) == entity);
            if self.home_of(entity) == Some((bucket, position)) {
                assert(buckets[bucket]@.types.to_set() =~= self@.entities[entity].dom());
            }
        }
        if 0 <= bucket < buckets.len() && 0 <= position < buckets[bucket]@.entities.len()
            && buckets[bucket]@.entities[position] == entity {
            assert(member_ok(entities, homes, buckets, bucket, position));
        }
    }

    /// A live entity is found in the buckets where the forward index says it
    /// stands.
    pub proof fn lemma_place_of(&self, entity: Entity)
        requires
            self.wf(),
            self@.is_live(entity),
        ensures
            self.home_of(entity) == Some(self.layout().place_of(entity)),
    {
        let entities = self.entities@;
        let homes = self.archetype_lookup@;
        let buckets = self.archetypes@;
        assert(entities[entity.id as int].live);
        assert(homed(entities, homes, buckets, entity.id as int));
        assert(handle(entities, entity.id as int) == entity);
        let home = self.home_of(entity).unwrap();
        assert(self.layout().buckets[home.0].entities[home.1] == entity);
        let place = self.layout().place_of(entity);
        assert(member_ok(entities, homes, buckets, place.0, place.1));
    }

    /// The name of a bucket lists each id once, in ascending order, and no two
    /// buckets have the same name. The first bucket is that of the entities
    /// that hold nothing.
    pub proof fn lemma_bucket_names(&self, a: int, b: int)
        requires
            self.wf(),
            0 <= a < self.buckets().len(),
            0 <= b < self.buckets().len(),
        ensures
            ascending(self.buckets()[a].types),
            a != b ==> self.buckets()[a].types != self.buckets()[b].types,
            self.buckets()[0].types.len() == 0,
    {
                let buckets = self.archetypes@;
        if a < b {
            assert(buckets[a]@.types != buckets[b]@.types);
        } else if b < a {
            assert(buckets[b]@.types != buckets[a]@.types);
        }
    }

    /// The buckets hold each live entity once and nothing else, so their sizes
    /// add up to the number of live entities.
    pub proof fn lemma_bucket_sizes(&self)
        requires
            self.wf(),
        ensures
            members(self.buckets()).no_duplicates(),
            members(self.buckets()).to_set() == self@.entities.dom(),
            total_size(self.buckets()) == self@.entities.dom().len(),
    {
                let entities = self.entities@;
        let homes = self.archetype_lookup@;
        let buckets = self.archetypes@;
        lemma_members_prefix(entities, homes, buckets, buckets.len() as int);
        assert(views(buckets).take(buckets.len() as int) =~= views(buckets));
        let all = members(views(buckets));
        assert forall|x: Entity| all.to_set().contains(x) <==> self@.entities.dom().contains(x) by {
            assert(all.to_set().contains(x) <==> all.contains(x));
            if alive(entities, x) {
                assert(entities[x.id as int].live);
                assert(homed(entities, homes, buckets, x.id as int));
            }
        }
        assert(all.to_set() =~= self@.entities.dom());
        all.unique_seq_to_set();
        lemma_members_len(views(buckets));
    }

    /// Where the entity stands, if it is live: the index of its bucket and
    /// its position there.
    pub fn home(&self, entity: &Entity) -> (home: Option<(usize, usize)>)
        requires
            self.wf(),
        ensures
            match home {
                Some((bucket, position)) => self.home_of(*entity) == Some(
                    (bucket as int, position as int),
                ),
                None => self.home_of(*entity) is None,
            },
    {
        let id: usize = entity.id as usize;
        if id < self.entities.len() && self.entities[id].live && self.entities[id].generation
            == entity.generation {
            Some((self.archetype_lookup[id].archetype, self.archetype_lookup[id].position))
        } else {
            None
        }
    }

    /// The buckets, for reading.
    pub fn archetypes(&self) -> (buckets: &Vec<Archetype>)
        ensures
            views(buckets@) == self.buckets(),
    {
        &self.archetypes
    }
}

} // verus!
