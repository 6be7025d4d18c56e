//! Finding the entities that hold given component types, and running a function
//! over them.

use vstd::prelude::*;
use crate::archetype::ascending;
use crate::component::{swap_removed, Component, ComponentId, TypeKey};
use crate::entity::{Entity, EntityId};
use crate::index::{
    alive, column_now, handle, lemma_ids_differ, lemma_index_of_unique,
    lemma_values_changed, record_ok,
};
use crate::laws::{lemma_differs_inv, lemma_differs_trans};
use crate::world::World;

verus! {

impl<C: Component> World<C> {
    /// The ids of the given component types, in their order, or nothing where
    /// one of the types was never used.
    fn resolve(&self, keys: &[TypeKey]) -> (ids: Option<Vec<ComponentId>>)
        requires
            self.wf(),
        ensures
            match ids {
                Some(ids) => {
                    &&& ids@.len() == keys@.len()
                    &&& forall|j: int|
                        0 <= j < keys@.len() ==> self@.component_id(keys@[j]) == Some(
                            #[trigger] ids@[j],
                        )
                },
                None => exists|j: int|
                    0 <= j < keys@.len() && self@.component_id(#[trigger] keys@[j]) is None,
            },
    {
        let mut ids: Vec<ComponentId> = Vec::new();
        let mut j: usize = 0;
        while j < keys.len()
            invariant
                self.wf(),
                j <= keys@.len(),
                ids@.len() == j,
                forall|m: int| 0 <= m < j ==> self@.component_id(keys@[m]) == Some(#[trigger] ids@[m]),
            decreases keys@.len() - j,
        {
            proof {
                self.lemma_open();
            }
            match self.component_registry.find(keys[j]) {
                Some(id) => {
                    ids.push(id);
                },
                None => {
                    assert(self@.component_id(keys@[j as int]) is None);
                    return None;
                },
            }
            j += 1;
        }
        Some(ids)
    }

    /// Whether the entity of record `id` holds a component of each given id.
    fn holds_ids(&self, id: usize, ids: &Vec<ComponentId>) -> (all: bool)
        requires
            id < self.entities@.len(),
            ascending(self.entities@[id as int].ids@),
        ensures
            all == forall|j: int|
                0 <= j < ids@.len() ==> self.entities@[id as int].ids@.contains(#[trigger] ids@[j]),
    {
        let mut j: usize = 0;
        while j < ids.len()
            invariant
                id < self.entities@.len(),
                ascending(self.entities@[id as int].ids@),
                j <= ids@.len(),
                forall|m: int|
                    0 <= m < j ==> self.entities@[id as int].ids@.contains(#[trigger] ids@[m]),
            decreases ids@.len() - j,
        {
            if self.slot_index(id, ids[j]).is_none() {
                return false;
            }
            j += 1;
        }
        true
    }

    /// The live entities that hold a component of each of the given types, in
    /// ascending order of their ids. With no type given, these are all live
    /// entities.
    pub fn query(&self, keys: &[TypeKey]) -> (found: Vec<Entity>)
        requires
            self.wf(),
        ensures
            forall|entity: Entity| found@.contains(entity) <==> self@.holds_all(entity, keys@),
            forall|a: int, b: int| 0 <= a < b < found@.len() ==> found@[a].id < found@[b].id,
    {
        proof {
            self.lemma_open();
        }
        let mut found: Vec<Entity> = Vec::new();
        let ids = match self.resolve(keys) {
            Some(ids) => ids,
            None => {
                proof {
                    let j = choose|j: int|
                        0 <= j < keys@.len() && self@.component_id(#[trigger] keys@[j]) is None;
                    assert forall|entity: Entity| !self@.holds_all(entity, keys@) by {
                        assert(!self@.has(entity, keys@[j]));
                    }
                }
                return found;
            },
        };
        let mut i: usize = 0;
        while i < self.entities.len()
            invariant
                self.wf(),
                i <= self.entities@.len(),
                ids@.len() == keys@.len(),
                forall|j: int|
                    0 <= j < keys@.len() ==> self@.component_id(keys@[j]) == Some(#[trigger] ids@[j]),
                forall|entity: Entity|
                    found@.contains(entity) <==> entity.id < i && self@.holds_all(entity, keys@),
                forall|a: int| 0 <= a < found@.len() ==> (#[trigger] found@[a]).id < i,
                forall|a: int, b: int| 0 <= a < b < found@.len() ==> found@[a].id < found@[b].id,
            decreases self.entities@.len() - i,
        {
            let ghost before = found@;
            let mut taken = false;
            proof {
                self.lemma_open();
            }
            if self.entities[i].live {
                proof {
                    assert(record_ok(self.entities@, self.entity_lookup@, i as int));
                }
                if self.holds_ids(i, &ids) {
                    found.push(Entity { id: i as EntityId, generation: self.entities[i].generation });
                    taken = true;
                }
            }
            proof {
                let here = handle(self.entities@, i as int);
                let record = self.entities@[i as int];
                if record.live {
                    assert(self@.is_live(here));
                    assert forall|j: int| 0 <= j < keys@.len() implies (self@.has(
                        here,
                        #[trigger] keys@[j],
                    ) <==> record.ids@.contains(ids@[j])) by {
                        assert(self@.component_id(keys@[j]) == Some(ids@[j]));
                    }
                    if taken {
                        assert(self@.holds_all(here, keys@));
                    } else {
                        let j = choose|j: int|
                            0 <= j < ids@.len() && !record.ids@.contains(#[trigger] ids@[j]);
                        assert(!self@.has(here, keys@[j]));
                    }
                }
                assert forall|entity: Entity|
                    found@.contains(entity) <==> entity.id < i + 1 && self@.holds_all(
                        entity,
                        keys@,
                    ) by {
                    if taken {
                        assert(found@ == before.push(here));
                        assert(found@[before.len() as int] == here);
                        if found@.contains(entity) && entity != here {
                            let a = choose|a: int| 0 <= a < found@.len() && found@[a] == entity;
                            assert(before[a] == entity);
                            assert(before.contains(entity));
                        }
                        if before.contains(entity) {
                            let a = choose|a: int| 0 <= a < before.len() && before[a] == entity;
                            assert(found@[a] == entity);
                        }
                    }
                    if entity.id == i && self@.holds_all(entity, keys@) {
                        assert(self@.is_live(entity));
                        assert(entity == here);
                    }
                }
            }
            i += 1;
        }
        proof {
            self.lemma_open();
            assert forall|entity: Entity| self@.holds_all(entity, keys@) implies entity.id
                < self.entities@.len() by {
                assert(self@.is_live(entity));
            }
        }
        found
    }

    /// Whether no key is given twice.
    fn distinct(keys: &[TypeKey]) -> (distinct: bool)
        ensures
            distinct == keys@.no_duplicates(),
    {
        let mut i: usize = 0;
        while i < keys.len()
            invariant
                i <= keys@.len(),
                forall|a: int, b: int| 0 <= a < b < keys@.len() && b < i ==> keys@[a] != keys@[b],
            decreases keys@.len() - i,
        {
            let mut j: usize = 0;
            while j < i
                invariant
                    j <= i,
                    i < keys@.len(),
                    forall|a: int| 0 <= a < j ==> keys@[a] != keys@[i as int],
                decreases i - j,
            {
                if keys[j] == keys[i] {
                    return false;
                }
                j += 1;
            }
            i += 1;
        }
        true
    }

    /// Takes the values in the given slots of the given columns out, each gap
    /// closed from the end of its column, and returns them in the order given.
    fn gather(&mut self, ids: &Vec<ComponentId>, slots: &Vec<usize>) -> (row: Vec<C>)
        requires
            old(self).components@.len() <= ComponentId::MAX,
            ids@.len() == slots@.len(),
            ids@.no_duplicates(),
            forall|j: int|
                0 <= j < ids@.len() ==> (#[trigger] ids@[j]) < old(self).components@.len() && slots@[j]
                    < old(self).components@[ids@[j] as int]@.len(),
        ensures
            final(self).entities == old(self).entities,
            final(self).entity_lookup == old(self).entity_lookup,
            final(self).archetype_lookup == old(self).archetype_lookup,
            final(self).archetypes == old(self).archetypes,
            final(self).entity_registry == old(self).entity_registry,
            final(self).component_registry == old(self).component_registry,
            final(self).components@.len() == old(self).components@.len(),
            row@.len() == ids@.len(),
            forall|j: int|
                0 <= j < ids@.len() ==> #[trigger] row@[j] == old(self).components@[ids@[j] as int]@[slots@[j] as int],
            forall|c: int|
                0 <= c < old(self).components@.len() ==> (#[trigger] final(self).components@[c])@
                    == column_now(
                    old(self).components@[c]@,
                    ids@,
                    slots@,
                    row@,
                    ids@.len() as int,
                    c,
                ),
    {
        let mut row: Vec<C> = Vec::new();
        let mut j: usize = 0;
        while j < ids.len()
            invariant
                j <= ids@.len(),
                old(self).components@.len() <= ComponentId::MAX,
                ids@.len() == slots@.len(),
                ids@.no_duplicates(),
                forall|m: int|
                    0 <= m < ids@.len() ==> (#[trigger] ids@[m]) < old(self).components@.len()
                        && slots@[m] < old(self).components@[ids@[m] as int]@.len(),
                self.entities == old(self).entities,
                self.entity_lookup == old(self).entity_lookup,
                self.archetype_lookup == old(self).archetype_lookup,
                self.archetypes == old(self).archetypes,
                self.entity_registry == old(self).entity_registry,
                self.component_registry == old(self).component_registry,
                self.components@.len() == old(self).components@.len(),
                row@.len() == j,
                forall|m: int|
                    0 <= m < j ==> #[trigger] row@[m] == old(self).components@[ids@[m] as int]@[slots@[m] as int],
                forall|c: int|
                    0 <= c < old(self).components@.len() ==> (#[trigger] self.components@[c])@ == (
                    if ids@.contains(c as ComponentId) && ids@.index_of(c as ComponentId) < j {
                        swap_removed(
                            old(self).components@[c]@,
                            slots@[ids@.index_of(c as ComponentId)] as int,
                        )
                    } else {
                        old(self).components@[c]@
                    }),
            decreases ids@.len() - j,
        {
            let column: usize = ids[j] as usize;
            let slot: usize = slots[j];
            let ghost before = self.components@;
            proof {
                assert(ids@[j as int] == column);
                lemma_index_of_unique(ids@, j as int);
            }
            let value = self.components[column].components.swap_remove(slot);
            row.push(value);
            proof {
                assert forall|c: int| 0 <= c < old(self).components@.len() implies (
                #[trigger] self.components@[c])@ == (if ids@.contains(c as ComponentId)
                    && ids@.index_of(c as ComponentId) < j + 1 {
                    swap_removed(
                        old(self).components@[c]@,
                        slots@[ids@.index_of(c as ComponentId)] as int,
                    )
                } else {
                    old(self).components@[c]@
                }) by {
                    if c != column {
                        assert(self.components@[c] == before[c]);
                    }
                }
            }
            j += 1;
        }
        row
    }

    /// Puts values that were taken out back into their slots, each where the
    /// value of the same place in the list came from.
    fn scatter(
        &mut self,
        ids: &Vec<ComponentId>,
        slots: &Vec<usize>,
        row: Vec<C>,
        Ghost(intact): Ghost<Seq<Seq<C>>>,
    )
        requires
            ids@.len() == slots@.len(),
            ids@.len() == row@.len(),
            ids@.no_duplicates(),
            intact.len() == old(self).components@.len(),
            intact.len() <= ComponentId::MAX,
            forall|j: int|
                0 <= j < ids@.len() ==> (#[trigger] ids@[j]) < intact.len() && slots@[j]
                    < intact[ids@[j] as int].len(),
            forall|c: int|
                0 <= c < intact.len() ==> (#[trigger] old(self).components@[c])@ == column_now(
                    intact[c],
                    ids@,
                    slots@,
                    row@,
                    ids@.len() as int,
                    c,
                ),
        ensures
            final(self).entities == old(self).entities,
            final(self).entity_lookup == old(self).entity_lookup,
            final(self).archetype_lookup == old(self).archetype_lookup,
            final(self).archetypes == old(self).archetypes,
            final(self).entity_registry == old(self).entity_registry,
            final(self).component_registry == old(self).component_registry,
            final(self).components@.len() == old(self).components@.len(),
            forall|c: int|
                0 <= c < intact.len() ==> (#[trigger] final(self).components@[c])@ == column_now(
                    intact[c],
                    ids@,
                    slots@,
                    row@,
                    0,
                    c,
                ),
    {
        let ghost values = row@;
        let mut rest = row;
        let mut j: usize = ids.len();
        while j > 0
            invariant
                j <= ids@.len(),
                ids@.len() == slots@.len(),
                ids@.len() == values.len(),
                ids@.no_duplicates(),
                intact.len() == self.components@.len(),
                intact.len() <= ComponentId::MAX,
                forall|m: int|
                    0 <= m < ids@.len() ==> (#[trigger] ids@[m]) < intact.len() && slots@[m]
                        < intact[ids@[m] as int].len(),
                self.entities == old(self).entities,
                self.entity_lookup == old(self).entity_lookup,
                self.archetype_lookup == old(self).archetype_lookup,
                self.archetypes == old(self).archetypes,
                self.entity_registry == old(self).entity_registry,
                self.component_registry == old(self).component_registry,
                rest@ == values.take(j as int),
                forall|c: int|
                    0 <= c < intact.len() ==> (#[trigger] self.components@[c])@ == column_now(
                        intact[c],
                        ids@,
                        slots@,
                        values,
                        j as int,
                        c,
                    ),
            decreases j,
        {
            let ghost before = self.components@;
            j -= 1;
            let column: usize = ids[j] as usize;
            let slot: usize = slots[j];
            proof {
                assert(ids@[j as int] == column);
                lemma_index_of_unique(ids@, j as int);
                assert(before[column as int]@ == swap_removed(intact[column as int], slot as int));
            }
            match rest.pop() {
                Some(value) => {
                    assert(value == values[j as int]);
                    self.components[column].components.push(value);
                    if slot != self.components[column].components.len() - 1 {
                        let moved = self.components[column].components.swap_remove(slot);
                        self.components[column].components.push(moved);
                    }
                    proof {
                        assert(self.components@[column as int]@ =~= intact[column as int].update(
                            slot as int,
                            values[j as int],
                        ));
                    }
                },
                None => {},
            }
            proof {
                assert(rest@ =~= values.take(j as int));
                assert forall|c: int| 0 <= c < intact.len() implies (
                #[trigger] self.components@[c])@ == column_now(
                    intact[c],
                    ids@,
                    slots@,
                    values,
                    j as int,
                    c,
                ) by {
                    if c != column {
                        assert(self.components@[c] == before[c]);
                    }
                }
            }
        }
    }

    /// Runs `f` on one entity, if it is live and holds a component of each of
    /// the given types, and says whether it did: what `entity_system` does,
    /// for a function that is to be run again.
    fn visit<F: FnMut(Entity, &mut [C])>(
        &mut self,
        entity: &Entity,
        keys: &[TypeKey],
        f: &mut F,
    ) -> (visited: bool)
        requires
            old(self).wf(),
            forall|e: Entity, row: &mut [C]| call_requires(*old(f), (e, row)),
            forall|e: Entity, row: &mut [C]|
                call_ensures(*old(f), (e, row), ()) ==> final(row)@.len() == row@.len(),
        ensures
            final(self).wf(),
            visited == (keys@.no_duplicates() && old(self)@.holds_all(*entity, keys@)),
            old(self)@.differs_only_in(
                final(self)@,
                if visited {
                    seq![*entity]
                } else {
                    Seq::empty()
                },
                keys@,
            ),
            old(self).layout().same_shape(final(self).layout()),
            visited ==> exists|row: &mut [C]|
                {
                    &&& #[trigger] call_ensures(*old(f), (*entity, row), ())
                    &&& row@ == old(self)@.values(*entity, keys@)
                    &&& final(row)@ == final(self)@.values(*entity, keys@)
                },
            *final(f) == *old(f),
    {
        proof {
            self.lemma_open();
        }
        if !Self::distinct(keys) {
            return false;
        }
        if !self.is_alive(entity) {
            return false;
        }
        let id: usize = entity.id as usize;
        let ids = match self.resolve(keys) {
            Some(ids) => ids,
            None => {
                proof {
                    let j = choose|j: int|
                        0 <= j < keys@.len() && self@.component_id(#[trigger] keys@[j]) is None;
                    assert(!self@.has(*entity, keys@[j]));
                }
                return false;
            },
        };
        proof {
            assert(record_ok(self.entities@, self.entity_lookup@, id as int));
        }
        let mut slots: Vec<usize> = Vec::new();
        let mut j: usize = 0;
        while j < ids.len()
            invariant
                self.wf(),
                *self == *old(self),
                id == entity.id,
                alive(self.entities@, *entity),
                j <= ids@.len(),
                ids@.len() == keys@.len(),
                forall|m: int|
                    0 <= m < keys@.len() ==> self@.component_id(keys@[m]) == Some(#[trigger] ids@[m]),
                slots@.len() == j,
                forall|m: int|
                    0 <= m < j ==> self.entities@[id as int].ids@.contains(#[trigger] ids@[m])
                        && slots@[m] == self.entities@[id as int].slots@[self.entities@[id as int].ids@.index_of(
                        ids@[m],
                    )],
            decreases ids@.len() - j,
        {
            proof {
                self.lemma_open();
                assert(record_ok(self.entities@, self.entity_lookup@, id as int));
            }
            match self.slot_index(id, ids[j]) {
                Some(k) => {
                    slots.push(self.entities[id].slots[k]);
                },
                None => {
                    assert(!self@.has(*entity, keys@[j as int]));
                    return false;
                },
            }
            j += 1;
        }
        proof {
            self.lemma_view_inv();
            self.component_registry.lemma_ids_are_unique();
            lemma_ids_differ(self@.types, keys@, ids@);
            assert forall|m: int| 0 <= m < ids@.len() implies (#[trigger] ids@[m])
                < self.components@.len() && slots@[m] < self.components@[ids@[m] as int]@.len() by {
                let record = self.entities@[id as int];
                let k = record.ids@.index_of(ids@[m]);
                assert(record.ids@[k] == ids@[m]);
            }
            assert forall|m: int| 0 <= m < keys@.len() implies self@.has(
                *entity,
                #[trigger] keys@[m],
            ) by {
                assert(self@.component_id(keys@[m]) == Some(ids@[m]));
            }
        }
        let ghost intact = Seq::new(
            self.components@.len(),
            |c: int| old(self).components@[c]@,
        );
        let mut row = self.gather(&ids, &slots);
        proof {
            let record = self.entities@[id as int];
            assert forall|m: int| 0 <= m < keys@.len() implies row@[m] == old(self)@.values(
                *entity,
                keys@,
            )[m] by {
                assert(old(self)@.component_id(keys@[m]) == Some(ids@[m]));
                assert(row@[m] == old(self).components@[ids@[m] as int]@[slots@[m] as int]);
            }
            assert(row@ =~= old(self)@.values(*entity, keys@));
        }
        f(*entity, row.as_mut_slice());
        proof {
            assert forall|c: int| 0 <= c < intact.len() implies (#[trigger] self.components@[c])@
                == column_now(intact[c], ids@, slots@, row@, ids@.len() as int, c) by {}
        }
        self.scatter(&ids, &slots, row, Ghost(intact));
        proof {
            self.lemma_open();
            let entities = self.entities@;
            let lookup = self.entity_lookup@;
            let before = old(self).components@;
            let after = self.components@;
            assert forall|c: int| 0 <= c < before.len() implies (#[trigger] after[c])@ == column_now(
                before[c]@,
                ids@,
                slots@,
                row@,
                0,
                c,
            ) by {
                assert(intact[c] == before[c]@);
            }
            lemma_values_changed(entities, lookup, before, after, id as int, ids@, slots@, row@);
            old(self).lemma_open();
            assert forall|c: int| 0 <= c < before.len() implies (
            #[trigger] self.layout().columns[c]).len() == old(self).layout().columns[c].len() by {
                assert(after[c]@ == column_now(before[c]@, ids@, slots@, row@, 0, c));
                if ids@.contains(c as ComponentId) {
                    let m = ids@.index_of(c as ComponentId);
                    assert(ids@[m] == c);
                }
            }
            let v0 = old(self)@;
            let v1 = self@;
            assert forall|m: int| 0 <= m < keys@.len() implies row@[m] == v1.values(*entity, keys@)[m] by {
                assert(v1.component_id(keys@[m]) == Some(ids@[m]));
                lemma_index_of_unique(ids@, m);
                assert(after[ids@[m] as int]@ == column_now(
                    before[ids@[m] as int]@,
                    ids@,
                    slots@,
                    row@,
                    0,
                    ids@[m] as int,
                ));
            }
            assert(row@ =~= v1.values(*entity, keys@));
            assert(v1.entities.dom() =~= v0.entities.dom());
            assert forall|other: Entity| #[trigger] v0.is_live(other) implies v1.entities[other].dom()
                == v0.entities[other].dom() by {
                if other != *entity {
                    assert(entities[other.id as int].live);
                }
            }
            assert forall|other: Entity, key: TypeKey|
                !(seq![*entity].contains(other) && keys@.contains(key)) implies #[trigger] v1.get(
                other,
                key,
            ) == v0.get(other, key) by {
                if v0.is_live(other) {
                    if other != *entity {
                        assert(entities[other.id as int].live);
                    } else {
                        assert(seq![*entity][0] == other);
                        match v0.component_id(key) {
                            Some(c) => {
                                if ids@.contains(c) {
                                    let m = ids@.index_of(c);
                                    assert(ids@[m] == c);
                                    assert(v0.component_id(keys@[m]) == Some(c));
                                    let a = v0.types.index_of(key);
                                    let b = v0.types.index_of(keys@[m]);
                                    assert(v0.types[a] == key && v0.types[b] == keys@[m]);
                                    assert(keys@[m] == key);
                                }
                            },
                            None => {},
                        }
                    }
                }
            }
        }
        true
    }

    /// Runs `f` on one entity, if it is live and holds a component of each of
    /// the given types, and says whether it did.
    ///
    /// `f` gets the handle and the entity's components of those types, in the
    /// order of the keys, for reading and writing, and nothing else of the
    /// store: whatever it does, only those values can have changed afterwards.
    /// No component is optional: an entity that lacks one is passed over in
    /// silence. With one type named twice `f` would get one value twice, so
    /// such a call runs nothing.
    pub fn entity_system<F: FnMut(Entity, &mut [C])>(
        &mut self,
        entity: &Entity,
        keys: &[TypeKey],
        mut f: F,
    ) -> (visited: bool)
        requires
            old(self).wf(),
            forall|e: Entity, row: &mut [C]| call_requires(f, (e, row)),
            forall|e: Entity, row: &mut [C]|
                call_ensures(f, (e, row), ()) ==> final(row)@.len() == row@.len(),
        ensures
            final(self).wf(),
            visited == (keys@.no_duplicates() && old(self)@.holds_all(*entity, keys@)),
            old(self)@.differs_only_in(
                final(self)@,
                if visited {
                    seq![*entity]
                } else {
                    Seq::empty()
                },
                keys@,
            ),
            old(self).layout().same_shape(final(self).layout()),
            visited ==> exists|row: &mut [C]|
                {
                    &&& #[trigger] call_ensures(f, (*entity, row), ())
                    &&& row@ == old(self)@.values(*entity, keys@)
                    &&& final(row)@ == final(self)@.values(*entity, keys@)
                },
    {
        self.visit(entity, keys, &mut f)
    }

    /// Runs `f` once on each live entity that holds a component of each of the
    /// given types, in ascending order of the entities' ids, and returns the
    /// entities it ran on.
    ///
    /// Which entities these are is settled before the first call of `f`. `f`
    /// gets the handle and the entity's components of those types, in the
    /// order of the keys, for reading and writing, and nothing else of the
    /// store: whatever it does, only those values can have changed afterwards.
    /// No component is optional. With one type named twice `f` would get one
    /// value twice, so such a call runs nothing.
    pub fn system<F: FnMut(Entity, &mut [C])>(
        &mut self,
        keys: &[TypeKey],
        mut f: F,
    ) -> (visited: Vec<Entity>)
        requires
            old(self).wf(),
            forall|e: Entity, row: &mut [C]| call_requires(f, (e, row)),
            forall|e: Entity, row: &mut [C]|
                call_ensures(f, (e, row), ()) ==> final(row)@.len() == row@.len(),
        ensures
            final(self).wf(),
            forall|entity: Entity|
                visited@.contains(entity) <==> keys@.no_duplicates() && old(self)@.holds_all(
                    entity,
                    keys@,
                ),
            forall|a: int, b: int| 0 <= a < b < visited@.len() ==> visited@[a].id < visited@[b].id,
            old(self)@.differs_only_in(final(self)@, visited@, keys@),
            old(self).layout().same_shape(final(self).layout()),
            forall|entity: Entity| #[trigger]
                visited@.contains(entity) ==> exists|row: &mut [C]|
                    {
                        &&& #[trigger] call_ensures(f, (entity, row), ())
                        &&& row@ == old(self)@.values(entity, keys@)
                        &&& final(row)@ == final(self)@.values(entity, keys@)
                    },
    {
        if !Self::distinct(keys) {
            return Vec::new();
        }
        proof {
            old(self).lemma_view_inv();
        }
        let snapshot = self.query(keys);
        let ghost given = f;
        let mut i: usize = 0;
        while i < snapshot.len()
            invariant
                self.wf(),
                f == given,
                old(self)@.inv(),
                keys@.no_duplicates(),
                i <= snapshot@.len(),
                forall|a: int, b: int|
                    0 <= a < b < snapshot@.len() ==> snapshot@[a].id < snapshot@[b].id,
                forall|entity: Entity| #[trigger]
                    snapshot@.take(i as int).contains(entity) ==> exists|row: &mut [C]|
                        {
                            &&& #[trigger] call_ensures(given, (entity, row), ())
                            &&& row@ == old(self)@.values(entity, keys@)
                            &&& final(row)@ == self@.values(entity, keys@)
                        },
                forall|e: Entity, row: &mut [C]| call_requires(f, (e, row)),
                forall|e: Entity, row: &mut [C]|
                    call_ensures(f, (e, row), ()) ==> final(row)@.len() == row@.len(),
                forall|entity: Entity|
                    snapshot@.contains(entity) <==> old(self)@.holds_all(entity, keys@),
                old(self)@.differs_only_in(self@, snapshot@.take(i as int), keys@),
                old(self).layout().same_shape(self.layout()),
            decreases snapshot@.len() - i,
        {
            let ghost before = self@;
            let entity = snapshot[i];
            let visited = self.visit(&entity, keys, &mut f);
            proof {
                let now = snapshot@.take(i as int + 1);
                assert(now[i as int] == entity);
                assert forall|other: Entity|
                    snapshot@.take(i as int).contains(other) implies now.contains(other) by {
                    let a = choose|a: int|
                        0 <= a < snapshot@.take(i as int).len() && snapshot@.take(i as int)[a]
                            == other;
                    assert(now[a] == other);
                }
                assert forall|other: Entity|
                    (if visited {
                        seq![entity]
                    } else {
                        Seq::empty()
                    }).contains(other) implies now.contains(other) by {}
                lemma_differs_trans(
                    old(self)@,
                    before,
                    self@,
                    snapshot@.take(i as int),
                    if visited {
                        seq![entity]
                    } else {
                        Seq::empty()
                    },
                    now,
                    keys@,
                    keys@,
                    keys@,
                );
                // the entity was not visited before, so it was found as it was at the start
                assert(snapshot@.contains(entity));
                lemma_differs_inv(old(self)@, before, snapshot@.take(i as int), keys@, entity);
                assert(visited);
                if snapshot@.take(i as int).contains(entity) {
                    let a = choose|a: int|
                        0 <= a < snapshot@.take(i as int).len() && snapshot@.take(i as int)[a]
                            == entity;
                    assert(snapshot@[a].id < snapshot@[i as int].id);
                }
                assert forall|m: int| 0 <= m < keys@.len() implies before.values(entity, keys@)[m]
                    == old(self)@.values(entity, keys@)[m] by {
                    assert(keys@.contains(keys@[m]));
                    assert(before.get(entity, keys@[m]) == old(self)@.get(entity, keys@[m]));
                }
                assert(before.values(entity, keys@) =~= old(self)@.values(entity, keys@));
                // what was visited before is as the visit left it
                assert forall|earlier: Entity| #[trigger]
                    now.contains(earlier) implies exists|row: &mut [C]|
                    {
                        &&& #[trigger] call_ensures(given, (earlier, row), ())
                        &&& row@ == old(self)@.values(earlier, keys@)
                        &&& final(row)@ == self@.values(earlier, keys@)
                    } by {
                    if earlier != entity {
                        let a = choose|a: int| 0 <= a < now.len() && now[a] == earlier;
                        assert(snapshot@.take(i as int)[a] == earlier);
                        assert(snapshot@.take(i as int).contains(earlier));
                        assert forall|m: int| 0 <= m < keys@.len() implies self@.values(
                            earlier,
                            keys@,
                        )[m] == before.values(earlier, keys@)[m] by {
                            assert(!seq![entity].contains(earlier));
                            assert(self@.get(earlier, keys@[m]) == before.get(earlier, keys@[m]));
                        }
                        assert(self@.values(earlier, keys@) =~= before.values(earlier, keys@));
                        let row = choose|row: &mut [C]|
                            {
                                &&& #[trigger] call_ensures(given, (earlier, row), ())
                                &&& row@ == old(self)@.values(earlier, keys@)
                                &&& final(row)@ == before.values(earlier, keys@)
                            };
                        assert(call_ensures(given, (earlier, row), ()));
                    } else {
                        let row = choose|row: &mut [C]|
                            {
                                &&& #[trigger] call_ensures(given, (entity, row), ())
                                &&& row@ == before.values(entity, keys@)
                                &&& final(row)@ == self@.values(entity, keys@)
                            };
                        assert(call_ensures(given, (entity, row), ()));
                    }
                }
            }
            i += 1;
        }
        assert(snapshot@.take(snapshot@.len() as int) =~= snapshot@);
        snapshot
    }
}

} // verus!
