//! Buckets of entities that hold the same component types.

use vstd::prelude::*;
use crate::component::{swap_removed, ComponentId};
use crate::entity::Entity;

verus! {

/// A bucket of entities that hold exactly the same component types.
///
/// The bucket is named by the ids of those types and lists its entities in
/// the order in which they came, but for the gaps that removals closed.
pub struct Archetype {
    component_types: Vec<ComponentId>,
    entities: Vec<Entity>,
}

/// Whether the ids ascend, each greater than the one before: the form of a
/// bucket's name.
pub open spec fn ascending(ids: Seq<ComponentId>) -> bool {
    forall|a: int, b: int| 0 <= a < b < ids.len() ==> ids[a] < ids[b]
}

/// What a bucket holds: the ids that name it and its entities, by position.
pub struct Bucket {
    pub types: Seq<ComponentId>,
    pub entities: Seq<Entity>,
}

/// What each of the buckets holds.
pub open spec fn views(archetypes: Seq<Archetype>) -> Seq<Bucket> {
    Seq::new(archetypes.len(), |b: int| archetypes[b]@)
}

/// The entities of all the buckets, bucket after bucket.
pub open spec fn members(buckets: Seq<Bucket>) -> Seq<Entity>
    decreases buckets.len(),
{
    if buckets.len() == 0 {
        Seq::empty()
    } else {
        members(buckets.drop_last()) + buckets.last().entities
    }
}

/// The sizes of all the buckets, added up.
pub open spec fn total_size(buckets: Seq<Bucket>) -> nat
    decreases buckets.len(),
{
    if buckets.len() == 0 {
        0
    } else {
        total_size(buckets.drop_last()) + buckets.last().entities.len()
    }
}

/// The buckets together have as many entities as their sizes add up to.
pub proof fn lemma_members_len(buckets: Seq<Bucket>)
    ensures
        members(buckets).len() == total_size(buckets),
    decreases buckets.len(),
{
    if buckets.len() > 0 {
        lemma_members_len(buckets.drop_last());
    }
}

impl View for Archetype {
    type V = Bucket;

    closed spec fn view(&self) -> Bucket {
        Bucket { types: self.component_types@, entities: self.entities@ }
    }
}

impl Archetype {
    /// The ids that name this bucket, for reading.
    pub fn component_ids(&self) -> (ids: &Vec<ComponentId>)
        ensures
            ids@ == self@.types,
    {
        &self.component_types
    }

    /// The entities in this bucket, by position, for reading.
    pub fn members(&self) -> (members: &Vec<Entity>)
        ensures
            members@ == self@.entities,
    {
        &self.entities
    }

    /// An empty bucket named by the given ids.
    pub fn new(component_ids: &[ComponentId]) -> (archetype: Self)
        ensures
            archetype@.types == component_ids@,
            archetype@.entities == Seq::<Entity>::empty(),
    {
        let mut component_types: Vec<ComponentId> = Vec::new();
        let mut i: usize = 0;
        while i < component_ids.len()
            invariant
                i <= component_ids@.len(),
                component_types@ == component_ids@.take(i as int),
            decreases component_ids@.len() - i,
        {
            component_types.push(component_ids[i]);
            i += 1;
        }
        Self { component_types, entities: Vec::new() }
    }

    /// Whether every one of the given ids is among those of this bucket.
    pub fn has_components(&self, component_ids: &[ComponentId]) -> (has: bool)
        ensures
            has == forall|i: int|
                0 <= i < component_ids@.len() ==> self@.types.contains(
                    #[trigger] component_ids@[i],
                ),
    {
        let mut i: usize = 0;
        while i < component_ids.len()
            invariant
                i <= component_ids@.len(),
                forall|k: int|
                    0 <= k < i ==> self@.types.contains(#[trigger] component_ids@[k]),
            decreases component_ids@.len() - i,
        {
            let wanted: ComponentId = component_ids[i];
            let mut j: usize = 0;
            let mut found = false;
            while j < self.component_types.len()
                invariant
                    j <= self.component_types@.len(),
                    found ==> self@.types.contains(wanted),
                    !found ==> forall|k: int| 0 <= k < j ==> self.component_types@[k] != wanted,
                decreases self.component_types@.len() - j,
            {
                if self.component_types[j] == wanted {
                    found = true;
                }
                j += 1;
            }
            if !found {
                return false;
            }
            i += 1;
        }
        true
    }

    /// Whether the given ids, in their order, are the name of this bucket.
    pub fn is_named(&self, component_ids: &[ComponentId]) -> (same: bool)
        ensures
            same == (self@.types == component_ids@),
    {
        if self.component_types.len() != component_ids.len() {
            return false;
        }
        let mut i: usize = 0;
        while i < component_ids.len()
            invariant
                i <= component_ids@.len(),
                self.component_types@.len() == component_ids@.len(),
                forall|k: int| 0 <= k < i ==> self.component_types@[k] == component_ids@[k],
            decreases component_ids@.len() - i,
        {
            if self.component_types[i] != component_ids[i] {
                return false;
            }
            i += 1;
        }
        assert(self.component_types@ =~= component_ids@);
        true
    }

    /// The number of entities in this bucket.
    pub fn len(&self) -> (len: usize)
        ensures
            len == self@.entities.len(),
    {
        self.entities.len()
    }

    /// Appends an entity. Its position is the length before the call.
    pub fn push_entity(&mut self, entity: Entity)
        ensures
            final(self)@.entities == old(self)@.entities.push(entity),
            final(self)@.types == old(self)@.types,
    {
        self.entities.push(entity);
    }

    /// The first position at which the entity stands, if it is in the bucket.
    pub fn entity_index(&self, entity: &Entity) -> (index: Option<usize>)
        ensures
            match index {
                Some(i) => {
                    &&& i < self@.entities.len()
                    &&& self@.entities[i as int] == *entity
                    &&& forall|k: int| 0 <= k < i ==> self@.entities[k] != *entity
                },
                None => !self@.entities.contains(*entity),
            },
    {
        let mut i: usize = 0;
        while i < self.entities.len()
            invariant
                i <= self.entities@.len(),
                forall|k: int| 0 <= k < i ==> self.entities@[k] != *entity,
            decreases self.entities@.len() - i,
        {
            if self.entities[i] == *entity {
                return Some(i);
            }
            i += 1;
        }
        None
    }

    /// Takes the entity at `index` out and closes the gap with the last entity
    /// of the bucket. Returns the entity that moved, or nothing where `index`
    /// was the last position itself.
    pub fn remove_entity(&mut self, index: usize) -> (moved: Option<Entity>)
        requires
            index < old(self)@.entities.len(),
        ensures
            final(self)@.entities == swap_removed(old(self)@.entities, index as int),
            final(self)@.types == old(self)@.types,
            moved == if index + 1 == old(self)@.entities.len() {
                None
            } else {
                Some(old(self)@.entities.last())
            },
    {
        let last: usize = self.entities.len() - 1;
        let _ = self.entities.swap_remove(index);
        if index == last {
            None
        } else {
            Some(self.entities[index])
        }
    }
}

} // verus!
