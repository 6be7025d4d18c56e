//! Entity handles and the registry that hands them out and takes them back.

use vstd::prelude::*;
use crate::error::EcsError;

verus! {

/// The numeric part of an identity.
pub type EntityId = u32;

/// A handle on an entity: a numeric id and the generation of that id.
///
/// An id is handed out again after its entity was freed, each time with the
/// next generation, so an old handle never equals the handle of the entity
/// that reuses its id.
#[derive(Clone, Copy, Debug, PartialEq, Eq, Hash, Structural)]
pub struct Entity {
    pub id: EntityId,
    pub generation: EntityId,
}

impl Entity {
    /// The numeric id of this handle.
    pub fn id(&self) -> (id: EntityId)
        ensures
            id == self.id,
    {
        self.id
    }

    /// How many times the id of this handle had been reused when it was issued.
    pub fn generation(&self) -> (generation: EntityId)
        ensures
            generation == self.generation,
    {
        self.generation
    }
}

/// Hands out entity identities and takes them back for reuse.
pub struct EntityRegistry {
    free: Vec<Entity>,
    next: EntityId,
}

impl EntityRegistry {
    /// The freed handles waiting for reuse; the last one is reused first.
    pub closed spec fn free(&self) -> Seq<Entity> {
        self.free@
    }

    /// The id that the next fresh identity will carry.
    pub closed spec fn next(&self) -> EntityId {
        self.next
    }

    /// Whether the handle on top of the free list can be issued once more.
    pub open spec fn can_recycle(&self) -> bool {
        self.free().len() > 0 && self.free().last().generation != EntityId::MAX
    }

    /// The free list after `new_entity` has issued a handle: without its last
    /// handle, if it had one.
    pub open spec fn free_after_new(&self) -> Seq<Entity> {
        if self.free().len() > 0 {
            self.free().drop_last()
        } else {
            self.free()
        }
    }

    /// The handle that `new_entity` issues, where it issues one.
    pub open spec fn next_entity(&self) -> Entity {
        if self.can_recycle() {
            Entity {
                id: self.free().last().id,
                generation: (self.free().last().generation + 1) as EntityId,
            }
        } else {
            Entity { id: self.next(), generation: 0 }
        }
    }

    /// Whether neither a freed handle nor a fresh id can be issued.
    pub open spec fn exhausted(&self) -> bool {
        !self.can_recycle() && self.next() == EntityId::MAX
    }

    pub fn new() -> (registry: Self)
        ensures
            registry.free() == Seq::<Entity>::empty(),
            registry.next() == 0,
    {
        Self { free: Vec::new(), next: 0 }
    }

    /// Issues an identity.
    ///
    /// The handle freed last is taken off the free list. If its generation can
    /// still grow it is issued again with the next generation; otherwise its id
    /// is retired and a fresh id is issued with generation 0. Where no fresh id
    /// is left either, the call fails and changes nothing.
    pub fn new_entity(&mut self) -> (issued: Result<Entity, EcsError>)
        ensures
            match issued {
                Ok(entity) => {
                    &&& !old(self).exhausted()
                    &&& entity == old(self).next_entity()
                    &&& final(self).free() == old(self).free_after_new()
                    &&& final(self).next() == if old(self).can_recycle() {
                        old(self).next() as int
                    } else {
                        old(self).next() + 1
                    }
                },
                Err(error) => {
                    &&& old(self).exhausted()
                    &&& error == EcsError::RegistryExhausted
                    &&& final(self).free() == old(self).free()
                    &&& final(self).next() == old(self).next()
                },
            },
    {
        let waiting: usize = self.free.len();
        if waiting > 0 && self.free[waiting - 1].generation != EntityId::MAX {
            let freed = self.free[waiting - 1];
            let _ = self.free.pop();
            return Ok(Entity { id: freed.id, generation: freed.generation + 1 });
        }
        if self.next == EntityId::MAX {
            return Err(EcsError::RegistryExhausted);
        }
        let _ = self.free.pop();
        let id: EntityId = self.next;
        self.next += 1;
        Ok(Entity { id, generation: 0 })
    }

    /// Puts a handle on the free list. Whether it was live is the caller's
    /// affair.
    pub fn remove_entity(&mut self, entity: Entity)
        ensures
            final(self).free() == old(self).free().push(entity),
            final(self).next() == old(self).next(),
    {
        self.free.push(entity);
    }
}

} // verus!
