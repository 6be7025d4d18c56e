//! Component types and their ids, and the columns that hold the values.

use std::collections::HashMap;
use vstd::prelude::*;
use crate::error::EcsError;

verus! {

/// The id of a component type: its position in the order in which the types
/// were first used, counted from 0.
pub type ComponentId = u32;

/// The tag by which a caller names a component type.
pub type TypeKey = u64;

/// Marks a value type as storable. It asks for nothing else.
pub trait Component {

}

/// A group of components that an entity is spawned with.
pub trait Bundle<C: Component>: Sized {
    /// Takes the group apart: its components, each with the key of its type,
    /// in the order in which they are to be added.
    fn components(self) -> Vec<(TypeKey, C)>;
}

/// Assigns an id to each component type on first use. An id, once assigned,
/// is never changed or taken back.
pub struct ComponentRegistry {
    next: ComponentId,
    lookup_map: HashMap<TypeKey, ComponentId>,
    order: Ghost<Seq<TypeKey>>,
}

impl View for ComponentRegistry {
    type V = Seq<TypeKey>;

    /// The registered type keys; the id of a key is its index.
    closed spec fn view(&self) -> Seq<TypeKey> {
        self.order@
    }
}

/// The id that a type key has among the registered keys, if it has one.
pub open spec fn id_of(types: Seq<TypeKey>, key: TypeKey) -> Option<ComponentId> {
    if types.contains(key) {
        Some(types.index_of(key) as ComponentId)
    } else {
        None
    }
}

impl ComponentRegistry {
    /// The lookup table and the order of registration say the same.
    pub closed spec fn wf(&self) -> bool {
        &&& self.next == self.order@.len()
        &&& forall|i: int|
            0 <= i < self.order@.len() ==> self.lookup_map@.contains_key(#[trigger] self.order@[i])
                && self.lookup_map@[self.order@[i]] == i
        &&& forall|key: TypeKey| #[trigger]
            self.lookup_map@.contains_key(key) ==> self.lookup_map@[key] < self.order@.len()
                && self.order@[self.lookup_map@[key] as int] == key
    }

    /// No key is registered twice, and every id fits its type.
    pub proof fn lemma_ids_are_unique(&self)
        requires
            self.wf(),
        ensures
            self@.no_duplicates(),
            self@.len() <= ComponentId::MAX,
            forall|i: int| 0 <= i < self@.len() ==> id_of(self@, #[trigger] self@[i]) == Some(
                i as ComponentId,
            ),
    {
        assert forall|i: int| 0 <= i < self@.len() implies id_of(self@, #[trigger] self@[i])
            == Some(i as ComponentId) by {
            let key = self@[i];
            assert(self@.contains(key));
            let j = self@.index_of(key);
            assert(self.lookup_map@[self@[j]] == j);
        }
    }

    pub fn new() -> (registry: Self)
        ensures
            registry.wf(),
            registry@ == Seq::<TypeKey>::empty(),
    {
        Self { next: 0, lookup_map: HashMap::new(), order: Ghost(Seq::empty()) }
    }

    /// The id of a type key, if the key is registered. Registers nothing.
    pub fn find(&self, key: TypeKey) -> (found: Option<ComponentId>)
        requires
            self.wf(),
        ensures
            found == id_of(self@, key),
    {
        match self.lookup_map.get(&key) {
            Some(id) => {
                let id: ComponentId = *id;
                proof {
                    self.lemma_ids_are_unique();
                    assert(self@[id as int] == key);
                }
                Some(id)
            },
            None => {
                proof {
                    if self@.contains(key) {
                        let i = self@.index_of(key);
                        assert(self.lookup_map@.contains_key(self@[i]));
                    }
                }
                None
            },
        }
    }

    /// The id of a type key. A key seen for the first time gets the next id;
    /// where none is left, the call fails and registers nothing.
    pub fn id(&mut self, key: TypeKey) -> (assigned: Result<ComponentId, EcsError>)
        requires
            old(self).wf(),
        ensures
            final(self).wf(),
            match assigned {
                Ok(id) => {
                    &&& id_of(final(self)@, key) == Some(id)
                    &&& final(self)@ == if old(self)@.contains(key) {
                        old(self)@
                    } else {
                        old(self)@.push(key)
                    }
                },
                Err(error) => {
                    &&& error == EcsError::RegistryExhausted
                    &&& !old(self)@.contains(key)
                    &&& old(self)@.len() == ComponentId::MAX
                    &&& final(self)@ == old(self)@
                },
            },
    {
        if let Some(id) = self.find(key) {
            return Ok(id);
        }
        if self.next == ComponentId::MAX {
            return Err(EcsError::RegistryExhausted);
        }
        let id: ComponentId = self.next;
        self.lookup_map.insert(key, id);
        self.next += 1;
        proof {
            self.order@ = self.order@.push(key);
            assert(self@[id as int] == key);
            assert forall|i: int| 0 <= i < self.order@.len() implies self.lookup_map@.contains_key(
                #[trigger] self.order@[i],
            ) && self.lookup_map@[self.order@[i]] == i by {
                if i < id {
                    assert(old(self).order@[i] == self.order@[i]);
                    assert(old(self)@.contains(old(self).order@[i]));
                }
            }
            self.lemma_ids_are_unique();
        }
        Ok(id)
    }
}

/// The values of one component type, packed: a column.
///
/// A value's index is its slot. Slots are reused when a value is removed, so a
/// slot does not name the same value across removals.
pub struct ComponentList<T: Component> {
    pub components: Vec<T>,
}

impl<T: Component> View for ComponentList<T> {
    type V = Seq<T>;

    open spec fn view(&self) -> Seq<T> {
        self.components@
    }
}

/// What a column offers to code that does not know its element type.
pub trait ComponentListOps {
    /// The number of occupied slots.
    spec fn spec_len(&self) -> nat;

    fn len(&self) -> (len: usize)
        ensures
            len == self.spec_len(),
    ;

    /// Empties slot `index` and closes the gap with the value of the last
    /// slot. Returns the slot that the moved value came from, or nothing where
    /// `index` was the last slot itself.
    fn swap_remove(&mut self, index: usize) -> (moved: Option<usize>)
        requires
            index < old(self).spec_len(),
        ensures
            final(self).spec_len() == old(self).spec_len() - 1,
            moved == if index + 1 == old(self).spec_len() {
                None
            } else {
                Some((old(self).spec_len() - 1) as usize)
            },
    ;
}

/// A sequence after slot `index` was emptied and refilled from the end.
pub open spec fn swap_removed<A>(s: Seq<A>, index: int) -> Seq<A>
    recommends
        0 <= index < s.len(),
{
    s.update(index, s.last()).drop_last()
}

impl<T: Component> ComponentListOps for ComponentList<T> {
    open spec fn spec_len(&self) -> nat {
        self@.len()
    }

    fn len(&self) -> (len: usize) {
        self.components.len()
    }

    fn swap_remove(&mut self, index: usize) -> (moved: Option<usize>)
        ensures
            final(self)@ == swap_removed(old(self)@, index as int),
    {
        let last: usize = self.components.len() - 1;
        let _ = self.components.swap_remove(index);
        if index == last {
            None
        } else {
            Some(last)
        }
    }
}

impl<T: Component> ComponentList<T> {
    pub fn new() -> (list: Self)
        ensures
            list@ == Seq::<T>::empty(),
    {
        Self { components: Vec::new() }
    }

    /// Appends a value and returns its slot.
    pub fn push(&mut self, value: T) -> (index: usize)
        ensures
            final(self)@ == old(self)@.push(value),
            index == old(self)@.len(),
    {
        let index: usize = self.components.len();
        self.components.push(value);
        index
    }

    /// The value in a slot, for reading and writing, or nothing where the slot
    /// is not occupied.
    pub fn get_mut(&mut self, index: usize) -> (value: Option<&mut T>)
        ensures
            match value {
                Some(value) => {
                    &&& index < old(self)@.len()
                    &&& *value == old(self)@[index as int]
                    &&& final(self)@ == old(self)@.update(index as int, *final(value))
                },
                None => index >= old(self)@.len() && *final(self) == *old(self),
            },
    {
        if index < self.components.len() {
            Some(&mut self.components[index])
        } else {
            None
        }
    }
}

} // verus!
