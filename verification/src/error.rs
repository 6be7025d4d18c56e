//! The errors of the store.

use vstd::prelude::*;

verus! {

/// The ways an operation on the store can be refused.
///
/// Every one of them is a broken precondition of the caller, not a failure of
/// the environment: nothing is retried, and an operation that reports one of
/// them leaves the store as it found it. The one exception is a spawn with
/// several components that stops midway: what was done up to there stays.
#[derive(Clone, Copy, Debug, PartialEq, Eq, Structural)]
pub enum EcsError {
    /// The entity is not live: it was never spawned, was despawned, or the
    /// handle carries a generation that has since been replaced.
    EntityNotFound,
    /// The entity already holds a component of that type.
    DuplicateComponent,
    /// No identity is left to hand out.
    RegistryExhausted,
    /// A column was about to be used with a component type that is not its
    /// own. The store never reports this: all its columns hold values of the
    /// one type that the store was made for. It is for callers that keep
    /// several kinds of value in that type and find the wrong kind under a key.
    ComponentTypeMismatch,
}

impl EcsError {
    /// A short description, for messages.
    pub fn describe(&self) -> (text: &'static str)
        ensures
            text@ == match *self {
                EcsError::EntityNotFound => "entity not found in world"@,
                EcsError::DuplicateComponent => "entity already contains specified component"@,
                EcsError::RegistryExhausted => "maximum number of identities exceeded"@,
                EcsError::ComponentTypeMismatch => "component type mismatch"@,
            },
    {
        match self {
            EcsError::EntityNotFound => "entity not found in world",
            EcsError::DuplicateComponent => "entity already contains specified component",
            EcsError::RegistryExhausted => "maximum number of identities exceeded",
            EcsError::ComponentTypeMismatch => "component type mismatch",
        }
    }
}

} // verus!
