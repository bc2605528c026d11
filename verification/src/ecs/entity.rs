//! Entities, their archetypes, and the topics that create and destroy them.

use vstd::prelude::*;

verus! {

/// Identifies an entity.
#[derive(Clone, Copy, Debug, PartialEq, Eq, Hash, Structural)]
pub struct EntityId(pub u64);

/// Identifies an archetype: a kind of entity.
#[derive(Clone, Copy, Debug, PartialEq, Eq, Hash, Structural)]
pub struct ArchetypeId(pub u64);

/// A kind of entity.
#[derive(Clone, Copy, Debug)]
pub struct Archetype;

/// Asks for an entity of the given archetype to be created.
#[derive(Clone, Copy, Debug)]
pub struct CreateEntity(pub ArchetypeId);

/// Asks for the given entity to be destroyed.
#[derive(Clone, Copy, Debug)]
pub struct DestroyEntity(pub EntityId);

} // verus!
