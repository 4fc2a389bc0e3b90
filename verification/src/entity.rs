//! Entity identities.

use vstd::prelude::*;

verus! {

/// Identity of a simulation entity: a slot index and the generation of the
/// slot's current occupant.
#[derive(Clone, Copy, Debug, PartialEq, Eq, Structural)]
pub struct Entity {
    pub index: u32,
    pub generation: u32,
}

/// The identity packed into one integer: generation in the high half, index
/// in the low half.
pub open spec fn entity_bits(entity: Entity) -> u64 {
    (entity.generation * 0x1_0000_0000 + entity.index) as u64
}

/// The identity that packs into `bits`.
pub open spec fn entity_of_bits(bits: u64) -> Entity {
    Entity { index: (bits % 0x1_0000_0000) as u32, generation: (bits / 0x1_0000_0000) as u32 }
}

impl Entity {
    pub fn new(index: u32, generation: u32) -> (entity: Entity)
        ensures
            entity.index == index,
            entity.generation == generation,
    {
        Entity { index, generation }
    }

    /// Packs the identity into one integer, from which [`Entity::from_bits`]
    /// restores it.
    pub fn to_bits(&self) -> (bits: u64)
        ensures
            bits == entity_bits(*self),
    {
        let high: u64 = self.generation as u64;
        let low: u64 = self.index as u64;
        high * 0x1_0000_0000 + low
    }

    /// The identity that packs into `bits`.
    pub fn from_bits(bits: u64) -> (entity: Entity)
        ensures
            entity == entity_of_bits(bits),
            entity_bits(entity) == bits,
    {
        let index: u32 = (bits % 0x1_0000_0000) as u32;
        let generation: u32 = (bits / 0x1_0000_0000) as u32;
        Entity { index, generation }
    }
}

/// Distinct entities pack into distinct integers.
pub proof fn lemma_entity_bits_injective(a: Entity, b: Entity)
    ensures
        entity_bits(a) == entity_bits(b) <==> a == b,
{
}

/// Packing and unpacking are inverse to each other.
pub proof fn lemma_entity_bits_round_trip(entity: Entity, bits: u64)
    ensures
        entity_of_bits(entity_bits(entity)) == entity,
        entity_bits(entity_of_bits(bits)) == bits,
{
}

} // verus!
