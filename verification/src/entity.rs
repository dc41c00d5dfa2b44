use vstd::prelude::*;

use crate::registry::DynamicId;

verus! {

/// A unique identifier for a collection of components.
#[derive(Debug, Clone, Copy, PartialEq, Eq, Structural, PartialOrd, Ord, Hash)]
pub struct Entity {
    id: DynamicId,
    generation: u32,
}

/// The 64-bit packing of an entity: generation in the upper half, id in the lower half.
pub open spec fn pack_spec(id: u32, generation: u32) -> u64 {
    (generation as int * 0x1_0000_0000 + id as int) as u64
}

impl Entity {
    pub closed spec fn spec_id(self) -> u32 {
        self.id
    }

    pub closed spec fn spec_generation(self) -> u32 {
        self.generation
    }

    /// The id and generation that a placeholder entity carries.
    pub fn placeholder() -> (e: Self)
        ensures
            e.spec_id() == u32::MAX,
            e.spec_generation() == u32::MAX,
    {
        Self { id: u32::MAX, generation: u32::MAX }
    }

    /// Creates a new entity with the given id. The generation is set to 0.
    pub fn new(id: DynamicId) -> (e: Self)
        ensures
            e.spec_id() == id,
            e.spec_generation() == 0,
    {
        Self { id, generation: 0 }
    }

    /// Creates a new entity with the given id and generation.
    pub fn new_with_generation(id: DynamicId, generation: u32) -> (e: Self)
        ensures
            e.spec_id() == id,
            e.spec_generation() == generation,
    {
        Self { id, generation }
    }

    /// Returns the id of the entity.
    pub fn id(&self) -> (r: DynamicId)
        ensures
            r == self.spec_id(),
    {
        self.id
    }

    /// Returns the generation of the entity.
    pub fn generation(&self) -> (r: u32)
        ensures
            r == self.spec_generation(),
    {
        self.generation
    }

    /// Returns the entity as a u64. The upper 32 bits are the generation, and the lower 32 bits are the id.
    pub fn as_u64(&self) -> (r: u64)
        ensures
            r == pack_spec(self.spec_id(), self.spec_generation()),
    {
        let gen: u32 = self.generation;
        let idv: u32 = self.id;
        let r: u64 = ((gen as u64) << 32u64) | (idv as u64);
        assert(r == pack_spec(idv, gen)) by (bit_vector)
            requires
                r == ((gen as u64) << 32u64) | (idv as u64),
        ;
        r
    }

    /// Creates an entity from a u64. The upper 32 bits are the generation, and the lower 32 bits are the id.
    pub fn from_u64(id: u64) -> (e: Self)
        ensures
            pack_spec(e.spec_id(), e.spec_generation()) == id,
    {
        let lo: u32 = (id & 0xFFFF_FFFFu64) as u32;
        let hi: u32 = (id >> 32u64) as u32;
        assert(pack_spec(lo, hi) == id) by (bit_vector)
            requires
                lo == (id & 0xFFFF_FFFFu64) as u32,
                hi == (id >> 32u64) as u32,
        ;
        Self { id: lo, generation: hi }
    }

    /// The 64-bit form of the entity as a `usize`, cut to the width of `usize`.
    pub fn as_usize(&self) -> (r: usize)
        ensures
            r == pack_spec(self.spec_id(), self.spec_generation()) as usize,
    {
        self.as_u64() as usize
    }

    /// The entity whose 64-bit form is `value`.
    pub fn from_usize(value: usize) -> (e: Self)
        ensures
            pack_spec(e.spec_id(), e.spec_generation()) == value as u64,
    {
        Self::from_u64(value as u64)
    }
}

/// The entity whose 64-bit form is `k`.
pub closed spec fn entity_of_packed(k: u64) -> Entity {
    Entity { id: (k % 0x1_0000_0000) as u32, generation: (k / 0x1_0000_0000) as u32 }
}

/// Every 64-bit value is the 64-bit form of [`entity_of_packed`] of it.
pub proof fn lemma_entity_of_packed(k: u64)
    ensures
        pack_spec(entity_of_packed(k).spec_id(), entity_of_packed(k).spec_generation()) == k,
{
    let lo = k % 0x1_0000_0000;
    let hi = k / 0x1_0000_0000;
    assert(hi * 0x1_0000_0000 + lo == k && lo < 0x1_0000_0000 && hi < 0x1_0000_0000)
        by (nonlinear_arith)
        requires
            lo == k % 0x1_0000_0000,
            hi == k / 0x1_0000_0000,
            k < 0x1_0000_0000_0000_0000,
    ;
}

/// Two entities with the same id and generation are the same entity.
pub proof fn lemma_entity_ext(a: Entity, b: Entity)
    requires
        a.spec_id() == b.spec_id(),
        a.spec_generation() == b.spec_generation(),
    ensures
        a == b,
{
}

/// `from_u64` undoes `as_u64`: an entity whose 64-bit form equals another's is that entity.
/// (`as_u64` undoing `from_u64` is the `ensures` of `from_u64`.)
pub proof fn law_u64_roundtrip(a: Entity, b: Entity)
    requires
        pack_spec(a.spec_id(), a.spec_generation()) == pack_spec(b.spec_id(), b.spec_generation()),
    ensures
        a == b,
{
    let (ai, ag, bi, bg) = (a.spec_id(), a.spec_generation(), b.spec_id(), b.spec_generation());
    assert(ai == bi && ag == bg) by (nonlinear_arith)
        requires
            pack_spec(ai, ag) == pack_spec(bi, bg),
    ;
}

} // verus!
