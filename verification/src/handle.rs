use vstd::prelude::*;

verus! {

/// Stable identity of an entity in an entity set: a slot index together with
/// the generation the slot had when the entity was created. Two handles are
/// equal iff both fields match; a handle is valid only while its generation
/// matches the slot's current generation.
#[derive(Clone, Copy, PartialEq, Eq, Structural, Debug)]
pub struct Handle {
    pub index: usize,
    pub generation: u64,
}

} // verus!
