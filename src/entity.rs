use vstd::prelude::*;

verus! {

/// Opaque, copyable identifier of an entity whose storage the host runtime owns.
/// The library only compares and copies it; `bits` is the host's raw encoding.
#[derive(Clone, Copy, Debug, Hash, PartialEq, Eq, Structural)]
pub struct Entity {
    pub bits: u64,
}

impl Entity {
    /// Builds the identifier whose raw encoding is `bits`.
    pub fn from_bits(bits: u64) -> (r: Entity)
        ensures
            r.bits == bits,
    {
        Entity { bits }
    }

    /// The raw encoding of this identifier.
    pub fn to_bits(&self) -> (r: u64)
        ensures
            r == self.bits,
    {
        self.bits
    }
}

} // verus!
