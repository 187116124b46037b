//! An approximate set of child identities: it may answer "maybe" for an
//! identity that was never added, never "no" for one that was.
use crate::id::ChildId;
use vstd::prelude::*;

verus! {

/// The bit that stands for `id`.
pub open spec fn id_bit(id: ChildId) -> u64 {
    1u64 << ((id.0 % 64) as u64)
}

#[derive(Clone, Copy, Debug, Default, PartialEq, Eq, Structural)]
pub struct Bloom {
    pub bits: u64,
}

impl Bloom {
    /// Whether `id` may have been added.
    pub open spec fn holds(&self, id: ChildId) -> bool {
        self.bits & id_bit(id) != 0
    }

    /// The filter that holds everything that either holds.
    pub open spec fn join(&self, other: Bloom) -> Bloom {
        Bloom { bits: self.bits | other.bits }
    }

    /// The filter with nothing in it.
    pub fn new() -> (r: Self)
        ensures
            r.bits == 0,
            forall|id: ChildId| !r.holds(id),
    {
        proof {
            assert forall|id: ChildId| !(Bloom { bits: 0 }).holds(id) by {
                let k = (id.0 % 64) as u64;
                assert(0u64 & (1u64 << k) == 0) by (bit_vector);
            }
        }
        Bloom { bits: 0 }
    }

    fn bit(id: ChildId) -> (r: u64)
        ensures
            r == id_bit(id),
    {
        let k = (id.0 % 64) as u64;
        1u64 << k
    }

    /// Adds `id`; everything held before stays held.
    pub fn add(&mut self, id: ChildId)
        ensures
            final(self).bits == old(self).bits | id_bit(id),
            final(self).holds(id),
            forall|other: ChildId| old(self).holds(other) ==> final(self).holds(other),
    {
        let b = Self::bit(id);
        let before = self.bits;
        self.bits = self.bits | b;
        proof {
            let k = (id.0 % 64) as u64;
            assert(k < 64);
            assert((before | (1u64 << k)) & (1u64 << k) != 0) by (bit_vector)
                requires
                    k < 64,
            ;
            assert forall|other: ChildId| old(self).holds(other) implies self.holds(other) by {
                let m = id_bit(other);
                assert((before & m != 0) ==> ((before | b) & m != 0)) by (bit_vector);
            }
        }
    }

    /// Whether `id` may have been added: `false` means it was not.
    pub fn may_contain(&self, id: ChildId) -> (r: bool)
        ensures
            r == self.holds(id),
    {
        self.bits & Self::bit(id) != 0
    }

    /// The filter that holds everything that `self` or `other` holds.
    pub fn union(self, other: Bloom) -> (r: Bloom)
        ensures
            r == self.join(other),
            forall|id: ChildId| self.holds(id) || other.holds(id) ==> r.holds(id),
    {
        let r = Bloom { bits: self.bits | other.bits };
        proof {
            assert forall|id: ChildId| self.holds(id) || other.holds(id) implies r.holds(id) by {
                let m = id_bit(id);
                let a = self.bits;
                let b = other.bits;
                assert(((a & m != 0) || (b & m != 0)) ==> ((a | b) & m != 0)) by (bit_vector);
            }
        }
        r
    }
}

} // verus!
