//! Append-only, capacity-bounded commitment registry.
//!
//! Each accepted commitment receives the next leaf index; indices are
//! dense and gapless, and no entry is ever reordered or removed.

use vstd::prelude::*;
use crate::types::{digest_views, Digest};
use crate::errors::PoolError;

verus! {

/// Arena of deposited commitments, sized to the tree capacity.
#[derive(Clone, Debug)]
pub struct CommitmentStore {
    /// Commitments in insertion order; the position is the leaf index.
    pub leaves: Vec<Digest>,
    /// Greatest number of commitments the store accepts.
    pub capacity: u32,
}

impl CommitmentStore {
    /// The commitment count never exceeds the capacity.
    pub open spec fn wf(&self) -> bool {
        self.leaves@.len() <= self.capacity as nat
    }

    /// The deposited commitments, in insertion order.
    pub open spec fn commitments(&self) -> Seq<Seq<u8>> {
        digest_views(self.leaves@)
    }

    /// Whether no further commitment fits.
    pub open spec fn is_full_spec(&self) -> bool {
        self.leaves@.len() == self.capacity as nat
    }

    /// An empty store of the given capacity.
    pub fn new(capacity: u32) -> (r: CommitmentStore)
        ensures
            r.wf(),
            r.capacity == capacity,
            r.leaves@.len() == 0,
            r.commitments() == Seq::<Seq<u8>>::empty(),
    {
        let r = CommitmentStore { leaves: Vec::new(), capacity };
        proof {
            assert(r.commitments() =~= Seq::<Seq<u8>>::empty());
        }
        r
    }

    /// Whether no further commitment fits.
    pub fn is_full(&self) -> (r: bool)
        ensures
            r == self.is_full_spec(),
    {
        self.leaves.len() == self.capacity as usize
    }

    /// Appends a commitment, assigning it the next dense leaf index, or
    /// refuses with `CapacityError` when the store is full, changing
    /// nothing.
    pub fn append(&mut self, commitment: &Digest) -> (r: Result<u32, PoolError>)
        requires
            old(self).wf(),
        ensures
            final(self).wf(),
            final(self).capacity == old(self).capacity,
            match r {
                Ok(index) => {
                    &&& !old(self).is_full_spec()
                    &&& index as nat == old(self).leaves@.len()
                    &&& final(self).leaves@ == old(self).leaves@.push(*commitment)
                    &&& final(self).commitments() == old(self).commitments().push(commitment@)
                },
                Err(e) => {
                    &&& e == PoolError::CapacityError
                    &&& old(self).is_full_spec()
                    &&& *final(self) == *old(self)
                },
            },
    {
        if self.leaves.len() == self.capacity as usize {
            return Err(PoolError::CapacityError);
        }
        let index = self.leaves.len() as u32;
        let ghost before = self.leaves@;
        self.leaves.push(*commitment);
        proof {
            assert(digest_views(self.leaves@) =~= digest_views(before).push(commitment@));
        }
        Ok(index)
    }
}

} // verus!
