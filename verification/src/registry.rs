//! Registry of spent nullifier digests.
//!
//! Entries are permanent: there is no removal, and a digest is never
//! recorded twice, which is the double-spend defence.

use vstd::prelude::*;
use crate::types::{digest_views, Digest};

verus! {

/// The set of nullifier digests revealed by past withdrawals.
#[derive(Clone, Debug)]
pub struct NullifierRegistry {
    /// Spent digests, in the order they were revealed.
    pub spent: Vec<Digest>,
}

impl NullifierRegistry {
    /// No digest appears twice.
    pub open spec fn wf(&self) -> bool {
        forall|i: int, j: int|
            0 <= i < j < self.nullifiers().len() ==> self.nullifiers()[i] != self.nullifiers()[j]
    }

    /// The recorded digests, in insertion order.
    pub open spec fn nullifiers(&self) -> Seq<Seq<u8>> {
        digest_views(self.spent@)
    }

    /// Whether the digest has been spent.
    pub open spec fn spent_spec(&self, nullifier: Seq<u8>) -> bool {
        self.nullifiers().contains(nullifier)
    }

    /// An empty registry.
    pub fn new() -> (r: NullifierRegistry)
        ensures
            r.wf(),
            r.spent@.len() == 0,
            r.nullifiers() == Seq::<Seq<u8>>::empty(),
    {
        let r = NullifierRegistry { spent: Vec::new() };
        proof {
            assert(r.nullifiers() =~= Seq::<Seq<u8>>::empty());
        }
        r
    }

    /// Whether the digest has been spent.
    pub fn contains(&self, nullifier: &Digest) -> (r: bool)
        ensures
            r == self.spent_spec(nullifier@),
    {
        let mut i: usize = 0;
        while i < self.spent.len()
            invariant
                0 <= i <= self.spent@.len(),
                forall|j: int| 0 <= j < i ==> self.nullifiers()[j] != nullifier@,
            decreases self.spent@.len() - i,
        {
            if self.spent[i].eq_bytes(nullifier) {
                proof {
                    assert(self.nullifiers()[i as int] == nullifier@);
                }
                return true;
            }
            i += 1;
        }
        proof {
            if self.spent_spec(nullifier@) {
                let w = choose|w: int|
                    0 <= w < self.nullifiers().len() && self.nullifiers()[w] == nullifier@;
                assert(self.nullifiers()[w] != nullifier@);
            }
        }
        false
    }

    /// Records a fresh digest.  The caller must have checked freshness in
    /// the same atomic step.
    pub fn insert(&mut self, nullifier: &Digest)
        requires
            old(self).wf(),
            !old(self).spent_spec(nullifier@),
        ensures
            final(self).wf(),
            final(self).nullifiers() == old(self).nullifiers().push(nullifier@),
            final(self).spent_spec(nullifier@),
    {
        let ghost before = self.spent@;
        self.spent.push(*nullifier);
        proof {
            assert(digest_views(self.spent@) =~= digest_views(before).push(nullifier@));
            let all = self.nullifiers();
            assert forall|i: int, j: int| 0 <= i < j < all.len() implies all[i] != all[j] by {
                if j == all.len() - 1 {
                    assert(all[j] == nullifier@);
                    assert(!digest_views(before).contains(nullifier@));
                    assert(digest_views(before)[i] != nullifier@);
                } else {
                    assert(digest_views(before)[i] != digest_views(before)[j]);
                }
            }
            assert(all[all.len() - 1] == nullifier@);
            assert(all.contains(nullifier@));
        }
    }
}

} // verus!
