//! Incremental Merkle accumulator of fixed height.
//!
//! Inserting leaf `i` recomputes only the ancestor digests on the path from
//! leaf `i` to the root, combining at each level with either a cached
//! completed left subtree or the digest of an empty subtree; the siblings it
//! combined with form an inclusion proof for the fresh leaf against the new
//! root.  Verification folds a claimed leaf up the same way and compares the
//! outcome with an expected root.

use vstd::prelude::*;
use vstd::arithmetic::div_mod::lemma_div_denominator;
use vstd::pervasive::VecAdditionalExecFns;
use crate::types::{digest_views, Digest};
use crate::hashing::{leaf_hash, leaf_hash_spec, node_hash, node_hash_spec, empty_subtree_at};

verus! {

/// Two to the given power.
pub open spec fn pow2(e: nat) -> nat
    decreases e,
{
    if e == 0 {
        1
    } else {
        2 * pow2((e - 1) as nat)
    }
}

pub proof fn lemma_pow2_pos(e: nat)
    ensures
        pow2(e) >= 1,
    decreases e,
{
    if e > 0 {
        lemma_pow2_pos((e - 1) as nat);
    }
}

pub proof fn lemma_pow2_increases(a: nat, b: nat)
    requires
        a <= b,
    ensures
        pow2(a) <= pow2(b),
    decreases b,
{
    if a < b {
        lemma_pow2_increases(a, (b - 1) as nat);
        lemma_pow2_pos((b - 1) as nat);
    }
}

pub proof fn lemma_pow2_31()
    ensures
        pow2(31) == 0x8000_0000,
{
    reveal_with_fuel(pow2, 32);
}

/// Folds a running digest up the tree: at each level the corresponding bit
/// of `index` says whether the running digest is the left or the right
/// child, and the sibling from the path supplies the other child.
pub open spec fn root_from_path(start: Seq<u8>, index: nat, siblings: Seq<Seq<u8>>) -> Seq<u8>
    decreases siblings.len(),
{
    if siblings.len() == 0 {
        start
    } else {
        let next = if index % 2 == 0 {
            node_hash_spec(start, siblings[0])
        } else {
            node_hash_spec(siblings[0], start)
        };
        root_from_path(next, index / 2, siblings.drop_first())
    }
}

/// Extending a path by one sibling combines the folded digest with that
/// sibling, on the side selected by the next index bit.
pub proof fn lemma_root_from_path_snoc(start: Seq<u8>, index: nat, siblings: Seq<Seq<u8>>, last: Seq<u8>)
    ensures
        root_from_path(start, index, siblings.push(last)) == (
            if (index / pow2(siblings.len())) % 2 == 0 {
                node_hash_spec(root_from_path(start, index, siblings), last)
            } else {
                node_hash_spec(last, root_from_path(start, index, siblings))
            }
        ),
    decreases siblings.len(),
{
    if siblings.len() == 0 {
        reveal_with_fuel(root_from_path, 2);
        assert(siblings.push(last) =~= seq![last]);
        assert(seq![last].drop_first() =~= Seq::<Seq<u8>>::empty());
        assert(index / 1 == index);
    } else {
        let next = if index % 2 == 0 {
            node_hash_spec(start, siblings[0])
        } else {
            node_hash_spec(siblings[0], start)
        };
        assert(siblings.push(last).drop_first() =~= siblings.drop_first().push(last));
        lemma_root_from_path_snoc(next, index / 2, siblings.drop_first(), last);
        let rest: nat = (siblings.len() - 1) as nat;
        lemma_pow2_pos(rest);
        lemma_div_denominator(index as int, 2, pow2(rest) as int);
        assert(2 * pow2(rest) == pow2(siblings.len()));
        assert((index / 2) / pow2(rest) == index / pow2(siblings.len()));
    }
}

/// Incremental Merkle tree of fixed height.
///
/// `zeros[l]` caches the digest of an empty subtree of height `l`;
/// `filled[l]` caches the digest of the most recently completed left
/// subtree of height `l`, the sibling a future insertion combines with
/// whenever its path goes up as a right child.
#[derive(Clone, Debug)]
pub struct MerkleAccumulator {
    /// Height of the tree; capacity is two to this power.
    pub height: u8,
    /// Number of leaf slots, `pow2(height)`.
    pub capacity: u32,
    /// Number of leaves inserted so far.
    pub num_leaves: u32,
    /// Digest of the root node.
    pub root: Digest,
    /// Empty-subtree digests, one per level from 0 to `height`.
    pub zeros: Vec<Digest>,
    /// Completed left-subtree digests, one per level below the root.
    pub filled: Vec<Digest>,
}

impl MerkleAccumulator {
    /// Structural well-formedness: cached vectors sized to the height and
    /// the leaf count within capacity.
    pub open spec fn wf(&self) -> bool {
        &&& 1 <= self.height <= 31
        &&& self.capacity as nat == pow2(self.height as nat)
        &&& self.zeros@.len() == self.height as nat + 1
        &&& self.filled@.len() == self.height as nat
        &&& self.num_leaves <= self.capacity
    }

    /// The sibling that inserting leaf `index` combines with at `level`:
    /// the cached completed left subtree when the path goes up as a right
    /// child, the empty subtree otherwise.
    pub open spec fn sibling_spec(&self, index: nat, level: nat) -> Seq<u8> {
        if (index / pow2(level)) % 2 == 0 {
            self.zeros@[level as int]@
        } else {
            self.filled@[level as int]@
        }
    }

    /// An empty accumulator of the given height: every cached digest is an
    /// empty-subtree digest and the root is the empty tree's root.
    pub fn new(height: u8) -> (r: MerkleAccumulator)
        requires
            1 <= height <= 31,
        ensures
            r.wf(),
            r.height == height,
            r.num_leaves == 0,
            r.capacity as nat == pow2(height as nat),
            forall|l: int| 0 <= l <= height ==> r.zeros@[l]@ == empty_subtree_at(l as nat),
            forall|l: int| 0 <= l < height ==> r.filled@[l]@ == empty_subtree_at(l as nat),
            r.root@ == empty_subtree_at(height as nat),
    {
        let mut capacity: u32 = 1;
        let mut l: usize = 0;
        while l < height as usize
            invariant
                0 <= l <= height <= 31,
                capacity as nat == pow2(l as nat),
            decreases height as usize - l,
        {
            proof {
                lemma_pow2_increases(l as nat, 30);
                lemma_pow2_increases(30, 31);
                lemma_pow2_31();
            }
            capacity = capacity * 2;
            l += 1;
        }

        let mut zeros: Vec<Digest> = Vec::new();
        zeros.push(Digest::zero());
        let mut k: usize = 0;
        while k < height as usize
            invariant
                0 <= k <= height,
                zeros@.len() == k + 1,
                forall|j: int| 0 <= j <= k ==> zeros@[j]@ == empty_subtree_at(j as nat),
            decreases height as usize - k,
        {
            let top = zeros[k];
            let up = node_hash(&top, &top);
            zeros.push(up);
            k += 1;
        }

        let mut filled: Vec<Digest> = Vec::new();
        let mut m: usize = 0;
        while m < height as usize
            invariant
                0 <= m <= height,
                zeros@.len() == height as nat + 1,
                forall|j: int| 0 <= j <= height ==> zeros@[j]@ == empty_subtree_at(j as nat),
                filled@.len() == m,
                forall|j: int| 0 <= j < m ==> filled@[j]@ == empty_subtree_at(j as nat),
            decreases height as usize - m,
        {
            filled.push(zeros[m]);
            m += 1;
        }

        let root = zeros[height as usize];
        MerkleAccumulator { height, capacity, num_leaves: 0, root, zeros, filled }
    }

    /// Inserts the next leaf and returns the sibling path it was folded up
    /// with: an inclusion proof for the fresh leaf against the new root.
    ///
    /// The new root is exactly the fold of the leaf digest along the
    /// returned path, each sibling is the cached digest the level's index
    /// bit selects, and the completed-left-subtree caches are updated at
    /// precisely the levels where the fresh path turned a left child.
    pub fn insert(&mut self, leaf: &Digest) -> (proof_path: Vec<Digest>)
        requires
            old(self).wf(),
            old(self).num_leaves < old(self).capacity,
        ensures
            final(self).wf(),
            final(self).height == old(self).height,
            final(self).capacity == old(self).capacity,
            final(self).zeros@ == old(self).zeros@,
            final(self).num_leaves == old(self).num_leaves + 1,
            proof_path@.len() == old(self).height as nat,
            forall|l: int| 0 <= l < old(self).height ==> proof_path@[l]@
                == old(self).sibling_spec(old(self).num_leaves as nat, l as nat),
            final(self).root@ == root_from_path(
                leaf_hash_spec(leaf@),
                old(self).num_leaves as nat,
                digest_views(proof_path@),
            ),
            forall|l: int| 0 <= l < old(self).height ==> final(self).filled@[l]@ == (
                if (old(self).num_leaves as nat / pow2(l as nat)) % 2 == 0 {
                    root_from_path(
                        leaf_hash_spec(leaf@),
                        old(self).num_leaves as nat,
                        digest_views(proof_path@).take(l),
                    )
                } else {
                    old(self).filled@[l]@
                }
            ),
    {
        let ghost n = old(self).num_leaves as nat;
        let ghost lh = leaf_hash_spec(leaf@);
        let height = self.height;
        let mut cur = leaf_hash(leaf);
        let mut idx: u32 = self.num_leaves;
        let mut path: Vec<Digest> = Vec::new();
        proof {
            assert(pow2(0) == 1);
            assert(n / 1 == n);
        }
        let mut l: usize = 0;
        while l < height as usize
            invariant
                old(self).wf(),
                self.height == old(self).height,
                self.capacity == old(self).capacity,
                self.num_leaves == old(self).num_leaves,
                self.zeros@ == old(self).zeros@,
                self.root == old(self).root,
                self.filled@.len() == old(self).filled@.len(),
                height == self.height,
                0 <= l <= height,
                n == old(self).num_leaves as nat,
                lh == leaf_hash_spec(leaf@),
                path@.len() == l,
                idx as nat == n / pow2(l as nat),
                cur@ == root_from_path(lh, n, digest_views(path@)),
                forall|j: int| 0 <= j < l ==> path@[j]@ == old(self).sibling_spec(n, j as nat),
                forall|j: int| 0 <= j < l ==> self.filled@[j]@ == (
                    if (n / pow2(j as nat)) % 2 == 0 {
                        root_from_path(lh, n, digest_views(path@).take(j))
                    } else {
                        old(self).filled@[j]@
                    }
                ),
                forall|j: int| l <= j < old(self).filled@.len() ==> self.filled@[j]
                    == old(self).filled@[j],
            decreases height as usize - l,
        {
            let even = idx % 2 == 0;
            let sib: Digest = if even { self.zeros[l] } else { self.filled[l] };
            let ghost p_before = path@;
            path.push(sib);
            proof {
                assert(digest_views(path@) =~= digest_views(p_before).push(sib@));
                assert forall|j: int| 0 <= j <= p_before.len() implies #[trigger] digest_views(
                    path@,
                ).take(j) == digest_views(p_before).take(j) by {
                    assert(digest_views(path@).take(j) =~= digest_views(p_before).take(j));
                }
                assert(digest_views(p_before).take(p_before.len() as int) =~= digest_views(p_before));
                lemma_root_from_path_snoc(lh, n, digest_views(p_before), sib@);
            }
            if even {
                self.filled.set(l, cur);
                cur = node_hash(&cur, &sib);
            } else {
                cur = node_hash(&sib, &cur);
            }
            proof {
                lemma_pow2_pos(l as nat);
                lemma_div_denominator(n as int, pow2(l as nat) as int, 2);
                assert(pow2(l as nat) * 2 == pow2((l + 1) as nat));
            }
            idx = idx / 2;
            l += 1;
        }
        self.root = cur;
        proof {
            lemma_pow2_increases(self.height as nat, 31);
            lemma_pow2_31();
        }
        self.num_leaves = self.num_leaves + 1;
        proof {
            assert(digest_views(path@).take(path@.len() as int) =~= digest_views(path@));
        }
        path
    }

    /// Checks an inclusion proof: folds the claimed leaf up the path and
    /// compares the outcome with the expected root.  Returns true exactly
    /// when the path has height many siblings, the index addresses a leaf
    /// slot, and the fold reproduces the expected root.
    pub fn verify(
        &self,
        leaf: &Digest,
        index: u32,
        proof_path: &Vec<Digest>,
        expected_root: &Digest,
    ) -> (r: bool)
        requires
            self.wf(),
        ensures
            r == verify_ok_spec(
                self.height as nat,
                leaf@,
                index as nat,
                digest_views(proof_path@),
                expected_root@,
            ),
    {
        if proof_path.len() != self.height as usize {
            return false;
        }
        if index >= self.capacity {
            return false;
        }
        let ghost pv = digest_views(proof_path@);
        let ghost lh = leaf_hash_spec(leaf@);
        let mut cur = leaf_hash(leaf);
        let mut idx: u32 = index;
        proof {
            assert(pow2(0) == 1);
            assert(index as nat / 1 == index as nat);
            assert(pv.skip(0) =~= pv);
        }
        let mut l: usize = 0;
        while l < self.height as usize
            invariant
                self.wf(),
                pv == digest_views(proof_path@),
                lh == leaf_hash_spec(leaf@),
                pv.len() == self.height as nat,
                0 <= l <= self.height,
                idx as nat == index as nat / pow2(l as nat),
                root_from_path(lh, index as nat, pv) == root_from_path(
                    cur@,
                    idx as nat,
                    pv.skip(l as int),
                ),
            decreases self.height as usize - l,
        {
            proof {
                assert(pv.skip(l as int)[0] == pv[l as int]);
                assert(pv.skip(l as int).drop_first() =~= pv.skip(l as int + 1));
                lemma_pow2_pos(l as nat);
                lemma_div_denominator(index as int, pow2(l as nat) as int, 2);
                assert(pow2(l as nat) * 2 == pow2((l + 1) as nat));
            }
            let sib = &proof_path[l];
            if idx % 2 == 0 {
                cur = node_hash(&cur, sib);
            } else {
                cur = node_hash(sib, &cur);
            }
            idx = idx / 2;
            l += 1;
        }
        proof {
            assert(pv.skip(self.height as int) =~= Seq::<Seq<u8>>::empty());
        }
        cur.eq_bytes(expected_root)
    }
}

/// What a successful verification means: the path has exactly the tree
/// height many siblings, the index addresses a leaf slot, and folding the
/// leaf digest up the path reproduces the expected root.
pub open spec fn verify_ok_spec(
    height: nat,
    leaf: Seq<u8>,
    index: nat,
    siblings: Seq<Seq<u8>>,
    expected_root: Seq<u8>,
) -> bool {
    &&& siblings.len() == height
    &&& index < pow2(height)
    &&& root_from_path(leaf_hash_spec(leaf), index, siblings) == expected_root
}

} // verus!
