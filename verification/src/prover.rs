//! Rebuilding inclusion paths for already-stored leaves.
//!
//! The lemmas here give the semantics of a bottom-up rebuild of the tree
//! from the stored commitments: what the root of a clipped leaf block is,
//! and how a parent block's root combines its children's.

use vstd::prelude::*;
use vstd::arithmetic::div_mod::lemma_div_denominator;
use crate::hashing::{empty_subtree_at, leaf_hash, leaf_hash_spec, node_hash, node_hash_spec};
use crate::merkle::{
    lemma_pow2_pos,
    lemma_root_from_path_snoc,
    pow2,
    root_from_path,
};
use crate::tree::{lemma_tree_root_empty, tree_root};
use crate::types::{digest_views, Digest};

verus! {

/// The leaves under a height-`level` subtree rooted at slot offset `lo`:
/// the stored ones among its `pow2(level)` slots, none when the offset is
/// past the stored leaves.
pub open spec fn clipped(leaves: Seq<Seq<u8>>, lo: int, level: nat) -> Seq<Seq<u8>> {
    let n = leaves.len() as int;
    let hi = lo + pow2(level);
    if lo >= n {
        Seq::<Seq<u8>>::empty()
    } else if hi <= n {
        leaves.subrange(lo, hi)
    } else {
        leaves.subrange(lo, n)
    }
}

/// A parent block's root combines its two child blocks' roots; an empty
/// right child contributes an empty subtree.
pub proof fn lemma_parent_block(leaves: Seq<Seq<u8>>, level: nat, lo: int)
    requires
        lo >= 0,
    ensures
        tree_root((level + 1) as nat, clipped(leaves, lo, (level + 1) as nat)) == (
            if lo + pow2(level) < leaves.len() {
                node_hash_spec(
                    tree_root(level, clipped(leaves, lo, level)),
                    tree_root(level, clipped(leaves, lo + pow2(level), level)),
                )
            } else {
                node_hash_spec(tree_root(level, clipped(leaves, lo, level)), empty_subtree_at(level))
            }
        ),
{
    let n = leaves.len() as int;
    let p = pow2(level) as int;
    lemma_pow2_pos(level);
    assert(pow2((level + 1) as nat) == 2 * pow2(level));
    let parent = clipped(leaves, lo, (level + 1) as nat);
    if lo >= n {
        lemma_tree_root_empty(level);
        lemma_tree_root_empty((level + 1) as nat);
        assert(clipped(leaves, lo, level) =~= Seq::<Seq<u8>>::empty());
        assert(empty_subtree_at((level + 1) as nat) == node_hash_spec(
            empty_subtree_at(level),
            empty_subtree_at(level),
        ));
    } else if lo + p < n {
        assert(parent.len() > p);
        assert(parent.take(p) =~= clipped(leaves, lo, level));
        assert(parent.skip(p) =~= clipped(leaves, lo + p, level));
    } else {
        assert(parent.len() <= p);
        assert(parent =~= clipped(leaves, lo, level));
    }
}


/// Rebuilds the inclusion path for stored leaf `leaf_index` bottom-up
/// from all stored leaves, the way an off-chain prover would.
///
/// When the supplied empty-subtree digests are the real ones, folding the
/// leaf up the returned path reproduces the tree root over the stored
/// leaves — so against an accumulator that tracks those leaves, the path
/// verifies.
pub fn rebuild_path(
    leaves: &Vec<Digest>,
    zeros: &Vec<Digest>,
    height: u8,
    leaf_index: u32,
) -> (path: Vec<Digest>)
    requires
        1 <= height <= 31,
        zeros@.len() == height as nat + 1,
        (leaf_index as nat) < leaves@.len(),
        leaves@.len() <= pow2(height as nat),
    ensures
        path@.len() == height as nat,
        (forall|l: int| 0 <= l <= height ==> zeros@[l]@ == empty_subtree_at(l as nat))
            ==> root_from_path(
            leaf_hash_spec(digest_views(leaves@)[leaf_index as int]),
            leaf_index as nat,
            digest_views(path@),
        ) == tree_root(height as nat, digest_views(leaves@)),
{
    let ghost lv = digest_views(leaves@);
    let ghost n = lv.len() as int;
    let ghost zok = forall|l: int| 0 <= l <= height ==> zeros@[l]@ == empty_subtree_at(l as nat);
    let ghost lh = leaf_hash_spec(lv[leaf_index as int]);

    let mut nodes: Vec<Digest> = Vec::new();
    let mut i: usize = 0;
    while i < leaves.len()
        invariant
            0 <= i <= leaves@.len(),
            nodes@.len() == i,
            forall|j: int| 0 <= j < i ==> nodes@[j]@ == leaf_hash_spec(digest_views(leaves@)[j]),
        decreases leaves@.len() - i,
    {
        nodes.push(leaf_hash(&leaves[i]));
        i += 1;
    }
    proof {
        assert(pow2(0) == 1);
        assert(leaf_index as int / 1 == leaf_index as int);
        assert forall|j: int| 0 <= j < n implies nodes@[j]@ == tree_root(
            0,
            clipped(lv, j * pow2(0) as int, 0),
        ) by {
            let block = clipped(lv, j, 0);
            assert(block.len() == 1);
            assert(block[0] == lv[j]);
        }
        assert(digest_views(Seq::<Digest>::empty()) =~= Seq::<Seq<u8>>::empty());
    }

    let mut path: Vec<Digest> = Vec::new();
    let mut idx: usize = leaf_index as usize;
    let mut level: usize = 0;
    while level < height as usize
        invariant
            1 <= height <= 31,
            zeros@.len() == height as nat + 1,
            lv == digest_views(leaves@),
            n == lv.len() as int,
            0 < n <= pow2(height as nat),
            (leaf_index as int) < n,
            lh == leaf_hash_spec(lv[leaf_index as int]),
            zok == (forall|l: int|
                0 <= l <= height ==> zeros@[l]@ == empty_subtree_at(l as nat)),
            0 <= level <= height,
            path@.len() == level,
            idx < nodes@.len(),
            (nodes@.len() as int) <= n,
            idx as int == leaf_index as int / pow2(level as nat) as int,
            (nodes@.len() as int) * (pow2(level as nat) as int) >= n,
            ((nodes@.len() as int) - 1) * (pow2(level as nat) as int) < n,
            zok ==> (forall|j: int|
                0 <= j < nodes@.len() ==> nodes@[j]@ == tree_root(
                    level as nat,
                    clipped(lv, j * pow2(level as nat) as int, level as nat),
                )),
            zok ==> root_from_path(lh, leaf_index as nat, digest_views(path@)) == nodes@[
                idx as int
            ]@,
        decreases height as usize - level,
    {
        let sibling_pos = if idx % 2 == 0 {
            idx + 1
        } else {
            idx - 1
        };
        let sibling = if sibling_pos < nodes.len() {
            nodes[sibling_pos]
        } else {
            zeros[level]
        };
        let ghost path_before = path@;
        path.push(sibling);

        let mut next: Vec<Digest> = Vec::new();
        let mut j: usize = 0;
        while j < nodes.len()
            invariant
                level < height <= 31,
                zeros@.len() == height as nat + 1,
                n <= pow2(height as nat),
                (nodes@.len() as int) <= n,
                j % 2 == 0,
                2 * next@.len() == j,
                j <= nodes@.len() + 1,
                forall|m: int| 0 <= m < next@.len() ==> next@[m]@ == node_hash_spec(
                    nodes@[2 * m]@,
                    if 2 * m + 1 < nodes@.len() {
                        nodes@[2 * m + 1]@
                    } else {
                        zeros@[level as int]@
                    },
                ),
            decreases nodes@.len() + 2 - j,
        {
            proof {
                crate::merkle::lemma_pow2_increases(height as nat, 31);
                crate::merkle::lemma_pow2_31();
            }
            let left = nodes[j];
            let right = if j + 1 < nodes.len() {
                nodes[j + 1]
            } else {
                zeros[level]
            };
            next.push(node_hash(&left, &right));
            j += 2;
        }

        proof {
            let pl = pow2(level as nat) as int;
            let p2 = pow2((level + 1) as nat) as int;
            let len_l = nodes@.len() as int;
            let len_n = next@.len() as int;
            let jend = j as int;
            lemma_pow2_pos(level as nat);
            assert(p2 == 2 * pl);

            // The next level's length brackets the leaf count.
            assert(len_n * p2 >= n) by (nonlinear_arith)
                requires
                    2 * len_n == jend,
                    jend >= len_l,
                    len_l * pl >= n,
                    p2 == 2 * pl,
                    pl > 0,
            ;
            assert((len_n - 1) * p2 < n) by (nonlinear_arith)
                requires
                    2 * len_n == jend,
                    jend <= len_l + 1,
                    jend % 2 == 0,
                    (len_l - 1) * pl < n,
                    p2 == 2 * pl,
                    pl > 0,
            ;
            assert(idx as int / 2 < len_n) by (nonlinear_arith)
                requires
                    2 * len_n == jend,
                    jend >= len_l,
                    idx < len_l,
            ;

            // The index keeps addressing the block that holds the leaf.
            lemma_div_denominator(leaf_index as int, pl, 2);
            assert((idx as int) / 2 == leaf_index as int / p2);

            if zok {
                // Each next-level node summarises its block of leaves.
                assert forall|m: int| 0 <= m < len_n implies next@[m]@ == tree_root(
                    (level + 1) as nat,
                    clipped(lv, m * p2, (level + 1) as nat),
                ) by {
                    let lo = m * p2;
                    assert(lo == 2 * m * pl) by (nonlinear_arith)
                        requires
                            lo == m * p2,
                            p2 == 2 * pl,
                    ;
                    assert(lo >= 0) by (nonlinear_arith)
                        requires
                            m >= 0,
                            p2 > 0,
                            lo == m * p2,
                    ;
                    lemma_parent_block(lv, level as nat, lo);
                    assert(2 * m < len_l) by (nonlinear_arith)
                        requires
                            2 * len_n == jend,
                            jend <= len_l + 1,
                            m < len_n,
                            0 <= m,
                    ;
                    assert(nodes@[2 * m]@ == tree_root(
                        level as nat,
                        clipped(lv, (2 * m) * pl, level as nat),
                    ));
                    assert((2 * m) * pl == lo) by (nonlinear_arith)
                        requires
                            lo == 2 * m * pl,
                    ;
                    if 2 * m + 1 < len_l {
                        assert(nodes@[2 * m + 1]@ == tree_root(
                            level as nat,
                            clipped(lv, (2 * m + 1) * pl, level as nat),
                        ));
                        assert((2 * m + 1) * pl == lo + pl) by (nonlinear_arith)
                            requires
                                lo == 2 * m * pl,
                        ;
                        assert((len_l - 1) * pl >= (2 * m + 1) * pl) by (nonlinear_arith)
                            requires
                                2 * m + 1 <= len_l - 1,
                                pl > 0,
                        ;
                        assert(lo + pl < n);
                    } else {
                        assert(lo + pl >= n) by (nonlinear_arith)
                            requires
                                2 * m + 1 >= len_l,
                                len_l * pl >= n,
                                lo == 2 * m * pl,
                                pl > 0,
                        ;
                        assert(zeros@[level as int]@ == empty_subtree_at(level as nat));
                    }
                }

                // The fold gains one sibling and lands on the parent node.
                assert(digest_views(path@) =~= digest_views(path_before).push(sibling@));
                lemma_root_from_path_snoc(
                    lh,
                    leaf_index as nat,
                    digest_views(path_before),
                    sibling@,
                );
                assert(digest_views(path_before).len() == level);
                let m0 = idx as int / 2;
                if idx % 2 == 0 {
                    assert(2 * m0 == idx as int);
                    assert(next@[m0]@ == node_hash_spec(
                        nodes@[idx as int]@,
                        if idx as int + 1 < len_l {
                            nodes@[idx as int + 1]@
                        } else {
                            zeros@[level as int]@
                        },
                    ));
                } else {
                    assert(2 * m0 == idx as int - 1);
                    assert(next@[m0]@ == node_hash_spec(
                        nodes@[idx as int - 1]@,
                        nodes@[idx as int]@,
                    ));
                }
                assert(root_from_path(lh, leaf_index as nat, digest_views(path@)) == next@[m0]@);
            }
        }
        nodes = next;
        idx = idx / 2;
        level += 1;
    }
    proof {
        let ph = pow2(height as nat) as int;
        lemma_pow2_pos(height as nat);
        assert(nodes@.len() == 1) by (nonlinear_arith)
            requires
                nodes@.len() as int * ph >= n,
                (nodes@.len() as int - 1) * ph < n,
                0 < n <= ph,
                ph > 0,
        ;
        assert(idx == 0);
        if zok {
            assert(clipped(lv, 0, height as nat) =~= lv);
            assert(nodes@[0]@ == tree_root(height as nat, lv));
        }
    }
    path
}

} // verus!
