//! Full-tree semantics of the incremental accumulator.
//!
//! `tree_root` says what the root of a height-`level` subtree is when its
//! first leaves are a given sequence and every later slot is empty.  The
//! lemmas here connect the accumulator's operational contract — the
//! pinned fold along cached siblings that `insert` ensures — to that
//! semantics: an accumulator that tracks its leaf sequence still tracks
//! it after an insertion.  The tracking predicate appears only in
//! `ensures` clauses, so a caller obtains it from `initialize` and
//! carries it through deposits; no operation demands it.

use vstd::prelude::*;
use vstd::arithmetic::div_mod::{
    lemma_fundamental_div_mod,
    lemma_fundamental_div_mod_converse,
    lemma_mod_bound,
};
use crate::hashing::{empty_subtree_at, leaf_hash_spec, node_hash_spec, zero_leaf};
use crate::merkle::{
    lemma_pow2_pos,
    lemma_root_from_path_snoc,
    pow2,
    root_from_path,
    MerkleAccumulator,
};

verus! {

/// Root of a height-`level` subtree whose first `leaves.len()` slots hold
/// `leaves` and whose remaining slots are empty.
pub open spec fn tree_root(level: nat, leaves: Seq<Seq<u8>>) -> Seq<u8>
    decreases level,
{
    if level == 0 {
        if leaves.len() == 0 {
            zero_leaf()
        } else {
            leaf_hash_spec(leaves[0])
        }
    } else {
        let half = pow2((level - 1) as nat) as int;
        if leaves.len() <= half {
            node_hash_spec(
                tree_root((level - 1) as nat, leaves),
                empty_subtree_at((level - 1) as nat),
            )
        } else {
            node_hash_spec(
                tree_root((level - 1) as nat, leaves.take(half)),
                tree_root((level - 1) as nat, leaves.skip(half)),
            )
        }
    }
}

/// A subtree with no leaves is an empty subtree.
pub proof fn lemma_tree_root_empty(level: nat)
    ensures
        tree_root(level, Seq::<Seq<u8>>::empty()) == empty_subtree_at(level),
    decreases level,
{
    if level > 0 {
        lemma_tree_root_empty((level - 1) as nat);
        lemma_pow2_pos((level - 1) as nat);
    }
}

/// The accumulator faithfully summarises this leaf sequence: the root is
/// the tree root over it, every empty-subtree cache is right, and every
/// completed left subtree the next insertions may combine with is cached
/// at its level.
pub open spec fn tracks(acc: MerkleAccumulator, leaves: Seq<Seq<u8>>) -> bool {
    &&& acc.num_leaves as nat == leaves.len()
    &&& forall|l: int| 0 <= l <= acc.height ==> acc.zeros@[l]@ == empty_subtree_at(l as nat)
    &&& acc.root@ == tree_root(acc.height as nat, leaves)
    &&& forall|l: int|
        0 <= l < acc.height && #[trigger] (leaves.len() / pow2(l as nat)) % 2 == 1
            ==> acc.filled@[l]@ == tree_root(
            l as nat,
            leaves.subrange(
                (leaves.len() / pow2(l as nat) - 1) * pow2(l as nat) as int,
                (leaves.len() / pow2(l as nat)) * pow2(l as nat) as int,
            ),
        )
}

/// After `l` levels, the fold of the fresh leaf along the cached siblings
/// is the root of the height-`l` block of slots containing it, taken over
/// the extended leaf sequence.
proof fn lemma_fold_matches_block(
    acc: MerkleAccumulator,
    leaf: Seq<u8>,
    path: Seq<Seq<u8>>,
    leaves: Seq<Seq<u8>>,
    l: nat,
)
    requires
        acc.wf(),
        tracks(acc, leaves),
        leaves.len() < pow2(acc.height as nat),
        path.len() == acc.height as nat,
        forall|j: int| 0 <= j < path.len() ==> path[j] == acc.sibling_spec(leaves.len(), j as nat),
        l <= acc.height as nat,
    ensures
        root_from_path(leaf_hash_spec(leaf), leaves.len(), path.take(l as int)) == tree_root(
            l,
            leaves.push(leaf).subrange(
                (leaves.len() / pow2(l)) as int * pow2(l) as int,
                leaves.len() as int + 1,
            ),
        ),
    decreases l,
{
    let lh = leaf_hash_spec(leaf);
    let n = leaves.len();
    let ni = n as int;
    let grown = leaves.push(leaf);
    if l == 0 {
        assert(path.take(0) =~= Seq::<Seq<u8>>::empty());
        assert(pow2(0) == 1);
        assert(ni / 1 == ni);
        let s = grown.subrange(ni, ni + 1);
        assert(s.len() == 1);
        assert(s[0] == grown[ni]);
        assert(s[0] == leaf);
        assert(tree_root(0, s) == lh);
    } else {
        let lm = (l - 1) as nat;
        let p = pow2(lm) as int;
        lemma_pow2_pos(lm);
        lemma_fundamental_div_mod(ni, p);
        lemma_mod_bound(ni, p);
        let q = ni / p;
        let r = ni % p;
        assert(ni == q * p + r);
        assert(0 <= r < p);
        assert(q >= 0) by (nonlinear_arith)
            requires
                ni == q * p + r,
                0 <= r < p,
                0 <= ni,
        ;

        lemma_fold_matches_block(acc, leaf, path, leaves, lm);
        let fold_lm = root_from_path(lh, n, path.take(lm as int));
        let s_lm = grown.subrange(q * p, ni + 1);
        assert(fold_lm == tree_root(lm, s_lm));

        // One more sibling extends the fold by one combine.
        assert(path.take(l as int) =~= path.take(lm as int).push(path[lm as int]));
        lemma_root_from_path_snoc(lh, n, path.take(lm as int), path[lm as int]);
        assert(path.take(lm as int).len() == lm);
        let fold_l = root_from_path(lh, n, path.take(l as int));

        // Relate the index quotients one level up.
        lemma_fundamental_div_mod(q, 2);
        lemma_mod_bound(q, 2);
        let k = q / 2;
        let b = q % 2;
        assert(q == 2 * k + b);
        assert(pow2(l) == 2 * pow2(lm));
        assert(ni == (2 * p) * k + (b * p + r)) by (nonlinear_arith)
            requires
                ni == q * p + r,
                q == 2 * k + b,
        ;
        assert(b == 0 || b == 1);
        assert(b * p == 0 || b * p == p);
        assert(0 <= b * p + r < 2 * p);
        lemma_fundamental_div_mod_converse(ni, 2 * p, k, b * p + r);
        assert(ni / (2 * p) == k);
        assert((n / pow2(l)) as int == k);

        if b == 0 {
            // The fresh path is a left child: its sibling is an empty
            // subtree and the level-above block starts where this one
            // does.
            assert((n / pow2(lm)) % 2 == 0);
            assert(path[lm as int] == acc.zeros@[lm as int]@);
            assert(path[lm as int] == empty_subtree_at(lm));
            assert(k * (2 * p) == q * p) by (nonlinear_arith)
                requires
                    q == 2 * k,
            ;
            let s_l = grown.subrange(q * p, ni + 1);
            assert(s_l.len() == r + 1);
            assert(s_l.len() <= p);
            assert(tree_root(l, s_l) == node_hash_spec(tree_root(lm, s_l), empty_subtree_at(lm)));
            assert(fold_l == node_hash_spec(fold_lm, empty_subtree_at(lm)));
        } else {
            // The fresh path is a right child: its sibling is the cached
            // completed left subtree, and the level-above block reaches
            // back over it.
            assert((n / pow2(lm)) % 2 == 1);
            assert(path[lm as int] == acc.filled@[lm as int]@);
            assert(acc.filled@[lm as int]@ == tree_root(
                lm,
                leaves.subrange((q - 1) * p, q * p),
            ));
            assert(k * (2 * p) == (q - 1) * p) by (nonlinear_arith)
                requires
                    q == 2 * k + 1,
            ;
            assert(q >= 1);
            assert(q * p <= ni);
            let s_l = grown.subrange((q - 1) * p, ni + 1);
            assert(s_l.len() == p + r + 1);
            assert(s_l.len() > p);
            assert(tree_root(l, s_l) == node_hash_spec(
                tree_root(lm, s_l.take(p)),
                tree_root(lm, s_l.skip(p)),
            ));
            assert(s_l.take(p) =~= leaves.subrange((q - 1) * p, q * p));
            assert(s_l.skip(p) =~= s_lm);
            assert(fold_l == node_hash_spec(path[lm as int], fold_lm));
        }
    }
}

/// An accumulator that tracks its leaf sequence still tracks it after an
/// insertion.  The premises are exactly what `MerkleAccumulator::insert`
/// ensures of the pre and post states and of the sibling path it
/// returns; the conclusion extends the tracked sequence by the new leaf.
pub proof fn lemma_insert_preserves_tracking(
    pre: MerkleAccumulator,
    post: MerkleAccumulator,
    leaf: Seq<u8>,
    path: Seq<Seq<u8>>,
    leaves: Seq<Seq<u8>>,
)
    requires
        pre.wf(),
        tracks(pre, leaves),
        leaves.len() < pow2(pre.height as nat),
        post.wf(),
        post.height == pre.height,
        post.zeros@ == pre.zeros@,
        post.num_leaves == pre.num_leaves + 1,
        path.len() == pre.height as nat,
        forall|j: int| 0 <= j < path.len() ==> path[j] == pre.sibling_spec(leaves.len(), j as nat),
        post.root@ == root_from_path(leaf_hash_spec(leaf), leaves.len(), path),
        forall|l: int| 0 <= l < pre.height ==> post.filled@[l]@ == (
            if (leaves.len() / pow2(l as nat)) % 2 == 0 {
                root_from_path(leaf_hash_spec(leaf), leaves.len(), path.take(l))
            } else {
                pre.filled@[l]@
            }
        ),
    ensures
        tracks(post, leaves.push(leaf)),
{
    let lh = leaf_hash_spec(leaf);
    let n = leaves.len();
    let ni = n as int;
    let grown = leaves.push(leaf);
    let h = pre.height as nat;

    // The new root is the tree root over the extended sequence.
    lemma_fold_matches_block(pre, leaf, path, leaves, h);
    assert(path.take(h as int) =~= path);
    lemma_pow2_pos(h);
    lemma_fundamental_div_mod_converse(ni, pow2(h) as int, 0, ni);
    assert(ni / pow2(h) as int == 0);
    assert(grown.subrange(0, ni + 1) =~= grown);
    assert(post.root@ == tree_root(h, grown));

    // Every completed left subtree the next insertion may need is cached.
    assert forall|l: int|
        0 <= l < post.height && #[trigger] (grown.len() / pow2(l as nat)) % 2 == 1
            implies post.filled@[l]@ == tree_root(
            l as nat,
            grown.subrange(
                (grown.len() / pow2(l as nat) - 1) * pow2(l as nat) as int,
                (grown.len() / pow2(l as nat)) * pow2(l as nat) as int,
            ),
        ) by {
        let p = pow2(l as nat) as int;
        lemma_pow2_pos(l as nat);
        lemma_fundamental_div_mod(ni, p);
        lemma_mod_bound(ni, p);
        let q = ni / p;
        let r = ni % p;
        assert(p * q == q * p) by (nonlinear_arith);
        assert(ni == q * p + r);
        assert(0 <= r < p);
        assert(q >= 0) by (nonlinear_arith)
            requires
                ni == q * p + r,
                0 <= r < p,
                0 <= ni,
        ;
        if r + 1 < p {
            // No carry: the block containing the next slot is unchanged.
            lemma_fundamental_div_mod_converse(ni + 1, p, q, r + 1);
            assert((ni + 1) / p == q);
            assert((q % 2) == 1);
            assert(post.filled@[l]@ == pre.filled@[l]@);
            assert((n / pow2(l as nat)) % 2 == 1);
            assert(pre.filled@[l]@ == tree_root(
                l as nat,
                leaves.subrange((q - 1) * p, q * p),
            ));
            assert(q >= 1);
            assert((q - 1) * p >= 0) by (nonlinear_arith)
                requires
                    q >= 1,
                    p > 0,
            ;
            assert(q * p <= ni);
            assert(q * p - (q - 1) * p == p) by (nonlinear_arith);
            assert(grown.subrange((q - 1) * p, q * p) =~= leaves.subrange((q - 1) * p, q * p));
        } else {
            // Carry: the fresh leaf completed the block, whose root the
            // insertion cached at this level.
            assert(r == p - 1);
            assert((q + 1) * p == q * p + p) by (nonlinear_arith);
            lemma_fundamental_div_mod_converse(ni + 1, p, q + 1, 0);
            assert((ni + 1) / p == q + 1);
            assert((q + 1) % 2 == 1);
            assert(q % 2 == 0) by {
                lemma_fundamental_div_mod(q, 2);
                lemma_mod_bound(q, 2);
                if q % 2 == 1 {
                    lemma_fundamental_div_mod_converse(q + 1, 2, q / 2 + 1, 0);
                    assert((q + 1) % 2 == 0);
                }
            }
            assert(post.filled@[l]@ == root_from_path(lh, n, path.take(l)));
            lemma_fold_matches_block(pre, leaf, path, leaves, l as nat);
            assert(ni + 1 == (q + 1) * p) by (nonlinear_arith)
                requires
                    ni == q * p + r,
                    r == p - 1,
            ;
            assert(post.filled@[l]@ == tree_root(
                l as nat,
                grown.subrange(q * p, (q + 1) * p),
            ));
        }
    }
}

} // verus!
