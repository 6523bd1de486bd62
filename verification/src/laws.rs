//! The pool's governing laws, stated and proved against the contracts of
//! the operations.
//!
//! Each law is a public proof function whose premises are facts the
//! operations' own `ensures` clauses establish, so it applies to every
//! reachable pool state.  What rests on collision resistance of the
//! underlying hash — that a digest not deposited has no verifying proof,
//! and that flipping a byte of a verifying proof breaks it — cannot be a
//! theorem about an uninterpreted digest function and is exercised by the
//! test suite instead.

use vstd::prelude::*;
use crate::errors::PoolError;
use crate::hashing::leaf_hash_spec;
use crate::merkle::{pow2, root_from_path, verify_ok_spec};
use crate::pool::{withdraw_refusal, PoolLedger};
use crate::tree::{tracks, tree_root};

verus! {

/// The stored root really is the Merkle root of the commitment sequence
/// over the full fixed-height tree — never a stand-in such as the latest
/// leaf.  `initialize` establishes the tracking premise and `deposit` and
/// `withdraw` both preserve it, so it holds of every reachable pool.
pub proof fn lemma_root_summarises_commitments(p: PoolLedger)
    requires
        tracks(p.accumulator, p.commitments()),
    ensures
        p.root_spec() == tree_root(p.height_spec(), p.commitments()),
{
}

/// The next leaf index always equals the number of deposits completed:
/// indices are dense and gapless.  That the commitment sequence is
/// append-only is the `deposit` contract itself, which extends it by
/// exactly the new commitment and changes nothing before it.
pub proof fn lemma_leaf_index_counts_deposits(p: PoolLedger)
    requires
        p.wf(),
    ensures
        p.accumulator.num_leaves as nat == p.commitments().len(),
{
}

/// No nullifier digest is ever recorded twice, in any reachable pool
/// state: the registry invariant every operation preserves.
pub proof fn lemma_nullifiers_distinct(p: PoolLedger)
    requires
        p.wf(),
    ensures
        forall|i: int, j: int|
            0 <= i < j < p.nullifiers().len() ==> p.nullifiers()[i] != p.nullifiers()[j],
{
}

/// The accumulator's own fresh proof verifies: a deposit ensures exactly
/// these premises of its receipt — the path has height many siblings, the
/// index addresses a leaf slot, and the new root is the fold of the leaf
/// along the path — and `verify_inclusion` returns exactly the
/// `verify_ok_spec` predicate concluded here.
pub proof fn lemma_deposit_receipt_verifies(
    p: PoolLedger,
    commitment: Seq<u8>,
    leaf_index: nat,
    siblings: Seq<Seq<u8>>,
)
    requires
        siblings.len() == p.height_spec(),
        leaf_index < pow2(p.height_spec()),
        p.root_spec() == root_from_path(leaf_hash_spec(commitment), leaf_index, siblings),
    ensures
        verify_ok_spec(p.height_spec(), commitment, leaf_index, siblings, p.root_spec()),
{
}

/// An authorized withdrawal whose proof does not check out is refused
/// with `ProofError`, however fresh its nullifier: an unknown commitment,
/// a stale root and a malformed proof all land here.
pub proof fn lemma_unverifiable_proof_refused(
    p: PoolLedger,
    caller: Seq<u8>,
    nullifier: Seq<u8>,
    commitment: Seq<u8>,
    leaf_index: nat,
    siblings: Seq<Seq<u8>>,
)
    requires
        caller == p.authority@,
        !p.registry.spent_spec(nullifier),
        !verify_ok_spec(p.height_spec(), commitment, leaf_index, siblings, p.root_spec()),
    ensures
        withdraw_refusal(p, caller, nullifier, commitment, leaf_index, siblings) == Some(
            PoolError::ProofError,
        ),
{
}

/// A spent nullifier is refused with `DoubleSpendError` whatever
/// commitment and proof accompany it.  A successful withdrawal ensures
/// the nullifier it revealed is recorded, and every operation keeps the
/// record, so a second attempt with the same nullifier meets exactly this
/// premise.
pub proof fn lemma_double_spend_refused(
    p: PoolLedger,
    caller: Seq<u8>,
    nullifier: Seq<u8>,
    commitment: Seq<u8>,
    leaf_index: nat,
    siblings: Seq<Seq<u8>>,
)
    requires
        caller == p.authority@,
        p.registry.spent_spec(nullifier),
    ensures
        withdraw_refusal(p, caller, nullifier, commitment, leaf_index, siblings) == Some(
            PoolError::DoubleSpendError,
        ),
{
}

/// A withdrawal that passes every check is accepted: an authorized
/// caller, a fresh nullifier, a proof that reproduces the current root —
/// `prove_current` yields one for any deposited commitment of a tracked
/// pool — and a funded vault leave nothing to refuse.
pub proof fn lemma_valid_withdrawal_accepted(
    p: PoolLedger,
    caller: Seq<u8>,
    nullifier: Seq<u8>,
    commitment: Seq<u8>,
    leaf_index: nat,
    siblings: Seq<Seq<u8>>,
)
    requires
        caller == p.authority@,
        !p.registry.spent_spec(nullifier),
        verify_ok_spec(p.height_spec(), commitment, leaf_index, siblings, p.root_spec()),
        p.vault_balance >= p.deposit_amount,
    ensures
        withdraw_refusal(p, caller, nullifier, commitment, leaf_index, siblings) is None,
{
}

/// The vault balance always equals the denomination times the number of
/// deposits completed minus withdrawals completed — in every reachable
/// pool state, after arbitrary interleavings.
pub proof fn lemma_vault_accounting(p: PoolLedger)
    requires
        p.wf(),
    ensures
        p.nullifiers().len() <= p.commitments().len(),
        p.vault_balance as int == p.deposit_amount as int * (p.commitments().len()
            - p.nullifiers().len()),
{
}

} // verus!
