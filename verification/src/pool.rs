//! The pool ledger and the deposit / withdrawal protocols.
//!
//! A deposit appends a commitment to the store, folds it into the
//! accumulator and credits the vault by the fixed denomination.  A
//! withdrawal checks, in order: the caller's credential, that the
//! nullifier is fresh, that the inclusion proof reproduces the current
//! root, and that the vault covers the denomination; only then does it
//! record the nullifier and debit the vault.  Each operation either
//! completes all its effects or fails with one structured code and no
//! effect at all.  Moving the actual tokens is the host's capability; the
//! ledger accounts for the balance the vault must hold.

use vstd::prelude::*;
use vstd::arithmetic::mul::{
    lemma_mul_inequality,
    lemma_mul_is_commutative,
    lemma_mul_is_distributive_add,
    lemma_mul_is_distributive_sub,
};
use crate::types::{digest_views, Address, Digest};
use crate::errors::PoolError;
use crate::hashing::{empty_subtree_at, leaf_hash_spec};
use crate::merkle::{pow2, root_from_path, verify_ok_spec, MerkleAccumulator};
use crate::prover::rebuild_path;
use crate::registry::NullifierRegistry;
use crate::store::CommitmentStore;
use crate::tree::{lemma_insert_preserves_tracking, lemma_tree_root_empty, tracks};

verus! {

/// Record of one accepted deposit.
#[derive(Clone, Copy, Debug)]
pub struct DepositEvent {
    /// The commitment that was enrolled.
    pub commitment: Digest,
    /// The leaf index it received.
    pub leaf_index: u32,
    /// Host-supplied time of the deposit.
    pub timestamp: i64,
}

/// Record of one accepted withdrawal.
#[derive(Clone, Copy, Debug)]
pub struct WithdrawEvent {
    /// The nullifier digest that was revealed and recorded.
    pub nullifier_hash: Digest,
    /// Where the denomination is to be sent.
    pub recipient: Address,
    /// Host-supplied time of the withdrawal.
    pub timestamp: i64,
}

/// Everything a successful deposit hands back to the host.
#[derive(Clone, Debug)]
pub struct DepositReceipt {
    /// The dense leaf index assigned to the commitment.
    pub leaf_index: u32,
    /// The accumulator root right after the insertion.
    pub new_root: Digest,
    /// The accumulator's own inclusion proof for the fresh leaf against
    /// `new_root`.
    pub proof_path: Vec<Digest>,
    /// The event the host should emit.
    pub event: DepositEvent,
}

/// Everything a successful withdrawal hands back to the host.
#[derive(Clone, Copy, Debug)]
pub struct WithdrawReceipt {
    /// The fixed denomination the host must now transfer from the vault.
    pub amount: u64,
    /// Where to transfer it.
    pub recipient: Address,
    /// The event the host should emit.
    pub event: WithdrawEvent,
}

/// Aggregate pool state: credentials, denomination, vault accounting and
/// the three core components.
#[derive(Clone, Debug)]
pub struct PoolLedger {
    /// Credential that may drive withdrawals.
    pub authority: Address,
    /// Reference to the token type the pool holds.
    pub token_mint: Address,
    /// The fixed denomination every deposit locks and every withdrawal
    /// releases.
    pub deposit_amount: u64,
    /// Balance the vault account must hold.
    pub vault_balance: u64,
    /// The append-only commitment arena.
    pub store: CommitmentStore,
    /// The incremental Merkle accumulator over the commitments.
    pub accumulator: MerkleAccumulator,
    /// The spent-nullifier registry.
    pub registry: NullifierRegistry,
}

/// The code a withdrawal is refused with, or `None` when every check
/// passes: the checks run in this order and the first failure wins.
pub open spec fn withdraw_refusal(
    p: PoolLedger,
    caller: Seq<u8>,
    nullifier: Seq<u8>,
    commitment: Seq<u8>,
    leaf_index: nat,
    siblings: Seq<Seq<u8>>,
) -> Option<PoolError> {
    if caller != p.authority@ {
        Some(PoolError::AuthorizationError)
    } else if p.registry.spent_spec(nullifier) {
        Some(PoolError::DoubleSpendError)
    } else if !verify_ok_spec(
        p.accumulator.height as nat,
        commitment,
        leaf_index,
        siblings,
        p.accumulator.root@,
    ) {
        Some(PoolError::ProofError)
    } else if p.vault_balance < p.deposit_amount {
        Some(PoolError::BalanceError)
    } else {
        None
    }
}

impl PoolLedger {
    /// The pool invariant: components well formed and in step, and the
    /// vault balance equal to the denomination times the number of
    /// deposits completed minus withdrawals completed.
    pub open spec fn wf(&self) -> bool {
        &&& self.accumulator.wf()
        &&& self.store.wf()
        &&& self.registry.wf()
        &&& self.store.capacity == self.accumulator.capacity
        &&& self.store.leaves@.len() == self.accumulator.num_leaves as nat
        &&& self.deposit_amount >= 1
        &&& self.deposit_amount as nat * pow2(self.accumulator.height as nat) <= u64::MAX as nat
        &&& self.registry.spent@.len() <= self.store.leaves@.len()
        &&& self.vault_balance as int == self.deposit_amount as int * (
            self.store.leaves@.len() - self.registry.spent@.len())
    }

    /// The deposited commitments, in leaf-index order.
    pub open spec fn commitments(&self) -> Seq<Seq<u8>> {
        self.store.commitments()
    }

    /// The spent nullifier digests, in the order they were revealed.
    pub open spec fn nullifiers(&self) -> Seq<Seq<u8>> {
        self.registry.nullifiers()
    }

    /// The current accumulator root.
    pub open spec fn root_spec(&self) -> Seq<u8> {
        self.accumulator.root@
    }

    /// The tree height.
    pub open spec fn height_spec(&self) -> nat {
        self.accumulator.height as nat
    }

    /// Creates an active pool: empty tree, empty registry, zero vault.
    ///
    /// The height is bounded so leaf indices fit the persisted 4-byte
    /// field, and the denomination must be positive and small enough that
    /// a full pool's vault balance fits a machine word.
    pub fn initialize(
        authority: Address,
        token_mint: Address,
        deposit_amount: u64,
        height: u8,
    ) -> (r: PoolLedger)
        requires
            1 <= height <= 31,
            deposit_amount >= 1,
            deposit_amount as nat * pow2(height as nat) <= u64::MAX as nat,
        ensures
            r.wf(),
            r.authority == authority,
            r.token_mint == token_mint,
            r.deposit_amount == deposit_amount,
            r.vault_balance == 0,
            r.height_spec() == height as nat,
            r.accumulator.num_leaves == 0,
            r.commitments() == Seq::<Seq<u8>>::empty(),
            r.nullifiers() == Seq::<Seq<u8>>::empty(),
            r.root_spec() == empty_subtree_at(height as nat),
            tracks(r.accumulator, r.commitments()),
    {
        let accumulator = MerkleAccumulator::new(height);
        let store = CommitmentStore::new(accumulator.capacity);
        let registry = NullifierRegistry::new();
        let r = PoolLedger {
            authority,
            token_mint,
            deposit_amount,
            vault_balance: 0,
            store,
            accumulator,
            registry,
        };
        proof {
            lemma_tree_root_empty(height as nat);
            assert forall|l: int| 0 <= l < height implies (r.commitments().len() / #[trigger] pow2(
                l as nat,
            )) % 2 == 0 by {
                crate::merkle::lemma_pow2_pos(l as nat);
            }
            assert(tracks(r.accumulator, r.commitments()));
        }
        r
    }

    /// The next leaf index, equal to the number of deposits completed.
    pub fn next_leaf_index(&self) -> (r: u32)
        requires
            self.wf(),
        ensures
            r as nat == self.commitments().len(),
    {
        self.accumulator.num_leaves
    }

    /// Whether the tree is at capacity.
    pub fn is_full(&self) -> (r: bool)
        requires
            self.wf(),
        ensures
            r == (self.commitments().len() == pow2(self.height_spec())),
    {
        self.store.is_full()
    }

    /// Enrolls a commitment: assigns it the next dense leaf index, folds
    /// it into the accumulator and credits the vault by the denomination.
    /// Fails with `CapacityError`, and changes nothing, exactly when the
    /// tree is full.
    ///
    /// The receipt carries the accumulator's own inclusion proof for the
    /// fresh leaf: it verifies against the root taken right after this
    /// insertion.
    pub fn deposit(&mut self, commitment: &Digest, timestamp: i64) -> (r: Result<
        DepositReceipt,
        PoolError,
    >)
        requires
            old(self).wf(),
        ensures
            final(self).wf(),
            final(self).authority == old(self).authority,
            final(self).token_mint == old(self).token_mint,
            final(self).deposit_amount == old(self).deposit_amount,
            final(self).height_spec() == old(self).height_spec(),
            final(self).nullifiers() == old(self).nullifiers(),
            tracks(old(self).accumulator, old(self).commitments()) ==> tracks(
                final(self).accumulator,
                final(self).commitments(),
            ),
            match r {
                Ok(receipt) => {
                    &&& old(self).commitments().len() < pow2(old(self).height_spec())
                    &&& receipt.leaf_index as nat == old(self).commitments().len()
                    &&& final(self).commitments() == old(self).commitments().push(commitment@)
                    &&& final(self).vault_balance == old(self).vault_balance + old(
                        self,
                    ).deposit_amount
                    &&& receipt.new_root == final(self).accumulator.root
                    &&& final(self).root_spec() == root_from_path(
                        leaf_hash_spec(commitment@),
                        receipt.leaf_index as nat,
                        digest_views(receipt.proof_path@),
                    )
                    &&& verify_ok_spec(
                        final(self).height_spec(),
                        commitment@,
                        receipt.leaf_index as nat,
                        digest_views(receipt.proof_path@),
                        final(self).root_spec(),
                    )
                    &&& receipt.event == (DepositEvent {
                        commitment: *commitment,
                        leaf_index: receipt.leaf_index,
                        timestamp,
                    })
                },
                Err(e) => {
                    &&& e == PoolError::CapacityError
                    &&& old(self).commitments().len() == pow2(old(self).height_spec())
                    &&& *final(self) == *old(self)
                },
            },
    {
        if self.store.is_full() {
            return Err(PoolError::CapacityError);
        }
        let ghost pre = *self;
        let index = match self.store.append(commitment) {
            Ok(index) => index,
            Err(e) => {
                return Err(e);
            },
        };
        let proof_path = self.accumulator.insert(commitment);
        proof {
            if tracks(pre.accumulator, pre.commitments()) {
                assert forall|j: int| 0 <= j < digest_views(proof_path@).len() implies digest_views(
                    proof_path@,
                )[j] == pre.accumulator.sibling_spec(pre.commitments().len(), j as nat) by {
                    assert(digest_views(proof_path@)[j] == proof_path@[j]@);
                }
                lemma_insert_preserves_tracking(
                    pre.accumulator,
                    self.accumulator,
                    commitment@,
                    digest_views(proof_path@),
                    pre.commitments(),
                );
                assert(self.commitments() =~= pre.commitments().push(commitment@));
            }
        }
        proof {
            let c = pre.store.leaves@.len() as int;
            let n = pre.registry.spent@.len() as int;
            let a = pre.deposit_amount as int;
            let cap = pow2(pre.height_spec()) as int;
            assert(pre.vault_balance as int == a * (c - n));
            lemma_mul_is_distributive_add(a, c - n, 1);
            assert(a * (c - n + 1) == a * (c - n) + a * 1);
            lemma_mul_inequality(c - n + 1, cap, a);
            lemma_mul_is_commutative(a, c - n + 1);
            lemma_mul_is_commutative(a, cap);
            assert(a * cap <= u64::MAX as int);
            assert(pre.vault_balance as int + a <= u64::MAX as int);
        }
        self.vault_balance = self.vault_balance + self.deposit_amount;
        let new_root = self.accumulator.root;
        let event = DepositEvent { commitment: *commitment, leaf_index: index, timestamp };
        Ok(DepositReceipt { leaf_index: index, new_root, proof_path, event })
    }

    /// Checks an inclusion proof for a commitment against the current
    /// root.
    pub fn verify_inclusion(
        &self,
        commitment: &Digest,
        leaf_index: u32,
        proof_path: &Vec<Digest>,
    ) -> (r: bool)
        requires
            self.wf(),
        ensures
            r == verify_ok_spec(
                self.height_spec(),
                commitment@,
                leaf_index as nat,
                digest_views(proof_path@),
                self.root_spec(),
            ),
    {
        let expected_root = self.accumulator.root;
        self.accumulator.verify(commitment, leaf_index, proof_path, &expected_root)
    }

    /// Rebuilds an inclusion path for an already-deposited leaf from the
    /// stored commitments, the way an off-chain prover would.
    ///
    /// Against an accumulator that tracks the commitments — which
    /// `initialize` establishes and every operation preserves — the
    /// returned path verifies for that commitment under the current root.
    pub fn prove_current(&self, leaf_index: u32) -> (proof_path: Vec<Digest>)
        requires
            self.wf(),
            leaf_index < self.accumulator.num_leaves,
        ensures
            proof_path@.len() == self.height_spec(),
            tracks(self.accumulator, self.commitments()) ==> verify_ok_spec(
                self.height_spec(),
                self.commitments()[leaf_index as int],
                leaf_index as nat,
                digest_views(proof_path@),
                self.root_spec(),
            ),
    {
        rebuild_path(
            &self.store.leaves,
            &self.accumulator.zeros,
            self.accumulator.height,
            leaf_index,
        )
    }

    /// Releases the denomination to the recipient: checks the caller's
    /// credential, the nullifier's freshness, the inclusion proof against
    /// the current root and the vault's funding, in that order; the first
    /// failure is returned and nothing changes.  On success the nullifier
    /// is recorded — before the host performs the outbound transfer — and
    /// the vault is debited by the denomination.
    pub fn withdraw(
        &mut self,
        caller: &Address,
        nullifier: &Digest,
        commitment: &Digest,
        leaf_index: u32,
        proof_path: &Vec<Digest>,
        recipient: &Address,
        timestamp: i64,
    ) -> (r: Result<WithdrawReceipt, PoolError>)
        requires
            old(self).wf(),
        ensures
            final(self).wf(),
            final(self).authority == old(self).authority,
            final(self).token_mint == old(self).token_mint,
            final(self).deposit_amount == old(self).deposit_amount,
            final(self).height_spec() == old(self).height_spec(),
            final(self).commitments() == old(self).commitments(),
            final(self).root_spec() == old(self).root_spec(),
            final(self).accumulator == old(self).accumulator,
            tracks(old(self).accumulator, old(self).commitments()) ==> tracks(
                final(self).accumulator,
                final(self).commitments(),
            ),
            match r {
                Ok(receipt) => {
                    &&& withdraw_refusal(
                        *old(self),
                        caller@,
                        nullifier@,
                        commitment@,
                        leaf_index as nat,
                        digest_views(proof_path@),
                    ) is None
                    &&& final(self).nullifiers() == old(self).nullifiers().push(nullifier@)
                    &&& final(self).registry.spent_spec(nullifier@)
                    &&& final(self).vault_balance == old(self).vault_balance - old(
                        self,
                    ).deposit_amount
                    &&& receipt.amount == old(self).deposit_amount
                    &&& receipt.recipient == *recipient
                    &&& receipt.event == (WithdrawEvent {
                        nullifier_hash: *nullifier,
                        recipient: *recipient,
                        timestamp,
                    })
                },
                Err(e) => {
                    &&& Some(e) == withdraw_refusal(
                        *old(self),
                        caller@,
                        nullifier@,
                        commitment@,
                        leaf_index as nat,
                        digest_views(proof_path@),
                    )
                    &&& *final(self) == *old(self)
                },
            },
    {
        if !caller.eq_bytes(&self.authority) {
            return Err(PoolError::AuthorizationError);
        }
        if self.registry.contains(nullifier) {
            return Err(PoolError::DoubleSpendError);
        }
        if !self.verify_inclusion(commitment, leaf_index, proof_path) {
            return Err(PoolError::ProofError);
        }
        if self.vault_balance < self.deposit_amount {
            return Err(PoolError::BalanceError);
        }
        let ghost pre = *self;
        self.registry.insert(nullifier);
        proof {
            let c = pre.store.leaves@.len() as int;
            let n = pre.registry.spent@.len() as int;
            let a = pre.deposit_amount as int;
            if c - n < 1 {
                assert(pre.vault_balance as int == a * (c - n));
                assert(c - n == 0);
                assert(a * 0 == 0);
            }
            lemma_mul_is_distributive_sub(a, c - n, 1);
        }
        self.vault_balance = self.vault_balance - self.deposit_amount;
        let event = WithdrawEvent {
            nullifier_hash: *nullifier,
            recipient: *recipient,
            timestamp,
        };
        Ok(WithdrawReceipt { amount: self.deposit_amount, recipient: *recipient, event })
    }
}

} // verus!
