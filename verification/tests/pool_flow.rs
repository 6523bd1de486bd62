use anonymity_pool::errors::PoolError;
use anonymity_pool::pool::PoolLedger;
use anonymity_pool::types::{Address, Digest};

fn digest(fill: u8) -> Digest {
    Digest::new([fill; 32])
}

fn address(fill: u8) -> Address {
    Address::new([fill; 32])
}

fn test_pool(height: u8) -> PoolLedger {
    PoolLedger::initialize(address(1), address(2), 1000, height)
}

#[test]
fn end_to_end_flow() {
    let authority = address(1);
    let recipient = address(9);
    let mut pool = test_pool(2);
    assert_eq!(pool.vault_balance, 0);
    assert_eq!(pool.next_leaf_index(), 0);

    let c0 = digest(10);
    let c1 = digest(11);
    let c2 = digest(12);
    let r0 = pool.deposit(&c0, 100).unwrap();
    let r1 = pool.deposit(&c1, 101).unwrap();
    let r2 = pool.deposit(&c2, 102).unwrap();
    assert_eq!(r0.leaf_index, 0);
    assert_eq!(r1.leaf_index, 1);
    assert_eq!(r2.leaf_index, 2);
    assert_eq!(pool.vault_balance, 3000);

    let n0 = digest(200);
    let proof_c0 = pool.prove_current(0);
    let receipt = pool
        .withdraw(&authority, &n0, &c0, 0, &proof_c0, &recipient, 103)
        .unwrap();
    assert_eq!(receipt.amount, 1000);
    assert_eq!(receipt.recipient, recipient);
    assert_eq!(pool.vault_balance, 2000);

    let again = pool.withdraw(&authority, &n0, &c0, 0, &proof_c0, &recipient, 104);
    assert_eq!(again.unwrap_err(), PoolError::DoubleSpendError);
    assert_eq!(pool.vault_balance, 2000);

    let c3 = digest(13);
    let r3 = pool.deposit(&c3, 105).unwrap();
    assert_eq!(r3.leaf_index, 3);
    let c4 = digest(14);
    let overflow = pool.deposit(&c4, 106);
    assert_eq!(overflow.unwrap_err(), PoolError::CapacityError);
    assert_eq!(pool.next_leaf_index(), 4);
}

#[test]
fn deposit_assigns_dense_indices() {
    let mut pool = test_pool(3);
    for k in 0..8u8 {
        assert_eq!(pool.next_leaf_index(), k as u32);
        assert!(!pool.is_full());
        let receipt = pool.deposit(&digest(k), k as i64).unwrap();
        assert_eq!(receipt.leaf_index, k as u32);
        assert_eq!(receipt.event.leaf_index, k as u32);
        assert_eq!(receipt.event.commitment, digest(k));
        assert_eq!(pool.next_leaf_index(), k as u32 + 1);
    }
    assert!(pool.is_full());
    assert_eq!(pool.store.leaves.len(), 8);
    for k in 0..8u8 {
        assert_eq!(pool.store.leaves[k as usize], digest(k));
    }
}

#[test]
fn nullifiers_recorded_once_each() {
    let authority = address(1);
    let recipient = address(9);
    let mut pool = test_pool(2);
    pool.deposit(&digest(10), 0).unwrap();
    pool.deposit(&digest(11), 1).unwrap();

    let n0 = digest(100);
    let n1 = digest(101);
    let p0 = pool.prove_current(0);
    let p1 = pool.prove_current(1);
    pool.withdraw(&authority, &n0, &digest(10), 0, &p0, &recipient, 2)
        .unwrap();
    pool.withdraw(&authority, &n1, &digest(11), 1, &p1, &recipient, 3)
        .unwrap();

    assert_eq!(pool.registry.spent.len(), 2);
    assert_ne!(pool.registry.spent[0], pool.registry.spent[1]);

    // A spent nullifier is refused even with a different commitment and proof.
    let second = pool.withdraw(&authority, &n0, &digest(11), 1, &p1, &recipient, 4);
    assert_eq!(second.unwrap_err(), PoolError::DoubleSpendError);
    assert_eq!(pool.registry.spent.len(), 2);
}

#[test]
fn unknown_commitment_fails_proof_check() {
    let authority = address(1);
    let recipient = address(9);
    let mut pool = test_pool(2);
    pool.deposit(&digest(10), 0).unwrap();

    // Fresh nullifier, commitment never deposited, proof borrowed from leaf 0.
    let stranger = digest(77);
    let proof_c0 = pool.prove_current(0);
    let r = pool.withdraw(&authority, &digest(200), &stranger, 0, &proof_c0, &recipient, 1);
    assert_eq!(r.unwrap_err(), PoolError::ProofError);
    assert_eq!(pool.vault_balance, 1000);
    assert_eq!(pool.registry.spent.len(), 0);
}

#[test]
fn vault_tracks_denomination_times_net_deposits() {
    let authority = address(1);
    let recipient = address(9);
    let mut pool = test_pool(3);
    let mut deposits: u64 = 0;
    let mut withdrawals: u64 = 0;

    for k in 0..3u8 {
        pool.deposit(&digest(k), k as i64).unwrap();
        deposits += 1;
        assert_eq!(pool.vault_balance, 1000 * (deposits - withdrawals));
    }
    let p1 = pool.prove_current(1);
    pool.withdraw(&authority, &digest(101), &digest(1), 1, &p1, &recipient, 10)
        .unwrap();
    withdrawals += 1;
    assert_eq!(pool.vault_balance, 1000 * (deposits - withdrawals));

    pool.deposit(&digest(3), 11).unwrap();
    deposits += 1;
    assert_eq!(pool.vault_balance, 1000 * (deposits - withdrawals));

    let p0 = pool.prove_current(0);
    pool.withdraw(&authority, &digest(100), &digest(0), 0, &p0, &recipient, 12)
        .unwrap();
    withdrawals += 1;
    assert_eq!(pool.vault_balance, 1000 * (deposits - withdrawals));
}

#[test]
fn withdrawal_requires_authority_credential() {
    let recipient = address(9);
    let mut pool = test_pool(2);
    pool.deposit(&digest(10), 0).unwrap();
    let proof_c0 = pool.prove_current(0);

    let imposter = address(66);
    let r = pool.withdraw(&imposter, &digest(200), &digest(10), 0, &proof_c0, &recipient, 1);
    assert_eq!(r.unwrap_err(), PoolError::AuthorizationError);
    assert_eq!(pool.registry.spent.len(), 0);
    assert_eq!(pool.vault_balance, 1000);
}

#[test]
fn capacity_edge_at_height_one() {
    let mut pool = test_pool(1);
    assert!(!pool.is_full());
    pool.deposit(&digest(1), 0).unwrap();
    pool.deposit(&digest(2), 1).unwrap();
    assert!(pool.is_full());
    let r = pool.deposit(&digest(3), 2);
    assert_eq!(r.unwrap_err(), PoolError::CapacityError);
    assert_eq!(pool.next_leaf_index(), 2);
}

#[test]
fn initialize_pins_pool_fields() {
    let pool = PoolLedger::initialize(address(3), address(4), 250, 5);
    assert_eq!(pool.authority, address(3));
    assert_eq!(pool.token_mint, address(4));
    assert_eq!(pool.deposit_amount, 250);
    assert_eq!(pool.vault_balance, 0);
    assert_eq!(pool.next_leaf_index(), 0);
    assert_eq!(pool.accumulator.capacity, 32);
    assert!(!pool.is_full());
    assert_eq!(pool.registry.spent.len(), 0);
}

#[test]
fn error_names_are_distinct() {
    let names = [
        PoolError::AuthorizationError.name(),
        PoolError::CapacityError.name(),
        PoolError::DoubleSpendError.name(),
        PoolError::ProofError.name(),
        PoolError::BalanceError.name(),
    ];
    for i in 0..names.len() {
        for j in 0..names.len() {
            if i != j {
                assert_ne!(names[i], names[j]);
            }
        }
    }
}
