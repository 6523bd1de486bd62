use anonymity_pool::pool::PoolLedger;
use anonymity_pool::types::{Address, Digest};

fn digest(fill: u8) -> Digest {
    Digest::new([fill; 32])
}

fn address(fill: u8) -> Address {
    Address::new([fill; 32])
}

fn test_pool(height: u8) -> PoolLedger {
    PoolLedger::initialize(address(1), address(2), 1000, height)
}

#[test]
fn fresh_receipt_proof_verifies() {
    let mut pool = test_pool(3);
    pool.deposit(&digest(1), 0).unwrap();
    let receipt = pool.deposit(&digest(2), 1).unwrap();
    assert_eq!(receipt.new_root, pool.accumulator.root);
    assert!(pool.verify_inclusion(&digest(2), receipt.leaf_index, &receipt.proof_path));
}

#[test]
fn rebuilt_proof_verifies_for_every_leaf() {
    let mut pool = test_pool(3);
    for k in 0..5u8 {
        pool.deposit(&digest(k), k as i64).unwrap();
    }
    for k in 0..5u8 {
        let path = pool.prove_current(k as u32);
        assert!(pool.verify_inclusion(&digest(k), k as u32, &path));
    }
}

#[test]
fn mutated_leaf_fails_verification() {
    let mut pool = test_pool(2);
    let receipt = pool.deposit(&digest(1), 0).unwrap();
    let mut bytes = [1u8; 32];
    for position in 0..32 {
        bytes[position] ^= 0x01;
        let mutated = Digest::new(bytes);
        assert!(!pool.verify_inclusion(&mutated, 0, &receipt.proof_path));
        bytes[position] ^= 0x01;
    }
}

#[test]
fn mutated_proof_element_fails_verification() {
    let mut pool = test_pool(2);
    pool.deposit(&digest(1), 0).unwrap();
    let receipt = pool.deposit(&digest(2), 1).unwrap();
    for level in 0..receipt.proof_path.len() {
        let mut tampered = receipt.proof_path.clone();
        let mut bytes = tampered[level].bytes;
        bytes[7] ^= 0x80;
        tampered[level] = Digest::new(bytes);
        assert!(!pool.verify_inclusion(&digest(2), 1, &tampered));
    }
}

#[test]
fn mutated_index_fails_verification() {
    let mut pool = test_pool(2);
    pool.deposit(&digest(1), 0).unwrap();
    let receipt = pool.deposit(&digest(2), 1).unwrap();
    assert!(pool.verify_inclusion(&digest(2), 1, &receipt.proof_path));
    for wrong in [0u32, 2, 3] {
        assert!(!pool.verify_inclusion(&digest(2), wrong, &receipt.proof_path));
    }
    // An index outside the tree is refused outright.
    assert!(!pool.verify_inclusion(&digest(2), 4, &receipt.proof_path));
}

#[test]
fn mutated_root_fails_verification() {
    let mut pool = test_pool(2);
    let receipt = pool.deposit(&digest(1), 0).unwrap();
    let mut bytes = pool.accumulator.root.bytes;
    bytes[0] ^= 0x01;
    let wrong_root = Digest::new(bytes);
    assert!(pool
        .accumulator
        .verify(&digest(1), 0, &receipt.proof_path, &pool.accumulator.root));
    assert!(!pool.accumulator.verify(&digest(1), 0, &receipt.proof_path, &wrong_root));
}

#[test]
fn malformed_proof_length_is_refused() {
    let mut pool = test_pool(2);
    let receipt = pool.deposit(&digest(1), 0).unwrap();
    let mut short = receipt.proof_path.clone();
    short.pop();
    assert!(!pool.verify_inclusion(&digest(1), 0, &short));
    let mut long = receipt.proof_path.clone();
    long.push(digest(0));
    assert!(!pool.verify_inclusion(&digest(1), 0, &long));
}

#[test]
fn stale_root_proof_is_refused() {
    let mut pool = test_pool(2);
    let receipt = pool.deposit(&digest(1), 0).unwrap();
    assert!(pool.verify_inclusion(&digest(1), 0, &receipt.proof_path));
    // A later deposit moves the root; the old path no longer checks out.
    pool.deposit(&digest(2), 1).unwrap();
    assert!(!pool.verify_inclusion(&digest(1), 0, &receipt.proof_path));
    // A freshly rebuilt path does.
    let rebuilt = pool.prove_current(0);
    assert!(pool.verify_inclusion(&digest(1), 0, &rebuilt));
}

#[test]
fn root_moves_with_every_insertion() {
    let mut pool = test_pool(3);
    let mut seen = vec![pool.accumulator.root];
    for k in 0..4u8 {
        let receipt = pool.deposit(&digest(k), k as i64).unwrap();
        for earlier in &seen {
            assert_ne!(pool.accumulator.root, *earlier);
        }
        // The root is a real tree root, not the latest leaf slipped through.
        assert_ne!(pool.accumulator.root, digest(k));
        assert_eq!(receipt.new_root, pool.accumulator.root);
        seen.push(pool.accumulator.root);
    }
}
