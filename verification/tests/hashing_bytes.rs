use anonymity_pool::hashing::{leaf_hash, node_hash, LEAF_DOMAIN, NODE_DOMAIN};
use anonymity_pool::types::Digest;

fn sha256_bytes(input: &[u8]) -> [u8; 32] {
    let out = <sha2::Sha256 as sha2::Digest>::digest(input);
    out.into()
}

#[test]
fn leaf_hash_is_domain_separated_sha256() {
    let leaf = Digest::new([42u8; 32]);
    let mut preimage = vec![LEAF_DOMAIN];
    preimage.extend_from_slice(&leaf.bytes);
    let expected = sha256_bytes(&preimage);
    assert_eq!(leaf_hash(&leaf).bytes, expected);
}

#[test]
fn node_hash_is_domain_separated_sha256() {
    let left = Digest::new([3u8; 32]);
    let right = Digest::new([4u8; 32]);
    let mut preimage = vec![NODE_DOMAIN];
    preimage.extend_from_slice(&left.bytes);
    preimage.extend_from_slice(&right.bytes);
    let expected = sha256_bytes(&preimage);
    assert_eq!(node_hash(&left, &right).bytes, expected);
}

#[test]
fn leaf_and_node_domains_differ_on_same_bytes() {
    // A leaf digest can never collide with an internal-node digest built
    // from the same 64 input bytes under another domain byte.
    let zero = Digest::zero();
    let as_leaf = leaf_hash(&zero);
    let as_node = node_hash(&zero, &zero);
    assert_ne!(as_leaf, as_node);
    assert_ne!(as_leaf, zero);
    assert_ne!(as_node, zero);
}

#[test]
fn digest_equality_is_byte_equality() {
    let a = Digest::new([7u8; 32]);
    let b = Digest::new([7u8; 32]);
    assert!(a.eq_bytes(&b));
    let mut bytes = [7u8; 32];
    bytes[31] = 8;
    let c = Digest::new(bytes);
    assert!(!a.eq_bytes(&c));
}
