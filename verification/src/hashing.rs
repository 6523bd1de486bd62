//! Domain-separated hashing for the Merkle accumulator.
//!
//! The underlying compression function is SHA-256, reached through one
//! trusted wrapper; everything built on top of it is verified.  A leaf is
//! hashed under a different domain byte than an internal node, so an
//! internal-node digest can never be confused with a leaf digest.

use vstd::prelude::*;
use crate::types::Digest;

verus! {

/// Domain byte prepended when hashing a leaf.
pub const LEAF_DOMAIN: u8 = 0;

/// Domain byte prepended when hashing a pair of child nodes.
pub const NODE_DOMAIN: u8 = 1;

/// The SHA-256 digest of a byte sequence.  The digest depends on the input
/// bytes alone; its value is not axiomatised here.
pub uninterp spec fn sha256_of(input: Seq<u8>) -> Seq<u8>;

/// Relies on sha2's `Sha256::digest`: a one-shot SHA-256 whose 32-byte
/// output is a pure function of the input bytes.
#[verifier::external_body]
fn sha256(input: &Vec<u8>) -> (r: Digest)
    ensures
        r@ == sha256_of(input@),
{
    let out = <sha2::Sha256 as sha2::Digest>::digest(input.as_slice());
    Digest { bytes: out.into() }
}

/// The digest of an empty leaf slot: 32 zero bytes.
pub open spec fn zero_leaf() -> Seq<u8> {
    Seq::<u8>::new(32, |i: int| 0u8)
}

/// What hashing a leaf yields: SHA-256 over the leaf domain byte followed
/// by the leaf bytes.
pub open spec fn leaf_hash_spec(leaf: Seq<u8>) -> Seq<u8> {
    sha256_of(seq![LEAF_DOMAIN] + leaf)
}

/// What hashing an internal node yields: SHA-256 over the node domain byte
/// followed by the left and right child digests.
pub open spec fn node_hash_spec(left: Seq<u8>, right: Seq<u8>) -> Seq<u8> {
    sha256_of(seq![NODE_DOMAIN] + left + right)
}

/// Digest of the empty subtree of the given height: the zero leaf at
/// height 0, and at each level above, the node hash of two copies of the
/// empty subtree one level below.
pub open spec fn empty_subtree_at(level: nat) -> Seq<u8>
    decreases level,
{
    if level == 0 {
        zero_leaf()
    } else {
        node_hash_spec(empty_subtree_at((level - 1) as nat), empty_subtree_at((level - 1) as nat))
    }
}

/// Hashes a leaf under the leaf domain.
pub fn leaf_hash(leaf: &Digest) -> (r: Digest)
    ensures
        r@ == leaf_hash_spec(leaf@),
{
    let mut input: Vec<u8> = Vec::new();
    input.push(LEAF_DOMAIN);
    let mut i: usize = 0;
    while i < 32
        invariant
            0 <= i <= 32,
            input@.len() == 1 + i,
            input@[0] == LEAF_DOMAIN,
            forall|j: int| 0 <= j < i ==> input@[1 + j] == leaf.bytes@[j],
        decreases 32 - i,
    {
        input.push(leaf.bytes[i]);
        i += 1;
    }
    proof {
        assert(input@ =~= seq![LEAF_DOMAIN] + leaf@);
    }
    sha256(&input)
}

/// Hashes a pair of child digests under the node domain.
pub fn node_hash(left: &Digest, right: &Digest) -> (r: Digest)
    ensures
        r@ == node_hash_spec(left@, right@),
{
    let mut input: Vec<u8> = Vec::new();
    input.push(NODE_DOMAIN);
    let mut i: usize = 0;
    while i < 32
        invariant
            0 <= i <= 32,
            input@.len() == 1 + i,
            input@[0] == NODE_DOMAIN,
            forall|j: int| 0 <= j < i ==> input@[1 + j] == left.bytes@[j],
        decreases 32 - i,
    {
        input.push(left.bytes[i]);
        i += 1;
    }
    let mut k: usize = 0;
    while k < 32
        invariant
            0 <= k <= 32,
            input@.len() == 33 + k,
            input@[0] == NODE_DOMAIN,
            forall|j: int| 0 <= j < 32 ==> input@[1 + j] == left.bytes@[j],
            forall|j: int| 0 <= j < k ==> input@[33 + j] == right.bytes@[j],
        decreases 32 - k,
    {
        input.push(right.bytes[k]);
        k += 1;
    }
    proof {
        assert(input@ =~= seq![NODE_DOMAIN] + left@ + right@);
    }
    sha256(&input)
}

} // verus!
