//! Configuration of the SHA-256 Merkle tree that commits to vectors of byte strings: leaves
//! and inner nodes are both SHA-256 digests, and a leaf digest enters the inner layer as is.
use vstd::prelude::*;

verus! {

/// Turns a leaf digest into the input of the two-to-one hash: the bytes unchanged.
pub struct CustomDigestConverter;

impl CustomDigestConverter {
    pub fn convert(item: Vec<u8>) -> (r: Vec<u8>)
        ensures
            r@ == item@,
    {
        item
    }
}

/// Marker for the tree whose leaf hash and two-to-one hash are both SHA-256 and whose
/// digests pass between layers through `CustomDigestConverter`.
pub struct Sha256MerkleTreeParams;

} // verus!
