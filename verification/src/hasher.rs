//! The piece hash: the compression function of the piece tree.
//!
//! Two 32-byte nodes are compressed into one by SHA-256 over their
//! concatenation, with the two highest bits of the digest cleared so that the
//! result is a field element. Leaves and inner nodes use the same function.

use crate::types::Commitment;
use sha2::Digest;
use vstd::prelude::*;

verus! {

/// The SHA-256 digest of `data`.
pub uninterp spec fn sha256(data: Seq<u8>) -> Seq<u8>;

/// Hashes `data` with `sha2::Sha256::digest`.
///
/// Trusted: the result is taken to be the SHA-256 digest of the bytes of
/// `data`, which depends on nothing else and is always 32 bytes long.
#[verifier::external_body]
fn sha256_digest(data: &[u8]) -> (digest: [u8; 32])
    ensures
        digest@ == sha256(data@),
{
    sha2::Sha256::digest(data).into()
}

/// A digest with its two highest bits cleared.
pub open spec fn trim_to_fr32(digest: Seq<u8>) -> Seq<u8> {
    digest.update(31, digest[31] & 0x3f)
}

/// The parent of the nodes `left` and `right` in the piece tree.
pub open spec fn piece_hash_spec(left: Seq<u8>, right: Seq<u8>) -> Seq<u8> {
    trim_to_fr32(sha256(left + right))
}

/// The node of 32 zero bytes.
pub open spec fn zero_node() -> Seq<u8> {
    Seq::new(32, |i: int| 0u8)
}

/// The root of the tree of height `height` whose leaves are all zero nodes.
pub open spec fn zero_root(height: nat) -> Seq<u8>
    decreases height,
{
    if height == 0 {
        zero_node()
    } else {
        let below = zero_root((height - 1) as nat);
        piece_hash_spec(below, below)
    }
}

/// Compresses two nodes of the piece tree into their parent.
pub fn piece_hash(a: &[u8; 32], b: &[u8; 32]) -> (parent: Commitment)
    ensures
        parent@ == piece_hash_spec(a@, b@),
{
    let mut buf = [0u8; 64];
    let mut i: usize = 0;
    while i < 32
        invariant
            i <= 32,
            forall|j: int| 0 <= j < i ==> buf@[j] == a@[j],
            forall|j: int| 0 <= j < i ==> buf@[32 + j] == b@[j],
        decreases 32 - i,
    {
        buf[i] = a[i];
        buf[32 + i] = b[i];
        i += 1;
    }
    assert(buf@ =~= a@ + b@);
    let mut parent = sha256_digest(buf.as_slice());
    parent[31] = parent[31] & 0x3f;
    parent
}

} // verus!
