use crate::hash::ContentHash;
use vstd::prelude::*;

verus! {

/// Block size of the whole store, as a power-of-two multiple of 1024 bytes.
pub const BLOCK_SIZE_LOG: u8 = 4;

/// The pre-order outboard of some content and its root hash, with blocks of
/// `1024 << block_log` bytes.
pub uninterp spec fn bao_outboard(data: Seq<u8>, block_log: u8) -> (Seq<u8>, Seq<u8>);

/// The outboard that the store keeps for some content.
pub open spec fn outboard_of(data: Seq<u8>) -> Seq<u8> {
    bao_outboard(data, BLOCK_SIZE_LOG).0
}

/// The hash under which the store keeps some content.
pub open spec fn hash_of(data: Seq<u8>) -> Seq<u8> {
    bao_outboard(data, BLOCK_SIZE_LOG).1
}

/// Relies on bao_tree::io::outboard: the outboard of `data` and its root hash,
/// both a function of the content and the block size alone.
#[verifier::external_body]
fn compute_outboard(data: &[u8], block_log: u8) -> (r: (Vec<u8>, ContentHash))
    requires
        block_log <= 16,
    ensures
        (r.0@, r.1@) == bao_outboard(data@, block_log),
{
    let (outboard, hash) = bao_tree::io::outboard(data, bao_tree::BlockSize(block_log));
    (outboard, ContentHash::from_bytes(*hash.as_bytes()))
}

/// The outboard and hash of `data` at the store's block size.
pub fn outboard_and_hash(data: &[u8]) -> (r: (Vec<u8>, ContentHash))
    ensures
        r.0@ == outboard_of(data@),
        r.1@ == hash_of(data@),
{
    compute_outboard(data, BLOCK_SIZE_LOG)
}

/// Whether two byte buffers are equal.
pub fn bytes_equal(a: &[u8], b: &[u8]) -> (r: bool)
    ensures
        r == (a@ == b@),
{
    if a.len() != b.len() {
        return false;
    }
    let mut i: usize = 0;
    while i < a.len()
        invariant
            0 <= i <= a@.len(),
            a@.len() == b@.len(),
            forall|j: int| 0 <= j < i ==> a@[j] == b@[j],
        decreases a@.len() - i,
    {
        if a[i] != b[i] {
            return false;
        }
        i = i + 1;
    }
    assert(a@ =~= b@);
    true
}

} // verus!
