//! The 32-byte hash value that the tree is built from, and the calls into
//! `kaspa_hashes` that the tree needs.


use kaspa_hashes::HasherBase;
use vstd::prelude::*;

verus! {

/// A 32-byte hash, viewed as the sequence of its bytes.
#[derive(Clone, Copy, Debug, PartialEq, Eq)]
pub struct Hash32 {
    pub bytes: [u8; 32],
}

impl View for Hash32 {
    type V = Seq<u8>;

    open spec fn view(&self) -> Seq<u8> {
        self.bytes@
    }
}

impl Hash32 {
    /// Builds a hash from its 32 bytes.
    pub fn from_bytes(bytes: [u8; 32]) -> (h: Hash32)
        ensures
            h@ == bytes@,
    {
        Hash32 { bytes }
    }

    /// The 32 bytes of the hash.
    pub fn as_bytes(&self) -> (bytes: [u8; 32])
        ensures
            bytes@ == self@,
    {
        self.bytes
    }

    /// Byte-wise equality of two hashes.
    pub fn is_equal(&self, other: &Hash32) -> (eq: bool)
        ensures
            eq == (self@ == other@),
    {
        let mut i: usize = 0;
        while i < 32
            invariant
                i <= 32,
                self@.len() == 32,
                other@.len() == 32,
                forall|j: int| 0 <= j < i ==> self@[j] == other@[j],
            decreases 32 - i,
        {
            if self.bytes[i] != other.bytes[i] {
                return false;
            }
            i = i + 1;
        }
        assert(self@ =~= other@);
        true
    }
}

/// The 32 zero bytes.
pub open spec fn zero_bytes() -> Seq<u8> {
    Seq::new(32, |i: int| 0u8)
}

/// What `kaspa_hashes::MerkleBranchHash` returns for a left node followed by a
/// right node: BLAKE2b with a 32-byte output, keyed with "MerkleBranchHash",
/// over the bytes of the left node and then those of the right node.
pub uninterp spec fn merkle_branch_hash(left: Seq<u8>, right: Seq<u8>) -> Seq<u8>;

/// The all-zero hash `kaspa_hashes::ZERO_HASH`; its contract states the value
/// that the crate's source gives it: 32 zero bytes.
#[verifier::external_body]
pub(crate) fn zero_hash() -> (zero: Hash32)
    ensures
        zero@ == zero_bytes(),
{
    Hash32 { bytes: kaspa_hashes::ZERO_HASH.as_bytes() }
}

/// Hashes two tree nodes with `kaspa_hashes::MerkleBranchHash`: a fresh hasher,
/// `update` with the left node, `update` with the right node, `finalize`. The
/// contract claims only that the result is the named function of the two nodes'
/// bytes; nothing is said of that function's values.
#[verifier::external_body]
pub(crate) fn merkle_hash(left_node: Hash32, right_node: Hash32) -> (hash: Hash32)
    ensures
        hash@ == merkle_branch_hash(left_node@, right_node@),
{
    let mut hasher = kaspa_hashes::MerkleBranchHash::new();
    hasher.update(kaspa_hashes::Hash::from_bytes(left_node.bytes)).update(
        kaspa_hashes::Hash::from_bytes(right_node.bytes),
    );
    Hash32 { bytes: hasher.finalize().as_bytes() }
}

} // verus!
