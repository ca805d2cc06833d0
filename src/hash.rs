use vstd::prelude::*;

verus! {

/// A 32-byte digest.
pub type Digest = [u8; 32];

/// The Keccak-256 digest of a byte string.
pub uninterp spec fn keccak_of(data: Seq<u8>) -> Seq<u8>;

/// The digest of a parent whose children both exist: `keccak(left || right)`.
pub open spec fn combine(left: Seq<u8>, right: Seq<u8>) -> Seq<u8> {
    keccak_of(left + right)
}

/// Relies on ethers::utils::keccak256: the Keccak-256 digest of the bytes it
/// is given, here the 64 bytes of `left` followed by `right`.
#[verifier::external_body]
pub(crate) fn hash_pair(left: &Digest, right: &Digest) -> (r: Digest)
    ensures
        r@ == keccak_of(left@ + right@),
{
    ethers::utils::keccak256([left.as_slice(), right.as_slice()].concat())
}

/// Byte-wise equality of two digests.
pub fn digest_eq(a: &Digest, b: &Digest) -> (r: bool)
    ensures
        r == (a@ == b@),
{
    let mut i: usize = 0;
    while i < 32
        invariant
            i <= 32,
            forall|j: int| 0 <= j < i ==> a@[j] == b@[j],
        decreases 32 - i,
    {
        if a[i] != b[i] {
            return false;
        }
        i = i + 1;
    }
    assert(a@ =~= b@);
    true
}

} // verus!
