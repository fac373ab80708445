//! BLAKE3 digests.

use vstd::prelude::*;

verus! {

/// The 32-byte BLAKE3 digest of `data`.
pub uninterp spec fn blake3_digest(data: Seq<u8>) -> Seq<u8>;

/// Calls `blake3::hash`. The contract claims only that the result is the
/// digest of exactly the given bytes (a deterministic function of them) and
/// that it is 32 bytes long; the BLAKE3 algorithm itself is not restated.
#[verifier::external_body]
pub fn hash32(data: &[u8]) -> (res: [u8; 32])
    ensures
        res@ == blake3_digest(data@),
        res@.len() == 32,
{
    *blake3::hash(data).as_bytes()
}

#[verifier::external_type_specification]
#[verifier::external_body]
pub struct ExBlake3Hasher(blake3::Hasher);

/// The bytes an incremental BLAKE3 hasher has taken in so far.
pub uninterp spec fn hasher_input(h: blake3::Hasher) -> Seq<u8>;

/// Calls `blake3::Hasher::new`. The contract claims that the new hasher
/// has taken in nothing.
#[verifier::external_body]
pub(crate) fn hasher_new() -> (res: blake3::Hasher)
    ensures
        hasher_input(res) == Seq::<u8>::empty(),
{
    blake3::Hasher::new()
}

/// Calls `blake3::Hasher::update`. The contract claims that the hasher has
/// then taken in `data` after what it held before, as the crate documents
/// for incremental hashing.
#[verifier::external_body]
pub(crate) fn hasher_update(h: &mut blake3::Hasher, data: &[u8])
    ensures
        hasher_input(*final(h)) == hasher_input(*old(h)) + data@,
{
    h.update(data);
}

/// Calls `blake3::Hasher::finalize` on a hasher made by [`hasher_new`].
/// The contract claims that the result is the digest `blake3::hash` gives
/// for everything the hasher took in, as the crate documents.
#[verifier::external_body]
pub(crate) fn hasher_finalize(h: &blake3::Hasher) -> (res: [u8; 32])
    ensures
        res@ == blake3_digest(hasher_input(*h)),
{
    *h.finalize().as_bytes()
}

} // verus!
