use vstd::prelude::*;

verus! {

// blake3's incremental hasher, declared so that verified code can hold one
// and feed it file contents piece by piece.
#[verifier::external_type_specification]
#[verifier::external_body]
pub struct ExHasher(blake3::Hasher);

/// The bytes fed so far into a blake3 hasher, in the order they were fed.
pub uninterp spec fn hasher_input(h: blake3::Hasher) -> Seq<u8>;

/// The 32-byte blake3 digest of a byte sequence. The digest is a function of
/// the input bytes alone, the same in every process and on every machine.
pub uninterp spec fn blake3_digest(s: Seq<u8>) -> Seq<u8>;

/// Relies on blake3::Hasher::new: a fresh hasher has been fed nothing.
#[verifier::external_body]
pub(crate) fn hasher_new() -> (h: blake3::Hasher)
    ensures
        hasher_input(h) == Seq::<u8>::empty(),
{
    blake3::Hasher::new()
}

/// Relies on blake3::Hasher::update: it appends the given bytes to the
/// stream being hashed.
#[verifier::external_body]
pub(crate) fn hasher_update(h: &mut blake3::Hasher, data: &[u8])
    ensures
        hasher_input(*final(h)) == hasher_input(*old(h)) + data@,
{
    h.update(data);
}

/// Relies on blake3::Hasher::count: it returns the total number of bytes
/// fed so far through update.
#[verifier::external_body]
pub(crate) fn hasher_count(h: &blake3::Hasher) -> (n: u64)
    requires
        hasher_input(*h).len() <= u64::MAX,
    ensures
        n == hasher_input(*h).len(),
{
    h.count()
}

/// Relies on blake3::Hasher::finalize: the digest depends on the bytes fed
/// so far and on nothing else; finalizing does not change the hasher.
/// Every hasher handed in here was made by hasher_new, the only
/// constructor this crate exposes, so finalize's plain path is taken.
#[verifier::external_body]
pub(crate) fn hasher_finalize(h: &blake3::Hasher) -> (d: [u8; 32])
    ensures
        d@ == blake3_digest(hasher_input(*h)),
{
    *h.finalize().as_bytes()
}

} // verus!
