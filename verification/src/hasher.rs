//! Content digests computed with BLAKE3.
use vstd::prelude::*;

use crate::model::ContentHash;

verus! {

/// The BLAKE3 hasher of the `blake3` crate, carried through opaquely.
#[verifier::external_type_specification]
#[verifier::external_body]
pub struct ExBlake3Hasher(blake3::Hasher);

/// The bytes that a `blake3::Hasher` has been given since it was created: the
/// state of an incremental hasher, which `Hasher::update` extends.
pub uninterp spec fn hasher_input(h: blake3::Hasher) -> Seq<u8>;

/// The hasher computes the regular (unkeyed) BLAKE3 hash from the start of its
/// input: it was made by `Hasher::new` and given no key, derive-key context or
/// input offset.
pub uninterp spec fn hasher_is_regular(h: blake3::Hasher) -> bool;

/// The BLAKE3 digest that `blake3::Hasher::finalize` returns for a hasher that
/// has been given `input`, its 32 bytes read as two big-endian `u128` halves.
pub uninterp spec fn blake3_digest(input: Seq<u8>) -> ContentHash;

/// Calls `blake3::Hasher::new`, which makes a hasher for the regular
/// (unkeyed) hash function that has been given no input yet.
#[verifier::external_body]
fn blake3_hasher_new() -> (h: blake3::Hasher)
    ensures
        hasher_input(h) == Seq::<u8>::empty(),
        hasher_is_regular(h),
{
    blake3::Hasher::new()
}

/// Calls `blake3::Hasher::update`, which adds `data` to the end of the input.
/// On a regular hasher it does not panic, and the hasher stays regular.
#[verifier::external_body]
fn blake3_hasher_update(h: &mut blake3::Hasher, data: &[u8])
    requires
        hasher_is_regular(*old(h)),
    ensures
        hasher_is_regular(*final(h)),
        hasher_input(*final(h)) == hasher_input(*old(h)) + data@,
    no_unwind
{
    h.update(data);
}

/// Calls `blake3::Hasher::finalize`, which returns the digest of the input
/// given so far and leaves the hasher unchanged; the 32 bytes are converted
/// to two big-endian halves.
#[verifier::external_body]
fn blake3_hasher_finalize(h: &blake3::Hasher) -> (r: ContentHash)
    requires
        hasher_is_regular(*h),
    ensures
        r == blake3_digest(hasher_input(*h)),
{
    let digest = h.finalize();
    let bytes: &[u8; 32] = digest.as_bytes();
    let mut hi = [0u8; 16];
    let mut lo = [0u8; 16];
    hi.copy_from_slice(&bytes[..16]);
    lo.copy_from_slice(&bytes[16..]);
    ContentHash { hi: u128::from_be_bytes(hi), lo: u128::from_be_bytes(lo) }
}

/// An incremental content hasher: feed it a file's bytes in any number of
/// pieces, then take the digest of everything it was fed.
pub struct ContentHasher {
    state: blake3::Hasher,
}

impl ContentHasher {
    #[verifier::type_invariant]
    spec fn regular(self) -> bool {
        hasher_is_regular(self.state)
    }

    /// The bytes fed to this hasher so far.
    pub closed spec fn input(&self) -> Seq<u8> {
        hasher_input(self.state)
    }

    /// A hasher that has been fed nothing.
    pub fn new() -> (r: ContentHasher)
        ensures
            r.input() == Seq::<u8>::empty(),
    {
        ContentHasher { state: blake3_hasher_new() }
    }

    /// Feeds `data` after everything fed before.
    pub fn update(&mut self, data: &[u8])
        ensures
            final(self).input() == old(self).input() + data@,
    {
        proof {
            use_type_invariant(&*self);
        }
        blake3_hasher_update(&mut self.state, data);
    }

    /// The digest of everything fed so far.
    pub fn finalize(&self) -> (r: ContentHash)
        ensures
            r == blake3_digest(self.input()),
    {
        proof {
            use_type_invariant(self);
        }
        blake3_hasher_finalize(&self.state)
    }
}

/// The digest of `data` fed in one piece.
pub fn hash_bytes(data: &[u8]) -> (r: ContentHash)
    ensures
        r == blake3_digest(data@),
{
    let mut hasher = ContentHasher::new();
    hasher.update(data);
    assert(Seq::<u8>::empty() + data@ =~= data@);
    hasher.finalize()
}

} // verus!
