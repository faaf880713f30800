//! SHA-256, the hash that addresses every blob, manifest, and mirror.

use vstd::prelude::*;

verus! {

/// The SHA-256 digest of `data`: a function of the bytes alone.
pub uninterp spec fn spec_sha256(data: Seq<u8>) -> Seq<u8>;

/// `sha2::Sha256::digest`: the 32-byte SHA-256 digest of `data`. The
/// contract names the result and claims nothing more of it.
#[verifier::external_body]
pub(crate) fn sha256(data: &[u8]) -> (digest: [u8; 32])
    ensures
        digest@ == spec_sha256(data@),
{
    <sha2::Sha256 as sha2::Digest>::digest(data).into()
}

/// The running state of `sha2::Sha256`, kept opaque: Verus cannot
/// declare the type itself, a chain of generic wrappers inside `sha2`.
#[verifier::external_body]
struct Sha256Core {
    inner: sha2::Sha256,
}

/// An incremental SHA-256: bytes are fed in chunks, and the digest it
/// finishes with is that of everything fed, in order.
pub struct Sha256Stream {
    core: Sha256Core,
    fed: Ghost<Seq<u8>>,
}

impl Sha256Stream {
    /// The bytes fed so far, in order.
    pub closed spec fn fed(&self) -> Seq<u8> {
        self.fed@
    }

    /// `<sha2::Sha256 as Digest>::new`: a hasher that has been fed nothing.
    #[verifier::external_body]
    pub fn new() -> (s: Sha256Stream)
        ensures
            s.fed() == Seq::<u8>::empty(),
    {
        Sha256Stream {
            core: Sha256Core { inner: <sha2::Sha256 as sha2::Digest>::new() },
            fed: Ghost(Seq::empty()),
        }
    }

    /// `<sha2::Sha256 as Digest>::update`: feeds `data` after what was
    /// fed before.
    #[verifier::external_body]
    pub fn update(&mut self, data: &[u8])
        ensures
            final(self).fed() == old(self).fed() + data@,
    {
        sha2::Digest::update(&mut self.core.inner, data);
    }

    /// `<sha2::Sha256 as Digest>::finalize`: the digest of everything fed,
    /// the same function of those bytes as [`sha256`] of them at once.
    #[verifier::external_body]
    pub fn finalize(self) -> (digest: [u8; 32])
        ensures
            digest@ == spec_sha256(self.fed()),
    {
        sha2::Digest::finalize(self.core.inner).into()
    }
}

} // verus!
