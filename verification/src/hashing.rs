//! Streaming SHA-256, the digest under every CID.
//!
//! The accumulator is ring's; the library tracks in ghost state which bytes
//! have been fed, and names the digest of a byte string `sha256_of`, since
//! it is a function of those bytes alone.

use vstd::prelude::*;

verus! {

#[verifier::external_type_specification]
#[verifier::external_body]
pub struct ExDigestContext(ring::digest::Context);

/// The SHA-256 digest of a byte string.  What it is takes pages to state;
/// it depends on the bytes alone, so it only carries a name here.
pub uninterp spec fn sha256_of(bytes: Seq<u8>) -> Seq<u8>;

/// The CID bytes of a byte string: its digest, wrapped.
pub open spec fn cid_of(bytes: Seq<u8>) -> Seq<u8> {
    crate::codec::spec_wrap(sha256_of(bytes))
}

/// Relies on `ring::digest::Context::new` with the SHA256 algorithm: a
/// fresh SHA-256 state.
#[verifier::external_body]
fn new_sha256_context() -> ring::digest::Context {
    ring::digest::Context::new(&ring::digest::SHA256)
}

/// A streaming SHA-256 accumulator over ring's context, remembering in
/// ghost state the bytes fed so far.
pub struct Hasher {
    ctx: ring::digest::Context,
    fed: Ghost<Seq<u8>>,
}

impl Hasher {
    /// The bytes fed so far.
    pub closed spec fn bytes(&self) -> Seq<u8> {
        self.fed@
    }

    /// A fresh accumulator over no bytes.
    pub fn new() -> (r: Self)
        ensures
            r.bytes() == Seq::<u8>::empty(),
    {
        Hasher { ctx: new_sha256_context(), fed: Ghost(Seq::empty()) }
    }

    /// Relies on `ring::digest::Context::update`: appends `data` to the
    /// bytes the digest is taken over.
    #[verifier::external_body]
    pub fn update(&mut self, data: &Vec<u8>)
        ensures
            final(self).bytes() == old(self).bytes() + data@,
    {
        self.ctx.update(data.as_slice());
    }

    /// Relies on `ring::digest::Context::finish`: the SHA-256 digest of
    /// everything fed, 32 bytes.
    #[verifier::external_body]
    pub fn finish(self) -> (r: Vec<u8>)
        ensures
            r@ == sha256_of(self.bytes()),
            r@.len() == 32,
    {
        self.ctx.finish().as_ref().to_vec()
    }
}

/// SHA-256 of one buffer in a single pass.
pub fn sha256(data: &Vec<u8>) -> (r: Vec<u8>)
    ensures
        r@ == sha256_of(data@),
        r@.len() == 32,
{
    let mut h = Hasher::new();
    h.update(data);
    proof {
        assert(Seq::<u8>::empty() + data@ =~= data@);
    }
    h.finish()
}

} // verus!
