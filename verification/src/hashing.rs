//! A byte sink decorator that digests every byte it forwards.

use vstd::prelude::*;
use sha1::{Digest, Sha1};
use crate::bytes::push_all;

verus! {

/// A running SHA-1 digest over the bytes it has been fed.
#[verifier::external_body]
pub struct Sha1Hasher {
    inner: Sha1,
}

/// The bytes a hasher has been fed so far.
pub uninterp spec fn sha1_absorbed(h: Sha1Hasher) -> Seq<u8>;

/// The 20-byte SHA-1 digest of a byte sequence.
pub uninterp spec fn sha1_of(data: Seq<u8>) -> Seq<u8>;

/// Relies on `sha1::Sha1::new`: a fresh hasher has absorbed nothing.
#[verifier::external_body]
fn sha1_new() -> (h: Sha1Hasher)
    ensures
        sha1_absorbed(h) == Seq::<u8>::empty(),
{
    Sha1Hasher { inner: Sha1::new() }
}

/// Relies on `sha1::Digest::update`: feeding bytes appends exactly those
/// bytes, in order, to what the hasher has absorbed.
#[verifier::external_body]
fn sha1_update(h: &mut Sha1Hasher, data: &Vec<u8>)
    ensures
        sha1_absorbed(*final(h)) == sha1_absorbed(*old(h)) + data@,
{
    h.inner.update(data.as_slice());
}

/// Relies on `sha1::Digest::finalize`: the digest is 20 bytes and a function
/// of the absorbed bytes alone, the same on every machine.
#[verifier::external_body]
fn sha1_finish(h: Sha1Hasher) -> (r: Vec<u8>)
    ensures
        r@ == sha1_of(sha1_absorbed(h)),
        r@.len() == 20,
{
    h.inner.finalize().to_vec()
}

/// A sink that keeps the bytes written to it and simultaneously feeds each
/// accepted byte into a running SHA-1 digest. The sink is in-memory, so every
/// byte offered is accepted, and every accepted byte is hashed.
pub struct HashingWriter {
    /// The bytes accepted so far.
    pub sink: Vec<u8>,
    /// The running digest.
    pub hasher: Sha1Hasher,
}

impl HashingWriter {
    /// The digest always covers exactly the accepted bytes.
    pub open spec fn wf(self) -> bool {
        sha1_absorbed(self.hasher) == self.sink@
    }

    pub fn new() -> (r: HashingWriter)
        ensures
            r.wf(),
            r.sink@ == Seq::<u8>::empty(),
    {
        HashingWriter { sink: Vec::new(), hasher: sha1_new() }
    }

    /// Accept bytes into the sink and fold the same bytes into the digest.
    pub fn write(&mut self, buf: &Vec<u8>)
        requires
            old(self).wf(),
        ensures
            final(self).wf(),
            final(self).sink@ == old(self).sink@ + buf@,
    {
        push_all(&mut self.sink, buf);
        sha1_update(&mut self.hasher, buf);
    }

    /// Flushing an in-memory sink does nothing, and never touches the digest.
    pub fn flush(&mut self)
        ensures
            *final(self) == *old(self),
    {
    }

    /// Finish writing: hand back the sink's content and its digest. Consumes
    /// the writer, as finalising the digest invalidates further updates.
    pub fn finish(self) -> (r: (Vec<u8>, Vec<u8>))
        requires
            self.wf(),
        ensures
            r.0@ == self.sink@,
            r.1@ == sha1_of(self.sink@),
            r.1@.len() == 20,
    {
        let digest = sha1_finish(self.hasher);
        (self.sink, digest)
    }
}

} // verus!
