//! Zlib compression of object streams, behind trusted wrappers.

use vstd::prelude::*;

verus! {

/// The bytes that the zlib encoder, at its default level, produces for the
/// given input bytes. Compression is deterministic: the output depends on the
/// input alone.
pub uninterp spec fn zlib_of(data: Seq<u8>) -> Seq<u8>;

/// Relies on `flate2::write::ZlibEncoder` at `Compression::default()`: the
/// compressed form of the input bytes, a function of them alone. The encoder
/// only reports errors of the sink it writes into, and writing into a `Vec`
/// sink cannot fail, so the call always succeeds.
#[verifier::external_body]
pub(crate) fn zlib_compress(data: &Vec<u8>) -> (r: Result<Vec<u8>, ()>)
    ensures
        r is Ok,
        r matches Ok(c) ==> c@ == zlib_of(data@),
{
    let mut enc = flate2::write::ZlibEncoder::new(Vec::new(), flate2::Compression::default());
    if std::io::Write::write_all(&mut enc, data.as_slice()).is_err() {
        return Err(());
    }
    match enc.finish() {
        Ok(v) => Ok(v),
        Err(_) => Err(()),
    }
}

/// Relies on `flate2::read::ZlibDecoder`: zlib is lossless, so inflating a
/// stream that the encoder produced yields exactly the bytes that were
/// compressed, and succeeds.
#[verifier::external_body]
pub(crate) fn zlib_decompress(data: &Vec<u8>) -> (r: Result<Vec<u8>, ()>)
    ensures
        r is Ok <== exists|d: Seq<u8>| data@ == zlib_of(d),
        r matches Ok(p) ==> forall|d: Seq<u8>| data@ == zlib_of(d) ==> p@ == d,
{
    let mut dec = flate2::read::ZlibDecoder::new(data.as_slice());
    let mut out: Vec<u8> = Vec::new();
    match std::io::Read::read_to_end(&mut dec, &mut out) {
        Ok(_) => Ok(out),
        Err(_) => Err(()),
    }
}

} // verus!
