//! The object codec: canonical serialisation, identifiers, and decoding.
//!
//! An object's canonical form is `"<kind> <size>\0"` followed by the payload
//! bytes. Its identifier is the SHA-1 digest of those uncompressed canonical
//! bytes; what is persisted is their zlib-compressed form.

use vstd::prelude::*;
use crate::bounded::BoundedReader;
use crate::bytes::{find_byte, first_pos, has_byte, is_first_at, lemma_first_pos, subvec};
use crate::compress::{zlib_compress, zlib_decompress, zlib_of};
use crate::digits::{
    dec_digits, digits_val, lemma_dec_digits_shape, lemma_digits_val_dec_digits, parse_decimal,
    size_digits, u64_to_decimal, valid_size_token,
};
use crate::error::StoreError;
use crate::hashing::{sha1_of, HashingWriter};
use crate::hex::{hex_encode, hex_spec, lemma_hex_spec_len};
use crate::kind::{lemma_tag_injective, lemma_tag_plain, ObjectKind};

verus! {

/// The mathematical content of a decoded object.
pub ghost struct ObjectModel {
    pub kind: ObjectKind,
    pub size: nat,
    pub payload: Seq<u8>,
}

/// A decoded object: its kind, its declared size, and its payload bytes.
#[derive(Debug, PartialEq, Eq)]
pub struct ObjectData {
    pub kind: ObjectKind,
    pub size: u64,
    pub payload: Vec<u8>,
}

impl ObjectData {
    pub open spec fn matches_model(self, m: ObjectModel) -> bool {
        self.kind == m.kind && self.size as nat == m.size && self.payload@ == m.payload
    }
}

/// The header bytes of an object: tag, space, decimal size, NUL.
pub open spec fn header_spec(k: ObjectKind, size: u64) -> Seq<u8> {
    k.tag_spec() + seq![32u8] + dec_digits(size as nat) + seq![0u8]
}

/// The canonical serialised bytes of an object.
pub open spec fn canonical_spec(k: ObjectKind, size: u64, payload: Seq<u8>) -> Seq<u8> {
    header_spec(k, size) + payload
}

/// The 20-byte identifier of an object: the digest of its canonical bytes,
/// a function of kind and payload alone.
pub open spec fn object_id_spec(k: ObjectKind, payload: Seq<u8>) -> Seq<u8>
    recommends
        payload.len() <= u64::MAX,
{
    sha1_of(canonical_spec(k, payload.len() as u64, payload))
}

/// The identifier rendered as 40 lowercase hex characters.
pub open spec fn object_id_hex_spec(k: ObjectKind, payload: Seq<u8>) -> Seq<u8> {
    hex_spec(object_id_spec(k, payload))
}

/// What parsing the header of canonical bytes `d` yields: the kind, the
/// declared size, and the index where the payload starts; or the error that
/// the malformed header deserves.
pub open spec fn header_parse_spec(d: Seq<u8>) -> Result<(ObjectKind, u64, int), StoreError> {
    if !has_byte(d, 0) {
        Err(StoreError::CorruptHeader)
    } else {
        let hend = first_pos(d, 0);
        let h = d.take(hend);
        if !has_byte(h, 32) {
            Err(StoreError::CorruptHeader)
        } else {
            let sp = first_pos(h, 32);
            let tok = h.take(sp);
            let sizetok = h.skip(sp + 1);
            if !(exists|k: ObjectKind| tok == k.tag_spec()) {
                Err(StoreError::UnknownKind)
            } else if !valid_size_token(sizetok) {
                Err(StoreError::InvalidSize)
            } else {
                let k = choose|k: ObjectKind| tok == k.tag_spec();
                Ok((k, digits_val(size_digits(sizetok)) as u64, hend + 1))
            }
        }
    }
}

/// What decoding canonical bytes `d` yields, once the caller has checked the
/// payload against the declared size: too few remaining bytes are a size
/// mismatch, too many an overrun.
pub open spec fn decode_spec(d: Seq<u8>) -> Result<ObjectModel, StoreError> {
    match header_parse_spec(d) {
        Err(e) => Err(e),
        Ok((k, size, pstart)) => {
            let rest = d.skip(pstart);
            if rest.len() < size {
                Err(StoreError::SizeMismatch)
            } else if rest.len() > size {
                Err(StoreError::Overrun)
            } else {
                Ok(ObjectModel { kind: k, size: size as nat, payload: rest })
            }
        }
    }
}

pub open spec fn obj_res_matches(
    r: Result<ObjectData, StoreError>,
    m: Result<ObjectModel, StoreError>,
) -> bool {
    match r {
        Ok(o) => m matches Ok(mm) && o.matches_model(mm),
        Err(e) => m matches Err(em) && e == em,
    }
}

/// Render the header of an object.
pub fn encode_header(k: ObjectKind, size: u64) -> (r: Vec<u8>)
    ensures
        r@ == header_spec(k, size),
{
    let mut v = k.tag_bytes();
    v.push(32);
    let digs = u64_to_decimal(size);
    crate::bytes::push_all(&mut v, &digs);
    v.push(0);
    proof {
        assert(v@ =~= header_spec(k, size));
    }
    v
}

/// Render the full canonical bytes of an object.
pub fn encode_object(k: ObjectKind, payload: &Vec<u8>) -> (r: Vec<u8>)
    ensures
        r@ == canonical_spec(k, payload@.len() as u64, payload@),
{
    let mut v = encode_header(k, payload.len() as u64);
    crate::bytes::push_all(&mut v, payload);
    v
}

/// An encoded object, ready for the store: its identifier in raw and hex
/// form, and the compressed bytes to persist.
pub struct EncodedObject {
    pub id_bin: Vec<u8>,
    pub id_hex: Vec<u8>,
    pub compressed: Vec<u8>,
}

/// The encode path: stream the header and the payload through the hashing
/// writer, then compress the canonical bytes. The identifier digests the
/// uncompressed canonical bytes; the compressed bytes are what is persisted.
/// Encoding in-memory bytes has no failure source, so the call always
/// returns the encoded object.
pub fn encode_and_id(k: ObjectKind, payload: &Vec<u8>) -> (r: EncodedObject)
    ensures
        r.id_bin@ == object_id_spec(k, payload@),
        r.id_bin@.len() == 20,
        r.id_hex@ == object_id_hex_spec(k, payload@),
        r.id_hex@.len() == 40,
        r.compressed@ == zlib_of(canonical_spec(k, payload@.len() as u64, payload@)),
{
    let mut w = HashingWriter::new();
    let header = encode_header(k, payload.len() as u64);
    w.write(&header);
    w.write(payload);
    let (canon, digest) = w.finish();
    proof {
        assert(canon@ =~= canonical_spec(k, payload@.len() as u64, payload@));
    }
    match zlib_compress(&canon) {
        Err(_) => vstd::pervasive::unreached(),
        Ok(c) => {
            let id_hex = hex_encode(&digest);
            proof {
                lemma_hex_spec_len(digest@);
            }
            EncodedObject { id_bin: digest, id_hex, compressed: c }
        }
    }
}

/// Parse the header out of decompressed canonical bytes.
fn parse_object_header(d: &Vec<u8>) -> (r: Result<(ObjectKind, u64, usize), StoreError>)
    ensures
        match r {
            Ok(t) => header_parse_spec(d@) == Ok::<(ObjectKind, u64, int), StoreError>(
                (t.0, t.1, t.2 as int),
            ),
            Err(e) => header_parse_spec(d@) == Err::<(ObjectKind, u64, int), StoreError>(e),
        },
        r matches Ok(t) ==> t.2 <= d@.len(),
{
    let hend = match find_byte(d, 0) {
        None => {
            return Err(StoreError::CorruptHeader);
        }
        Some(i) => i,
    };
    proof {
        lemma_first_pos(d@, 0, hend as int);
    }
    let header = subvec(d, 0, hend);
    proof {
        assert(header@ =~= d@.take(hend as int));
    }
    let sp = match find_byte(&header, 32) {
        None => {
            return Err(StoreError::CorruptHeader);
        }
        Some(i) => i,
    };
    proof {
        lemma_first_pos(header@, 32, sp as int);
    }
    let tok = subvec(&header, 0, sp);
    proof {
        assert(tok@ =~= header@.take(sp as int));
    }
    let k = match ObjectKind::parse_tag(&tok) {
        None => {
            return Err(StoreError::UnknownKind);
        }
        Some(k) => k,
    };
    proof {
        let kk = choose|kk: ObjectKind| tok@ == kk.tag_spec();
        lemma_tag_injective(k, kk);
    }
    let sizetok = subvec(&header, sp + 1, header.len());
    proof {
        assert(sizetok@ =~= header@.skip(sp + 1));
    }
    let size = match parse_decimal(&sizetok) {
        None => {
            return Err(StoreError::InvalidSize);
        }
        Some(s) => s,
    };
    let dlen = d.len();
    proof {
        assert(hend < dlen);
    }
    Ok((k, size, hend + 1))
}

/// Decode the header of a compressed object stream and return a bounded
/// reader, limited to the declared size, over the remaining payload bytes.
pub fn decode_stream(compressed: &Vec<u8>) -> (r: Result<(ObjectKind, u64, BoundedReader), StoreError>)
    ensures
        r matches Ok(t) ==> t.2.wf() && t.2.pos == 0 && t.2.limit == t.1,
        forall|d: Seq<u8>|
            compressed@ == zlib_of(d) ==> match header_parse_spec(d) {
                Ok(h) => {
                    &&& r matches Ok(t)
                    &&& t.0 == h.0
                    &&& t.1 == h.1
                    &&& t.2.source@ == d.skip(h.2)
                },
                Err(e) => r matches Err(e2) && e2 == e,
            },
{
    let d = match zlib_decompress(compressed) {
        Err(_) => {
            return Err(StoreError::IoFailure);
        }
        Ok(d) => d,
    };
    match parse_object_header(&d) {
        Err(e) => Err(e),
        Ok((k, size, pstart)) => {
            let rest = subvec(&d, pstart, d.len());
            proof {
                assert(rest@ =~= d@.skip(pstart as int));
            }
            let br = BoundedReader::new(rest, size);
            Ok((k, size, br))
        }
    }
}

/// Decode a full object from its compressed persisted bytes, verifying the
/// payload against the declared size: the bounded reader rejects surplus
/// bytes as an overrun, and a short payload is a size mismatch.
pub fn decode_object(compressed: &Vec<u8>) -> (r: Result<ObjectData, StoreError>)
    ensures
        forall|d: Seq<u8>| compressed@ == zlib_of(d) ==> obj_res_matches(r, decode_spec(d)),
{
    let (k, size, mut br) = match decode_stream(compressed) {
        Err(e) => {
            return Err(e);
        }
        Ok(t) => t,
    };
    let avail = br.available();
    let payload = match br.read(avail) {
        Err(e) => {
            return Err(e);
        }
        Ok(p) => p,
    };
    proof {
        assert(payload@ =~= br.source@);
    }
    if payload.len() as u64 == size {
        Ok(ObjectData { kind: k, size, payload })
    } else {
        Err(StoreError::SizeMismatch)
    }
}

/// Decoding inverts encoding: the canonical bytes of any object decode to
/// exactly that object. With the store's write and read paths, this is the
/// round trip: reading back a written object yields its kind, its payload's
/// length, and its payload bytes, unchanged.
/// The first NUL of canonical bytes closes the header.
proof fn lemma_canonical_first_nul(k: ObjectKind, size: u64, payload: Seq<u8>)
    ensures
        is_first_at(
            canonical_spec(k, size, payload),
            0,
            header_spec(k, size).len() - 1,
        ),
{
    let c = canonical_spec(k, size, payload);
    let tag = k.tag_spec();
    let digs = dec_digits(size as nat);
    let hlen = tag.len() + 1 + digs.len() + 1;
    lemma_tag_plain(k);
    lemma_dec_digits_shape(size as nat);
    assert(c[hlen - 1] == 0);
    assert forall|j: int| 0 <= j < hlen - 1 implies c[j] != 0 by {
        if j < tag.len() {
            assert(c[j] == tag[j]);
        } else if j == tag.len() {
            assert(c[j] == 32);
        } else {
            assert(c[j] == digs[j - tag.len() - 1]);
            assert(crate::digits::is_digit(digs[j - tag.len() - 1]));
        }
    }
}

/// Parsing the header of canonical bytes recovers the kind, the size, and
/// the position where the payload starts.
proof fn lemma_header_parse_canonical(k: ObjectKind, size: u64, payload: Seq<u8>)
    ensures
        header_parse_spec(canonical_spec(k, size, payload)) == Ok::<
            (ObjectKind, u64, int),
            StoreError,
        >((k, size, header_spec(k, size).len() as int)),
{
    let c = canonical_spec(k, size, payload);
    let tag = k.tag_spec();
    let digs = dec_digits(size as nat);
    let hlen = tag.len() + 1 + digs.len() + 1;
    lemma_tag_plain(k);
    lemma_dec_digits_shape(size as nat);
    lemma_digits_val_dec_digits(size as nat);
    lemma_canonical_first_nul(k, size, payload);
    lemma_first_pos(c, 0, hlen - 1);
    let h = c.take(hlen - 1);
    assert(h =~= tag + seq![32u8] + digs);
    assert(is_first_at(h, 32, tag.len() as int)) by {
        assert(h[tag.len() as int] == 32);
        assert forall|j: int| 0 <= j < tag.len() implies h[j] != 32 by {
            assert(h[j] == tag[j]);
        }
    }
    lemma_first_pos(h, 32, tag.len() as int);
    let tok = h.take(tag.len() as int);
    assert(tok =~= tag);
    assert(exists|kk: ObjectKind| tok == kk.tag_spec());
    let kk = choose|kk: ObjectKind| tok == kk.tag_spec();
    lemma_tag_injective(k, kk);
    let sizetok = h.skip(tag.len() + 1 as int);
    assert(sizetok =~= digs);
    assert(valid_size_token(sizetok)) by {
        assert(size_digits(digs) =~= digs) by {
            assert(crate::digits::is_digit(digs[0]));
        }
    }
    assert(size_digits(sizetok) =~= digs);
    assert(digits_val(size_digits(sizetok)) == size);
}

/// Decoding inverts encoding: the canonical bytes of any object decode to
/// exactly that object. With the store's write and read paths, this is the
/// round trip: reading back a written object yields its kind, its payload's
/// length, and its payload bytes, unchanged.
pub proof fn lemma_decode_encode(k: ObjectKind, payload: Seq<u8>)
    requires
        payload.len() <= u64::MAX,
    ensures
        decode_spec(canonical_spec(k, payload.len() as u64, payload)) == Ok::<
            ObjectModel,
            StoreError,
        >(ObjectModel { kind: k, size: payload.len(), payload }),
{
    let size = payload.len() as u64;
    let c = canonical_spec(k, size, payload);
    let hlen = header_spec(k, size).len();
    lemma_header_parse_canonical(k, size, payload);
    let rest = c.skip(hlen as int);
    assert(rest =~= payload);
}

/// The identifier depends on the kind and the payload bytes alone: neither
/// compression-time choices nor anything outside the object's content enters
/// its definition.
pub proof fn lemma_identifier_deterministic(
    k1: ObjectKind,
    p1: Seq<u8>,
    k2: ObjectKind,
    p2: Seq<u8>,
)
    requires
        k1 == k2,
        p1 == p2,
    ensures
        object_id_hex_spec(k1, p1) == object_id_hex_spec(k2, p2),
{
}

} // verus!
