use minigit::codec::{encode_and_id, encode_header, encode_object, decode_object};
use minigit::error::StoreError;
use minigit::kind::ObjectKind;
use sha1::{Digest, Sha1};
use std::io::{Read, Write};

fn zlib(data: &[u8]) -> Vec<u8> {
    let mut enc = flate2::write::ZlibEncoder::new(Vec::new(), flate2::Compression::default());
    enc.write_all(data).unwrap();
    enc.finish().unwrap()
}

#[test]
fn empty_blob_header() {
    let payload: Vec<u8> = Vec::new();
    let canonical = encode_object(ObjectKind::Blob, &payload);
    assert_eq!(canonical, b"blob 0\0".to_vec());
}

#[test]
fn header_bytes_exact() {
    assert_eq!(encode_header(ObjectKind::Blob, 0), b"blob 0\0".to_vec());
    assert_eq!(encode_header(ObjectKind::Tree, 37), b"tree 37\0".to_vec());
    assert_eq!(
        encode_header(ObjectKind::Commit, 1234567890),
        b"commit 1234567890\0".to_vec()
    );
}

#[test]
fn canonical_includes_payload() {
    let payload = b"hello world\n".to_vec();
    let canonical = encode_object(ObjectKind::Blob, &payload);
    assert_eq!(canonical, b"blob 12\0hello world\n".to_vec());
}

#[test]
fn identifier_matches_reference_digest() {
    let payload = b"hello world\n".to_vec();
    let enc = encode_and_id(ObjectKind::Blob, &payload);
    let expected = Sha1::digest(b"blob 12\0hello world\n");
    assert_eq!(enc.id_bin, expected.to_vec());
    assert_eq!(enc.id_hex, hex::encode(expected).into_bytes());
}

#[test]
fn empty_blob_known_identifier() {
    // the well-known identifier of the empty blob in the wider ecosystem
    let payload: Vec<u8> = Vec::new();
    let enc = encode_and_id(ObjectKind::Blob, &payload);
    assert_eq!(
        enc.id_hex,
        b"e69de29bb2d1d6434b8b29ae775ad8c2e48c5391".to_vec()
    );
}

#[test]
fn compressed_bytes_inflate_to_canonical() {
    let payload = b"some content".to_vec();
    let enc = encode_and_id(ObjectKind::Blob, &payload);
    let mut dec = flate2::read::ZlibDecoder::new(enc.compressed.as_slice());
    let mut out = Vec::new();
    dec.read_to_end(&mut out).unwrap();
    assert_eq!(out, b"blob 12\0some content".to_vec());
}

#[test]
fn decode_round_trip() {
    let payload = b"abc\0def\nwith a nul".to_vec();
    let enc = encode_and_id(ObjectKind::Commit, &payload);
    let obj = decode_object(&enc.compressed).unwrap();
    assert_eq!(obj.kind, ObjectKind::Commit);
    assert_eq!(obj.size, payload.len() as u64);
    assert_eq!(obj.payload, payload);
}

#[test]
fn decode_zero_byte_blob() {
    let enc = encode_and_id(ObjectKind::Blob, &Vec::new());
    let obj = decode_object(&enc.compressed).unwrap();
    assert_eq!(obj.kind, ObjectKind::Blob);
    assert_eq!(obj.size, 0);
    assert_eq!(obj.payload, Vec::<u8>::new());
}

#[test]
fn decode_missing_nul_is_corrupt() {
    let c = zlib(b"blob 3");
    assert_eq!(decode_object(&c), Err(StoreError::CorruptHeader));
}

#[test]
fn decode_missing_space_is_corrupt() {
    let c = zlib(b"blob3\0abc");
    assert_eq!(decode_object(&c), Err(StoreError::CorruptHeader));
}

#[test]
fn decode_unknown_kind() {
    let c = zlib(b"blub 3\0abc");
    assert_eq!(decode_object(&c), Err(StoreError::UnknownKind));
}

#[test]
fn decode_invalid_size() {
    let c = zlib(b"blob 3x\0abc");
    assert_eq!(decode_object(&c), Err(StoreError::InvalidSize));
    let c = zlib(b"blob \0abc");
    assert_eq!(decode_object(&c), Err(StoreError::InvalidSize));
    let c = zlib(b"blob 99999999999999999999\0abc");
    assert_eq!(decode_object(&c), Err(StoreError::InvalidSize));
}

#[test]
fn decode_tolerates_leading_plus_in_size() {
    let c = zlib(b"blob +3\0abc");
    let obj = decode_object(&c).unwrap();
    assert_eq!(obj.size, 3);
    assert_eq!(obj.payload, b"abc".to_vec());
}

#[test]
fn decode_short_payload_is_size_mismatch() {
    // the header claims 100 bytes but the stream holds only 50
    let mut data = b"blob 100\0".to_vec();
    data.extend(std::iter::repeat(7u8).take(50));
    let c = zlib(&data);
    assert_eq!(decode_object(&c), Err(StoreError::SizeMismatch));
}

#[test]
fn decode_surplus_payload_is_overrun() {
    let c = zlib(b"blob 3\0abcd");
    assert_eq!(decode_object(&c), Err(StoreError::Overrun));
}

#[test]
fn decode_garbage_stream_fails() {
    let garbage = vec![1u8, 2, 3, 4, 5];
    assert!(decode_object(&garbage).is_err());
}

#[test]
fn parse_tag_round_trip() {
    for k in [ObjectKind::Blob, ObjectKind::Tree, ObjectKind::Commit] {
        let tag = k.tag_bytes();
        assert_eq!(ObjectKind::parse_tag(&tag), Some(k));
    }
    assert_eq!(ObjectKind::parse_tag(&b"tag".to_vec()), None);
    assert_eq!(ObjectKind::parse_tag(&b"Blob".to_vec()), None);
}
