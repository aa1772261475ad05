use minigit::error::StoreError;
use minigit::kind::ObjectKind;
use minigit::store::{object_path_parts, MemStore};

#[test]
fn write_then_read_round_trip() {
    let mut store = MemStore::new();
    let payload = b"round trip payload".to_vec();
    let id = store.write(ObjectKind::Blob, &payload);
    let obj = store.read(&id).unwrap();
    assert_eq!(obj.kind, ObjectKind::Blob);
    assert_eq!(obj.size, payload.len() as u64);
    assert_eq!(obj.payload, payload);
}

#[test]
fn write_is_idempotent() {
    let mut store = MemStore::new();
    let payload = b"same content".to_vec();
    let id1 = store.write(ObjectKind::Blob, &payload);
    let id2 = store.write(ObjectKind::Blob, &payload);
    assert_eq!(id1, id2);
    assert_eq!(store.len(), 1);
}

#[test]
fn identifier_depends_only_on_kind_and_payload() {
    let payload = b"deterministic".to_vec();
    let mut store1 = MemStore::new();
    let mut store2 = MemStore::new();
    // a store with unrelated prior content yields the same identifier
    store2.write(ObjectKind::Blob, &b"other".to_vec());
    let id1 = store1.write(ObjectKind::Commit, &payload);
    let id2 = store2.write(ObjectKind::Commit, &payload);
    assert_eq!(id1, id2);
}

#[test]
fn kinds_give_distinct_identifiers() {
    let payload = b"x".to_vec();
    let mut store = MemStore::new();
    let id_blob = store.write(ObjectKind::Blob, &payload);
    let id_tree = store.write(ObjectKind::Tree, &payload);
    assert_ne!(id_blob, id_tree);
    assert_eq!(store.len(), 2);
}

#[test]
fn read_absent_identifier_is_not_found() {
    let store = MemStore::new();
    let id = b"0123456789012345678901234567890123456789".to_vec();
    assert_eq!(store.read(&id), Err(StoreError::NotFound));
}

#[test]
fn contains_tracks_writes() {
    let mut store = MemStore::new();
    let id = store.write(ObjectKind::Blob, &b"c".to_vec());
    assert!(store.contains(&id));
    assert!(!store.contains(&b"0123456789012345678901234567890123456789".to_vec()));
}

#[test]
fn empty_blob_round_trip() {
    // a zero-byte file: header "blob 0\0", empty payload
    let mut store = MemStore::new();
    let id = store.write(ObjectKind::Blob, &Vec::new());
    assert_eq!(id, b"e69de29bb2d1d6434b8b29ae775ad8c2e48c5391".to_vec());
    let obj = store.read(&id).unwrap();
    assert_eq!(obj.size, 0);
    assert_eq!(obj.payload, Vec::<u8>::new());
}

#[test]
fn path_parts_split_two_then_thirtyeight() {
    let id = b"e69de29bb2d1d6434b8b29ae775ad8c2e48c5391".to_vec();
    let (dir, file) = object_path_parts(&id);
    assert_eq!(dir, b"e6".to_vec());
    assert_eq!(file, b"9de29bb2d1d6434b8b29ae775ad8c2e48c5391".to_vec());
}
