use minigit::error::StoreError;
use minigit::tree::{encode_tree, parse_tree, sort_entries, EntryKind, TreeEntry};

fn entry(kind: EntryKind, name: &[u8]) -> TreeEntry {
    TreeEntry {
        mode: kind.mode_bytes(),
        name: name.to_vec(),
        hash: vec![0u8; 20],
    }
}

fn names(entries: &[TreeEntry]) -> Vec<Vec<u8>> {
    entries.iter().map(|e| e.name.clone()).collect()
}

#[test]
fn mode_strings() {
    assert_eq!(EntryKind::Directory.mode_bytes(), b"40000".to_vec());
    assert_eq!(EntryKind::Symlink.mode_bytes(), b"120000".to_vec());
    assert_eq!(EntryKind::Executable.mode_bytes(), b"100755".to_vec());
    assert_eq!(EntryKind::Regular.mode_bytes(), b"100644".to_vec());
}

#[test]
fn directory_sorts_with_trailing_slash() {
    // "a" (file), "a.c" (file), "a" (directory): by the directory-suffix
    // rule the keys are "a", "a.c", "a/", and '.' sorts before '/'
    let mut v = vec![
        entry(EntryKind::Regular, b"a.c"),
        entry(EntryKind::Directory, b"a"),
        entry(EntryKind::Regular, b"a"),
    ];
    sort_entries(&mut v);
    assert_eq!(names(&v), vec![b"a".to_vec(), b"a.c".to_vec(), b"a".to_vec()]);
    assert_eq!(v[0].mode, b"100644".to_vec());
    assert_eq!(v[1].mode, b"100644".to_vec());
    assert_eq!(v[2].mode, b"40000".to_vec());
}

#[test]
fn file_sorts_before_its_extensions() {
    let mut v = vec![
        entry(EntryKind::Regular, b"foo.txt"),
        entry(EntryKind::Directory, b"foo"),
        entry(EntryKind::Regular, b"foo"),
    ];
    sort_entries(&mut v);
    // file "foo" first; directory "foo" compares as "foo/" and '.' < '/'
    assert_eq!(v[0].name, b"foo".to_vec());
    assert_eq!(v[0].mode, b"100644".to_vec());
    assert_eq!(v[1].name, b"foo.txt".to_vec());
    assert_eq!(v[2].name, b"foo".to_vec());
    assert_eq!(v[2].mode, b"40000".to_vec());
}

#[test]
fn plain_names_sort_bytewise() {
    let mut v = vec![
        entry(EntryKind::Regular, b"zed"),
        entry(EntryKind::Regular, b"alpha"),
        entry(EntryKind::Regular, b"beta"),
    ];
    sort_entries(&mut v);
    assert_eq!(
        names(&v),
        vec![b"alpha".to_vec(), b"beta".to_vec(), b"zed".to_vec()]
    );
}

#[test]
fn encode_one_entry_exact_bytes() {
    let mut e = entry(EntryKind::Regular, b"a");
    e.hash = (1u8..=20).collect();
    let payload = encode_tree(&vec![e]);
    let mut expected = b"100644 a\0".to_vec();
    expected.extend(1u8..=20);
    assert_eq!(payload, expected);
}

#[test]
fn parse_inverts_encode() {
    let mut e1 = entry(EntryKind::Regular, b"file with spaces");
    e1.hash = vec![9u8; 20];
    let mut e2 = entry(EntryKind::Directory, b"sub");
    e2.hash = vec![0u8; 20];
    let payload = encode_tree(&vec![e1, e2]);
    let parsed = parse_tree(&payload).unwrap();
    assert_eq!(parsed.len(), 2);
    assert_eq!(parsed[0].mode, b"100644".to_vec());
    assert_eq!(parsed[0].name, b"file with spaces".to_vec());
    assert_eq!(parsed[0].hash, vec![9u8; 20]);
    assert_eq!(parsed[1].mode, b"40000".to_vec());
    assert_eq!(parsed[1].name, b"sub".to_vec());
}

#[test]
fn parse_empty_payload() {
    let parsed = parse_tree(&Vec::new()).unwrap();
    assert_eq!(parsed.len(), 0);
}

#[test]
fn parse_record_without_nul_is_corrupt() {
    assert_eq!(parse_tree(&b"100644 a".to_vec()), Err(StoreError::CorruptEntry));
}

#[test]
fn parse_record_without_space_is_corrupt() {
    let mut payload = b"100644a\0".to_vec();
    payload.extend(vec![0u8; 20]);
    assert_eq!(parse_tree(&payload), Err(StoreError::CorruptEntry));
}

#[test]
fn parse_truncated_hash_is_corrupt() {
    let mut payload = b"100644 a\0".to_vec();
    payload.extend(vec![0u8; 19]);
    assert_eq!(parse_tree(&payload), Err(StoreError::CorruptEntry));
}
