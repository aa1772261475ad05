use minigit::commit::commit_payload;
use minigit::kind::ObjectKind;
use minigit::store::MemStore;
use minigit::treebuild::{write_tree, DirChild, FsNode};
use sha1::{Digest, Sha1};

fn file(name: &[u8], contents: &[u8]) -> DirChild {
    DirChild {
        name: name.to_vec(),
        node: FsNode::File { executable: false, contents: contents.to_vec() },
    }
}

fn dir(name: &[u8], children: Vec<DirChild>) -> DirChild {
    DirChild { name: name.to_vec(), node: FsNode::Dir { children } }
}

#[test]
fn empty_directory_produces_no_object() {
    let mut store = MemStore::new();
    let node = FsNode::Dir { children: Vec::new() };
    let r = write_tree(&mut store, &node);
    assert!(r.is_none());
    assert_eq!(store.len(), 0);
}

#[test]
fn nested_empty_directories_produce_no_object() {
    let mut store = MemStore::new();
    let node = FsNode::Dir {
        children: vec![dir(b"a", vec![dir(b"b", Vec::new())]), dir(b"c", Vec::new())],
    };
    let r = write_tree(&mut store, &node);
    assert!(r.is_none());
    assert_eq!(store.len(), 0);
}

#[test]
fn administrative_directory_is_skipped() {
    let mut store = MemStore::new();
    let node = FsNode::Dir {
        children: vec![dir(b".git", vec![file(b"config", b"stuff")])],
    };
    let r = write_tree(&mut store, &node);
    assert!(r.is_none());
}

#[test]
fn single_file_tree_payload() {
    let mut store = MemStore::new();
    let node = FsNode::Dir { children: vec![file(b"a", b"x")] };
    let id = write_tree(&mut store, &node).unwrap();
    assert_eq!(id.hex.len(), 40);
    // the tree object holds one record: mode, name, then the blob's raw hash
    let tree = store.read(&id.hex).unwrap();
    assert_eq!(tree.kind, ObjectKind::Tree);
    let blob_hash = Sha1::digest(b"blob 1\0x");
    let mut expected = b"100644 a\0".to_vec();
    expected.extend(blob_hash);
    assert_eq!(tree.payload, expected);
    // the blob itself was stored too
    let blob_id = hex::encode(blob_hash).into_bytes();
    let blob = store.read(&blob_id).unwrap();
    assert_eq!(blob.kind, ObjectKind::Blob);
    assert_eq!(blob.payload, b"x".to_vec());
}

#[test]
fn entries_are_sorted_canonically() {
    let mut store = MemStore::new();
    let node = FsNode::Dir {
        children: vec![
            file(b"b", b"1"),
            dir(b"a", vec![file(b"inner", b"2")]),
            file(b"a.c", b"3"),
            file(b"a", b"4"),
        ],
    };
    let id = write_tree(&mut store, &node).unwrap();
    let tree = store.read(&id.hex).unwrap();
    let entries = minigit::tree::parse_tree(&tree.payload).unwrap();
    let names: Vec<Vec<u8>> = entries.iter().map(|e| e.name.clone()).collect();
    assert_eq!(
        names,
        vec![b"a".to_vec(), b"a.c".to_vec(), b"a".to_vec(), b"b".to_vec()]
    );
    // the file "a" first; the directory "a" keys as "a/" and '.' < '/'
    assert_eq!(entries[0].mode, b"100644".to_vec());
    assert_eq!(entries[2].mode, b"40000".to_vec());
}

#[test]
fn executable_and_symlink_modes() {
    let mut store = MemStore::new();
    let node = FsNode::Dir {
        children: vec![
            DirChild {
                name: b"run".to_vec(),
                node: FsNode::File { executable: true, contents: b"#!".to_vec() },
            },
            DirChild {
                name: b"link".to_vec(),
                node: FsNode::Symlink { contents: b"target".to_vec() },
            },
        ],
    };
    let id = write_tree(&mut store, &node).unwrap();
    let tree = store.read(&id.hex).unwrap();
    let entries = minigit::tree::parse_tree(&tree.payload).unwrap();
    assert_eq!(entries[0].name, b"link".to_vec());
    assert_eq!(entries[0].mode, b"120000".to_vec());
    assert_eq!(entries[1].name, b"run".to_vec());
    assert_eq!(entries[1].mode, b"100755".to_vec());
}

#[test]
fn writing_same_tree_twice_is_idempotent() {
    let mut store = MemStore::new();
    let node = FsNode::Dir { children: vec![file(b"a", b"x")] };
    let id1 = write_tree(&mut store, &node).unwrap();
    let before = store.len();
    let id2 = write_tree(&mut store, &node).unwrap();
    assert_eq!(id1.hex, id2.hex);
    assert_eq!(store.len(), before);
}

#[test]
fn commit_payload_exact_bytes() {
    let tree = b"0123456789012345678901234567890123456789".to_vec();
    let parent = b"abcdefabcdefabcdefabcdefabcdefabcdefabcd".to_vec();
    let name = b"A Hacker".to_vec();
    let email = b"a@example.com".to_vec();
    let tz = b"+0200".to_vec();
    let msg = b"first commit".to_vec();
    let payload = commit_payload(&tree, Some(&parent), &name, &email, 1700000000, &tz, &msg);
    let expected = b"tree 0123456789012345678901234567890123456789\n\
parent abcdefabcdefabcdefabcdefabcdefabcdefabcd\n\
author A Hacker <a@example.com> 1700000000 +0200\n\
committer A Hacker <a@example.com> 1700000000 +0200\n\
\n\
first commit\n"
        .to_vec();
    assert_eq!(payload, expected);
}

#[test]
fn commit_payload_without_parent() {
    let tree = b"0123456789012345678901234567890123456789".to_vec();
    let payload = commit_payload(
        &tree,
        None,
        &b"N".to_vec(),
        &b"n@e".to_vec(),
        0,
        &b"+0000".to_vec(),
        &b"m".to_vec(),
    );
    let expected = b"tree 0123456789012345678901234567890123456789\n\
author N <n@e> 0 +0000\n\
committer N <n@e> 0 +0000\n\
\n\
m\n"
        .to_vec();
    assert_eq!(payload, expected);
}
