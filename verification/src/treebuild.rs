//! Building tree objects from a directory snapshot, bottom-up.
//!
//! The snapshot is an in-memory value: the surrounding application walks the
//! filesystem and hands the fold a tree of names and file contents. Files
//! and symbolic links become blobs; each directory's entries are sorted into
//! canonical order and serialised into a tree object. The administrative
//! `.git` directory is skipped, and an empty directory — one with no
//! contributing entries anywhere below it — produces no object at all.

use vstd::prelude::*;
use crate::bytes::{bytes_eq, subvec};
use crate::codec::{canonical_spec, object_id_hex_spec, object_id_spec};
use crate::compress::zlib_of;
use crate::hex::hex_spec;
use crate::kind::ObjectKind;
use crate::store::{MemStore, StoredId};
use crate::tree::{
    encode_tree, entries_sorted, entry_model_of, lemma_models_sort, lemma_payload_models,
    models_of, payload_model, sort_entries, sort_model, tree_payload_spec, EntryKind, EntryModel,
    TreeEntry,
};

verus! {

/// One node of a directory snapshot.
pub enum FsNode {
    /// A file: its contents become a blob.
    File { executable: bool, contents: Vec<u8> },
    /// A symbolic link: the bytes to store as its blob.
    Symlink { contents: Vec<u8> },
    /// A directory and its children.
    Dir { children: Vec<DirChild> },
}

/// A named child of a directory.
pub struct DirChild {
    pub name: Vec<u8>,
    pub node: FsNode,
}

/// The name of the administrative directory, which is never an entry.
pub open spec fn dotgit_spec() -> Seq<u8> {
    seq![46u8, 103u8, 105u8, 116u8]
}

fn dotgit_bytes() -> (r: Vec<u8>)
    ensures
        r@ == dotgit_spec(),
{
    let mut v: Vec<u8> = Vec::new();
    v.push(46u8);
    v.push(103u8);
    v.push(105u8);
    v.push(116u8);
    proof {
        assert(v@ =~= dotgit_spec());
    }
    v
}

/// Whether a node contributes an object: files and links always do, a
/// directory only when some child not named `.git` contributes.
pub open spec fn contributes(node: FsNode) -> bool
    decreases node,
{
    match node {
        FsNode::File { .. } => true,
        FsNode::Symlink { .. } => true,
        FsNode::Dir { children } => exists|i: int|
            0 <= i < children@.len() && (#[trigger] children@[i]).name@ != dotgit_spec()
                && contributes(children@[i].node),
    }
}

/// The mode string a node's entry carries.
pub open spec fn node_mode(node: FsNode) -> Seq<u8> {
    match node {
        FsNode::File { executable, .. } => if executable {
            EntryKind::Executable.mode_spec()
        } else {
            EntryKind::Regular.mode_spec()
        },
        FsNode::Symlink { .. } => EntryKind::Symlink.mode_spec(),
        FsNode::Dir { .. } => EntryKind::Directory.mode_spec(),
    }
}

/// The identifier, as 20 raw bytes, that the fold assigns to a node: files
/// and links get their blob's identifier, a directory the identifier of its
/// tree object — the serialisation, in canonical order, of its contributing
/// entries — and a non-contributing directory gets none.
pub open spec fn node_id(node: FsNode) -> Option<Seq<u8>>
    decreases node,
    via node_id_decreases
{
    match node {
        FsNode::File { executable: _, contents } => Some(
            object_id_spec(ObjectKind::Blob, contents@),
        ),
        FsNode::Symlink { contents } => Some(object_id_spec(ObjectKind::Blob, contents@)),
        FsNode::Dir { children } => {
            let ms = dir_entry_models(children@);
            if ms.len() == 0 {
                None
            } else {
                Some(object_id_spec(ObjectKind::Tree, payload_model(sort_model(ms))))
            }
        }
    }
}

/// The entry models of a directory's children, in child order: `.git` and
/// non-contributing subdirectories are skipped.
pub open spec fn dir_entry_models(cs: Seq<DirChild>) -> Seq<EntryModel>
    decreases cs,
    via dir_entry_models_decreases
{
    if cs.len() == 0 {
        Seq::<EntryModel>::empty()
    } else {
        let rest = dir_entry_models(cs.drop_last());
        let c = cs.last();
        if c.name@ == dotgit_spec() {
            rest
        } else {
            match node_id(c.node) {
                None => rest,
                Some(h) => rest + seq![
                    EntryModel { mode: node_mode(c.node), name: c.name@, hash: h },
                ],
            }
        }
    }
}

#[via_fn]
proof fn node_id_decreases(node: FsNode) {
    broadcast use vstd::std_specs::vec::group_vec_axioms;

    match node {
        FsNode::Dir { children } => {
            assert(decreases_to!(node => node->Dir_children));
            assert(decreases_to!(node->Dir_children => children@));
        }
        _ => {}
    }
}

#[via_fn]
proof fn dir_entry_models_decreases(cs: Seq<DirChild>) {
    broadcast use vstd::seq::group_seq_axioms;

    if cs.len() > 0 {
        assert(cs.drop_last() == cs.subrange(0, cs.len() - 1));
        assert(decreases_to!(cs => cs.subrange(0, cs.len() - 1)));
        assert(decreases_to!(cs => cs[cs.len() - 1]));
        assert(decreases_to!(cs[cs.len() - 1] => cs.last().node));
    }
}

/// The identifier under `id` names a stored blob holding exactly `contents`.
pub open spec fn blob_stored(m: Map<Seq<u8>, Seq<u8>>, id: StoredId, contents: Seq<u8>) -> bool {
    &&& id.hex@ == object_id_hex_spec(ObjectKind::Blob, contents)
    &&& m.contains_key(id.hex@)
    &&& m[id.hex@] == zlib_of(canonical_spec(ObjectKind::Blob, contents.len() as u64, contents))
}

/// The identifier under `id` names a stored tree object whose payload is the
/// serialisation of some canonically sorted entry sequence, and every child
/// object that payload references is stored as well.
pub open spec fn tree_stored(m: Map<Seq<u8>, Seq<u8>>, id: StoredId) -> bool {
    exists|es: Seq<TreeEntry>|
        {
            let p = tree_payload_spec(es);
            &&& #[trigger] entries_sorted(es)
            &&& id.hex@ == object_id_hex_spec(ObjectKind::Tree, p)
            &&& m.contains_key(id.hex@)
            &&& m[id.hex@] == zlib_of(canonical_spec(ObjectKind::Tree, p.len() as u64, p))
            &&& forall|j: int|
                0 <= j < es.len() ==> m.contains_key(hex_spec((#[trigger] es[j]).hash@))
        }
}

/// Store the blob of a file or link node. In-memory writing cannot fail.
fn write_blob(store: &mut MemStore, contents: &Vec<u8>) -> (id: StoredId)
    requires
        old(store).wf(),
    ensures
        final(store).wf(),
        forall|k: Seq<u8>| old(store)@.contains_key(k) ==> final(store)@.contains_key(k),
        id.hex@.len() == 40,
        id.bin@.len() == 20,
        id.bin@ == object_id_spec(ObjectKind::Blob, contents@),
        id.hex@ == hex_spec(id.bin@),
        blob_stored(final(store)@, id, contents@),
{
    store.write_full(ObjectKind::Blob, contents)
}

/// Write the tree of a directory snapshot into the store, depth first.
/// Returns the identifier of the tree object, or `None` exactly when the
/// node contributes nothing — a directory that is empty all the way down —
/// in which case the store is left untouched. In-memory writing cannot
/// fail, so the fold always completes.
pub fn write_tree(store: &mut MemStore, node: &FsNode) -> (r: Option<StoredId>)
    requires
        old(store).wf(),
    ensures
        final(store).wf(),
        forall|k: Seq<u8>| old(store)@.contains_key(k) ==> final(store)@.contains_key(k),
        (r is Some) == contributes(*node),
        r matches Some(id) ==> id.hex@.len() == 40 && id.bin@.len() == 20
            && id.hex@ == hex_spec(id.bin@) && final(store)@.contains_key(id.hex@),
        r matches Some(id) ==> match *node {
            FsNode::File { executable, contents } => blob_stored(final(store)@, id, contents@),
            FsNode::Symlink { contents } => blob_stored(final(store)@, id, contents@),
            FsNode::Dir { .. } => tree_stored(final(store)@, id),
        },
        match r {
            Some(id) => node_id(*node) == Some(id.bin@),
            None => node_id(*node) is None,
        },
        r is None ==> *final(store) == *old(store),
    decreases *node,
{
    match node {
        FsNode::File { executable: _, contents } => Some(write_blob(store, contents)),
        FsNode::Symlink { contents } => Some(write_blob(store, contents)),
        FsNode::Dir { children } => {
            let dotgit = dotgit_bytes();
            let mut entries: Vec<TreeEntry> = Vec::new();
            let mut i: usize = 0;
            proof {
                assert(models_of(entries@) =~= Seq::<EntryModel>::empty());
                assert(children@.take(0) =~= Seq::<DirChild>::empty());
            }
            while i < children.len()
                invariant
                    0 <= i <= children@.len(),
                    *node == (FsNode::Dir { children: *children }),
                    store.wf(),
                    dotgit@ == dotgit_spec(),
                    forall|k: Seq<u8>|
                        old(store)@.contains_key(k) ==> #[trigger] store@.contains_key(k),
                    (entries@.len() > 0) == exists|j: int|
                        0 <= j < i && (#[trigger] children@[j]).name@ != dotgit_spec()
                            && contributes(children@[j].node),
                    models_of(entries@) == dir_entry_models(children@.take(i as int)),
                    entries@.len() == 0 ==> *store == *old(store),
                    forall|j: int|
                        0 <= j < entries@.len() ==> store@.contains_key(
                            hex_spec((#[trigger] entries@[j]).hash@),
                        ),
                decreases children@.len() - i,
            {
                let child = &children[i];
                proof {
                    assert(children@[i as int] == *child);
                    assert(children@.take(i + 1 as int).drop_last() =~= children@.take(i as int));
                    assert(children@.take(i + 1 as int).last() == children@[i as int]);
                }
                if !bytes_eq(&child.name, &dotgit) {
                    let mode: EntryKind;
                    let id_opt: Option<StoredId>;
                    match &child.node {
                        FsNode::Dir { .. } => {
                            mode = EntryKind::Directory;
                            proof {
                                broadcast use vstd::std_specs::vec::group_vec_axioms;

                                assert(*node == FsNode::Dir { children: *children });
                                assert(decreases_to!(*node => node->Dir_children));
                                assert(decreases_to!(*node => *children));
                                assert(decreases_to!(*children => children[i as int]));
                                assert(decreases_to!(
                                    children[i as int] => children[i as int].node));
                                assert(decreases_to!(*node => child.node));
                            }
                            id_opt = write_tree(store, &child.node);
                            proof {
                                assert(node_mode(child.node) == mode.mode_spec());
                                assert(match id_opt {
                                    Some(sid) => node_id(child.node) == Some(sid.bin@),
                                    None => node_id(child.node) is None,
                                });
                            }
                        }
                        FsNode::File { executable, contents } => {
                            mode = if *executable {
                                EntryKind::Executable
                            } else {
                                EntryKind::Regular
                            };
                            id_opt = Some(write_blob(store, contents));
                            proof {
                                assert(node_mode(child.node) == mode.mode_spec());
                                assert(match id_opt {
                                    Some(sid) => node_id(child.node) == Some(sid.bin@),
                                    None => node_id(child.node) is None,
                                });
                            }
                        }
                        FsNode::Symlink { contents } => {
                            mode = EntryKind::Symlink;
                            id_opt = Some(write_blob(store, contents));
                            proof {
                                assert(node_mode(child.node) == mode.mode_spec());
                                assert(match id_opt {
                                    Some(sid) => node_id(child.node) == Some(sid.bin@),
                                    None => node_id(child.node) is None,
                                });
                            }
                        }
                    }
                    match id_opt {
                        Some(id) => {
                            let name_copy = subvec(&child.name, 0, child.name.len());
                            proof {
                                assert(name_copy@ =~= child.name@);
                            }
                            let ghost before = entries@;
                            let ghost hash_bin = id.bin@;
                            let mode_vec = mode.mode_bytes();
                            entries.push(TreeEntry { mode: mode_vec, name: name_copy, hash: id.bin });
                            proof {
                                assert(children@[i as int].name@ != dotgit_spec()
                                    && contributes(children@[i as int].node));
                                let m = EntryModel {
                                    mode: node_mode(child.node),
                                    name: child.name@,
                                    hash: hash_bin,
                                };
                                assert(entry_model_of(entries@.last()) == m);
                                assert(models_of(entries@) =~= models_of(before) + seq![m]);
                                assert(dir_entry_models(children@.take(i + 1 as int))
                                    == dir_entry_models(children@.take(i as int)) + seq![m]);
                                // the child object just written stays reachable
                                assert(store@.contains_key(hex_spec(hash_bin)));
                            }
                        }
                        None => {
                            // an empty subdirectory: no entry, no object
                            proof {
                                assert(dir_entry_models(children@.take(i + 1 as int))
                                    == dir_entry_models(children@.take(i as int)));
                            }
                        }
                    }
                } else {
                    // the administrative directory contributes nothing
                    proof {
                        assert(child.name@ == dotgit_spec());
                        assert(dir_entry_models(children@.take(i + 1 as int))
                            == dir_entry_models(children@.take(i as int)));
                    }
                }
                i += 1;
            }
            proof {
                assert(children@.take(children@.len() as int) =~= children@);
            }
            if entries.len() == 0 {
                proof {
                    assert(!contributes(*node));
                    assert(models_of(entries@).len() == 0);
                    assert(dir_entry_models(children@).len() == 0);
                    assert(node_id(*node) is None);
                }
                None
            } else {
                proof {
                    assert(contributes(*node));
                }
                let ghost unsorted = entries@;
                sort_entries(&mut entries);
                let payload = encode_tree(&entries);
                proof {
                    lemma_models_sort(unsorted);
                    lemma_payload_models(entries@);
                    assert(models_of(unsorted) == dir_entry_models(children@));
                    assert(models_of(unsorted).len() == unsorted.len());
                    assert(payload@ == payload_model(sort_model(dir_entry_models(children@))));
                    // presence of the children's objects survives the permutation
                    unsorted.to_multiset_ensures();
                    entries@.to_multiset_ensures();
                    assert forall|j: int| 0 <= j < entries@.len() implies store@.contains_key(
                        hex_spec((#[trigger] entries@[j]).hash@),
                    ) by {
                        assert(entries@.contains(entries@[j]));
                        assert(entries@.to_multiset().count(entries@[j]) > 0);
                        assert(unsorted.to_multiset().count(entries@[j]) > 0);
                        assert(unsorted.contains(entries@[j]));
                        let i0 = choose|i0: int|
                            0 <= i0 < unsorted.len() && unsorted[i0] == entries@[j];
                        assert(store@.contains_key(hex_spec(unsorted[i0].hash@)));
                    }
                }
                let ghost pre_write = store@;
                let id = store.write_full(ObjectKind::Tree, &payload);
                proof {
                    let es = entries@;
                    assert(entries_sorted(es));
                    assert(payload@ == tree_payload_spec(es));
                    // inserting the tree object keeps every child object stored
                    assert forall|j: int| 0 <= j < es.len() implies store@.contains_key(
                        hex_spec((#[trigger] es[j]).hash@),
                    ) by {
                        assert(pre_write.contains_key(hex_spec(es[j].hash@)));
                    }
                    assert(tree_stored(store@, id));
                    assert(node_id(*node) == Some(id.bin@));
                }
                Some(id)
            }
        }
    }
}

} // verus!
