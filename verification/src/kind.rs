//! The closed set of object types and their canonical string tags.

use vstd::prelude::*;

verus! {

/// The type tag of a stored object.
#[derive(Clone, Copy, PartialEq, Eq, Structural, Debug)]
pub enum ObjectKind {
    /// A file's raw contents.
    Blob,
    /// A directory listing of child objects.
    Tree,
    /// Commit metadata referring to a tree.
    Commit,
}

impl ObjectKind {
    /// The canonical lowercase ASCII tag rendered into object headers.
    pub open spec fn tag_spec(self) -> Seq<u8> {
        match self {
            ObjectKind::Blob => seq![98u8, 108u8, 111u8, 98u8],
            ObjectKind::Tree => seq![116u8, 114u8, 101u8, 101u8],
            ObjectKind::Commit => seq![99u8, 111u8, 109u8, 109u8, 105u8, 116u8],
        }
    }

    /// Render the tag as bytes.
    pub fn tag_bytes(self) -> (r: Vec<u8>)
        ensures
            r@ == self.tag_spec(),
    {
        let mut v: Vec<u8> = Vec::new();
        match self {
            ObjectKind::Blob => {
                v.push(98u8);
                v.push(108u8);
                v.push(111u8);
                v.push(98u8);
            }
            ObjectKind::Tree => {
                v.push(116u8);
                v.push(114u8);
                v.push(101u8);
                v.push(101u8);
            }
            ObjectKind::Commit => {
                v.push(99u8);
                v.push(111u8);
                v.push(109u8);
                v.push(109u8);
                v.push(105u8);
                v.push(116u8);
            }
        }
        proof {
            assert(v@ =~= self.tag_spec());
        }
        v
    }

    /// Parse a tag back into a kind: succeeds exactly on the three canonical
    /// tags, and returns the kind whose tag matched.
    pub fn parse_tag(token: &Vec<u8>) -> (r: Option<ObjectKind>)
        ensures
            match r {
                Some(k) => token@ == k.tag_spec(),
                None => forall|k: ObjectKind| token@ != k.tag_spec(),
            },
    {
        if bytes_eq_tag(token, ObjectKind::Blob) {
            Some(ObjectKind::Blob)
        } else if bytes_eq_tag(token, ObjectKind::Tree) {
            Some(ObjectKind::Tree)
        } else if bytes_eq_tag(token, ObjectKind::Commit) {
            Some(ObjectKind::Commit)
        } else {
            assert(forall|k: ObjectKind| token@ != k.tag_spec()) by {
                assert(token@ != ObjectKind::Blob.tag_spec());
                assert(token@ != ObjectKind::Tree.tag_spec());
                assert(token@ != ObjectKind::Commit.tag_spec());
            }
            None
        }
    }
}

/// A tag holds neither a NUL nor a space byte, and is never empty.
pub proof fn lemma_tag_plain(k: ObjectKind)
    ensures
        k.tag_spec().len() >= 1,
        forall|i: int|
            0 <= i < k.tag_spec().len() ==> #[trigger] k.tag_spec()[i] != 0
                && k.tag_spec()[i] != 32,
{
    let t = k.tag_spec();
    match k {
        ObjectKind::Blob => {
            assert forall|i: int| 0 <= i < t.len() implies #[trigger] t[i] != 0 && t[i] != 32 by {
                assert(t[0] == 98 && t[1] == 108 && t[2] == 111 && t[3] == 98);
            }
        }
        ObjectKind::Tree => {
            assert forall|i: int| 0 <= i < t.len() implies #[trigger] t[i] != 0 && t[i] != 32 by {
                assert(t[0] == 116 && t[1] == 114 && t[2] == 101 && t[3] == 101);
            }
        }
        ObjectKind::Commit => {
            assert forall|i: int| 0 <= i < t.len() implies #[trigger] t[i] != 0 && t[i] != 32 by {
                assert(t[0] == 99 && t[1] == 111 && t[2] == 109 && t[3] == 109 && t[4] == 105
                    && t[5] == 116);
            }
        }
    }
}

/// Distinct kinds have distinct tags.
pub proof fn lemma_tag_injective(k1: ObjectKind, k2: ObjectKind)
    requires
        k1.tag_spec() == k2.tag_spec(),
    ensures
        k1 == k2,
{
    if k1 != k2 {
        assert(k1.tag_spec()[0] == k2.tag_spec()[0]);
        assert(k1.tag_spec().len() == k2.tag_spec().len());
        assert(false);
    }
}

/// Compare a token against one canonical tag.
fn bytes_eq_tag(token: &Vec<u8>, k: ObjectKind) -> (r: bool)
    ensures
        r == (token@ == k.tag_spec()),
{
    let tag = k.tag_bytes();
    if token.len() != tag.len() {
        return false;
    }
    let mut i: usize = 0;
    while i < tag.len()
        invariant
            0 <= i <= tag.len(),
            token@.len() == tag@.len(),
            tag@ == k.tag_spec(),
            forall|j: int| 0 <= j < i ==> token@[j] == tag@[j],
        decreases tag.len() - i,
    {
        if token[i] != tag[i] {
            assert(token@ != k.tag_spec());
            return false;
        }
        i += 1;
    }
    proof {
        assert(token@ =~= k.tag_spec());
    }
    true
}

} // verus!
