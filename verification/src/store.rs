//! The object store: identifiers map to compressed canonical bytes.
//!
//! The in-memory store models the object database: writing is
//! content-addressed and idempotent, reading decodes what was stored. The
//! surrounding application persists the same pairs on disk, one file per
//! object, under the two-level path that [`object_path_parts`] computes.

use vstd::prelude::*;
use crate::bytes::{bytes_eq, subvec};
use crate::codec::{
    canonical_spec, decode_object, decode_spec, encode_and_id, lemma_decode_encode,
    obj_res_matches, object_id_hex_spec, object_id_spec, ObjectData, ObjectModel,
};
use crate::compress::zlib_of;
use crate::error::StoreError;
use crate::kind::ObjectKind;

verus! {

/// The map that a sequence of `(identifier, bytes)` pairs denotes: later
/// pairs win, as an insert would.
pub open spec fn entries_map(s: Seq<(Vec<u8>, Vec<u8>)>) -> Map<Seq<u8>, Seq<u8>>
    decreases s.len(),
{
    if s.len() == 0 {
        Map::<Seq<u8>, Seq<u8>>::empty()
    } else {
        entries_map(s.drop_last()).insert(s.last().0@, s.last().1@)
    }
}

/// No identifier occurs twice.
pub open spec fn unique_keys(s: Seq<(Vec<u8>, Vec<u8>)>) -> bool {
    forall|i: int, j: int| 0 <= i < j < s.len() ==> s[i].0@ != s[j].0@
}

/// The denoted map contains a key exactly when some pair carries it.
pub proof fn lemma_entries_map_domain(s: Seq<(Vec<u8>, Vec<u8>)>, k: Seq<u8>)
    ensures
        entries_map(s).contains_key(k) <==> exists|i: int|
            0 <= i < s.len() && #[trigger] s[i].0@ == k,
    decreases s.len(),
{
    if s.len() > 0 {
        lemma_entries_map_domain(s.drop_last(), k);
        if s.last().0@ == k {
            assert(s[s.len() - 1].0@ == k);
        } else {
            if entries_map(s).contains_key(k) {
                let i = choose|i: int| 0 <= i < s.drop_last().len() && #[trigger] s.drop_last()[i].0@ == k;
                assert(s[i].0@ == k);
            }
            if exists|i: int| 0 <= i < s.len() && #[trigger] s[i].0@ == k {
                let i = choose|i: int| 0 <= i < s.len() && #[trigger] s[i].0@ == k;
                assert(i < s.len() - 1);
                assert(s.drop_last()[i].0@ == k);
            }
        }
    }
}

/// Under unique keys, the pair at `i` gives the map's value at its key.
pub proof fn lemma_entries_map_get(s: Seq<(Vec<u8>, Vec<u8>)>, i: int)
    requires
        unique_keys(s),
        0 <= i < s.len(),
    ensures
        entries_map(s).contains_key(s[i].0@),
        entries_map(s)[s[i].0@] == s[i].1@,
    decreases s.len(),
{
    if i == s.len() - 1 {
        assert(s.last() == s[i]);
    } else {
        assert(unique_keys(s.drop_last())) by {
            assert(forall|a: int, b: int|
                0 <= a < b < s.drop_last().len() ==> s.drop_last()[a].0@ != s.drop_last()[b].0@);
        }
        assert(s.drop_last()[i] == s[i]);
        lemma_entries_map_get(s.drop_last(), i);
        assert(s[i].0@ != s.last().0@);
    }
}

/// Replacing the pair that carries a key denotes an insert at that key.
pub proof fn lemma_entries_map_update(s: Seq<(Vec<u8>, Vec<u8>)>, i: int, e: (Vec<u8>, Vec<u8>))
    requires
        unique_keys(s),
        0 <= i < s.len(),
        e.0@ == s[i].0@,
    ensures
        entries_map(s.update(i, e)) =~= entries_map(s).insert(e.0@, e.1@),
        unique_keys(s.update(i, e)),
    decreases s.len(),
{
    let s2 = s.update(i, e);
    assert(unique_keys(s2)) by {
        assert(forall|a: int| 0 <= a < s.len() ==> s2[a].0@ == s[a].0@);
    }
    if i == s.len() - 1 {
        assert(s2.drop_last() =~= s.drop_last());
        assert(s2.last() == e);
    } else {
        assert(unique_keys(s.drop_last())) by {
            assert(forall|a: int, b: int|
                0 <= a < b < s.drop_last().len() ==> s.drop_last()[a].0@ != s.drop_last()[b].0@);
        }
        assert(s2.drop_last() =~= s.drop_last().update(i, e));
        assert(s.drop_last()[i] == s[i]);
        lemma_entries_map_update(s.drop_last(), i, e);
        assert(s2.last() == s.last());
        assert(s.last().0@ != e.0@);
    }
}

/// The in-memory object store: pairs of 40-character hex identifier and
/// compressed canonical bytes, at most one pair per identifier.
pub struct MemStore {
    pub objects: Vec<(Vec<u8>, Vec<u8>)>,
}

/// An object's identifier, as 20 raw bytes and as 40 hex characters.
pub struct StoredId {
    pub bin: Vec<u8>,
    pub hex: Vec<u8>,
}

impl View for MemStore {
    type V = Map<Seq<u8>, Seq<u8>>;

    open spec fn view(&self) -> Map<Seq<u8>, Seq<u8>> {
        entries_map(self.objects@)
    }
}

impl MemStore {
    pub open spec fn wf(self) -> bool {
        unique_keys(self.objects@)
    }

    pub fn new() -> (r: MemStore)
        ensures
            r.wf(),
            r@ == Map::<Seq<u8>, Seq<u8>>::empty(),
            r.objects@.len() == 0,
    {
        MemStore { objects: Vec::new() }
    }

    /// The index of the pair that carries `id`, if any.
    fn find_index(&self, id: &Vec<u8>) -> (r: Option<usize>)
        ensures
            match r {
                Some(i) => i < self.objects@.len() && self.objects@[i as int].0@ == id@,
                None => forall|i: int|
                    0 <= i < self.objects@.len() ==> #[trigger] self.objects@[i].0@ != id@,
            },
    {
        let mut i: usize = 0;
        while i < self.objects.len()
            invariant
                0 <= i <= self.objects@.len(),
                forall|j: int| 0 <= j < i ==> #[trigger] self.objects@[j].0@ != id@,
            decreases self.objects@.len() - i,
        {
            if bytes_eq(&self.objects[i].0, id) {
                return Some(i);
            }
            i += 1;
        }
        None
    }

    /// Whether an object with this identifier is stored.
    pub fn contains(&self, id: &Vec<u8>) -> (r: bool)
        ensures
            r == self@.contains_key(id@),
    {
        proof {
            lemma_entries_map_domain(self.objects@, id@);
        }
        match self.find_index(id) {
            Some(_) => true,
            None => false,
        }
    }

    /// How many objects are stored.
    pub fn len(&self) -> (r: usize)
        ensures
            r == self.objects@.len(),
    {
        self.objects.len()
    }

    /// The stored bytes under an identifier.
    pub fn get(&self, id: &Vec<u8>) -> (r: Option<&Vec<u8>>)
        requires
            self.wf(),
        ensures
            match r {
                Some(v) => self@.contains_key(id@) && v@ == self@[id@],
                None => !self@.contains_key(id@),
            },
    {
        proof {
            lemma_entries_map_domain(self.objects@, id@);
        }
        match self.find_index(id) {
            Some(i) => {
                proof {
                    lemma_entries_map_get(self.objects@, i as int);
                }
                Some(&self.objects[i].1)
            }
            None => None,
        }
    }

    /// Write an object: encode, hash, compress, and keep the compressed
    /// bytes under the content-derived identifier. Writing the same content
    /// twice converges to one stored object under one identifier. In-memory
    /// writing has no failure source, so the call always succeeds and
    /// returns the identifier, in both raw and hex form.
    pub fn write_full(&mut self, kind: ObjectKind, payload: &Vec<u8>) -> (id: StoredId)
        requires
            old(self).wf(),
        ensures
            final(self).wf(),
            id.hex@ == object_id_hex_spec(kind, payload@),
            id.hex@.len() == 40,
            id.bin@ == object_id_spec(kind, payload@),
            id.bin@.len() == 20,
            final(self)@ == old(self)@.insert(
                id.hex@,
                zlib_of(canonical_spec(kind, payload@.len() as u64, payload@)),
            ),
            final(self).objects@.len() == if old(self)@.contains_key(id.hex@) {
                old(self).objects@.len() as int
            } else {
                old(self).objects@.len() + 1 as int
            },
    {
        let enc = encode_and_id(kind, payload);
        let id = enc.id_hex;
        let id_bin = enc.id_bin;
        let id_copy = subvec(&id, 0, id.len());
        proof {
            assert(id_copy@ =~= id@);
            lemma_entries_map_domain(self.objects@, id@);
        }
        match self.find_index(&id) {
            Some(i) => {
                // the object is already stored: replace, converging to the
                // same content
                let ghost s_old = self.objects@;
                self.objects.remove(i);
                self.objects.insert(i, (id_copy, enc.compressed));
                proof {
                    assert(self.objects@ =~= s_old.update(i as int, self.objects@[i as int]));
                    lemma_entries_map_update(s_old, i as int, self.objects@[i as int]);
                }
            }
            None => {
                self.objects.push((id_copy, enc.compressed));
                proof {
                    let s_new = self.objects@;
                    assert(s_new.drop_last() =~= old(self).objects@);
                    assert(unique_keys(s_new)) by {
                        assert(forall|a: int|
                            0 <= a < s_new.len() - 1 ==> #[trigger] s_new[a].0@
                                != s_new[s_new.len() - 1].0@);
                    }
                }
            }
        }
        StoredId { hex: id, bin: id_bin }
    }

    /// Write an object and return its identifier as 40 hex characters.
    pub fn write(&mut self, kind: ObjectKind, payload: &Vec<u8>) -> (id: Vec<u8>)
        requires
            old(self).wf(),
        ensures
            final(self).wf(),
            id@ == object_id_hex_spec(kind, payload@),
            id@.len() == 40,
            final(self)@ == old(self)@.insert(
                id@,
                zlib_of(canonical_spec(kind, payload@.len() as u64, payload@)),
            ),
            final(self).objects@.len() == if old(self)@.contains_key(id@) {
                old(self).objects@.len() as int
            } else {
                old(self).objects@.len() + 1 as int
            },
    {
        self.write_full(kind, payload).hex
    }

    /// Read an object back: absent identifiers are not found, otherwise the
    /// stored bytes are decoded and checked against their declared size.
    pub fn read(&self, id: &Vec<u8>) -> (r: Result<ObjectData, StoreError>)
        requires
            self.wf(),
        ensures
            !self@.contains_key(id@) ==> (r matches Err(e) && e == StoreError::NotFound),
            self@.contains_key(id@) ==> forall|d: Seq<u8>|
                self@[id@] == zlib_of(d) ==> obj_res_matches(r, decode_spec(d)),
    {
        match self.get(id) {
            None => Err(StoreError::NotFound),
            Some(bytes) => decode_object(bytes),
        }
    }
}

/// Writing an object into a store model: the map gains the content-derived
/// identifier, bound to the compressed canonical bytes.
pub open spec fn store_write_model(
    m: Map<Seq<u8>, Seq<u8>>,
    k: ObjectKind,
    payload: Seq<u8>,
) -> Map<Seq<u8>, Seq<u8>> {
    m.insert(
        object_id_hex_spec(k, payload),
        zlib_of(canonical_spec(k, payload.len() as u64, payload)),
    )
}

/// Writing the same object twice is idempotent: the second write leaves the
/// store exactly as the first left it, under the same identifier — one stored
/// object, not two.
pub proof fn lemma_write_idempotent(m: Map<Seq<u8>, Seq<u8>>, k: ObjectKind, payload: Seq<u8>)
    ensures
        store_write_model(store_write_model(m, k, payload), k, payload) == store_write_model(
            m,
            k,
            payload,
        ),
{
    assert(store_write_model(store_write_model(m, k, payload), k, payload)
        =~= store_write_model(m, k, payload));
}

/// The round trip at the store level: after writing payload `p` of kind `k`,
/// the store maps the object's identifier to its compressed canonical bytes,
/// and decoding those canonical bytes yields `(k, p.len(), p)` exactly.
pub proof fn lemma_store_round_trip(m: Map<Seq<u8>, Seq<u8>>, k: ObjectKind, payload: Seq<u8>)
    requires
        payload.len() <= u64::MAX,
    ensures
        store_write_model(m, k, payload).contains_key(object_id_hex_spec(k, payload)),
        store_write_model(m, k, payload)[object_id_hex_spec(k, payload)] == zlib_of(
            canonical_spec(k, payload.len() as u64, payload),
        ),
        decode_spec(canonical_spec(k, payload.len() as u64, payload)) == Ok::<
            ObjectModel,
            StoreError,
        >(ObjectModel { kind: k, size: payload.len(), payload }),
{
    lemma_decode_encode(k, payload);
}

/// The two-level path of an identifier: the first two hex characters name
/// the subdirectory, the remaining 38 the file.
pub fn object_path_parts(id_hex: &Vec<u8>) -> (r: (Vec<u8>, Vec<u8>))
    requires
        id_hex@.len() == 40,
    ensures
        r.0@ == id_hex@.subrange(0, 2),
        r.1@ == id_hex@.subrange(2, 40),
{
    (subvec(id_hex, 0, 2), subvec(id_hex, 2, 40))
}

} // verus!
