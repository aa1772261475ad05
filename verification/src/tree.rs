//! Directory-tree entries: their canonical order and serialised form.
//!
//! Entries are ordered as if every directory's name carried a trailing `/`:
//! the sort key of an entry is its raw name, with one slash byte appended
//! when the entry denotes a directory, and keys are compared as plain byte
//! strings, shorter prefix first.

use vstd::prelude::*;
use vstd::multiset::Multiset;
use vstd::seq_lib::group_to_multiset_ensures;
use vstd::seq_lib::lemma_multiset_commutative;
use crate::bytes::{
    bytes_eq, find_byte, first_pos, has_byte, is_first_at, lemma_first_pos, push_all, subvec,
};
use crate::error::StoreError;

verus! {

/// The classification of one directory entry, as the filesystem reports it.
#[derive(Clone, Copy, PartialEq, Eq, Structural, Debug)]
pub enum EntryKind {
    /// A subdirectory.
    Directory,
    /// A symbolic link.
    Symlink,
    /// A file with at least one executable permission bit.
    Executable,
    /// Any other file.
    Regular,
}

impl EntryKind {
    /// The mode string of this classification, as ASCII digits.
    pub open spec fn mode_spec(self) -> Seq<u8> {
        match self {
            EntryKind::Directory => seq![52u8, 48u8, 48u8, 48u8, 48u8],
            EntryKind::Symlink => seq![49u8, 50u8, 48u8, 48u8, 48u8, 48u8],
            EntryKind::Executable => seq![49u8, 48u8, 48u8, 55u8, 53u8, 53u8],
            EntryKind::Regular => seq![49u8, 48u8, 48u8, 54u8, 52u8, 52u8],
        }
    }

    /// Render the mode string.
    pub fn mode_bytes(self) -> (r: Vec<u8>)
        ensures
            r@ == self.mode_spec(),
    {
        let mut v: Vec<u8> = Vec::new();
        match self {
            EntryKind::Directory => {
                v.push(52u8);
                v.push(48u8);
                v.push(48u8);
                v.push(48u8);
                v.push(48u8);
            }
            EntryKind::Symlink => {
                v.push(49u8);
                v.push(50u8);
                v.push(48u8);
                v.push(48u8);
                v.push(48u8);
                v.push(48u8);
            }
            EntryKind::Executable => {
                v.push(49u8);
                v.push(48u8);
                v.push(48u8);
                v.push(55u8);
                v.push(53u8);
                v.push(53u8);
            }
            EntryKind::Regular => {
                v.push(49u8);
                v.push(48u8);
                v.push(48u8);
                v.push(54u8);
                v.push(52u8);
                v.push(52u8);
            }
        }
        proof {
            assert(v@ =~= self.mode_spec());
        }
        v
    }
}

/// One child reference inside a directory snapshot: mode digits, raw name
/// bytes, and the 20 raw bytes of the child's identifier.
#[derive(Debug, PartialEq, Eq)]
pub struct TreeEntry {
    pub mode: Vec<u8>,
    pub name: Vec<u8>,
    pub hash: Vec<u8>,
}

/// An entry denotes a directory exactly when its mode string says so.
pub open spec fn entry_is_dir(e: TreeEntry) -> bool {
    e.mode@ == EntryKind::Directory.mode_spec()
}

/// The sort key: the raw name, with a trailing slash for directories.
pub open spec fn entry_key(e: TreeEntry) -> Seq<u8> {
    if entry_is_dir(e) {
        e.name@ + seq![47u8]
    } else {
        e.name@
    }
}

/// Byte-string order: compare over the shared prefix; on a full shared
/// prefix the shorter string sorts first.
pub open spec fn lex_le(a: Seq<u8>, b: Seq<u8>) -> bool
    decreases a.len(),
{
    if a.len() == 0 {
        true
    } else if b.len() == 0 {
        false
    } else if a[0] < b[0] {
        true
    } else if a[0] > b[0] {
        false
    } else {
        lex_le(a.skip(1), b.skip(1))
    }
}

/// Any two byte strings are comparable.
pub proof fn lemma_lex_le_total(a: Seq<u8>, b: Seq<u8>)
    ensures
        lex_le(a, b) || lex_le(b, a),
    decreases a.len(),
{
    if a.len() > 0 && b.len() > 0 && a[0] == b[0] {
        lemma_lex_le_total(a.skip(1), b.skip(1));
    }
}

/// The order is transitive.
pub proof fn lemma_lex_le_trans(a: Seq<u8>, b: Seq<u8>, c: Seq<u8>)
    requires
        lex_le(a, b),
        lex_le(b, c),
    ensures
        lex_le(a, c),
    decreases a.len(),
{
    if a.len() > 0 && b.len() > 0 && c.len() > 0 && a[0] == b[0] && b[0] == c[0] {
        lemma_lex_le_trans(a.skip(1), b.skip(1), c.skip(1));
    }
}

/// Strings that agree on their first `i` bytes compare as their tails do.
pub proof fn lemma_lex_le_skip(a: Seq<u8>, b: Seq<u8>, i: int)
    requires
        0 <= i <= a.len(),
        i <= b.len(),
        forall|j: int| 0 <= j < i ==> a[j] == b[j],
    ensures
        lex_le(a, b) == lex_le(a.skip(i), b.skip(i)),
    decreases i,
{
    if i > 0 {
        assert(a[0] == b[0]);
        lemma_lex_le_skip(a.skip(1), b.skip(1), i - 1);
        assert(a.skip(1).skip(i - 1) =~= a.skip(i));
        assert(b.skip(1).skip(i - 1) =~= b.skip(i));
    } else {
        assert(a.skip(0) =~= a);
        assert(b.skip(0) =~= b);
    }
}

/// Compare two byte vectors in the canonical order.
pub fn lex_le_bytes(x: &Vec<u8>, y: &Vec<u8>) -> (r: bool)
    ensures
        r == lex_le(x@, y@),
{
    let n: usize = if x.len() < y.len() {
        x.len()
    } else {
        y.len()
    };
    let mut i: usize = 0;
    while i < n
        invariant
            0 <= i <= n,
            n <= x@.len(),
            n <= y@.len(),
            n == if x@.len() < y@.len() { x@.len() as int } else { y@.len() as int },
            forall|j: int| 0 <= j < i ==> x@[j] == y@[j],
        decreases n - i,
    {
        let xb = x[i];
        let yb = y[i];
        if xb < yb {
            proof {
                lemma_lex_le_skip(x@, y@, i as int);
            }
            return true;
        }
        if xb > yb {
            proof {
                lemma_lex_le_skip(x@, y@, i as int);
            }
            return false;
        }
        i += 1;
    }
    proof {
        lemma_lex_le_skip(x@, y@, n as int);
    }
    x.len() <= y.len()
}

/// Whether an entry's mode marks it as a directory.
pub fn entry_is_dir_exec(e: &TreeEntry) -> (r: bool)
    ensures
        r == entry_is_dir(*e),
{
    let dir_mode = EntryKind::Directory.mode_bytes();
    bytes_eq(&e.mode, &dir_mode)
}

/// Materialise an entry's sort key.
pub fn key_vec(e: &TreeEntry) -> (r: Vec<u8>)
    ensures
        r@ == entry_key(*e),
{
    let mut v = subvec(&e.name, 0, e.name.len());
    proof {
        assert(v@ =~= e.name@);
    }
    if entry_is_dir_exec(e) {
        v.push(47u8);
    }
    v
}

/// Compare two entries in the canonical order.
pub fn entry_le(a: &TreeEntry, b: &TreeEntry) -> (r: bool)
    ensures
        r == lex_le(entry_key(*a), entry_key(*b)),
{
    let ka = key_vec(a);
    let kb = key_vec(b);
    lex_le_bytes(&ka, &kb)
}

/// A sequence of entries stands in canonical order.
pub open spec fn entries_sorted(s: Seq<TreeEntry>) -> bool {
    forall|i: int, j: int|
        0 <= i < j < s.len() ==> lex_le(entry_key(#[trigger] s[i]), entry_key(#[trigger] s[j]))
}

/// Where an element lands when inserted into a sorted sequence: after every
/// element that does not exceed it, before the first that does.
pub open spec fn insert_sorted(e: TreeEntry, t: Seq<TreeEntry>) -> Seq<TreeEntry>
    decreases t.len(),
{
    if t.len() == 0 {
        seq![e]
    } else if !lex_le(entry_key(t[0]), entry_key(e)) {
        seq![e] + t
    } else {
        seq![t[0]] + insert_sorted(e, t.skip(1))
    }
}

/// The canonical sort, defined as insertion sort: a deterministic function
/// of the input sequence.
pub open spec fn sort_spec(s: Seq<TreeEntry>) -> Seq<TreeEntry>
    decreases s.len(),
{
    if s.len() == 0 {
        Seq::<TreeEntry>::empty()
    } else {
        insert_sorted(s.last(), sort_spec(s.drop_last()))
    }
}

/// Inserting at the position the scan found is what `insert_sorted` does.
proof fn lemma_insert_sorted_at(t: Seq<TreeEntry>, e: TreeEntry, p: int)
    requires
        0 <= p <= t.len(),
        forall|q: int| 0 <= q < p ==> lex_le(entry_key(#[trigger] t[q]), entry_key(e)),
        forall|q: int| p <= q < t.len() ==> !lex_le(entry_key(#[trigger] t[q]), entry_key(e)),
    ensures
        t.insert(p, e) == insert_sorted(e, t),
    decreases t.len(),
{
    if t.len() == 0 {
        assert(t.insert(0, e) =~= seq![e]);
    } else if p == 0 {
        assert(!lex_le(entry_key(t[0]), entry_key(e)));
        assert(t.insert(0, e) =~= seq![e] + t);
    } else {
        assert(lex_le(entry_key(t[0]), entry_key(e)));
        assert(forall|q: int| 0 <= q < p - 1 ==> t.skip(1)[q] == t[q + 1]);
        assert(forall|q: int| p - 1 <= q < t.skip(1).len() ==> t.skip(1)[q] == t[q + 1]);
        lemma_insert_sorted_at(t.skip(1), e, p - 1);
        assert(t.insert(p, e) =~= seq![t[0]] + t.skip(1).insert(p - 1, e));
    }
}

/// Inserting an element anywhere adds exactly it to the multiset.
proof fn lemma_to_multiset_insert(t: Seq<TreeEntry>, p: int, e: TreeEntry)
    requires
        0 <= p <= t.len(),
    ensures
        t.insert(p, e).to_multiset() =~= t.to_multiset().insert(e),
{
    broadcast use group_to_multiset_ensures;
    broadcast use vstd::multiset::group_multiset_axioms;

    assert(t.insert(p, e) =~= t.take(p) + (seq![e] + t.skip(p)));
    lemma_multiset_commutative(t.take(p), seq![e] + t.skip(p));
    lemma_multiset_commutative(seq![e], t.skip(p));
    assert(t =~= t.take(p) + t.skip(p));
    lemma_multiset_commutative(t.take(p), t.skip(p));
    assert(seq![e] =~= Seq::<TreeEntry>::empty().push(e));
    assert(seq![e].to_multiset() =~= Seq::<TreeEntry>::empty().to_multiset().insert(e));
    assert(Seq::<TreeEntry>::empty().to_multiset() =~= Multiset::<TreeEntry>::empty()) by {
        assert(Seq::<TreeEntry>::empty().to_multiset().len() == 0);
    }
}

/// A one-element sequence is already sorted.
proof fn lemma_sort_spec_singleton(s: Seq<TreeEntry>)
    requires
        s.len() == 1,
    ensures
        sort_spec(s) == s,
{
    assert(s.drop_last() =~= Seq::<TreeEntry>::empty());
    assert(sort_spec(s) == insert_sorted(s.last(), sort_spec(s.drop_last())));
    assert(sort_spec(s.drop_last()) == Seq::<TreeEntry>::empty());
    assert(insert_sorted(s.last(), Seq::<TreeEntry>::empty()) == seq![s.last()]);
    assert(s =~= seq![s.last()]);
}

/// Sort entries into canonical order: the result is exactly the insertion
/// sort of the input — a sorted permutation, and a deterministic function of
/// the input sequence.
pub fn sort_entries(v: &mut Vec<TreeEntry>)
    ensures
        final(v)@.to_multiset() == old(v)@.to_multiset(),
        final(v)@.len() == old(v)@.len(),
        entries_sorted(final(v)@),
        final(v)@ == sort_spec(old(v)@),
{
    broadcast use group_to_multiset_ensures;

    if v.len() <= 1 {
        proof {
            if v@.len() == 1 {
                lemma_sort_spec_singleton(v@);
            }
        }
        return;
    }
    let mut i: usize = 1;
    proof {
        lemma_sort_spec_singleton(v@.take(1));
    }
    while i < v.len()
        invariant
            1 <= i <= v@.len(),
            v@.len() == old(v)@.len(),
            v@.to_multiset() == old(v)@.to_multiset(),
            entries_sorted(v@.take(i as int)),
            v@.skip(i as int) == old(v)@.skip(i as int),
            v@.take(i as int) == sort_spec(old(v)@.take(i as int)),
        decreases v@.len() - i,
    {
        let mut p: usize = i;
        while p > 0 && !entry_le(&v[p - 1], &v[i])
            invariant
                0 <= p <= i < v@.len(),
                forall|q: int|
                    p <= q < i ==> lex_le(entry_key(v@[i as int]), entry_key(#[trigger] v@[q])),
                forall|q: int|
                    p <= q < i ==> !lex_le(entry_key(#[trigger] v@[q]), entry_key(v@[i as int])),
            decreases p,
        {
            proof {
                lemma_lex_le_total(entry_key(v@[p - 1]), entry_key(v@[i as int]));
            }
            p -= 1;
        }
        let ghost s = v@;
        let e = v.remove(i);
        v.insert(p, e);
        proof {
            let w = v@;
            assert(w =~= s.take(i as int).insert(p as int, e) + s.skip(i + 1 as int)) by {
                assert(s.remove(i as int) =~= s.take(i as int) + s.skip(i + 1 as int));
                assert(s.remove(i as int).insert(p as int, e)
                    =~= s.take(i as int).insert(p as int, e) + s.skip(i + 1 as int));
            }
            // multiset: remove then insert of the same element
            s.to_multiset_ensures();
            assert(s[i as int] == e);
            assert(s.remove(i as int).to_multiset() =~= s.to_multiset().remove(e));
            lemma_to_multiset_insert(s.remove(i as int), p as int, e);
            assert(w.to_multiset() =~= s.to_multiset()) by {
                broadcast use vstd::multiset::group_multiset_axioms;
                assert(s.contains(e)) by {
                    assert(s[i as int] == e);
                }
                assert(s.to_multiset().count(e) > 0);
                assert(s.to_multiset().remove(e).insert(e) =~= s.to_multiset());
            }
            // order: the moved element fits between its new neighbours
            assert forall|q: int| 0 <= q < p implies lex_le(
                entry_key(s[q]),
                entry_key(e),
            ) by {
                if p > 0 {
                    assert(lex_le(entry_key(s[p - 1]), entry_key(e)));
                    if q < p - 1 {
                        assert(lex_le(entry_key(s.take(i as int)[q]), entry_key(s.take(i as int)[p - 1])));
                        lemma_lex_le_trans(entry_key(s[q]), entry_key(s[p - 1]), entry_key(e));
                    }
                }
            }
            assert(entries_sorted(w.take(i + 1 as int))) by {
                assert forall|a: int, b: int| 0 <= a < b < i + 1 implies lex_le(
                    entry_key(#[trigger] w.take(i + 1 as int)[a]),
                    entry_key(#[trigger] w.take(i + 1 as int)[b]),
                ) by {
                    assert(w.take(i + 1 as int)[a] == w[a]);
                    assert(w.take(i + 1 as int)[b] == w[b]);
                    let wa = if a < p { s[a] } else if a == p { e } else { s[a - 1] };
                    let wb = if b < p { s[b] } else if b == p { e } else { s[b - 1] };
                    assert(w[a] == wa);
                    assert(w[b] == wb);
                    if a < p && b == p {
                        // wa before the inserted element
                    } else if a == p && b > p {
                        assert(lex_le(entry_key(e), entry_key(s[b - 1])));
                    } else if a < p && b > p {
                        assert(lex_le(entry_key(s.take(i as int)[a]), entry_key(s.take(i as int)[b - 1])));
                    } else if a > p && b > p {
                        assert(lex_le(entry_key(s.take(i as int)[a - 1]), entry_key(s.take(i as int)[b - 1])));
                    } else if a < p && b < p {
                        assert(lex_le(entry_key(s.take(i as int)[a]), entry_key(s.take(i as int)[b])));
                    }
                }
            }
            // the new prefix is exactly the insertion-sort step
            assert forall|q: int| 0 <= q < p implies lex_le(
                entry_key(#[trigger] s.take(i as int)[q]),
                entry_key(e),
            ) by {
                assert(s.take(i as int)[q] == s[q]);
            }
            assert forall|q: int| p <= q < i implies !lex_le(
                entry_key(#[trigger] s.take(i as int)[q]),
                entry_key(e),
            ) by {
                assert(s.take(i as int)[q] == s[q]);
            }
            lemma_insert_sorted_at(s.take(i as int), e, p as int);
            assert(w.take(i + 1 as int) =~= s.take(i as int).insert(p as int, e));
            assert(s.skip(i as int)[0] == s[i as int]);
            assert(e == old(v)@[i as int]);
            assert(old(v)@.take(i + 1 as int).drop_last() =~= old(v)@.take(i as int));
            assert(old(v)@.take(i + 1 as int).last() == old(v)@[i as int]);
            assert(w.take(i + 1 as int) == sort_spec(old(v)@.take(i + 1 as int)));
            assert(w.skip(i + 1 as int) =~= s.skip(i as int).skip(1));
            assert(old(v)@.skip(i + 1 as int) =~= old(v)@.skip(i as int).skip(1));
        }
        i += 1;
    }
    proof {
        assert(v@.take(v@.len() as int) =~= v@);
        assert(old(v)@.take(old(v)@.len() as int) =~= old(v)@);
    }
}

/// The serialised form of one entry: mode digits, space, raw name, NUL, then
/// the 20 raw hash bytes.
pub open spec fn entry_bytes_spec(e: TreeEntry) -> Seq<u8> {
    e.mode@ + seq![32u8] + e.name@ + seq![0u8] + e.hash@
}

/// A tree's payload: its entries serialised in the order given.
pub open spec fn tree_payload_spec(s: Seq<TreeEntry>) -> Seq<u8>
    decreases s.len(),
{
    if s.len() == 0 {
        Seq::<u8>::empty()
    } else {
        entry_bytes_spec(s[0]) + tree_payload_spec(s.drop_first())
    }
}

/// Serialise entries in the order given; sort first for the canonical form.
pub fn encode_tree(entries: &Vec<TreeEntry>) -> (r: Vec<u8>)
    ensures
        r@ == tree_payload_spec(entries@),
{
    let mut out: Vec<u8> = Vec::new();
    let mut i: usize = 0;
    proof {
        assert(entries@.skip(0) =~= entries@);
        assert(out@ + tree_payload_spec(entries@) =~= tree_payload_spec(entries@));
    }
    while i < entries.len()
        invariant
            0 <= i <= entries@.len(),
            tree_payload_spec(entries@) == out@ + tree_payload_spec(entries@.skip(i as int)),
        decreases entries@.len() - i,
    {
        let ghost before = out@;
        let e = &entries[i];
        push_all(&mut out, &e.mode);
        out.push(32u8);
        push_all(&mut out, &e.name);
        out.push(0u8);
        push_all(&mut out, &e.hash);
        proof {
            let tail = entries@.skip(i as int);
            assert(tail[0] == entries@[i as int]);
            assert(tail.drop_first() =~= entries@.skip(i + 1 as int));
            assert(out@ =~= before + entry_bytes_spec(entries@[i as int]));
        }
        i += 1;
    }
    proof {
        assert(entries@.skip(entries@.len() as int) =~= Seq::<TreeEntry>::empty());
    }
    out
}

/// The mathematical content of one parsed entry.
pub ghost struct EntryModel {
    pub mode: Seq<u8>,
    pub name: Seq<u8>,
    pub hash: Seq<u8>,
}

/// What parsing a tree payload yields: records are read up to a NUL holding
/// `mode SPACE name`, followed by exactly 20 raw hash bytes; anything else is
/// malformed and yields nothing.
pub open spec fn parse_tree_spec(d: Seq<u8>) -> Option<Seq<EntryModel>>
    decreases d.len(),
{
    if d.len() == 0 {
        Some(Seq::<EntryModel>::empty())
    } else if !has_byte(d, 0) {
        None
    } else {
        let np = first_pos(d, 0);
        let rec = d.take(np);
        if !has_byte(rec, 32) {
            None
        } else if np < 0 || np + 21 > d.len() {
            None
        } else {
            let sp = first_pos(rec, 32);
            match parse_tree_spec(d.skip(np + 21)) {
                None => None,
                Some(rest) => Some(
                    seq![
                        EntryModel {
                            mode: rec.take(sp),
                            name: rec.skip(sp + 1),
                            hash: d.subrange(np + 1, np + 21),
                        },
                    ] + rest,
                ),
            }
        }
    }
}

/// The model of an entry: the bytes its fields hold.
pub open spec fn entry_model_of(e: TreeEntry) -> EntryModel {
    EntryModel { mode: e.mode@, name: e.name@, hash: e.hash@ }
}

pub open spec fn models_of(es: Seq<TreeEntry>) -> Seq<EntryModel> {
    es.map_values(|e: TreeEntry| entry_model_of(e))
}

pub open spec fn model_is_dir(m: EntryModel) -> bool {
    m.mode == EntryKind::Directory.mode_spec()
}

pub open spec fn model_key(m: EntryModel) -> Seq<u8> {
    if model_is_dir(m) {
        m.name + seq![47u8]
    } else {
        m.name
    }
}

/// `insert_sorted`, over models.
pub open spec fn insert_sorted_model(e: EntryModel, t: Seq<EntryModel>) -> Seq<EntryModel>
    decreases t.len(),
{
    if t.len() == 0 {
        seq![e]
    } else if !lex_le(model_key(t[0]), model_key(e)) {
        seq![e] + t
    } else {
        seq![t[0]] + insert_sorted_model(e, t.skip(1))
    }
}

/// The canonical sort, over models.
pub open spec fn sort_model(s: Seq<EntryModel>) -> Seq<EntryModel>
    decreases s.len(),
{
    if s.len() == 0 {
        Seq::<EntryModel>::empty()
    } else {
        insert_sorted_model(s.last(), sort_model(s.drop_last()))
    }
}

pub open spec fn entry_bytes_model(m: EntryModel) -> Seq<u8> {
    m.mode + seq![32u8] + m.name + seq![0u8] + m.hash
}

/// The serialised payload, over models.
pub open spec fn payload_model(s: Seq<EntryModel>) -> Seq<u8>
    decreases s.len(),
{
    if s.len() == 0 {
        Seq::<u8>::empty()
    } else {
        entry_bytes_model(s[0]) + payload_model(s.drop_first())
    }
}

/// Taking models commutes with inserting into a sorted sequence.
proof fn lemma_models_insert_sorted(e: TreeEntry, t: Seq<TreeEntry>)
    ensures
        models_of(insert_sorted(e, t)) == insert_sorted_model(entry_model_of(e), models_of(t)),
    decreases t.len(),
{
    let em = entry_model_of(e);
    let tm = models_of(t);
    if t.len() == 0 {
        assert(models_of(seq![e]) =~= seq![em]);
    } else {
        assert(tm[0] == entry_model_of(t[0]));
        assert(model_key(entry_model_of(t[0])) == entry_key(t[0]));
        assert(model_key(em) == entry_key(e));
        if !lex_le(entry_key(t[0]), entry_key(e)) {
            assert(models_of(seq![e] + t) =~= seq![em] + tm);
        } else {
            lemma_models_insert_sorted(e, t.skip(1));
            assert(models_of(t.skip(1)) =~= tm.skip(1));
            assert(models_of(seq![t[0]] + insert_sorted(e, t.skip(1))) =~= seq![tm[0]]
                + models_of(insert_sorted(e, t.skip(1))));
        }
    }
}

/// Taking models commutes with sorting.
pub proof fn lemma_models_sort(s: Seq<TreeEntry>)
    ensures
        models_of(sort_spec(s)) == sort_model(models_of(s)),
    decreases s.len(),
{
    if s.len() == 0 {
        assert(models_of(s) =~= Seq::<EntryModel>::empty());
        assert(models_of(sort_spec(s)) =~= Seq::<EntryModel>::empty());
    } else {
        lemma_models_sort(s.drop_last());
        assert(models_of(s.drop_last()) =~= models_of(s).drop_last());
        assert(models_of(s).last() == entry_model_of(s.last()));
        assert(models_of(s).drop_last().len() == s.len() - 1);
        lemma_models_insert_sorted(s.last(), sort_spec(s.drop_last()));
    }
}

/// The payload of entries is the payload of their models.
pub proof fn lemma_payload_models(es: Seq<TreeEntry>)
    ensures
        tree_payload_spec(es) == payload_model(models_of(es)),
    decreases es.len(),
{
    if es.len() == 0 {
        assert(models_of(es) =~= Seq::<EntryModel>::empty());
    } else {
        lemma_payload_models(es.drop_first());
        assert(models_of(es.drop_first()) =~= models_of(es).drop_first());
        assert(models_of(es)[0] == entry_model_of(es[0]));
        assert(entry_bytes_spec(es[0]) == entry_bytes_model(entry_model_of(es[0])));
        assert(models_of(es).len() == es.len());
    }
}

/// Parsed entries carry the bytes their models describe.
pub open spec fn entries_match(es: Seq<TreeEntry>, ms: Seq<EntryModel>) -> bool {
    &&& es.len() == ms.len()
    &&& forall|i: int|
        0 <= i < es.len() ==> (#[trigger] es[i]).mode@ == ms[i].mode && es[i].name@ == ms[i].name
            && es[i].hash@ == ms[i].hash
}

/// Parse a tree payload back into its entries. Succeeds exactly on payloads
/// that are a whole number of well-formed records.
pub fn parse_tree(payload: &Vec<u8>) -> (r: Result<Vec<TreeEntry>, StoreError>)
    ensures
        match parse_tree_spec(payload@) {
            Some(ms) => r matches Ok(es) && entries_match(es@, ms),
            None => r matches Err(e) && e == StoreError::CorruptEntry,
        },
    decreases payload@.len(),
{
    if payload.len() == 0 {
        return Ok(Vec::new());
    }
    let np = match find_byte(payload, 0) {
        None => {
            return Err(StoreError::CorruptEntry);
        }
        Some(i) => i,
    };
    proof {
        lemma_first_pos(payload@, 0, np as int);
    }
    let rec = subvec(payload, 0, np);
    proof {
        assert(rec@ =~= payload@.take(np as int));
    }
    let sp = match find_byte(&rec, 32) {
        None => {
            return Err(StoreError::CorruptEntry);
        }
        Some(i) => i,
    };
    proof {
        lemma_first_pos(rec@, 32, sp as int);
    }
    if payload.len() - np < 21 {
        return Err(StoreError::CorruptEntry);
    }
    let mode = subvec(&rec, 0, sp);
    let name = subvec(&rec, sp + 1, rec.len());
    let hash = subvec(payload, np + 1, np + 21);
    let tail = subvec(payload, np + 21, payload.len());
    proof {
        assert(mode@ =~= rec@.take(sp as int));
        assert(name@ =~= rec@.skip(sp + 1));
        assert(hash@ =~= payload@.subrange(np + 1, np + 21));
        assert(tail@ =~= payload@.skip(np + 21));
    }
    let entry = TreeEntry { mode, name, hash };
    match parse_tree(&tail) {
        Err(e) => Err(e),
        Ok(mut rest) => {
            rest.insert(0, entry);
            proof {
                let ms = parse_tree_spec(payload@).unwrap();
                assert(entries_match(rest@, ms)) by {
                    let tailms = parse_tree_spec(tail@).unwrap();
                    assert(forall|i: int| 1 <= i < rest@.len() ==> rest@[i] == rest@.subrange(
                        1,
                        rest@.len() as int,
                    )[i - 1]);
                    assert(rest@.subrange(1, rest@.len() as int) =~= rest@.drop_first());
                    assert(forall|i: int| 1 <= i < ms.len() ==> ms[i] == tailms[i - 1]);
                }
            }
            Ok(rest)
        }
    }
}

/// Parsing inverts serialisation: the payload of well-formed entries parses
/// back to exactly those entries. Well-formed means the mode holds neither
/// NUL nor space, the name holds no NUL, and the hash is 20 bytes.
pub open spec fn entry_wf(e: TreeEntry) -> bool {
    &&& forall|i: int|
        0 <= i < e.mode@.len() ==> #[trigger] e.mode@[i] != 0 && e.mode@[i] != 32
    &&& forall|i: int| 0 <= i < e.name@.len() ==> #[trigger] e.name@[i] != 0
    &&& e.hash@.len() == 20
}

pub proof fn lemma_parse_tree_encode(s: Seq<TreeEntry>)
    requires
        forall|i: int| 0 <= i < s.len() ==> entry_wf(#[trigger] s[i]),
    ensures
        parse_tree_spec(tree_payload_spec(s)) matches Some(ms) && entries_match(s, ms),
    decreases s.len(),
{
    let d = tree_payload_spec(s);
    if s.len() == 0 {
    } else {
        let e = s[0];
        let m = e.mode@.len() as int;
        let n = e.name@.len() as int;
        let np = m + 1 + n;
        assert(d =~= entry_bytes_spec(e) + tree_payload_spec(s.drop_first()));
        assert(is_first_at(d, 0, np)) by {
            assert(d[np] == 0);
            assert forall|j: int| 0 <= j < np implies d[j] != 0 by {
                if j < m {
                    assert(d[j] == e.mode@[j]);
                } else if j == m {
                    assert(d[j] == 32);
                } else {
                    assert(d[j] == e.name@[j - m - 1]);
                }
            }
        }
        lemma_first_pos(d, 0, np);
        let rec = d.take(np);
        assert(rec =~= e.mode@ + seq![32u8] + e.name@);
        assert(is_first_at(rec, 32, m)) by {
            assert(rec[m] == 32);
            assert forall|j: int| 0 <= j < m implies rec[j] != 32 by {
                assert(rec[j] == e.mode@[j]);
            }
        }
        lemma_first_pos(rec, 32, m);
        assert(d.len() == np + 21 + tree_payload_spec(s.drop_first()).len());
        assert(rec.take(m) =~= e.mode@);
        assert(rec.skip(m + 1) =~= e.name@);
        assert(d.subrange(np + 1, np + 21) =~= e.hash@);
        assert(d.skip(np + 21) =~= tree_payload_spec(s.drop_first()));
        assert(forall|i: int| 0 <= i < s.drop_first().len() ==> entry_wf(
            #[trigger] s.drop_first()[i],
        ));
        lemma_parse_tree_encode(s.drop_first());
        let restms = parse_tree_spec(tree_payload_spec(s.drop_first())).unwrap();
        let ms = parse_tree_spec(d).unwrap();
        assert(ms[0].mode == e.mode@ && ms[0].name == e.name@ && ms[0].hash == e.hash@);
        assert(entries_match(s, ms)) by {
            assert(forall|i: int| 1 <= i < s.len() ==> s[i] == s.drop_first()[i - 1]);
            assert(forall|i: int| 1 <= i < ms.len() ==> ms[i] == restms[i - 1]);
        }
    }
}

/// A file entry sorts strictly before a directory entry of the same name:
/// the directory's key carries the extra trailing slash.
pub proof fn lemma_file_before_dir(name: Seq<u8>)
    ensures
        lex_le(name, name + seq![47u8]),
        !lex_le(name + seq![47u8], name),
    decreases name.len(),
{
    if name.len() == 0 {
        assert((name + seq![47u8]).len() == 1);
    } else {
        lemma_file_before_dir(name.skip(1));
        assert((name + seq![47u8]).skip(1) =~= name.skip(1) + seq![47u8]);
        assert((name + seq![47u8])[0] == name[0]);
    }
}

} // verus!
