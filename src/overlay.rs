//! The overlay of one node: an insertion-ordered map from property names to
//! value slots, where an empty slot records a removal.

use vstd::prelude::*;
use indexmap::IndexMap;

verus! {

#[verifier::external_type_specification]
#[verifier::external_body]
#[verifier::reject_recursive_types(K)]
#[verifier::reject_recursive_types(V)]
#[verifier::reject_recursive_types(S)]
pub struct ExIndexMap<K, V, S>(indexmap::IndexMap<K, V, S>);

/// One overlay entry as a mathematical value: a name and a value slot; `None`
/// shadows whatever an ancestor holds for that name.
pub type EntryView = (Seq<char>, Option<Seq<char>>);

/// The entries of an overlay, in insertion order.
pub uninterp spec fn overlay_entries(m: IndexMap<String, Option<String>>) -> Seq<EntryView>;

pub open spec fn slot_view(s: Option<String>) -> Option<Seq<char>> {
    match s {
        Some(v) => Some(v@),
        None => None,
    }
}

/// No name occurs twice.
pub open spec fn keys_unique(s: Seq<EntryView>) -> bool {
    forall|i: int, j: int| 0 <= i < j < s.len() ==> s[i].0 != s[j].0
}

pub open spec fn has_key(s: Seq<EntryView>, k: Seq<char>) -> bool {
    exists|i: int| 0 <= i < s.len() && s[i].0 == k
}

pub open spec fn key_index(s: Seq<EntryView>, k: Seq<char>) -> int {
    choose|i: int| 0 <= i < s.len() && s[i].0 == k
}

/// The slot that an overlay holds for `k`, if it holds one.
pub open spec fn layer_get(s: Seq<EntryView>, k: Seq<char>) -> Option<Option<Seq<char>>> {
    if has_key(s, k) {
        Some(s[key_index(s, k)].1)
    } else {
        None
    }
}

/// An insertion: an existing name keeps its place and takes the new slot, a
/// new name goes last.
pub open spec fn entries_insert(s: Seq<EntryView>, k: Seq<char>, v: Option<Seq<char>>) -> Seq<EntryView> {
    if has_key(s, k) {
        s.update(key_index(s, k), (k, v))
    } else {
        s.push((k, v))
    }
}

pub proof fn lemma_key_index(s: Seq<EntryView>, k: Seq<char>, i: int)
    requires
        keys_unique(s),
        0 <= i < s.len(),
        s[i].0 == k,
    ensures
        has_key(s, k),
        key_index(s, k) == i,
{
    let j = key_index(s, k);
    assert(s[j].0 == k);
}

pub proof fn lemma_entries_insert(s: Seq<EntryView>, k: Seq<char>, v: Option<Seq<char>>)
    requires
        keys_unique(s),
    ensures
        keys_unique(entries_insert(s, k, v)),
        forall|k2: Seq<char>| #[trigger] layer_get(entries_insert(s, k, v), k2)
            == if k2 == k { Some(v) } else { layer_get(s, k2) },
{
    let t = entries_insert(s, k, v);
    if has_key(s, k) {
        let i = key_index(s, k);
        assert(s[i].0 == k);
    }
    assert forall|k2: Seq<char>| #[trigger] layer_get(t, k2)
        == if k2 == k { Some(v) } else { layer_get(s, k2) } by {
        if k2 == k {
            if has_key(s, k) {
                lemma_key_index(t, k2, key_index(s, k));
            } else {
                lemma_key_index(t, k2, s.len() as int);
            }
        } else if has_key(s, k2) {
            let j = key_index(s, k2);
            assert(t[j] == s[j]);
            lemma_key_index(t, k2, j);
        } else {
            assert(!has_key(t, k2)) by {
                if has_key(t, k2) {
                    let j = key_index(t, k2);
                    assert(s[j].0 == k2);
                }
            }
        }
    }
}

/// Relies on indexmap::IndexMap::new: an empty map.
#[verifier::external_body]
pub(crate) fn overlay_new() -> (r: IndexMap<String, Option<String>>)
    ensures
        overlay_entries(r) == Seq::<EntryView>::empty(),
{
    IndexMap::new()
}

/// Relies on indexmap::IndexMap::len: the number of entries.
#[verifier::external_body]
pub(crate) fn overlay_len(m: &IndexMap<String, Option<String>>) -> (r: usize)
    ensures
        r == overlay_entries(*m).len(),
{
    m.len()
}

/// Relies on indexmap::IndexMap::get: the slot stored under a name.
#[verifier::external_body]
pub(crate) fn overlay_get<'a>(m: &'a IndexMap<String, Option<String>>, k: &String) -> (r: Option<&'a Option<String>>)
    ensures
        r is None <==> !has_key(overlay_entries(*m), k@),
        r is Some ==> layer_get(overlay_entries(*m), k@) == Some(slot_view(*r.unwrap())),
{
    m.get(k)
}

/// Relies on indexmap::IndexMap::get_index: the entry at a position of the
/// insertion order.
#[verifier::external_body]
pub(crate) fn overlay_get_index<'a>(m: &'a IndexMap<String, Option<String>>, i: usize) -> (r: Option<(&'a String, &'a Option<String>)>)
    ensures
        i < overlay_entries(*m).len() <==> r is Some,
        r is Some ==> (r.unwrap().0@, slot_view(*r.unwrap().1)) == overlay_entries(*m)[i as int],
{
    m.get_index(i)
}

/// Relies on indexmap::IndexMap::insert: an existing key keeps its position
/// and takes the new value; a new key is appended. Keys stay unique.
#[verifier::external_body]
pub(crate) fn overlay_insert(m: &mut IndexMap<String, Option<String>>, k: String, v: Option<String>) -> (r: Option<Option<String>>)
    ensures
        keys_unique(overlay_entries(*final(m))),
        overlay_entries(*final(m)) == entries_insert(overlay_entries(*old(m)), k@, slot_view(v)),
        r is None <==> !has_key(overlay_entries(*old(m)), k@),
{
    m.insert(k, v)
}

/// Relies on the Clone of indexmap::IndexMap: the same entries in the same
/// order.
#[verifier::external_body]
pub(crate) fn overlay_clone(m: &IndexMap<String, Option<String>>) -> (r: IndexMap<String, Option<String>>)
    ensures
        overlay_entries(r) == overlay_entries(*m),
{
    m.clone()
}

/// Relies on indexmap::IndexMap::shrink_to_fit: only the capacity changes.
#[verifier::external_body]
pub(crate) fn overlay_shrink_to_fit(m: &mut IndexMap<String, Option<String>>)
    ensures
        overlay_entries(*final(m)) == overlay_entries(*old(m)),
{
    m.shrink_to_fit()
}

/// Relies on indexmap::IndexMap::as_slice and the equality of indexmap's
/// Slice: entries compared pairwise, in order, by key and by value.
#[verifier::external_body]
pub(crate) fn overlay_same_order(a: &IndexMap<String, Option<String>>, b: &IndexMap<String, Option<String>>) -> (r: bool)
    ensures
        r == (overlay_entries(*a) == overlay_entries(*b)),
{
    a.as_slice() == b.as_slice()
}

} // verus!
