//! The header of a commit: an ordered map from keys to values.
//!
//! The map is an `indexmap::IndexMap`, which is not verified here. This module
//! names what such a map holds, the sequence of its entries in their order, and
//! trusts the few methods that the library calls to do to that sequence what
//! the documentation of `indexmap` says.

use crate::scan::{index_of, is_first_index, lemma_index_of, lemma_index_of_unique};
use indexmap::IndexMap;
use vstd::prelude::*;

verus! {

/// `indexmap::IndexMap`. Its content is opaque here.
#[verifier::external_type_specification]
#[verifier::external_body]
#[verifier::reject_recursive_types(K)]
#[verifier::reject_recursive_types(V)]
#[verifier::reject_recursive_types(S)]
pub struct ExIndexMap<K, V, S>(IndexMap<K, V, S>);

/// The entries of a header, each a key with its value, in the order of the
/// map.
pub uninterp spec fn header_entries(header: IndexMap<String, String>) -> Seq<
    (Seq<char>, Seq<char>),
>;

/// The keys of some entries, in their order.
pub open spec fn keys_of<K, V>(entries: Seq<(K, V)>) -> Seq<K> {
    entries.map_values(|entry: (K, V)| entry.0)
}

/// Where `key` stands among `entries`: the position of the first entry with
/// that key, or `entries.len()` when there is none.
pub open spec fn key_index<K, V>(entries: Seq<(K, V)>, key: K) -> int {
    index_of(keys_of(entries), key)
}

/// No key occurs twice among `entries`.
pub open spec fn distinct_keys<K, V>(entries: Seq<(K, V)>) -> bool {
    forall|i: int, j: int|
        0 <= i < j < entries.len() ==> (#[trigger] entries[i]).0 != (#[trigger] entries[j]).0
}

/// `entries` after `key` is given `value`: an entry that has the key keeps its
/// place and takes the value; otherwise a new entry comes last.
pub open spec fn insert_entry<K, V>(entries: Seq<(K, V)>, key: K, value: V) -> Seq<(K, V)> {
    let at = key_index(entries, key);
    if at < entries.len() {
        entries.update(at, (key, value))
    } else {
        entries.push((key, value))
    }
}

/// `key_index` points at the first entry with the key, or past the last entry
/// if no entry has the key.
pub proof fn lemma_key_index<K, V>(entries: Seq<(K, V)>, key: K)
    ensures
        0 <= key_index(entries, key) <= entries.len(),
        key_index(entries, key) < entries.len() ==> entries[key_index(entries, key)].0 == key,
        forall|i: int| 0 <= i < key_index(entries, key) ==> (#[trigger] entries[i]).0 != key,
{
    let keys = keys_of(entries);
    lemma_index_of(keys, key);
    assert forall|i: int| 0 <= i < key_index(entries, key) implies (#[trigger] entries[i]).0
        != key by {
        assert(keys[i] == entries[i].0);
    }
}

/// Giving a key a value keeps the keys distinct and the other entries as they
/// are, in their places; afterwards an entry has the key.
pub proof fn lemma_insert_entry<K, V>(entries: Seq<(K, V)>, key: K, value: V)
    requires
        distinct_keys(entries),
    ensures
        distinct_keys(insert_entry(entries, key, value)),
        key_index(insert_entry(entries, key, value), key) == key_index(entries, key),
        key_index(entries, key) < insert_entry(entries, key, value).len(),
        insert_entry(entries, key, value)[key_index(entries, key)] == (key, value),
        forall|i: int|
            0 <= i < entries.len() && i != key_index(entries, key) ==> insert_entry(
                entries,
                key,
                value,
            )[i] == #[trigger] entries[i],
{
    lemma_key_index(entries, key);
    let at = key_index(entries, key);
    let after = insert_entry(entries, key, value);
    assert forall|i: int| 0 <= i < at implies (#[trigger] after[i]).0 != after[at].0 by {
        assert(after[i] == entries[i]);
    }
    lemma_key_index_at(after, at);
    assert forall|i: int, j: int| 0 <= i < j < after.len() implies (#[trigger] after[i]).0 != (
    #[trigger] after[j]).0 by {
        if at < entries.len() {
            assert(after[i].0 == entries[i].0);
            assert(after[j].0 == entries[j].0);
        } else if j < at {
            assert(after[i] == entries[i]);
            assert(after[j] == entries[j]);
        } else {
            assert(after[i] == entries[i]);
        }
    }
}

/// A key that no entry has stands at the end.
pub proof fn lemma_key_index_absent<K, V>(entries: Seq<(K, V)>, key: K)
    requires
        forall|i: int| 0 <= i < entries.len() ==> (#[trigger] entries[i]).0 != key,
    ensures
        key_index(entries, key) == entries.len(),
{
    let keys = keys_of(entries);
    assert(is_first_index(keys, key, entries.len() as int));
    lemma_index_of_unique(keys, key, entries.len() as int);
}

/// The key of the entry at `at` stands at `at`, if no earlier entry has it.
pub proof fn lemma_key_index_at<K, V>(entries: Seq<(K, V)>, at: int)
    requires
        0 <= at < entries.len(),
        forall|i: int| 0 <= i < at ==> (#[trigger] entries[i]).0 != entries[at].0,
    ensures
        key_index(entries, entries[at].0) == at,
{
    let keys = keys_of(entries);
    assert(is_first_index(keys, entries[at].0, at));
    lemma_index_of_unique(keys, entries[at].0, at);
}

/// Makes an empty header with `IndexMap::new`.
///
/// Trusted: a new map holds no entry.
#[verifier::external_body]
pub(crate) fn new_header() -> (header: IndexMap<String, String>)
    ensures
        header_entries(header) == Seq::<(Seq<char>, Seq<char>)>::empty(),
{
    IndexMap::new()
}

/// Gives `key` the value `value` with `IndexMap::insert`.
///
/// Trusted: if the map holds the key, the entry keeps its place in the order
/// and takes the new value; if not, the new entry comes last. The value that
/// the map held before is dropped.
#[verifier::external_body]
pub(crate) fn header_insert(header: &mut IndexMap<String, String>, key: String, value: String)
    ensures
        header_entries(*final(header)) == insert_entry(header_entries(*old(header)), key@, value@),
{
    header.insert(key, value);
}

/// Looks `key` up with `IndexMap::get`.
///
/// Trusted: the value of the entry that has the key is returned, and `None`
/// if no entry has it.
#[verifier::external_body]
pub(crate) fn header_get<'a>(header: &'a IndexMap<String, String>, key: &str) -> (value: Option<
    &'a String,
>)
    ensures
        value is Some <==> key_index(header_entries(*header), key@) < header_entries(*header).len(),
        value matches Some(text) ==> text@ == header_entries(*header)[key_index(
            header_entries(*header),
            key@,
        )].1,
{
    header.get(key)
}

/// The number of entries, from `IndexMap::len`.
///
/// Trusted: it is the length of the sequence of entries.
#[verifier::external_body]
pub(crate) fn header_len(header: &IndexMap<String, String>) -> (len: usize)
    ensures
        len == header_entries(*header).len(),
{
    header.len()
}

/// The entry at position `at`, from `IndexMap::get_index`.
///
/// Trusted: positions count the entries in their order from zero, and a
/// position at or past the length gives `None`.
#[verifier::external_body]
pub(crate) fn header_get_index<'a>(header: &'a IndexMap<String, String>, at: usize) -> (entry:
    Option<(&'a String, &'a String)>)
    ensures
        entry is Some <==> at < header_entries(*header).len(),
        entry matches Some((key, value)) ==> (key@, value@) == header_entries(*header)[at as int],
{
    header.get_index(at)
}

} // verus!
