//! The outside byte strings and the insertion-ordered map that the
//! configuration store is built on, with what is taken on trust of them.

use bytes::Bytes;
use linked_hash_map::LinkedHashMap;
use std::collections::hash_map::RandomState;
use vstd::prelude::*;

verus! {

#[verifier::external_type_specification]
#[verifier::external_body]
pub struct ExBytes(Bytes);

#[verifier::external_type_specification]
#[verifier::external_body]
#[verifier::reject_recursive_types(K)]
#[verifier::reject_recursive_types(V)]
#[verifier::reject_recursive_types(S)]
pub struct ExLinkedHashMap<K, V, S>(LinkedHashMap<K, V, S>);

/// The bytes that a `Bytes` holds, in order.
pub uninterp spec fn bytes_of(b: Bytes) -> Seq<u8>;

/// The entries of a map from byte strings to places, oldest first: for each
/// the bytes of its key, and its value.
pub uninterp spec fn entries_of(m: LinkedHashMap<Bytes, usize, RandomState>) -> Seq<
    (Seq<u8>, usize),
>;

/// Whether some entry has this key.
pub open spec fn has_key(entries: Seq<(Seq<u8>, usize)>, key: Seq<u8>) -> bool {
    exists|i: int| 0 <= i < entries.len() && (#[trigger] entries[i]).0 == key
}

/// A `Bytes` with a copy of the given bytes, by `Bytes::from`.
#[verifier::external_body]
pub(crate) fn bytes_from_slice(src: &[u8]) -> (r: Bytes)
    ensures
        bytes_of(r) == src@,
{
    Bytes::from(src)
}

/// Another handle on the same bytes, by `Bytes::clone`.
#[verifier::external_body]
pub(crate) fn bytes_clone(b: &Bytes) -> (r: Bytes)
    ensures
        bytes_of(r) == bytes_of(*b),
{
    b.clone()
}

/// The bytes as a slice, by the `AsRef` of `Bytes`.
#[verifier::external_body]
pub(crate) fn bytes_as_slice(b: &Bytes) -> (r: &[u8])
    ensures
        r@ == bytes_of(*b),
{
    b.as_ref()
}

/// The bytes from `begin` up to `end`, by `Bytes::slice`, which panics
/// unless `begin <= end <= len`.
#[verifier::external_body]
pub(crate) fn bytes_slice(b: &Bytes, begin: usize, end: usize) -> (r: Bytes)
    requires
        begin <= end <= bytes_of(*b).len(),
    ensures
        bytes_of(r) == bytes_of(*b).subrange(begin as int, end as int),
{
    b.slice(begin, end)
}

/// A map without entries, by `LinkedHashMap::new`.
#[verifier::external_body]
pub(crate) fn index_new() -> (r: LinkedHashMap<Bytes, usize, RandomState>)
    ensures
        entries_of(r) == Seq::<(Seq<u8>, usize)>::empty(),
{
    LinkedHashMap::new()
}

/// The value under `key`, by `LinkedHashMap::get`: there is one exactly
/// where some entry has the bytes of `key` for its key, and it is the value
/// of such an entry.
#[verifier::external_body]
pub(crate) fn index_get(m: &LinkedHashMap<Bytes, usize, RandomState>, key: &Bytes) -> (r: Option<usize>)
    ensures
        r is Some <==> has_key(entries_of(*m), bytes_of(*key)),
        r matches Some(v) ==> exists|i: int|
            0 <= i < entries_of(*m).len() && #[trigger] entries_of(*m)[i] == (bytes_of(*key), v),
{
    m.get(key).copied()
}

/// Adds an entry under a key that the map does not have yet, by
/// `LinkedHashMap::insert`: the new entry is then the youngest. (Under a key
/// that the map has, `insert` would replace the value and move the entry.)
#[verifier::external_body]
pub(crate) fn index_insert_new(m: &mut LinkedHashMap<Bytes, usize, RandomState>, key: Bytes, value: usize)
    requires
        !has_key(entries_of(*old(m)), bytes_of(key)),
    ensures
        entries_of(*final(m)) == entries_of(*old(m)).push((bytes_of(key), value)),
{
    m.insert(key, value);
}

/// The keys of the map, oldest first, by `LinkedHashMap::keys`.
#[verifier::external_body]
pub(crate) fn index_keys(m: &LinkedHashMap<Bytes, usize, RandomState>) -> (r: Vec<Bytes>)
    ensures
        r@.len() == entries_of(*m).len(),
        forall|i: int| 0 <= i < r@.len() ==> bytes_of(#[trigger] r@[i]) == entries_of(*m)[i].0,
{
    m.keys().cloned().collect()
}

/// The place of the first `needle` in `haystack`, if there is one.
pub fn memchr(needle: u8, haystack: &[u8]) -> (r: Option<usize>)
    ensures
        r is None <==> !haystack@.contains(needle),
        r matches Some(i) ==> i < haystack@.len() && haystack@[i as int] == needle && forall|
            k: int,
        | 0 <= k < i ==> haystack@[k] != needle,
{
    let mut i: usize = 0;
    while i < haystack.len()
        invariant
            0 <= i <= haystack@.len(),
            forall|k: int| 0 <= k < i ==> haystack@[k] != needle,
        decreases haystack@.len() - i,
    {
        if haystack[i] == needle {
            return Some(i);
        }
        i = i + 1;
    }
    None
}

/// Whether a byte is a blank, a tab, a carriage return or a line feed.
pub open spec fn is_space_spec(byte: u8) -> bool {
    byte == 32 || byte == 9 || byte == 13 || byte == 10
}

/// Test if a byte is white space.
pub fn is_space(byte: u8) -> (r: bool)
    ensures
        r == is_space_spec(byte),
{
    byte == 32 || byte == 9 || byte == 13 || byte == 10
}

/// Whether every byte of `s` from `from` up to `to` is white space.
pub open spec fn all_space(s: Seq<u8>, from: int, to: int) -> bool {
    forall|k: int| from <= k < to ==> is_space_spec(#[trigger] s[k])
}

/// Where what is left begins, once the white space at the front of the bytes
/// from `start` up to `end` is taken off.
pub open spec fn strip_from(s: Seq<u8>, start: int, end: int) -> int
    decreases end - start,
{
    if start < end && is_space_spec(s[start]) {
        strip_from(s, start + 1, end)
    } else {
        start
    }
}

/// Where what is left ends, once the white space at the back of the bytes
/// from `from` up to `end` is taken off.
pub open spec fn strip_to(s: Seq<u8>, from: int, end: int) -> int
    decreases end - from,
{
    if from < end && is_space_spec(s[end - 1]) {
        strip_to(s, from, end - 1)
    } else {
        end
    }
}

/// White space taken off both ends of the bytes from `start` up to `end`:
/// the offsets of what is left. Where the range is all white space, or
/// empty, both offsets are `end`; where `start` lies beyond `end`, nothing
/// is changed.
pub fn strip_offsets(buf: &Bytes, start: usize, end: usize) -> (r: (usize, usize))
    requires
        start < end ==> end <= bytes_of(*buf).len(),
    ensures
        r.0 == strip_from(bytes_of(*buf), start as int, end as int),
        r.1 == strip_to(bytes_of(*buf), r.0 as int, end as int),
        start >= end ==> r == (start, end),
        start < end ==> start <= r.0 <= r.1 <= end,
        start < end ==> all_space(bytes_of(*buf), start as int, r.0 as int),
        start < end ==> all_space(bytes_of(*buf), r.1 as int, end as int),
        r.0 < r.1 ==> !is_space_spec(bytes_of(*buf)[r.0 as int]) && !is_space_spec(
            bytes_of(*buf)[r.1 - 1],
        ),
        start < end && r.0 == r.1 ==> r.0 == end,
{
    let bytes = bytes_as_slice(buf);
    let mut from = start;
    let mut to = end;
    while from < to && is_space(bytes[from])
        invariant
            start <= from,
            to == end,
            start < end ==> from <= end <= bytes@.len(),
            start >= end ==> from == start,
            all_space(bytes@, start as int, from as int),
            strip_from(bytes@, start as int, end as int) == strip_from(
                bytes@,
                from as int,
                end as int,
            ),
        decreases to - from,
    {
        from = from + 1;
    }
    while from < to && is_space(bytes[to - 1])
        invariant
            to <= end,
            start < end ==> start <= from <= to <= end <= bytes@.len(),
            start >= end ==> from == start && to == end,
            from < to ==> !is_space_spec(bytes@[from as int]),
            start < end && from == to ==> to == end,
            all_space(bytes@, to as int, end as int),
            strip_to(bytes@, from as int, end as int) == strip_to(bytes@, from as int, to as int),
        decreases to - from,
    {
        to = to - 1;
    }
    (from, to)
}

/// The bytes from `start` up to `end` without the white space at both ends.
pub fn strip(buf: &Bytes, start: usize, end: usize) -> (r: Bytes)
    requires
        start <= end <= bytes_of(*buf).len(),
    ensures
        bytes_of(r) == bytes_of(*buf).subrange(
            strip_from(bytes_of(*buf), start as int, end as int),
            strip_to(
                bytes_of(*buf),
                strip_from(bytes_of(*buf), start as int, end as int),
                end as int,
            ),
        ),
{
    let (from, to) = strip_offsets(buf, start, end);
    bytes_slice(buf, from, to)
}

/// `strip_offsets` for any offsets: `None` where the range has bytes in it
/// and reaches beyond the end of `buf`.
pub fn checked_strip_offsets(buf: &Bytes, start: usize, end: usize) -> (r: Option<(usize, usize)>)
    ensures
        r is Some <==> (start < end ==> end <= bytes_of(*buf).len()),
        r matches Some(offsets) ==> offsets.0 == strip_from(
            bytes_of(*buf),
            start as int,
            end as int,
        ) && offsets.1 == strip_to(bytes_of(*buf), offsets.0 as int, end as int),
{
    if start < end && end > bytes_as_slice(buf).len() {
        None
    } else {
        Some(strip_offsets(buf, start, end))
    }
}

/// `strip` for any offsets: `None` unless `start <= end` and `end` lies
/// within `buf`.
pub fn checked_strip(buf: &Bytes, start: usize, end: usize) -> (r: Option<Bytes>)
    ensures
        r is Some <==> start <= end <= bytes_of(*buf).len(),
        r matches Some(b) ==> bytes_of(b) == bytes_of(*buf).subrange(
            strip_from(bytes_of(*buf), start as int, end as int),
            strip_to(
                bytes_of(*buf),
                strip_from(bytes_of(*buf), start as int, end as int),
                end as int,
            ),
        ),
{
    if start <= end && end <= bytes_as_slice(buf).len() {
        Some(strip(buf, start, end))
    } else {
        None
    }
}

} // verus!
