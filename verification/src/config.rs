//! Configuration values in sections, each with the history of who set it.

use crate::bytes_map::{
    bytes_clone, bytes_from_slice, bytes_of, entries_of, has_key, index_get, index_insert_new,
    index_keys, index_new,
};
use crate::handle::share;
use bytes::Bytes;
use linked_hash_map::LinkedHashMap;
use std::collections::hash_map::RandomState;
use std::ops::Range;
use std::path::PathBuf;
use std::sync::Arc;
use vstd::prelude::*;

verus! {

#[verifier::external_type_specification]
#[verifier::external_body]
pub struct ExPathBuf(PathBuf);

/// A copy of a path, by `PathBuf::clone`: the same path.
#[verifier::external_body]
fn path_to_owned(path: &PathBuf) -> (r: PathBuf)
    ensures
        r == *path,
{
    path.clone()
}

/// The file and the byte offsets in it that a value came from.
pub struct ValueLocation {
    path: Arc<PathBuf>,
    location: Range<usize>,
}

/// A configuration value with where it comes from.
pub struct ValueSource {
    value: Option<Bytes>,
    source: Bytes,
    location: Option<ValueLocation>,
}

/// A problem met while configuration was read.
#[derive(Debug)]
pub struct ConfigError {
    pub message: String,
}

impl ValueLocation {
    /// The path of the file, and the offsets in it.
    pub closed spec fn place(&self) -> (PathBuf, Range<usize>) {
        (*self.path, self.location)
    }
}

impl Clone for ValueLocation {
    fn clone(&self) -> (r: ValueLocation)
        ensures
            r.place() == self.place(),
    {
        ValueLocation {
            path: share(&self.path),
            location: Range { start: self.location.start, end: self.location.end },
        }
    }
}

impl ValueSource {
    /// The bytes of the value, if it is set.
    pub closed spec fn value_spec(&self) -> Option<Seq<u8>> {
        match self.value {
            Some(b) => Some(bytes_of(b)),
            None => None,
        }
    }

    /// The bytes of the name of who set it.
    pub closed spec fn source_spec(&self) -> Seq<u8> {
        bytes_of(self.source)
    }

    /// The file and the offsets that the value came from, if that is known.
    pub closed spec fn location_spec(&self) -> Option<(PathBuf, Range<usize>)> {
        match self.location {
            Some(l) => Some(l.place()),
            None => None,
        }
    }

    /// Whether two values are the same in all that can be asked of them.
    pub open spec fn same_as(&self, other: &ValueSource) -> bool {
        self.value_spec() == other.value_spec() && self.source_spec() == other.source_spec()
            && self.location_spec() == other.location_spec()
    }

    /// Return the actual value stored in this config value, or `None` if unset.
    pub fn value(&self) -> (r: &Option<Bytes>)
        ensures
            r is Some <==> self.value_spec() is Some,
            r matches Some(b) ==> self.value_spec() == Some(bytes_of(*b)),
    {
        &self.value
    }

    /// Return the "source" information for the config value. It's usually
    /// who sets the config, like "--config", "user_hgrc", "system_hgrc", etc.
    pub fn source(&self) -> (r: &Bytes)
        ensures
            bytes_of(*r) == self.source_spec(),
    {
        &self.source
    }

    /// Return the file path and byte range for the exact config value, or
    /// `None` if there is no such information.
    pub fn location(&self) -> (r: Option<(PathBuf, Range<usize>)>)
        ensures
            r == self.location_spec(),
    {
        match &self.location {
            Some(src) => Some(
                (
                    path_to_owned(&*src.path),
                    Range { start: src.location.start, end: src.location.end },
                ),
            ),
            None => None,
        }
    }
}

impl Clone for ValueSource {
    fn clone(&self) -> (r: ValueSource)
        ensures
            r.same_as(self),
    {
        ValueSource {
            value: match &self.value {
                Some(b) => Some(bytes_clone(b)),
                None => None,
            },
            source: bytes_clone(&self.source),
            location: match &self.location {
                Some(l) => Some(l.clone()),
                None => None,
            },
        }
    }
}

/// The keys of the entries, oldest first.
pub open spec fn keys_of(entries: Seq<(Seq<u8>, usize)>) -> Seq<Seq<u8>> {
    Seq::new(entries.len(), |i: int| entries[i].0)
}

/// The place of the entry with this key.
pub open spec fn place_of(entries: Seq<(Seq<u8>, usize)>, key: Seq<u8>) -> int {
    choose|i: int| 0 <= i < entries.len() && (#[trigger] entries[i]).0 == key
}

/// The entries number `n` places in the order in which they came: the value
/// of each entry is its own place, and no key comes twice.
pub open spec fn numbered(entries: Seq<(Seq<u8>, usize)>, n: int) -> bool {
    &&& entries.len() == n
    &&& forall|i: int| 0 <= i < entries.len() ==> (#[trigger] entries[i]).1 == i
    &&& forall|i: int, j: int|
        0 <= i < j < entries.len() ==> (#[trigger] entries[i]).0 != (#[trigger] entries[j]).0
}

/// In numbered entries a key that is there stands at one place only.
pub proof fn lemma_place(entries: Seq<(Seq<u8>, usize)>, n: int, i: int)
    requires
        numbered(entries, n),
        0 <= i < entries.len(),
    ensures
        has_key(entries, entries[i].0),
        place_of(entries, entries[i].0) == i,
{
    let p = place_of(entries, entries[i].0);
    if p < i {
        assert(entries[p].0 != entries[i].0);
    }
    if i < p {
        assert(entries[i].0 != entries[p].0);
    }
}

/// The items of one section.
struct Section {
    index: LinkedHashMap<Bytes, usize, RandomState>,
    items: Vec<Vec<ValueSource>>,
}

impl Section {
    spec fn wf(&self) -> bool {
        numbered(entries_of(self.index), self.items@.len() as int)
    }

    spec fn names(&self) -> Seq<Seq<u8>> {
        keys_of(entries_of(self.index))
    }

    spec fn values(&self, name: Seq<u8>) -> Seq<ValueSource> {
        if has_key(entries_of(self.index), name) {
            self.items@[place_of(entries_of(self.index), name)]@
        } else {
            Seq::empty()
        }
    }

    fn new() -> (r: Section)
        ensures
            r.wf(),
            r.names() == Seq::<Seq<u8>>::empty(),
            forall|name: Seq<u8>| r.values(name) == Seq::<ValueSource>::empty(),
    {
        let r = Section { index: index_new(), items: Vec::new() };
        assert(r.names() =~= Seq::<Seq<u8>>::empty());
        r
    }

    /// The place of the item `name`, if the section has it.
    fn find(&self, name: &Bytes) -> (r: Option<usize>)
        requires
            self.wf(),
        ensures
            r is Some <==> has_key(entries_of(self.index), bytes_of(*name)),
            r matches Some(i) ==> i < self.items@.len() && i == place_of(
                entries_of(self.index),
                bytes_of(*name),
            ),
    {
        let r = index_get(&self.index, name);
        proof {
            if let Some(v) = r {
                let entries = entries_of(self.index);
                let i = choose|i: int|
                    0 <= i < entries.len() && #[trigger] entries[i] == (bytes_of(*name), v);
                lemma_place(entries, self.items@.len() as int, i);
            }
        }
        r
    }

    /// Adds a value to the item `name`, which is made where it is not there.
    fn push(&mut self, name: Bytes, value: ValueSource)
        requires
            old(self).wf(),
        ensures
            final(self).wf(),
            final(self).names() == if old(self).names().contains(bytes_of(name)) {
                old(self).names()
            } else {
                old(self).names().push(bytes_of(name))
            },
            final(self).values(bytes_of(name)) == old(self).values(bytes_of(name)).push(value),
            forall|other: Seq<u8>|
                other != bytes_of(name) ==> final(self).values(other) == old(self).values(other),
    {
        let ghost entries = entries_of(self.index);
        let ghost key = bytes_of(name);
        proof {
            if old(self).names().contains(key) {
                let i = choose|i: int|
                    0 <= i < old(self).names().len() && old(self).names()[i] == key;
                assert(entries[i].0 == key);
            }
            if has_key(entries, key) {
                let i = place_of(entries, key);
                assert(old(self).names()[i] == key);
            }
        }
        match self.find(&name) {
            Some(i) => {
                let mut list: Vec<ValueSource> = Vec::new();
                std::mem::swap(&mut list, &mut self.items[i]);
                list.push(value);
                std::mem::swap(&mut list, &mut self.items[i]);
                proof {
                    assert(final(self).items@ =~= old(self).items@.update(
                        i as int,
                        final(self).items@[i as int],
                    ));
                    assert forall|other: Seq<u8>| other != key implies final(self).values(other)
                        == old(self).values(other) by {
                        if has_key(entries, other) {
                            let p = place_of(entries, other);
                            assert(entries[p].0 != entries[i as int].0);
                        }
                    }
                }
            },
            None => {
                let mut list: Vec<ValueSource> = Vec::new();
                list.push(value);
                let ghost n: int = self.items@.len() as int;
                index_insert_new(&mut self.index, name, self.items.len());
                self.items.push(list);
                proof {
                    let now = entries_of(final(self).index);
                    assert(now == entries.push((key, n as usize)));
                    assert forall|a: int, b: int| 0 <= a < b < now.len() implies (
                    #[trigger] now[a]).0 != (#[trigger] now[b]).0 by {
                        if b == n {
                            assert(entries[a].0 != key);
                        } else {
                            assert(entries[a].0 != entries[b].0);
                        }
                    }
                    assert(numbered(now, n + 1));
                    lemma_place(now, n + 1, n);
                    assert(final(self).names() =~= old(self).names().push(key));
                    assert(old(self).values(key) =~= Seq::<ValueSource>::empty());
                    assert(final(self).values(key) =~= old(self).values(key).push(value));
                    assert forall|other: Seq<u8>| other != key implies final(self).values(other)
                        == old(self).values(other) by {
                        if has_key(entries, other) {
                            let p = place_of(entries, other);
                            assert(now[p].0 == other);
                            lemma_place(now, n + 1, p);
                        }
                        if has_key(now, other) {
                            let p = place_of(now, other);
                            assert(p < n);
                            assert(entries[p].0 == other);
                            lemma_place(entries, n, p);
                        }
                    }
                }
            },
        }
    }
}

/// The bytes of each of a list of byte strings.
pub open spec fn bytes_views(list: Seq<Bytes>) -> Seq<Seq<u8>> {
    Seq::new(list.len(), |i: int| bytes_of(list[i]))
}

/// Collection of config sections loaded from various sources.
pub struct ConfigSet {
    index: LinkedHashMap<Bytes, usize, RandomState>,
    sections: Vec<Section>,
    errors: Vec<ConfigError>,
}

impl ConfigSet {
    /// The representation invariant. `new` gives a set that meets it, and
    /// `set` keeps it.
    pub closed spec fn wf(&self) -> bool {
        &&& numbered(entries_of(self.index), self.sections@.len() as int)
        &&& forall|i: int| 0 <= i < self.sections@.len() ==> (#[trigger] self.sections@[i]).wf()
    }

    /// The names of the sections, in the order in which they were first set.
    pub closed spec fn section_names(&self) -> Seq<Seq<u8>> {
        keys_of(entries_of(self.index))
    }

    /// The names of the items of a section, in the order in which they were
    /// first set. Empty where there is no such section.
    pub closed spec fn item_names(&self, section: Seq<u8>) -> Seq<Seq<u8>> {
        if has_key(entries_of(self.index), section) {
            self.sections@[place_of(entries_of(self.index), section)].names()
        } else {
            Seq::empty()
        }
    }

    /// All that an item was set to, oldest first. Empty where there is no
    /// such item.
    pub closed spec fn values(&self, section: Seq<u8>, name: Seq<u8>) -> Seq<ValueSource> {
        if has_key(entries_of(self.index), section) {
            self.sections@[place_of(entries_of(self.index), section)].values(name)
        } else {
            Seq::empty()
        }
    }

    /// The problems met so far.
    pub closed spec fn errors_spec(&self) -> Seq<ConfigError> {
        self.errors@
    }

    /// Return an empty `ConfigSet`.
    pub fn new() -> (r: ConfigSet)
        ensures
            r.wf(),
            r.section_names() == Seq::<Seq<u8>>::empty(),
            forall|section: Seq<u8>| r.item_names(section) == Seq::<Seq<u8>>::empty(),
            forall|section: Seq<u8>, name: Seq<u8>|
                r.values(section, name) == Seq::<ValueSource>::empty(),
            r.errors_spec() == Seq::<ConfigError>::empty(),
    {
        let r = ConfigSet { index: index_new(), sections: Vec::new(), errors: Vec::new() };
        assert(r.section_names() =~= Seq::<Seq<u8>>::empty());
        r
    }

    /// The place of the section `name`, if there is one.
    fn find(&self, section: &Bytes) -> (r: Option<usize>)
        requires
            self.wf(),
        ensures
            r is Some <==> has_key(entries_of(self.index), bytes_of(*section)),
            r matches Some(i) ==> i < self.sections@.len() && i == place_of(
                entries_of(self.index),
                bytes_of(*section),
            ),
    {
        let r = index_get(&self.index, section);
        proof {
            if let Some(v) = r {
                let entries = entries_of(self.index);
                let i = choose|i: int|
                    0 <= i < entries.len() && #[trigger] entries[i] == (bytes_of(*section), v);
                lemma_place(entries, self.sections@.len() as int, i);
            }
        }
        r
    }

    /// Get config sections.
    pub fn sections(&self) -> (r: Vec<Bytes>)
        ensures
            bytes_views(r@) == self.section_names(),
    {
        let r = index_keys(&self.index);
        assert(bytes_views(r@) =~= self.section_names());
        r
    }

    /// Get config names in the given section. Sorted by insertion order.
    pub fn keys(&self, section: Bytes) -> (r: Vec<Bytes>)
        requires
            self.wf(),
        ensures
            bytes_views(r@) == self.item_names(bytes_of(section)),
    {
        match self.find(&section) {
            Some(i) => {
                let r = index_keys(&self.sections[i].index);
                assert(bytes_views(r@) =~= self.item_names(bytes_of(section)));
                r
            },
            None => {
                let r: Vec<Bytes> = Vec::new();
                assert(bytes_views(r@) =~= self.item_names(bytes_of(section)));
                r
            },
        }
    }

    /// Get config value for a given config.
    /// Return `None` if the config item does not exist or is unset.
    pub fn get(&self, section: Bytes, name: Bytes) -> (r: Option<Bytes>)
        requires
            self.wf(),
        ensures
            self.values(bytes_of(section), bytes_of(name)).len() == 0 ==> r is None,
            self.values(bytes_of(section), bytes_of(name)).len() > 0 ==> match r {
                Some(b) => self.values(bytes_of(section), bytes_of(name)).last().value_spec()
                    == Some(bytes_of(b)),
                None => self.values(bytes_of(section), bytes_of(name)).last().value_spec() is None,
            },
    {
        match self.find(&section) {
            Some(i) => match self.sections[i].find(&name) {
                Some(k) => {
                    let list = &self.sections[i].items[k];
                    let n = list.len();
                    if n == 0 {
                        None
                    } else {
                        match &list[n - 1].value {
                            Some(b) => Some(bytes_clone(b)),
                            None => None,
                        }
                    }
                },
                None => None,
            },
            None => None,
        }
    }

    /// Get detailed sources of a given config, including overrides, and source information.
    /// The last item in the returned vector is the latest value that is considered effective.
    ///
    /// Return an empty vector if the config does not exist.
    pub fn get_sources(&self, section: Bytes, name: Bytes) -> (r: Vec<ValueSource>)
        requires
            self.wf(),
        ensures
            r@.len() == self.values(bytes_of(section), bytes_of(name)).len(),
            forall|i: int|
                0 <= i < r@.len() ==> (#[trigger] r@[i]).same_as(
                    &self.values(bytes_of(section), bytes_of(name))[i],
                ),
    {
        let mut out: Vec<ValueSource> = Vec::new();
        match self.find(&section) {
            Some(i) => match self.sections[i].find(&name) {
                Some(k) => {
                    let list = &self.sections[i].items[k];
                    let mut at: usize = 0;
                    while at < list.len()
                        invariant
                            0 <= at <= list@.len(),
                            out@.len() == at,
                            forall|j: int| 0 <= j < at ==> (#[trigger] out@[j]).same_as(&list@[j]),
                        decreases list@.len() - at,
                    {
                        out.push(list[at].clone());
                        at = at + 1;
                    }
                },
                None => {},
            },
            None => {},
        }
        out
    }

    /// Set a config item directly. `section`, `name` locates the config. `value` is the new value.
    /// `source` is some annotation about who set it, ex. "reporc", "userrc", "--config", etc.
    pub fn set(&mut self, section: Bytes, name: Bytes, value: Option<&[u8]>, source: Bytes)
        requires
            old(self).wf(),
        ensures
            final(self).wf(),
            final(self).errors_spec() == old(self).errors_spec(),
            final(self).section_names() == if old(self).section_names().contains(
                bytes_of(section),
            ) {
                old(self).section_names()
            } else {
                old(self).section_names().push(bytes_of(section))
            },
            final(self).item_names(bytes_of(section)) == if old(self).item_names(
                bytes_of(section),
            ).contains(bytes_of(name)) {
                old(self).item_names(bytes_of(section))
            } else {
                old(self).item_names(bytes_of(section)).push(bytes_of(name))
            },
            forall|other: Seq<u8>|
                other != bytes_of(section) ==> final(self).item_names(other) == old(
                    self,
                ).item_names(other),
            forall|s: Seq<u8>, n: Seq<u8>|
                (s != bytes_of(section) || n != bytes_of(name)) ==> final(self).values(s, n)
                    == old(self).values(s, n),
            final(self).values(bytes_of(section), bytes_of(name)).drop_last() == old(self).values(
                bytes_of(section),
                bytes_of(name),
            ),
            final(self).values(bytes_of(section), bytes_of(name)).len() == old(self).values(
                bytes_of(section),
                bytes_of(name),
            ).len() + 1,
            final(self).values(bytes_of(section), bytes_of(name)).last().value_spec() == match value {
                Some(v) => Some(v@),
                None => None,
            },
            final(self).values(bytes_of(section), bytes_of(name)).last().source_spec() == bytes_of(
                source,
            ),
            final(self).values(bytes_of(section), bytes_of(name)).last().location_spec() is None,
    {
        let value = match value {
            Some(v) => Some(bytes_from_slice(v)),
            None => None,
        };
        self.set_internal(section, name, value, None, &source);
        proof {
            let list = final(self).values(bytes_of(section), bytes_of(name));
            let before = old(self).values(bytes_of(section), bytes_of(name));
            assert(list.drop_last() =~= before);
        }
    }

    /// Get errors caused by parsing config files previously.
    pub fn errors(&self) -> (r: &Vec<ConfigError>)
        ensures
            r@ == self.errors_spec(),
    {
        &self.errors
    }

    fn set_internal(
        &mut self,
        section: Bytes,
        name: Bytes,
        value: Option<Bytes>,
        location: Option<ValueLocation>,
        source: &Bytes,
    )
        requires
            old(self).wf(),
        ensures
            final(self).wf(),
            final(self).errors_spec() == old(self).errors_spec(),
            final(self).section_names() == if old(self).section_names().contains(
                bytes_of(section),
            ) {
                old(self).section_names()
            } else {
                old(self).section_names().push(bytes_of(section))
            },
            final(self).item_names(bytes_of(section)) == if old(self).item_names(
                bytes_of(section),
            ).contains(bytes_of(name)) {
                old(self).item_names(bytes_of(section))
            } else {
                old(self).item_names(bytes_of(section)).push(bytes_of(name))
            },
            forall|other: Seq<u8>|
                other != bytes_of(section) ==> final(self).item_names(other) == old(
                    self,
                ).item_names(other),
            forall|s: Seq<u8>, n: Seq<u8>|
                (s != bytes_of(section) || n != bytes_of(name)) ==> final(self).values(s, n)
                    == old(self).values(s, n),
            final(self).values(bytes_of(section), bytes_of(name)).len() == old(self).values(
                bytes_of(section),
                bytes_of(name),
            ).len() + 1,
            final(self).values(bytes_of(section), bytes_of(name)) == old(self).values(
                bytes_of(section),
                bytes_of(name),
            ).push(final(self).values(bytes_of(section), bytes_of(name)).last()),
            final(self).values(bytes_of(section), bytes_of(name)).last().value_spec() == match value {
                Some(v) => Some(bytes_of(v)),
                None => None,
            },
            final(self).values(bytes_of(section), bytes_of(name)).last().source_spec() == bytes_of(
                *source,
            ),
            final(self).values(bytes_of(section), bytes_of(name)).last().location_spec()
                == match location {
                Some(l) => Some(l.place()),
                None => None,
            },
    {
        let ghost entries = entries_of(self.index);
        let ghost key = bytes_of(section);
        let ghost item = bytes_of(name);
        let ghost n: int = self.sections@.len() as int;
        let entry = ValueSource { value, location, source: bytes_clone(source) };
        proof {
            if old(self).section_names().contains(key) {
                let i = choose|i: int|
                    0 <= i < old(self).section_names().len() && old(self).section_names()[i] == key;
                assert(entries[i].0 == key);
            }
            if has_key(entries, key) {
                let i = place_of(entries, key);
                assert(old(self).section_names()[i] == key);
            }
        }
        match self.find(&section) {
            Some(i) => {
                let mut target = Section::new();
                std::mem::swap(&mut target, &mut self.sections[i]);
                target.push(name, entry);
                std::mem::swap(&mut target, &mut self.sections[i]);
                proof {
                    assert(final(self).sections@ =~= old(self).sections@.update(
                        i as int,
                        final(self).sections@[i as int],
                    ));
                    assert forall|k: int| 0 <= k < final(self).sections@.len() implies (
                    #[trigger] final(self).sections@[k]).wf() by {
                        if k != i {
                            assert(old(self).sections@[k].wf());
                        }
                    }
                    assert forall|other: Seq<u8>| other != key implies final(self).item_names(other)
                        == old(self).item_names(other) && forall|m: Seq<u8>|
                        final(self).values(other, m) == old(self).values(other, m) by {
                        if has_key(entries, other) {
                            let p = place_of(entries, other);
                            assert(entries[p].0 != entries[i as int].0);
                        }
                    }
                    assert forall|s: Seq<u8>, m: Seq<u8>|
                        (s != key || m != item) implies final(self).values(s, m) == old(
                        self,
                    ).values(s, m) by {
                        if s != key {
                            assert(final(self).item_names(s) == old(self).item_names(s));
                        }
                    }
                }
            },
            None => {
                let mut target = Section::new();
                target.push(name, entry);
                index_insert_new(&mut self.index, section, self.sections.len());
                self.sections.push(target);
                proof {
                    let now = entries_of(final(self).index);
                    assert(now == entries.push((key, n as usize)));
                    assert forall|a: int, b: int| 0 <= a < b < now.len() implies (
                    #[trigger] now[a]).0 != (#[trigger] now[b]).0 by {
                        if b == n {
                            assert(entries[a].0 != key);
                        } else {
                            assert(entries[a].0 != entries[b].0);
                        }
                    }
                    assert(numbered(now, n + 1));
                    lemma_place(now, n + 1, n);
                    assert forall|k: int| 0 <= k < final(self).sections@.len() implies (
                    #[trigger] final(self).sections@[k]).wf() by {
                        if k < n {
                            assert(old(self).sections@[k].wf());
                        }
                    }
                    assert(final(self).section_names() =~= old(self).section_names().push(key));
                    assert(old(self).item_names(key) =~= Seq::<Seq<u8>>::empty());
                    assert(Seq::<Seq<u8>>::empty().push(item) =~= seq![item]);
                    assert forall|other: Seq<u8>| other != key implies final(self).item_names(other)
                        == old(self).item_names(other) && forall|m: Seq<u8>|
                        final(self).values(other, m) == old(self).values(other, m) by {
                        if has_key(entries, other) {
                            let p = place_of(entries, other);
                            assert(now[p].0 == other);
                            lemma_place(now, n + 1, p);
                        }
                        if has_key(now, other) {
                            let p = place_of(now, other);
                            assert(p < n);
                            assert(entries[p].0 == other);
                            lemma_place(entries, n, p);
                        }
                    }
                    assert forall|s: Seq<u8>, m: Seq<u8>|
                        (s != key || m != item) implies final(self).values(s, m) == old(
                        self,
                    ).values(s, m) by {
                        if s != key {
                            assert(final(self).item_names(s) == old(self).item_names(s));
                        }
                    }
                }
            },
        }
    }
}

} // verus!
