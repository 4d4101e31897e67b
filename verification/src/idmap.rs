//! Vertex names and the two-way map between names and ids.

use crate::error::DagError;
use vstd::prelude::*;

verus! {

/// The name of a vertex: an opaque byte string, compared byte by byte.
#[derive(Debug)]
pub struct VertexName {
    bytes: Vec<u8>,
}

impl View for VertexName {
    type V = Seq<u8>;

    closed spec fn view(&self) -> Seq<u8> {
        self.bytes@
    }
}

/// Whether two byte strings are the same.
pub fn bytes_equal(a: &[u8], b: &[u8]) -> (r: bool)
    ensures
        r <==> a@ == b@,
{
    if a.len() != b.len() {
        return false;
    }
    let mut i: usize = 0;
    while i < a.len()
        invariant
            0 <= i <= a@.len(),
            a@.len() == b@.len(),
            forall|k: int| 0 <= k < i ==> a@[k] == b@[k],
        decreases a@.len() - i,
    {
        if a[i] != b[i] {
            return false;
        }
        i = i + 1;
    }
    assert(a@ =~= b@);
    true
}

impl VertexName {
    /// The name made of these bytes.
    pub fn new(bytes: Vec<u8>) -> (r: VertexName)
        ensures
            r@ == bytes@,
    {
        VertexName { bytes }
    }

    /// The name made of a copy of these bytes.
    pub fn copy_from_slice(bytes: &[u8]) -> (r: VertexName)
        ensures
            r@ == bytes@,
    {
        let mut copy: Vec<u8> = Vec::new();
        let mut i: usize = 0;
        while i < bytes.len()
            invariant
                0 <= i <= bytes@.len(),
                copy@ == bytes@.take(i as int),
            decreases bytes@.len() - i,
        {
            copy.push(bytes[i]);
            i = i + 1;
            assert(copy@ =~= bytes@.take(i as int));
        }
        assert(copy@ =~= bytes@);
        VertexName { bytes: copy }
    }

    /// The bytes of the name.
    pub fn as_bytes(&self) -> (r: &[u8])
        ensures
            r@ == self@,
    {
        self.bytes.as_slice()
    }

    /// Whether this is the same name as `other`.
    pub fn same_as(&self, other: &VertexName) -> (r: bool)
        ensures
            r <==> self@ == other@,
    {
        bytes_equal(self.bytes.as_slice(), other.bytes.as_slice())
    }
}

impl Clone for VertexName {
    fn clone(&self) -> (r: VertexName)
        ensures
            r@ == self@,
    {
        VertexName::copy_from_slice(self.bytes.as_slice())
    }
}

/// The names of a sequence of vertex names.
pub open spec fn views(names: Seq<VertexName>) -> Seq<Seq<u8>> {
    Seq::new(names.len(), |i: int| names[i]@)
}

/// No two ids share a name.
pub open spec fn injective(m: Map<u64, Seq<u8>>) -> bool {
    forall|a: u64, b: u64|
        m.dom().contains(a) && m.dom().contains(b) && #[trigger] m[a] == #[trigger] m[b] ==> a
            == b
}

/// What looking up `id` in `m` gives: its name, or the failure that names it.
pub open spec fn lookup(m: Map<u64, Seq<u8>>, id: u64) -> Result<Seq<u8>, DagError> {
    if m.dom().contains(id) {
        Ok(m[id])
    } else {
        Err(DagError::LookupFailure { id })
    }
}

/// Whether `m` gives some id the name `name`.
pub open spec fn has_name(m: Map<u64, Seq<u8>>, name: Seq<u8>) -> bool {
    exists|id: u64| m.dom().contains(id) && #[trigger] m[id] == name
}

/// The map from ids to names that two parallel sequences stand for.
pub open spec fn pairs_map(ids: Seq<u64>, names: Seq<Seq<u8>>) -> Map<u64, Seq<u8>> {
    Map::new(|id: u64| ids.contains(id), |id: u64| names[ids.index_of(id)])
}

/// An append-only map between vertex names and ids, one to one.
pub struct IdMap {
    ids: Vec<u64>,
    names: Vec<VertexName>,
}

impl View for IdMap {
    type V = Map<u64, Seq<u8>>;

    /// The name of each id that has one.
    open spec fn view(&self) -> Map<u64, Seq<u8>> {
        pairs_map(self.ids(), self.names())
    }
}

impl IdMap {
    /// The ids that have a name, in the order in which they came.
    pub closed spec fn ids(&self) -> Seq<u64> {
        self.ids@
    }

    /// The names, each at the place of its id.
    pub closed spec fn names(&self) -> Seq<Seq<u8>> {
        views(self.names@)
    }

    /// The representation invariant: as many names as ids, no id twice and
    /// no name twice.
    pub open spec fn wf(&self) -> bool {
        &&& self.ids().len() == self.names().len()
        &&& self.ids().no_duplicates()
        &&& self.names().no_duplicates()
    }

    #[verifier::type_invariant]
    pub open spec fn inv(&self) -> bool {
        self.wf()
    }

    /// A well-formed map gives each id in it the name at its place, and is
    /// one to one.
    pub proof fn lemma_view(&self)
        requires
            self.wf(),
        ensures
            injective(self@),
            forall|i: int|
                0 <= i < self.ids().len() ==> self@.dom().contains(#[trigger] self.ids()[i])
                    && self@[self.ids()[i]] == self.names()[i],
            forall|id: u64|
                #[trigger] self@.dom().contains(id) ==> 0 <= self.ids().index_of(id)
                    < self.ids().len() && self.ids()[self.ids().index_of(id)] == id,
    {
        let ids = self.ids();
        let names = self.names();
        assert forall|id: u64| #[trigger] self@.dom().contains(id) implies 0 <= ids.index_of(id)
            < ids.len() && ids[ids.index_of(id)] == id by {
            assert(ids.contains(id));
        }
        assert forall|i: int| 0 <= i < ids.len() implies self@.dom().contains(#[trigger] ids[i])
            && self@[ids[i]] == names[i] by {
            assert(ids.contains(ids[i]));
            let k = ids.index_of(ids[i]);
            assert(ids[k] == ids[i]);
        }
        assert forall|a: u64, b: u64|
            self@.dom().contains(a) && self@.dom().contains(b) && #[trigger] self@[a]
                == #[trigger] self@[b] implies a == b by {
            assert(ids.contains(a));
            assert(ids.contains(b));
            let x = ids.index_of(a);
            let y = ids.index_of(b);
            assert(names[x] == names[y]);
        }
    }

    /// The map without any entry.
    pub fn new() -> (r: IdMap)
        ensures
            r.wf(),
            r@ == Map::<u64, Seq<u8>>::empty(),
    {
        let r = IdMap { ids: Vec::new(), names: Vec::new() };
        assert(r@ =~= Map::<u64, Seq<u8>>::empty());
        r
    }

    /// At which place `id` stands, if it has a name.
    fn slot_of_id(&self, id: u64) -> (r: Option<usize>)
        ensures
            r is None <==> !self.ids().contains(id),
            r matches Some(i) ==> i < self.ids().len() && self.ids()[i as int] == id,
    {
        let mut i: usize = 0;
        while i < self.ids.len()
            invariant
                0 <= i <= self.ids@.len(),
                forall|k: int| 0 <= k < i ==> self.ids@[k] != id,
            decreases self.ids@.len() - i,
        {
            if self.ids[i] == id {
                return Some(i);
            }
            i = i + 1;
        }
        None
    }

    /// At which place `name` stands, if it has an id.
    fn slot_of_name(&self, name: &[u8]) -> (r: Option<usize>)
        ensures
            r is None <==> !self.names().contains(name@),
            r matches Some(i) ==> i < self.names().len() && self.names()[i as int] == name@,
    {
        let mut i: usize = 0;
        while i < self.names.len()
            invariant
                0 <= i <= self.names@.len(),
                forall|k: int| 0 <= k < i ==> self.names()[k] != name@,
            decreases self.names@.len() - i,
        {
            if bytes_equal(self.names[i].as_bytes(), name) {
                assert(self.names()[i as int] == name@);
                return Some(i);
            }
            i = i + 1;
        }
        None
    }

    /// The name of `id`. Fails where `id` has none.
    pub fn vertex_name(&self, id: u64) -> (r: Result<VertexName, DagError>)
        ensures
            match r {
                Ok(name) => lookup(self@, id) == Ok::<Seq<u8>, DagError>(name@),
                Err(e) => lookup(self@, id) == Err::<Seq<u8>, DagError>(e),
            },
    {
        proof {
            use_type_invariant(self);
            self.lemma_view();
        }
        match self.slot_of_id(id) {
            Some(i) => Ok(self.names[i].clone()),
            None => Err(DagError::LookupFailure { id }),
        }
    }

    /// The id of `name`, if it has one. This map is held in memory, so the
    /// search itself cannot fail.
    pub fn find_id_by_name(&self, name: &[u8]) -> (r: Result<Option<u64>, DagError>)
        ensures
            r is Ok,
            r->Ok_0 is None <==> !has_name(self@, name@),
            r->Ok_0 matches Some(id) ==> self@.dom().contains(id) && self@[id] == name@,
    {
        proof {
            use_type_invariant(self);
            self.lemma_view();
        }
        match self.slot_of_name(name) {
            Some(i) => {
                let id = self.ids[i];
                proof {
                    assert(self@.dom().contains(self.ids()[i as int]));
                }
                Ok(Some(id))
            },
            None => {
                proof {
                    if has_name(self@, name@) {
                        let id = choose|id: u64|
                            self@.dom().contains(id) && #[trigger] self@[id] == name@;
                        let k = self.ids().index_of(id);
                        assert(self.names()[k] == name@);
                    }
                }
                Ok(None)
            },
        }
    }

    /// The map with one more entry. Where `id` or `name` is in the map
    /// already, nothing is added: an entry is never changed.
    pub fn insert(self, id: u64, name: VertexName) -> (r: (IdMap, bool))
        ensures
            r.0.wf(),
            r.1 <==> !self@.dom().contains(id) && !has_name(self@, name@),
            r.1 ==> r.0@ == self@.insert(id, name@),
            !r.1 ==> r.0@ == self@,
    {
        proof {
            use_type_invariant(&self);
            self.lemma_view();
        }
        let taken = self.slot_of_id(id).is_some() || self.slot_of_name(name.as_bytes()).is_some();
        proof {
            if self.names().contains(name@) {
                let k = choose|k: int| 0 <= k < self.names().len() && self.names()[k] == name@;
                assert(self@[self.ids()[k]] == name@);
            }
            if has_name(self@, name@) {
                let other = choose|other: u64|
                    self@.dom().contains(other) && #[trigger] self@[other] == name@;
                let k = self.ids().index_of(other);
                assert(self.names()[k] == name@);
            }
        }
        if taken {
            return (self, false);
        }
        let ghost before = self;
        let IdMap { ids: mut ids, names: mut names } = self;
        ids.push(id);
        names.push(name);
        proof {
            assert(views(names@) =~= before.names().push(name@));
        }
        let r = IdMap { ids, names };
        proof {
            r.lemma_view();
            assert forall|k: u64| r@.dom().contains(k) <==> before@.insert(id, name@).dom().contains(
                k,
            ) by {
                if before.ids().contains(k) {
                    let x = before.ids().index_of(k);
                    assert(r.ids()[x] == k);
                }
                if r.ids().contains(k) && k != id {
                    let x = r.ids().index_of(k);
                    assert(before.ids()[x] == k);
                }
                assert(r.ids()[r.ids().len() - 1] == id);
            }
            assert forall|k: u64| r@.dom().contains(k) implies r@[k] == before@.insert(id, name@)[k] by {
                let x = r.ids().index_of(k);
                if k == id {
                    assert(r.ids()[r.ids().len() - 1] == id);
                } else {
                    assert(before.ids()[x] == k);
                    assert(before@[before.ids()[x]] == before.names()[x]);
                }
            }
            assert(r@ =~= before@.insert(id, name@));
        }
        (r, true)
    }
}

} // verus!
