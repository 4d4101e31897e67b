//! A vertex set held as a span set of ids together with the identity map
//! that names them.

use crate::error::DagError;
use crate::handle::share;
use crate::idmap::{lookup, IdMap, VertexName};
use crate::render::spans_text;
use crate::spanset::{SpanSet, SpanSetIter};
use std::sync::Arc;
use vstd::prelude::*;
use vstd::string::*;

verus! {

/// The names of `ids` in order, or the failure of the first id without one.
pub open spec fn resolve_all(ids: Seq<u64>, m: Map<u64, Seq<u8>>) -> Result<Seq<Seq<u8>>, DagError>
    decreases ids.len(),
{
    if ids.len() == 0 {
        Ok(Seq::empty())
    } else {
        match resolve_all(ids.drop_last(), m) {
            Err(e) => Err(e),
            Ok(names) => match lookup(m, ids.last()) {
                Err(e) => Err(e),
                Ok(name) => Ok(names.push(name)),
            },
        }
    }
}

/// Whether every id of `ids` has a name in `m`.
pub open spec fn all_named(ids: Seq<u64>, m: Map<u64, Seq<u8>>) -> bool {
    forall|k: int| 0 <= k < ids.len() ==> m.dom().contains(#[trigger] ids[k])
}

/// `resolve_all` succeeds exactly where every id has a name, and then gives
/// the name of each id at its place.
pub proof fn lemma_resolve_all(ids: Seq<u64>, m: Map<u64, Seq<u8>>)
    ensures
        resolve_all(ids, m) is Ok <==> all_named(ids, m),
        resolve_all(ids, m) matches Ok(names) ==> names.len() == ids.len() && forall|k: int|
            0 <= k < ids.len() ==> #[trigger] names[k] == m[ids[k]],
        resolve_all(ids, m) matches Err(e) ==> exists|k: int|
            0 <= k < ids.len() && !m.dom().contains(#[trigger] ids[k]) && e
                == (DagError::LookupFailure { id: ids[k] }) && all_named(ids.take(k), m),
    decreases ids.len(),
{
    if ids.len() > 0 {
        let rest = ids.drop_last();
        lemma_resolve_all(rest, m);
        match resolve_all(rest, m) {
            Err(e) => {
                let k = choose|k: int|
                    0 <= k < rest.len() && !m.dom().contains(#[trigger] rest[k]) && e
                        == (DagError::LookupFailure { id: rest[k] }) && all_named(rest.take(k), m);
                assert(ids[k] == rest[k]);
                assert(ids.take(k) =~= rest.take(k));
            },
            Ok(names) => {
                assert forall|k: int| 0 <= k < rest.len() implies m.dom().contains(
                    #[trigger] ids[k],
                ) by {
                    assert(ids[k] == rest[k]);
                }
                if !m.dom().contains(ids.last()) {
                    let k = ids.len() - 1;
                    assert(ids.take(k) =~= rest);
                    assert(!m.dom().contains(ids[k]));
                }
            },
        }
    }
}

/// A vertex set: the vertices whose ids the span set holds, named by the
/// identity map.
pub struct DagSet {
    spans: SpanSet,
    map: Arc<IdMap>,
}

/// A cursor over the names of a `DagSet`. Each step takes the next id of the
/// span set and looks its name up in the identity map.
pub struct Iter {
    iter: SpanSetIter,
    map: Arc<IdMap>,
    reversed: bool,
}

impl Iter {
    /// The representation invariant. Every cursor that a `DagSet` hands out
    /// meets it, and `next` keeps it.
    pub closed spec fn wf(&self) -> bool {
        self.iter.wf()
    }

    /// The ids that are left, in the order in which `next` will take them.
    pub closed spec fn remaining(&self) -> Seq<u64> {
        if self.reversed {
            self.iter@.reverse()
        } else {
            self.iter@
        }
    }

    /// The identity map that names the ids.
    pub closed spec fn map_view(&self) -> Map<u64, Seq<u8>> {
        self.map@
    }

    /// The name of the next id, or the failure to find one for it; `None`
    /// when no id is left. A failure does not end the cursor: the id is
    /// passed over and the next call goes on with the one after it.
    pub fn next(&mut self) -> (r: Option<Result<VertexName, DagError>>)
        requires
            old(self).wf(),
        ensures
            final(self).wf(),
            final(self).map_view() == old(self).map_view(),
            old(self).remaining().len() == 0 ==> r is None && final(self).remaining() == old(
                self,
            ).remaining(),
            old(self).remaining().len() > 0 ==> final(self).remaining() == old(
                self,
            ).remaining().drop_first() && match r {
                None => false,
                Some(Ok(name)) => lookup(old(self).map_view(), old(self).remaining()[0]) == Ok::<
                    Seq<u8>,
                    DagError,
                >(name@),
                Some(Err(e)) => lookup(old(self).map_view(), old(self).remaining()[0]) == Err::<
                    Seq<u8>,
                    DagError,
                >(e),
            },
    {
        let id = if self.reversed {
            self.iter.next_back()
        } else {
            self.iter.next()
        };
        proof {
            if self.reversed && old(self).iter@.len() > 0 {
                assert(old(self).iter@.drop_last().reverse() =~= old(
                    self,
                ).iter@.reverse().drop_first());
            }
        }
        match id {
            Some(id) => Some(self.map.vertex_name(id)),
            None => None,
        }
    }

    /// The names of all ids that are left, in order. Stops at the first id
    /// without a name and returns that failure.
    pub fn collect(self) -> (r: Result<Vec<VertexName>, DagError>)
        requires
            self.wf(),
        ensures
            match r {
                Ok(names) => resolve_all(self.remaining(), self.map_view()) == Ok::<
                    Seq<Seq<u8>>,
                    DagError,
                >(crate::idmap::views(names@)),
                Err(e) => resolve_all(self.remaining(), self.map_view()) == Err::<
                    Seq<Seq<u8>>,
                    DagError,
                >(e),
            },
    {
        let ghost all = self.remaining();
        let ghost m = self.map_view();
        let mut cursor = self;
        let mut names: Vec<VertexName> = Vec::new();
        let ghost mut taken: int = 0;
        proof {
            assert(all.take(0) =~= Seq::<u64>::empty());
            assert(crate::idmap::views(names@) =~= Seq::<Seq<u8>>::empty());
            assert(all.skip(0) =~= all);
        }
        loop
            invariant
                all == self.remaining(),
                m == self.map_view(),
                cursor.wf(),
                cursor.map_view() == m,
                0 <= taken <= all.len(),
                cursor.remaining() == all.skip(taken),
                resolve_all(all.take(taken), m) == Ok::<Seq<Seq<u8>>, DagError>(
                    crate::idmap::views(names@),
                ),
            decreases all.len() - taken,
        {
            let ghost before = crate::idmap::views(names@);
            match cursor.next() {
                None => {
                    proof {
                        assert(all.take(taken) =~= all);
                    }
                    return Ok(names);
                },
                Some(Err(e)) => {
                    proof {
                        assert(all.skip(taken)[0] == all[taken]);
                        lemma_resolve_after_failure(all, m, taken);
                    }
                    return Err(e);
                },
                Some(Ok(name)) => {
                    names.push(name);
                    proof {
                        let next = all.take(taken + 1);
                        assert(next.drop_last() =~= all.take(taken));
                        assert(next.last() == all[taken]);
                        assert(crate::idmap::views(names@) =~= before.push(name@));
                        assert(all.skip(taken).drop_first() =~= all.skip(taken + 1));
                        taken = taken + 1;
                    }
                },
            }
        }
    }
}

/// Where the ids before place `k` all have names and the id at `k` has
/// none, resolving the whole sequence fails with that id.
pub proof fn lemma_resolve_after_failure(ids: Seq<u64>, m: Map<u64, Seq<u8>>, k: int)
    requires
        0 <= k < ids.len(),
        resolve_all(ids.take(k), m) is Ok,
        !m.dom().contains(ids[k]),
    ensures
        resolve_all(ids, m) == Err::<Seq<Seq<u8>>, DagError>(DagError::LookupFailure { id: ids[k] }),
    decreases ids.len(),
{
    if k == ids.len() - 1 {
        assert(ids.take(k) =~= ids.drop_last());
    } else {
        let rest = ids.drop_last();
        assert(rest.take(k) =~= ids.take(k));
        lemma_resolve_after_failure(rest, m, k);
    }
}

impl DagSet {
    /// The ids of the set.
    pub closed spec fn span_set(&self) -> SpanSet {
        self.spans
    }

    /// The identity map that names the ids.
    pub closed spec fn id_map(&self) -> IdMap {
        *self.map
    }

    /// Whether the set holds a vertex of this name: whether some id of the
    /// span set has this name in the identity map.
    pub open spec fn contains_spec(&self, name: Seq<u8>) -> bool {
        exists|id: u64|
            self.span_set()@.contains(id) && self.id_map()@.dom().contains(id)
                && #[trigger] self.id_map()@[id] == name
    }

    /// The set of the vertices that `map` names and whose ids `spans` holds.
    /// Nothing is looked up here: an id without a name shows when it is
    /// reached.
    pub fn from_spans_idmap(spans: SpanSet, map: Arc<IdMap>) -> (r: DagSet)
        ensures
            r.span_set() == spans,
            r.id_map() == *map,
    {
        DagSet { spans, map }
    }

    /// The span set of ids.
    pub fn as_spans(&self) -> (r: &SpanSet)
        ensures
            *r == self.span_set(),
            r.wf(),
    {
        proof {
            use_type_invariant(&self.spans);
        }
        &self.spans
    }

    /// The handle on the identity map.
    pub fn as_map(&self) -> (r: &Arc<IdMap>)
        ensures
            **r == self.id_map(),
            r.wf(),
    {
        proof {
            use_type_invariant(&*self.map);
        }
        &self.map
    }

    /// A cursor over the names, from the largest id down.
    pub fn iter(&self) -> (r: Result<Iter, DagError>)
        ensures
            r is Ok,
            r->Ok_0.wf(),
            r->Ok_0.remaining() == self.span_set().ids_descending(),
            r->Ok_0.map_view() == self.id_map()@,
    {
        Ok(Iter { iter: self.spans.iter(), map: share(&self.map), reversed: false })
    }

    /// A cursor over the names, from the smallest id up: `iter` backwards.
    pub fn iter_rev(&self) -> (r: Result<Iter, DagError>)
        ensures
            r is Ok,
            r->Ok_0.wf(),
            r->Ok_0.remaining() == self.span_set().ids_ascending(),
            r->Ok_0.map_view() == self.id_map()@,
    {
        let r = Iter { iter: self.spans.iter(), map: share(&self.map), reversed: true };
        proof {
            let asc = self.span_set().ids_ascending();
            assert(asc.reverse().reverse() =~= asc);
        }
        Ok(r)
    }

    /// How many vertices the set holds.
    pub fn count(&self) -> (r: Result<u64, DagError>)
        ensures
            r == Ok::<u64, DagError>(self.span_set().ids_ascending().len() as u64),
            self.span_set().ids_ascending().len() <= u64::MAX,
    {
        Ok(self.spans.count())
    }

    /// The first name that `iter` gives: that of the largest id.
    pub fn first(&self) -> (r: Result<Option<VertexName>, DagError>)
        ensures
            self.span_set().ids_descending().len() == 0 ==> r is Ok && r->Ok_0 is None,
            self.span_set().ids_descending().len() > 0 ==> match r {
                Ok(None) => false,
                Ok(Some(name)) => lookup(self.id_map()@, self.span_set().ids_descending().first())
                    == Ok::<Seq<u8>, DagError>(name@),
                Err(e) => lookup(self.id_map()@, self.span_set().ids_descending().first()) == Err::<
                    Seq<u8>,
                    DagError,
                >(e),
            },
    {
        match self.spans.max() {
            Some(id) => {
                match self.map.vertex_name(id) {
                    Ok(name) => Ok(Some(name)),
                    Err(e) => Err(e),
                }
            },
            None => Ok(None),
        }
    }

    /// The last name that `iter` gives: that of the smallest id.
    pub fn last(&self) -> (r: Result<Option<VertexName>, DagError>)
        ensures
            self.span_set().ids_descending().len() == 0 ==> r is Ok && r->Ok_0 is None,
            self.span_set().ids_descending().len() > 0 ==> match r {
                Ok(None) => false,
                Ok(Some(name)) => lookup(self.id_map()@, self.span_set().ids_descending().last())
                    == Ok::<Seq<u8>, DagError>(name@),
                Err(e) => lookup(self.id_map()@, self.span_set().ids_descending().last()) == Err::<
                    Seq<u8>,
                    DagError,
                >(e),
            },
    {
        match self.spans.min() {
            Some(id) => {
                match self.map.vertex_name(id) {
                    Ok(name) => Ok(Some(name)),
                    Err(e) => Err(e),
                }
            },
            None => Ok(None),
        }
    }

    /// Whether the set holds no vertex.
    pub fn is_empty(&self) -> (r: Result<bool, DagError>)
        ensures
            r is Ok,
            r->Ok_0 <==> self.span_set()@ == Set::<u64>::empty(),
    {
        Ok(self.spans.is_empty())
    }

    /// Whether the set holds the vertex of this name.
    pub fn contains(&self, name: &VertexName) -> (r: Result<bool, DagError>)
        ensures
            r == Ok::<bool, DagError>(self.contains_spec(name@)),
    {
        proof {
            use_type_invariant(&*self.map);
            self.id_map().lemma_view();
        }
        match self.map.find_id_by_name(name.as_bytes()) {
            Ok(Some(id)) => {
                let found = self.spans.contains(id);
                proof {
                    if self.contains_spec(name@) {
                        let other = choose|other: u64|
                            self.span_set()@.contains(other) && self.id_map()@.dom().contains(other)
                                && #[trigger] self.id_map()@[other] == name@;
                        assert(other == id);
                    }
                }
                Ok(found)
            },
            Ok(None) => Ok(false),
            Err(e) => Err(e),
        }
    }

    /// Whether `iter` keeps to the order of the graph. A span set is always
    /// sorted by id, so it does.
    pub fn is_topo_sorted(&self) -> (r: bool)
        ensures
            r,
    {
        true
    }

    /// The text form for diagnostics: `<dag [`, the spans, `]>`.
    pub open spec fn debug_spec(&self) -> Seq<char> {
        "<dag ["@ + spans_text(self.span_set().spans()) + "]>"@
    }

    /// The text form for diagnostics.
    pub fn debug_string(&self) -> (r: String)
        ensures
            r@ == self.debug_spec(),
    {
        let mut out = String::from_str("<dag [");
        let inner = self.spans.debug_string();
        out.append(inner.as_str());
        out.append("]>");
        out
    }
}

impl Clone for DagSet {
    fn clone(&self) -> (r: DagSet)
        ensures
            r.span_set().spans() == self.span_set().spans(),
            r.span_set()@ == self.span_set()@,
            r.id_map() == self.id_map(),
    {
        DagSet { spans: self.spans.clone(), map: share(&self.map) }
    }
}

} // verus!
