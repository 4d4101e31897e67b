//! Vertex sets of any kind: range-backed sets, plain lists of names, and
//! combinations of two sets that are worked out when they are asked.

use crate::dagset::{resolve_all, DagSet};
use crate::error::DagError;
use crate::idmap::{views, VertexName};
use crate::handle::{same_handle, share};
use crate::render::{hex, push_hex_slice};
use vstd::prelude::*;
use vstd::string::*;

verus! {

/// How two sets are combined.
#[derive(Clone, Copy, Debug, PartialEq, Eq, Structural)]
pub enum SetOp {
    /// The vertices of both.
    And,
    /// The vertices of either.
    Or,
    /// The vertices of the first that are not in the second.
    Difference,
}

/// `names` with every name dropped that came before: the first of each stays.
pub open spec fn dedup(names: Seq<Seq<u8>>) -> Seq<Seq<u8>>
    decreases names.len(),
{
    if names.len() == 0 {
        Seq::empty()
    } else {
        let rest = dedup(names.drop_last());
        if rest.contains(names.last()) {
            rest
        } else {
            rest.push(names.last())
        }
    }
}

/// `dedup` keeps exactly the names that were there, each once.
pub proof fn lemma_dedup(names: Seq<Seq<u8>>)
    ensures
        dedup(names).no_duplicates(),
        forall|n: Seq<u8>| #[trigger] dedup(names).contains(n) <==> names.contains(n),
    decreases names.len(),
{
    if names.len() > 0 {
        let rest = names.drop_last();
        let last = names.last();
        lemma_dedup(rest);
        let out = dedup(names);
        assert forall|n: Seq<u8>| #[trigger] out.contains(n) <==> names.contains(n) by {
            if out.contains(n) {
                let k = choose|k: int| 0 <= k < out.len() && out[k] == n;
                if k < dedup(rest).len() {
                    assert(dedup(rest)[k] == n);
                    assert(dedup(rest).contains(n));
                    let j = choose|j: int| 0 <= j < rest.len() && rest[j] == n;
                    assert(names[j] == n);
                } else {
                    assert(names[names.len() - 1] == n);
                }
            }
            if names.contains(n) {
                let j = choose|j: int| 0 <= j < names.len() && names[j] == n;
                if j < rest.len() {
                    assert(rest[j] == n);
                    assert(rest.contains(n));
                    assert(dedup(rest).contains(n));
                    let k = choose|k: int| 0 <= k < dedup(rest).len() && dedup(rest)[k] == n;
                    assert(out[k] == n);
                } else if dedup(rest).contains(last) {
                    let k = choose|k: int| 0 <= k < dedup(rest).len() && dedup(rest)[k] == last;
                    assert(out[k] == n);
                } else {
                    assert(out[out.len() - 1] == n);
                }
            }
        }
    }
}

/// A set given as a list of names, in the order of the list.
pub struct StaticSet {
    names: Vec<VertexName>,
}

impl View for StaticSet {
    type V = Seq<Seq<u8>>;

    /// The names, in order.
    closed spec fn view(&self) -> Seq<Seq<u8>> {
        views(self.names@)
    }
}

/// Whether `names` holds `name`.
fn holds_name(names: &Vec<VertexName>, name: &VertexName) -> (r: bool)
    ensures
        r <==> views(names@).contains(name@),
{
    let mut i: usize = 0;
    while i < names.len()
        invariant
            0 <= i <= names@.len(),
            forall|k: int| 0 <= k < i ==> views(names@)[k] != name@,
        decreases names@.len() - i,
    {
        if names[i].same_as(name) {
            assert(views(names@)[i as int] == name@);
            return true;
        }
        i = i + 1;
    }
    false
}

/// A copy of `names`, in order or backwards.
fn copy_names(names: &Vec<VertexName>, backwards: bool) -> (r: Vec<VertexName>)
    ensures
        views(r@) == if backwards {
            views(names@).reverse()
        } else {
            views(names@)
        },
{
    let n = names.len();
    let mut out: Vec<VertexName> = Vec::new();
    let mut i: usize = 0;
    while i < n
        invariant
            n == names@.len(),
            0 <= i <= n,
            out@.len() == i,
            forall|k: int|
                0 <= k < i ==> (#[trigger] out@[k])@ == if backwards {
                    names@[n - 1 - k]@
                } else {
                    names@[k]@
                },
        decreases n - i,
    {
        let at = if backwards {
            n - 1 - i
        } else {
            i
        };
        out.push(names[at].clone());
        i = i + 1;
    }
    proof {
        if backwards {
            assert(views(out@) =~= views(names@).reverse());
        } else {
            assert(views(out@) =~= views(names@));
        }
    }
    out
}

impl StaticSet {
    /// The representation invariant: no name twice.
    pub open spec fn wf(&self) -> bool {
        self@.no_duplicates()
    }

    #[verifier::type_invariant]
    pub open spec fn inv(&self) -> bool {
        self.wf()
    }

    /// The set of these names, in this order. Of a name that comes more than
    /// once the first stays.
    pub fn from_names(names: Vec<VertexName>) -> (r: StaticSet)
        ensures
            r.wf(),
            r@ == dedup(views(names@)),
    {
        let mut out: Vec<VertexName> = Vec::new();
        let mut i: usize = 0;
        proof {
            assert(views(names@).take(0) =~= Seq::<Seq<u8>>::empty());
            assert(views(out@) =~= Seq::<Seq<u8>>::empty());
        }
        while i < names.len()
            invariant
                0 <= i <= names@.len(),
                views(out@) == dedup(views(names@).take(i as int)),
            decreases names@.len() - i,
        {
            let ghost before = views(out@);
            let fresh = !holds_name(&out, &names[i]);
            if fresh {
                out.push(names[i].clone());
                proof {
                    assert(views(out@) =~= before.push(names@[i as int]@));
                }
            }
            proof {
                let next = views(names@).take(i + 1);
                assert(next.drop_last() =~= views(names@).take(i as int));
                assert(next.last() == names@[i as int]@);
            }
            i = i + 1;
        }
        proof {
            assert(views(names@).take(i as int) =~= views(names@));
            lemma_dedup(views(names@));
        }
        StaticSet { names: out }
    }

    /// The names, in order.
    pub fn names(&self) -> (r: &Vec<VertexName>)
        ensures
            views(r@) == self@,
            self.wf(),
    {
        proof {
            use_type_invariant(self);
        }
        &self.names
    }
}

impl Clone for StaticSet {
    fn clone(&self) -> (r: StaticSet)
        ensures
            r@ == self@,
    {
        proof {
            use_type_invariant(self);
        }
        StaticSet { names: copy_names(&self.names, false) }
    }
}

/// A vertex set.
pub enum NameSet {
    /// A span set of ids with the identity map that names them.
    Dag(DagSet),
    /// A list of names.
    Static(StaticSet),
    /// Two sets and how they are combined. Its vertices are worked out from
    /// the names of the two, whenever they are asked for.
    Combination { op: SetOp, lhs: Box<NameSet>, rhs: Box<NameSet> },
}

/// The names of `names` that `set` holds (where `wanted`) or does not hold
/// (where not), in the order of `names`.
pub open spec fn keep(names: Seq<Seq<u8>>, set: NameSet, wanted: bool) -> Seq<Seq<u8>>
    decreases names.len(),
{
    if names.len() == 0 {
        Seq::empty()
    } else {
        let rest = keep(names.drop_last(), set, wanted);
        if set.contains_spec(names.last()) == wanted {
            rest.push(names.last())
        } else {
            rest
        }
    }
}

/// The names of a list of names as text: each in hexadecimal, a blank
/// between two of them.
pub open spec fn names_text(names: Seq<Seq<u8>>) -> Seq<char>
    decreases names.len(),
{
    if names.len() == 0 {
        Seq::empty()
    } else if names.len() == 1 {
        hex(names[0])
    } else {
        names_text(names.drop_last()) + seq![' '] + hex(names.last())
    }
}

impl SetOp {
    /// The word for the operation in the text form of a combination.
    pub open spec fn word(self) -> Seq<char> {
        match self {
            SetOp::And => "and"@,
            SetOp::Or => "or"@,
            SetOp::Difference => "difference"@,
        }
    }
}

impl NameSet {
    /// Every part of the set is well-formed.
    pub open spec fn wf(self) -> bool
        decreases self,
    {
        match self {
            NameSet::Dag(d) => d.span_set().wf() && d.id_map().wf(),
            NameSet::Static(s) => s.wf(),
            NameSet::Combination { op, lhs, rhs } => lhs.wf() && rhs.wf(),
        }
    }

    /// Whether the set holds the vertex of this name.
    pub open spec fn contains_spec(self, name: Seq<u8>) -> bool
        decreases self,
    {
        match self {
            NameSet::Dag(d) => d.contains_spec(name),
            NameSet::Static(s) => s@.contains(name),
            NameSet::Combination { op, lhs, rhs } => match op {
                SetOp::And => lhs.contains_spec(name) && rhs.contains_spec(name),
                SetOp::Or => lhs.contains_spec(name) || rhs.contains_spec(name),
                SetOp::Difference => lhs.contains_spec(name) && !rhs.contains_spec(name),
            },
        }
    }

    /// The names of the set in the order of `iter`, or the failure that
    /// `iter` ends with.
    ///
    /// A range-backed set gives its names from the largest id down and fails
    /// at the first id without a name. A list gives its names as they stand.
    /// An intersection and a difference give the names of the first operand
    /// that the second holds, or does not hold; a union gives the names of
    /// the first operand, then those of the second that the first does not
    /// hold.
    pub open spec fn names_result(self) -> Result<Seq<Seq<u8>>, DagError>
        decreases self,
    {
        match self {
            NameSet::Dag(d) => resolve_all(d.span_set().ids_descending(), d.id_map()@),
            NameSet::Static(s) => Ok(s@),
            NameSet::Combination { op, lhs, rhs } => match op {
                SetOp::And => match lhs.names_result() {
                    Err(e) => Err(e),
                    Ok(l) => Ok(keep(l, *rhs, true)),
                },
                SetOp::Difference => match lhs.names_result() {
                    Err(e) => Err(e),
                    Ok(l) => Ok(keep(l, *rhs, false)),
                },
                SetOp::Or => match lhs.names_result() {
                    Err(e) => Err(e),
                    Ok(l) => match rhs.names_result() {
                        Err(e) => Err(e),
                        Ok(r) => Ok(l + keep(r, *lhs, false)),
                    },
                },
            },
        }
    }

    /// The names of the set in the order of `iter_rev`, or the failure that
    /// `iter_rev` ends with. It walks the other way: a range-backed set from
    /// the smallest id up, a union through its second operand first.
    pub open spec fn names_rev_result(self) -> Result<Seq<Seq<u8>>, DagError>
        decreases self,
    {
        match self {
            NameSet::Dag(d) => resolve_all(d.span_set().ids_ascending(), d.id_map()@),
            NameSet::Static(s) => Ok(s@.reverse()),
            NameSet::Combination { op, lhs, rhs } => match op {
                SetOp::And => match lhs.names_rev_result() {
                    Err(e) => Err(e),
                    Ok(l) => Ok(keep(l, *rhs, true)),
                },
                SetOp::Difference => match lhs.names_rev_result() {
                    Err(e) => Err(e),
                    Ok(l) => Ok(keep(l, *rhs, false)),
                },
                SetOp::Or => match rhs.names_rev_result() {
                    Err(e) => Err(e),
                    Ok(r) => match lhs.names_rev_result() {
                        Err(e) => Err(e),
                        Ok(l) => Ok(keep(r, *lhs, false) + l),
                    },
                },
            },
        }
    }

    /// Whether `iter` keeps to the order of the graph: so does a
    /// range-backed set, and an intersection or a difference whose first
    /// operand does.
    pub open spec fn sorted_spec(self) -> bool
        decreases self,
    {
        match self {
            NameSet::Dag(d) => true,
            NameSet::Static(s) => false,
            NameSet::Combination { op, lhs, rhs } => match op {
                SetOp::And => lhs.sorted_spec(),
                SetOp::Difference => lhs.sorted_spec(),
                SetOp::Or => false,
            },
        }
    }

    /// The text form for diagnostics. A range-backed set shows its spans, a
    /// list its names, a combination the word for its operation and the text
    /// forms of its two operands.
    pub open spec fn debug_spec(self) -> Seq<char>
        decreases self,
    {
        match self {
            NameSet::Dag(d) => d.debug_spec(),
            NameSet::Static(s) => "<static ["@ + names_text(s@) + "]>"@,
            NameSet::Combination { op, lhs, rhs } => seq!['<'] + op.word() + seq![' ']
                + lhs.debug_spec() + seq![' '] + rhs.debug_spec() + seq!['>'],
        }
    }

    /// The same set, part for part: the same spans on the same identity
    /// map, the same names, the same operations.
    pub open spec fn alike(self, other: NameSet) -> bool
        decreases self,
    {
        match self {
            NameSet::Dag(d) => other matches NameSet::Dag(e) && d.span_set().spans()
                == e.span_set().spans() && d.id_map() == e.id_map(),
            NameSet::Static(s) => other matches NameSet::Static(t) && s@ == t@,
            NameSet::Combination { op, lhs, rhs } => other matches NameSet::Combination {
                op: op2,
                lhs: lhs2,
                rhs: rhs2,
            } && op == op2 && lhs.alike(*lhs2) && rhs.alike(*rhs2),
        }
    }
}

/// The names of `names` that `set` holds (where `wanted`) or does not hold
/// (where not), in order.
fn keep_names(names: &Vec<VertexName>, set: &NameSet, wanted: bool) -> (r: Result<
    Vec<VertexName>,
    DagError,
>)
    ensures
        r is Ok,
        views(r->Ok_0@) == keep(views(names@), *set, wanted),
{
    let mut out: Vec<VertexName> = Vec::new();
    let mut i: usize = 0;
    proof {
        assert(views(names@).take(0) =~= Seq::<Seq<u8>>::empty());
        assert(views(out@) =~= Seq::<Seq<u8>>::empty());
    }
    while i < names.len()
        invariant
            0 <= i <= names@.len(),
            views(out@) == keep(views(names@).take(i as int), *set, wanted),
        decreases names@.len() - i,
    {
        let ghost before = views(out@);
        let inside = match set.contains(&names[i]) {
            Ok(b) => b,
            Err(e) => {
                return Err(e);
            },
        };
        if inside == wanted {
            out.push(names[i].clone());
            proof {
                assert(views(out@) =~= before.push(names@[i as int]@));
            }
        }
        proof {
            let next = views(names@).take(i + 1);
            assert(next.drop_last() =~= views(names@).take(i as int));
            assert(next.last() == names@[i as int]@);
        }
        i = i + 1;
    }
    proof {
        assert(views(names@).take(i as int) =~= views(names@));
    }
    Ok(out)
}

/// The two lists one after the other.
fn join_names(first: Vec<VertexName>, second: Vec<VertexName>) -> (r: Vec<VertexName>)
    ensures
        views(r@) == views(first@) + views(second@),
{
    let mut out = first;
    let mut rest = second;
    out.append(&mut rest);
    proof {
        assert(views(out@) =~= views(first@) + views(second@));
    }
    out
}

impl NameSet {
    /// The range-backed set that this is, if it is one. Combining two sets
    /// looks here for the quick way.
    pub fn as_dag(&self) -> (r: Option<&DagSet>)
        ensures
            match *self {
                NameSet::Dag(d) => r == Some(&d),
                _ => r is None,
            },
    {
        match self {
            NameSet::Dag(d) => Some(d),
            _ => None,
        }
    }

    /// Whether the set holds the vertex of this name.
    pub fn contains(&self, name: &VertexName) -> (r: Result<bool, DagError>)
        ensures
            r == Ok::<bool, DagError>(self.contains_spec(name@)),
        decreases *self,
    {
        match self {
            NameSet::Dag(d) => d.contains(name),
            NameSet::Static(s) => Ok(holds_name(s.names(), name)),
            NameSet::Combination { op, lhs, rhs } => {
                let left = match lhs.contains(name) {
                    Ok(b) => b,
                    Err(e) => {
                        return Err(e);
                    },
                };
                match op {
                    SetOp::And => if left {
                        rhs.contains(name)
                    } else {
                        Ok(false)
                    },
                    SetOp::Or => if left {
                        Ok(true)
                    } else {
                        rhs.contains(name)
                    },
                    SetOp::Difference => if left {
                        match rhs.contains(name) {
                            Ok(b) => Ok(!b),
                            Err(e) => Err(e),
                        }
                    } else {
                        Ok(false)
                    },
                }
            },
        }
    }

    /// The names of the set, in order: see `names_result`. The names are
    /// looked up here, all of them, and the first failure ends the walk.
    pub fn iter(&self) -> (r: Result<Vec<VertexName>, DagError>)
        ensures
            match r {
                Ok(names) => self.names_result() == Ok::<Seq<Seq<u8>>, DagError>(views(names@)),
                Err(e) => self.names_result() == Err::<Seq<Seq<u8>>, DagError>(e),
            },
        decreases *self,
    {
        match self {
            NameSet::Dag(d) => match d.iter() {
                Ok(cursor) => cursor.collect(),
                Err(e) => Err(e),
            },
            NameSet::Static(s) => Ok(copy_names(s.names(), false)),
            NameSet::Combination { op, lhs, rhs } => {
                let left = match lhs.iter() {
                    Ok(names) => names,
                    Err(e) => {
                        return Err(e);
                    },
                };
                match op {
                    SetOp::And => keep_names(&left, rhs, true),
                    SetOp::Difference => keep_names(&left, rhs, false),
                    SetOp::Or => {
                        let right = match rhs.iter() {
                            Ok(names) => names,
                            Err(e) => {
                                return Err(e);
                            },
                        };
                        match keep_names(&right, lhs, false) {
                            Ok(more) => Ok(join_names(left, more)),
                            Err(e) => Err(e),
                        }
                    },
                }
            },
        }
    }

    /// The names of the set, the other way round: see `names_rev_result`.
    pub fn iter_rev(&self) -> (r: Result<Vec<VertexName>, DagError>)
        ensures
            match r {
                Ok(names) => self.names_rev_result() == Ok::<Seq<Seq<u8>>, DagError>(
                    views(names@),
                ),
                Err(e) => self.names_rev_result() == Err::<Seq<Seq<u8>>, DagError>(e),
            },
        decreases *self,
    {
        match self {
            NameSet::Dag(d) => match d.iter_rev() {
                Ok(cursor) => cursor.collect(),
                Err(e) => Err(e),
            },
            NameSet::Static(s) => Ok(copy_names(s.names(), true)),
            NameSet::Combination { op, lhs, rhs } => {
                match op {
                    SetOp::And => match lhs.iter_rev() {
                        Ok(left) => keep_names(&left, rhs, true),
                        Err(e) => Err(e),
                    },
                    SetOp::Difference => match lhs.iter_rev() {
                        Ok(left) => keep_names(&left, rhs, false),
                        Err(e) => Err(e),
                    },
                    SetOp::Or => {
                        let right = match rhs.iter_rev() {
                            Ok(names) => names,
                            Err(e) => {
                                return Err(e);
                            },
                        };
                        let left = match lhs.iter_rev() {
                            Ok(names) => names,
                            Err(e) => {
                                return Err(e);
                            },
                        };
                        match keep_names(&right, lhs, false) {
                            Ok(more) => Ok(join_names(more, left)),
                            Err(e) => Err(e),
                        }
                    },
                }
            },
        }
    }

    /// How many vertices the set holds. A range-backed set counts its ids; any
    /// other set counts the names that `iter` gives, and fails where `iter`
    /// fails.
    pub fn count(&self) -> (r: Result<u64, DagError>)
        ensures
            match *self {
                NameSet::Dag(d) => r == Ok::<u64, DagError>(
                    d.span_set().ids_ascending().len() as u64,
                ),
                _ => match self.names_result() {
                    Ok(names) => r == Ok::<u64, DagError>(names.len() as u64),
                    Err(e) => r == Err::<u64, DagError>(e),
                },
            },
    {
        match self {
            NameSet::Dag(d) => d.count(),
            _ => match self.iter() {
                Ok(names) => Ok(names.len() as u64),
                Err(e) => Err(e),
            },
        }
    }

    /// The first name that `iter` gives, if there is any. A range-backed set
    /// looks up the name of its largest id only; any other set walks through
    /// `iter`, and fails where `iter` fails.
    pub fn first(&self) -> (r: Result<Option<VertexName>, DagError>)
        ensures
            match *self {
                NameSet::Dag(d) => d.span_set().ids_descending().len() > 0 ==> match r {
                    Ok(None) => false,
                    Ok(Some(name)) => crate::idmap::lookup(
                        d.id_map()@,
                        d.span_set().ids_descending().first(),
                    ) == Ok::<Seq<u8>, DagError>(name@),
                    Err(e) => crate::idmap::lookup(
                        d.id_map()@,
                        d.span_set().ids_descending().first(),
                    ) == Err::<Seq<u8>, DagError>(e),
                },
                _ => true,
            },
            match *self {
                NameSet::Dag(d) => d.span_set().ids_descending().len() == 0 ==> r is Ok && r->Ok_0
                    is None,
                _ => match self.names_result() {
                    Err(e) => r == Err::<Option<VertexName>, DagError>(e),
                    Ok(names) => r is Ok && (names.len() == 0 ==> r->Ok_0 is None) && (names.len()
                        > 0 ==> r->Ok_0 is Some && r->Ok_0->Some_0@ == names.first()),
                },
            },
    {
        match self {
            NameSet::Dag(d) => d.first(),
            _ => match self.iter() {
                Ok(names) => {
                    if names.len() == 0 {
                        Ok(None)
                    } else {
                        Ok(Some(names[0].clone()))
                    }
                },
                Err(e) => Err(e),
            },
        }
    }

    /// The first name that `iter_rev` gives, if there is any: the last of
    /// `iter`. A range-backed set looks up the name of its smallest id only;
    /// any other set walks through `iter_rev`, and fails where that fails.
    pub fn last(&self) -> (r: Result<Option<VertexName>, DagError>)
        ensures
            match *self {
                NameSet::Dag(d) => d.span_set().ids_descending().len() > 0 ==> match r {
                    Ok(None) => false,
                    Ok(Some(name)) => crate::idmap::lookup(
                        d.id_map()@,
                        d.span_set().ids_descending().last(),
                    ) == Ok::<Seq<u8>, DagError>(name@),
                    Err(e) => crate::idmap::lookup(
                        d.id_map()@,
                        d.span_set().ids_descending().last(),
                    ) == Err::<Seq<u8>, DagError>(e),
                },
                _ => true,
            },
            match *self {
                NameSet::Dag(d) => d.span_set().ids_descending().len() == 0 ==> r is Ok && r->Ok_0
                    is None,
                _ => match self.names_rev_result() {
                    Err(e) => r == Err::<Option<VertexName>, DagError>(e),
                    Ok(names) => r is Ok && (names.len() == 0 ==> r->Ok_0 is None) && (names.len()
                        > 0 ==> r->Ok_0 is Some && r->Ok_0->Some_0@ == names.first()),
                },
            },
    {
        match self {
            NameSet::Dag(d) => d.last(),
            _ => match self.iter_rev() {
                Ok(names) => {
                    if names.len() == 0 {
                        Ok(None)
                    } else {
                        Ok(Some(names[0].clone()))
                    }
                },
                Err(e) => Err(e),
            },
        }
    }

    /// Whether the set holds no vertex. A range-backed set looks at its
    /// spans; any other set asks `first`, and fails where that fails.
    pub fn is_empty(&self) -> (r: Result<bool, DagError>)
        ensures
            match *self {
                NameSet::Dag(d) => r == Ok::<bool, DagError>(
                    d.span_set()@ == Set::<u64>::empty(),
                ),
                _ => match self.names_result() {
                    Err(e) => r == Err::<bool, DagError>(e),
                    Ok(names) => r == Ok::<bool, DagError>(names.len() == 0),
                },
            },
    {
        match self {
            NameSet::Dag(d) => d.is_empty(),
            _ => match self.first() {
                Ok(name) => Ok(name.is_none()),
                Err(e) => Err(e),
            },
        }
    }

    /// Whether `iter` keeps to the order of the graph: see `sorted_spec`.
    pub fn is_topo_sorted(&self) -> (r: bool)
        ensures
            r == self.sorted_spec(),
        decreases *self,
    {
        match self {
            NameSet::Dag(d) => d.is_topo_sorted(),
            NameSet::Static(_) => false,
            NameSet::Combination { op, lhs, rhs } => match op {
                SetOp::And => lhs.is_topo_sorted(),
                SetOp::Difference => lhs.is_topo_sorted(),
                SetOp::Or => false,
            },
        }
    }
}

impl Clone for NameSet {
    fn clone(&self) -> (r: NameSet)
        ensures
            self.alike(r),
        decreases *self,
    {
        match self {
            NameSet::Dag(d) => NameSet::Dag(d.clone()),
            NameSet::Static(s) => NameSet::Static(s.clone()),
            NameSet::Combination { op, lhs, rhs } => NameSet::Combination {
                op: *op,
                lhs: Box::new((**lhs).clone()),
                rhs: Box::new((**rhs).clone()),
            },
        }
    }
}

/// What `op` makes of two sets of ids.
pub open spec fn apply_op(op: SetOp, a: Set<u64>, b: Set<u64>) -> Set<u64> {
    match op {
        SetOp::And => a.intersect(b),
        SetOp::Or => a.union(b),
        SetOp::Difference => a.difference(b),
    }
}

impl NameSet {
    /// This set is the quick result of `op` on `x` and `y`: a range-backed
    /// set on the identity map of `x`, whose ids are what `op` makes of the
    /// ids of the two.
    pub open spec fn is_fast(self, op: SetOp, x: DagSet, y: DagSet) -> bool {
        self matches NameSet::Dag(d) && d.id_map() == x.id_map() && d.span_set().wf()
            && d.span_set()@ == apply_op(op, x.span_set()@, y.span_set()@)
    }

    /// This set is the general result of `op` on `lhs` and `rhs`: a
    /// combination that holds the two as they are.
    pub open spec fn is_generic(self, op: SetOp, lhs: NameSet, rhs: NameSet) -> bool {
        self matches NameSet::Combination { op: o, lhs: l, rhs: r } && o == op && lhs.alike(*l)
            && rhs.alike(*r)
    }

    /// Combines two range-backed sets. Where `shared` says that both stand
    /// on one and the same identity map, their ids are commensurable and the
    /// result is worked out on the spans; where not, the result is a
    /// combination of the two, whatever their maps hold.
    pub fn combine_dag(op: SetOp, x: &DagSet, y: &DagSet, shared: bool) -> (r: NameSet)
        ensures
            shared ==> r.is_fast(op, *x, *y),
            !shared ==> r.is_generic(op, NameSet::Dag(*x), NameSet::Dag(*y)),
    {
        if shared {
            let spans = match op {
                SetOp::And => x.as_spans().intersection(y.as_spans()),
                SetOp::Or => x.as_spans().union(y.as_spans()),
                SetOp::Difference => x.as_spans().difference(y.as_spans()),
            };
            NameSet::Dag(DagSet::from_spans_idmap(spans, share(x.as_map())))
        } else {
            NameSet::Combination {
                op,
                lhs: Box::new(NameSet::Dag(x.clone())),
                rhs: Box::new(NameSet::Dag(y.clone())),
            }
        }
    }

    /// Combines two sets. Two range-backed sets whose handles are handles on
    /// one and the same identity map are combined on their spans; any other
    /// pair becomes a combination of the two. Two maps with the same entries
    /// that were built apart are not one map.
    pub fn combine(op: SetOp, lhs: &NameSet, rhs: &NameSet) -> (r: NameSet)
        ensures
            match (*lhs, *rhs) {
                (NameSet::Dag(x), NameSet::Dag(y)) => (r.is_fast(op, x, y) && x.id_map()
                    == y.id_map()) || r.is_generic(op, *lhs, *rhs),
                _ => r.is_generic(op, *lhs, *rhs),
            },
    {
        match (lhs.as_dag(), rhs.as_dag()) {
            (Some(x), Some(y)) => {
                let shared = same_handle(x.as_map(), y.as_map());
                NameSet::combine_dag(op, x, y, shared)
            },
            _ => NameSet::Combination {
                op,
                lhs: Box::new(lhs.clone()),
                rhs: Box::new(rhs.clone()),
            },
        }
    }

    /// The vertices of both sets.
    pub fn intersection(&self, other: &NameSet) -> (r: NameSet)
        ensures
            match (*self, *other) {
                (NameSet::Dag(x), NameSet::Dag(y)) => (r.is_fast(SetOp::And, x, y) && x.id_map()
                    == y.id_map()) || r.is_generic(SetOp::And, *self, *other),
                _ => r.is_generic(SetOp::And, *self, *other),
            },
    {
        NameSet::combine(SetOp::And, self, other)
    }

    /// The vertices of either set.
    pub fn union(&self, other: &NameSet) -> (r: NameSet)
        ensures
            match (*self, *other) {
                (NameSet::Dag(x), NameSet::Dag(y)) => (r.is_fast(SetOp::Or, x, y) && x.id_map()
                    == y.id_map()) || r.is_generic(SetOp::Or, *self, *other),
                _ => r.is_generic(SetOp::Or, *self, *other),
            },
    {
        NameSet::combine(SetOp::Or, self, other)
    }

    /// The vertices of this set that are not in the other.
    pub fn difference(&self, other: &NameSet) -> (r: NameSet)
        ensures
            match (*self, *other) {
                (NameSet::Dag(x), NameSet::Dag(y)) => (r.is_fast(SetOp::Difference, x, y)
                    && x.id_map() == y.id_map()) || r.is_generic(
                    SetOp::Difference,
                    *self,
                    *other,
                ),
                _ => r.is_generic(SetOp::Difference, *self, *other),
            },
    {
        NameSet::combine(SetOp::Difference, self, other)
    }

    /// Appends the text form of the set to `out`.
    fn push_debug(&self, out: &mut String)
        ensures
            final(out)@ == old(out)@ + self.debug_spec(),
        decreases *self,
    {
        match self {
            NameSet::Dag(d) => {
                let text = d.debug_string();
                out.append(text.as_str());
            },
            NameSet::Static(s) => {
                out.append("<static [");
                let names = s.names();
                let ghost start = out@;
                let mut i: usize = 0;
                proof {
                    assert(views(names@).take(0) =~= Seq::<Seq<u8>>::empty());
                    assert(out@ =~= start + names_text(views(names@).take(0)));
                }
                while i < names.len()
                    invariant
                        0 <= i <= names@.len(),
                        out@ == start + names_text(views(names@).take(i as int)),
                    decreases names@.len() - i,
                {
                    let ghost before = out@;
                    if i > 0 {
                        proof {
                            reveal_strlit(" ");
                        }
                        out.append(" ");
                    }
                    let ghost mid = out@;
                    let bytes = names[i].as_bytes();
                    push_hex_slice(out, bytes);
                    proof {
                        let next = views(names@).take(i + 1);
                        let here = hex(names@[i as int]@);
                        assert(next.drop_last() =~= views(names@).take(i as int));
                        assert(next.last() == names@[i as int]@);
                        if i == 0 {
                            assert(next.len() == 1);
                            assert(next[0] == names@[0]@);
                            assert(names_text(next) == here);
                            assert(before =~= start);
                            assert(out@ =~= start + names_text(next));
                        } else {
                            assert(next.len() > 1);
                            assert(names_text(next) == names_text(next.drop_last()) + seq![' ']
                                + here);
                            assert(out@ =~= before + seq![' '] + here);
                            assert(out@ =~= start + names_text(next));
                        }
                    }
                    i = i + 1;
                }
                proof {
                    assert(views(names@).take(i as int) =~= views(names@));
                }
                out.append("]>");
                assert(out@ =~= old(out)@ + self.debug_spec());
            },
            NameSet::Combination { op, lhs, rhs } => {
                proof {
                    reveal_strlit("<");
                    reveal_strlit(" ");
                    reveal_strlit(">");
                }
                out.append("<");
                out.append(op.word_str());
                out.append(" ");
                lhs.push_debug(out);
                out.append(" ");
                rhs.push_debug(out);
                out.append(">");
                assert(out@ =~= old(out)@ + self.debug_spec());
            },
        }
    }

    /// The text form for diagnostics: see `debug_spec`.
    pub fn debug_string(&self) -> (r: String)
        ensures
            r@ == self.debug_spec(),
    {
        let mut out = String::new();
        self.push_debug(&mut out);
        assert(out@ =~= self.debug_spec());
        out
    }
}

impl SetOp {
    /// The word for the operation.
    pub fn word_str(&self) -> (r: &'static str)
        ensures
            r@ == self.word(),
    {
        match self {
            SetOp::And => "and",
            SetOp::Or => "or",
            SetOp::Difference => "difference",
        }
    }
}

} // verus!
