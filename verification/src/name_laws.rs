//! What holds of every vertex set: the two directions of a walk mirror each
//! other, membership agrees with the walk, no name comes twice, and the quick
//! way of combining two range-backed sets gives the vertices that the general
//! way gives.

use crate::dagset::{all_named, lemma_resolve_all, resolve_all, DagSet};
use crate::error::DagError;
use crate::nameset::{keep, NameSet, SetOp};
use crate::span_laws::lemma_canonical;
use crate::spanset::{covers, ids_asc, ids_of, in_span, lemma_ids_asc, Span};
use vstd::prelude::*;

verus! {

/// `keep` holds the names of the list that pass the test, and no others.
pub proof fn lemma_keep_contains(names: Seq<Seq<u8>>, set: NameSet, wanted: bool)
    ensures
        forall|n: Seq<u8>| #[trigger]
            keep(names, set, wanted).contains(n) <==> names.contains(n) && set.contains_spec(n)
                == wanted,
    decreases names.len(),
{
    if names.len() > 0 {
        let rest = names.drop_last();
        let last = names.last();
        lemma_keep_contains(rest, set, wanted);
        let out = keep(names, set, wanted);
        let inner = keep(rest, set, wanted);
        assert forall|n: Seq<u8>| #[trigger]
            out.contains(n) <==> names.contains(n) && set.contains_spec(n) == wanted by {
            if out.contains(n) {
                let k = choose|k: int| 0 <= k < out.len() && out[k] == n;
                if k < inner.len() {
                    assert(inner[k] == n);
                    assert(inner.contains(n));
                    let j = choose|j: int| 0 <= j < rest.len() && rest[j] == n;
                    assert(names[j] == n);
                } else {
                    assert(names[names.len() - 1] == n);
                }
            }
            if names.contains(n) && set.contains_spec(n) == wanted {
                let j = choose|j: int| 0 <= j < names.len() && names[j] == n;
                if j < rest.len() {
                    assert(rest[j] == n);
                    assert(rest.contains(n));
                    assert(inner.contains(n));
                    let k = choose|k: int| 0 <= k < inner.len() && inner[k] == n;
                    assert(out[k] == n);
                } else {
                    assert(out[out.len() - 1] == n);
                }
            }
        }
    }
}

/// `keep` brings no name twice out of a list that has none twice.
pub proof fn lemma_keep_no_duplicates(names: Seq<Seq<u8>>, set: NameSet, wanted: bool)
    requires
        names.no_duplicates(),
    ensures
        keep(names, set, wanted).no_duplicates(),
    decreases names.len(),
{
    if names.len() > 0 {
        let rest = names.drop_last();
        let last = names.last();
        lemma_keep_no_duplicates(rest, set, wanted);
        lemma_keep_contains(rest, set, wanted);
        let inner = keep(rest, set, wanted);
        if inner.contains(last) {
            assert(rest.contains(last));
            let j = choose|j: int| 0 <= j < rest.len() && rest[j] == last;
            assert(names[j] == names[names.len() - 1]);
        }
    }
}

/// `keep` goes through two lists put together one after the other.
pub proof fn lemma_keep_add(a: Seq<Seq<u8>>, b: Seq<Seq<u8>>, set: NameSet, wanted: bool)
    ensures
        keep(a + b, set, wanted) == keep(a, set, wanted) + keep(b, set, wanted),
    decreases b.len(),
{
    if b.len() == 0 {
        assert(a + b =~= a);
        assert(keep(a, set, wanted) + keep(b, set, wanted) =~= keep(a, set, wanted));
    } else {
        lemma_keep_add(a, b.drop_last(), set, wanted);
        assert((a + b).drop_last() =~= a + b.drop_last());
        assert((a + b).last() == b.last());
        assert(keep(a + b, set, wanted) =~= keep(a, set, wanted) + keep(b, set, wanted));
    }
}

/// `keep` on a list turned round is `keep` on the list, turned round.
pub proof fn lemma_keep_reverse(names: Seq<Seq<u8>>, set: NameSet, wanted: bool)
    ensures
        keep(names.reverse(), set, wanted) == keep(names, set, wanted).reverse(),
    decreases names.len(),
{
    if names.len() == 0 {
        assert(names.reverse() =~= names);
        assert(keep(names, set, wanted).reverse() =~= keep(names, set, wanted));
    } else {
        let rest = names.drop_last();
        let last = names.last();
        let one = seq![last];
        lemma_keep_reverse(rest, set, wanted);
        assert(names.reverse() =~= one + rest.reverse());
        lemma_keep_add(one, rest.reverse(), set, wanted);
        assert(one.drop_last() =~= Seq::<Seq<u8>>::empty());
        assert(one.last() == last);
        assert(keep(one.drop_last(), set, wanted) =~= Seq::<Seq<u8>>::empty());
        let kept = keep(rest, set, wanted);
        if set.contains_spec(last) == wanted {
            assert(keep(one, set, wanted) =~= one);
            assert(kept.push(last).reverse() =~= one + kept.reverse());
        } else {
            assert(keep(one, set, wanted) =~= Seq::<Seq<u8>>::empty());
            assert(Seq::<Seq<u8>>::empty() + kept.reverse() =~= kept.reverse());
        }
    }
}

/// `keep` asks of the set only which names it holds.
pub proof fn lemma_keep_same(names: Seq<Seq<u8>>, a: NameSet, b: NameSet, wanted: bool)
    requires
        forall|n: Seq<u8>| a.contains_spec(n) == b.contains_spec(n),
    ensures
        keep(names, a, wanted) == keep(names, b, wanted),
    decreases names.len(),
{
    if names.len() > 0 {
        lemma_keep_same(names.drop_last(), a, b, wanted);
    }
}

/// Two sets that are alike, part for part, answer every question alike.
pub proof fn lemma_alike(a: NameSet, b: NameSet)
    requires
        a.alike(b),
    ensures
        forall|n: Seq<u8>| a.contains_spec(n) == b.contains_spec(n),
        a.names_result() == b.names_result(),
        a.names_rev_result() == b.names_rev_result(),
        a.sorted_spec() == b.sorted_spec(),
        a.debug_spec() == b.debug_spec(),
        a.wf() == b.wf(),
    decreases a,
{
    match a {
        NameSet::Dag(d) => {
            let e = b->Dag_0;
            assert(d.span_set()@ == e.span_set()@);
            assert forall|n: Seq<u8>| a.contains_spec(n) == b.contains_spec(n) by {
                assert(d.contains_spec(n) == e.contains_spec(n));
            }
        },
        NameSet::Static(s) => {},
        NameSet::Combination { op, lhs, rhs } => {
            let lhs2 = b->Combination_lhs;
            let rhs2 = b->Combination_rhs;
            lemma_alike(*lhs, *lhs2);
            lemma_alike(*rhs, *rhs2);
            assert forall|n: Seq<u8>| a.contains_spec(n) == b.contains_spec(n) by {
                assert(lhs.contains_spec(n) == lhs2.contains_spec(n));
                assert(rhs.contains_spec(n) == rhs2.contains_spec(n));
            }
            if lhs.names_result() is Ok {
                let l = lhs.names_result()->Ok_0;
                lemma_keep_same(l, *rhs, *rhs2, true);
                lemma_keep_same(l, *rhs, *rhs2, false);
            }
            if rhs.names_result() is Ok {
                lemma_keep_same(rhs.names_result()->Ok_0, *lhs, *lhs2, false);
            }
            if lhs.names_rev_result() is Ok {
                let l = lhs.names_rev_result()->Ok_0;
                lemma_keep_same(l, *rhs, *rhs2, true);
                lemma_keep_same(l, *rhs, *rhs2, false);
            }
            if rhs.names_rev_result() is Ok {
                lemma_keep_same(rhs.names_rev_result()->Ok_0, *lhs, *lhs2, false);
            }
        },
    }
}

/// Resolving ids backwards succeeds where resolving them forwards does, and
/// gives the same names backwards.
pub proof fn lemma_resolve_reverse(ids: Seq<u64>, m: Map<u64, Seq<u8>>)
    ensures
        resolve_all(ids.reverse(), m) is Ok <==> resolve_all(ids, m) is Ok,
        resolve_all(ids, m) is Ok ==> resolve_all(ids.reverse(), m)->Ok_0 == resolve_all(
            ids,
            m,
        )->Ok_0.reverse(),
{
    let back = ids.reverse();
    lemma_resolve_all(ids, m);
    lemma_resolve_all(back, m);
    if all_named(ids, m) {
        assert forall|k: int| 0 <= k < back.len() implies m.dom().contains(#[trigger] back[k]) by {
            assert(back[k] == ids[ids.len() - 1 - k]);
        }
        let fwd = resolve_all(ids, m)->Ok_0;
        let rev = resolve_all(back, m)->Ok_0;
        assert forall|k: int| 0 <= k < rev.len() implies rev[k] == fwd.reverse()[k] by {
            assert(back[k] == ids[ids.len() - 1 - k]);
        }
        assert(rev =~= fwd.reverse());
    }
    if all_named(back, m) {
        assert forall|k: int| 0 <= k < ids.len() implies m.dom().contains(#[trigger] ids[k]) by {
            assert(ids[k] == back[ids.len() - 1 - k]);
        }
    }
}

/// Order mirroring: walking a set backwards succeeds where walking it
/// forwards does, and gives the same names in the opposite order.
pub proof fn law_order_mirroring(s: NameSet)
    ensures
        s.names_rev_result() is Ok <==> s.names_result() is Ok,
        s.names_result() is Ok ==> s.names_rev_result()->Ok_0 == s.names_result()->Ok_0.reverse(),
    decreases s,
{
    match s {
        NameSet::Dag(d) => {
            let asc = d.span_set().ids_ascending();
            lemma_resolve_reverse(asc, d.id_map()@);
        },
        NameSet::Static(t) => {},
        NameSet::Combination { op, lhs, rhs } => {
            law_order_mirroring(*lhs);
            law_order_mirroring(*rhs);
            if s.names_result() is Ok {
                let l = lhs.names_result()->Ok_0;
                match op {
                    SetOp::And => {
                        lemma_keep_reverse(l, *rhs, true);
                    },
                    SetOp::Difference => {
                        lemma_keep_reverse(l, *rhs, false);
                    },
                    SetOp::Or => {
                        let r = rhs.names_result()->Ok_0;
                        lemma_keep_reverse(r, *lhs, false);
                        let k = keep(r, *lhs, false);
                        assert((l + k).reverse() =~= k.reverse() + l.reverse());
                    },
                }
            }
        },
    }
}

/// The names of a range-backed set whose ids all have names: the set holds
/// a name exactly where the walk gives it, and the walk gives no name twice
/// and as many names as the set has ids.
pub proof fn lemma_dag_names(d: DagSet)
    requires
        d.span_set().wf(),
        d.id_map().wf(),
        resolve_all(d.span_set().ids_descending(), d.id_map()@) is Ok,
    ensures
        forall|n: Seq<u8>| #[trigger]
            resolve_all(d.span_set().ids_descending(), d.id_map()@)->Ok_0.contains(n)
                <==> d.contains_spec(n),
        resolve_all(d.span_set().ids_descending(), d.id_map()@)->Ok_0.no_duplicates(),
        resolve_all(d.span_set().ids_descending(), d.id_map()@)->Ok_0.len()
            == d.span_set().ids_ascending().len(),
{
    let spans = d.span_set().spans();
    let asc = ids_asc(spans);
    let desc = asc.reverse();
    let m = d.id_map()@;
    let names = resolve_all(desc, m)->Ok_0;
    lemma_resolve_all(desc, m);
    lemma_ids_asc(spans);
    d.id_map().lemma_view();
    assert forall|n: Seq<u8>| #[trigger] names.contains(n) <==> d.contains_spec(n) by {
        if names.contains(n) {
            let k = choose|k: int| 0 <= k < names.len() && names[k] == n;
            let id = desc[k];
            assert(id == asc[asc.len() - 1 - k]);
            assert(covers(spans, asc[asc.len() - 1 - k]));
            assert(d.span_set()@.contains(id));
            assert(m.dom().contains(desc[k]));
            assert(m[id] == n);
        }
        if d.contains_spec(n) {
            let id = choose|id: u64|
                d.span_set()@.contains(id) && m.dom().contains(id) && #[trigger] m[id] == n;
            assert(covers(spans, id));
            assert(asc.contains(id));
            let j = choose|j: int| 0 <= j < asc.len() && asc[j] == id;
            let k = asc.len() - 1 - j;
            assert(desc[k] == id);
            assert(names[k] == n);
        }
    }
    assert forall|i: int, j: int| 0 <= i < j < names.len() implies names[i] != names[j] by {
        assert(desc[i] == asc[asc.len() - 1 - i]);
        assert(desc[j] == asc[asc.len() - 1 - j]);
        assert(asc[asc.len() - 1 - j] < asc[asc.len() - 1 - i]);
        assert(m.dom().contains(desc[i]));
        assert(m.dom().contains(desc[j]));
        if names[i] == names[j] {
            assert(m[desc[i]] == m[desc[j]]);
        }
    }
}

/// Membership consistency and distinctness: where the walk through a
/// well-formed set succeeds, the set holds a name exactly where the walk
/// gives it, and the walk gives no name twice.
pub proof fn law_membership(s: NameSet)
    requires
        s.wf(),
        s.names_result() is Ok,
    ensures
        forall|n: Seq<u8>| #[trigger] s.names_result()->Ok_0.contains(n) <==> s.contains_spec(n),
        s.names_result()->Ok_0.no_duplicates(),
    decreases s,
{
    let names = s.names_result()->Ok_0;
    match s {
        NameSet::Dag(d) => {
            lemma_dag_names(d);
        },
        NameSet::Static(t) => {},
        NameSet::Combination { op, lhs, rhs } => {
            law_membership(*lhs);
            let l = lhs.names_result()->Ok_0;
            match op {
                SetOp::And => {
                    lemma_keep_contains(l, *rhs, true);
                    lemma_keep_no_duplicates(l, *rhs, true);
                    assert forall|n: Seq<u8>| #[trigger]
                        names.contains(n) <==> s.contains_spec(n) by {
                        assert(l.contains(n) <==> lhs.contains_spec(n));
                    }
                },
                SetOp::Difference => {
                    lemma_keep_contains(l, *rhs, false);
                    lemma_keep_no_duplicates(l, *rhs, false);
                    assert forall|n: Seq<u8>| #[trigger]
                        names.contains(n) <==> s.contains_spec(n) by {
                        assert(l.contains(n) <==> lhs.contains_spec(n));
                    }
                },
                SetOp::Or => {
                    law_membership(*rhs);
                    let r = rhs.names_result()->Ok_0;
                    let k = keep(r, *lhs, false);
                    lemma_keep_contains(r, *lhs, false);
                    lemma_keep_no_duplicates(r, *lhs, false);
                    assert(names == l + k);
                    assert forall|n: Seq<u8>| #[trigger]
                        names.contains(n) <==> s.contains_spec(n) by {
                        assert(l.contains(n) <==> lhs.contains_spec(n));
                        assert(r.contains(n) <==> rhs.contains_spec(n));
                        assert(k.contains(n) <==> r.contains(n) && !lhs.contains_spec(n));
                        if names.contains(n) {
                            let i = choose|i: int| 0 <= i < names.len() && names[i] == n;
                            if i < l.len() {
                                assert(l[i] == n);
                            } else {
                                assert(k[i - l.len()] == n);
                            }
                        }
                        if l.contains(n) {
                            let i = choose|i: int| 0 <= i < l.len() && l[i] == n;
                            assert(names[i] == n);
                        }
                        if k.contains(n) {
                            let i = choose|i: int| 0 <= i < k.len() && k[i] == n;
                            assert(names[l.len() + i] == n);
                        }
                    }
                    assert forall|i: int, j: int|
                        0 <= i < j < names.len() implies names[i] != names[j] by {
                        if j < l.len() {
                            assert(names[i] == l[i] && names[j] == l[j]);
                        } else if i >= l.len() {
                            assert(names[i] == k[i - l.len()] && names[j] == k[j - l.len()]);
                        } else {
                            assert(names[i] == l[i]);
                            assert(names[j] == k[j - l.len()]);
                            assert(l.contains(l[i]));
                            assert(k.contains(k[j - l.len()]));
                        }
                    }
                },
            }
        },
    }
}

/// What an operation decides of a name, from whether each operand holds it.
pub open spec fn op_holds(op: SetOp, left: bool, right: bool) -> bool {
    match op {
        SetOp::And => left && right,
        SetOp::Or => left || right,
        SetOp::Difference => left && !right,
    }
}

/// The quick result of combining two range-backed sets on one identity map
/// holds the names that the operation asks for.
pub proof fn lemma_fast_contains(op: SetOp, x: DagSet, y: DagSet, fast: NameSet)
    requires
        x.id_map().wf(),
        x.id_map() == y.id_map(),
        fast.is_fast(op, x, y),
    ensures
        forall|n: Seq<u8>|
            fast.contains_spec(n) <==> op_holds(op, x.contains_spec(n), y.contains_spec(n)),
{
    let d = fast->Dag_0;
    let m = x.id_map()@;
    x.id_map().lemma_view();
    assert forall|n: Seq<u8>|
        fast.contains_spec(n) <==> op_holds(op, x.contains_spec(n), y.contains_spec(n)) by {
        if d.contains_spec(n) {
            let id = choose|id: u64|
                d.span_set()@.contains(id) && m.dom().contains(id) && #[trigger] m[id] == n;
            if y.contains_spec(n) {
                let other = choose|other: u64|
                    y.span_set()@.contains(other) && m.dom().contains(other) && #[trigger] m[other]
                        == n;
                assert(other == id);
            }
            if x.span_set()@.contains(id) {
                assert(x.contains_spec(n));
            }
            if y.span_set()@.contains(id) {
                assert(y.contains_spec(n));
            }
        }
        if op_holds(op, x.contains_spec(n), y.contains_spec(n)) {
            if x.contains_spec(n) {
                let a = choose|a: u64|
                    x.span_set()@.contains(a) && m.dom().contains(a) && #[trigger] m[a] == n;
                if y.contains_spec(n) {
                    let b = choose|b: u64|
                        y.span_set()@.contains(b) && m.dom().contains(b) && #[trigger] m[b] == n;
                    assert(a == b);
                }
                if !y.contains_spec(n) {
                    assert(!y.span_set()@.contains(a));
                }
                assert(d.span_set()@.contains(a));
            } else {
                let b = choose|b: u64|
                    y.span_set()@.contains(b) && m.dom().contains(b) && #[trigger] m[b] == n;
                assert(d.span_set()@.contains(b));
            }
        }
    }
}

/// Whatever way two well-formed sets were combined, the result is
/// well-formed and holds a name exactly where the operation asks for it.
/// Here `r` is what `NameSet::combine` may return for `op`, `lhs` and `rhs`.
pub proof fn law_combine(op: SetOp, lhs: NameSet, rhs: NameSet, r: NameSet)
    requires
        lhs.wf(),
        rhs.wf(),
        match (lhs, rhs) {
            (NameSet::Dag(x), NameSet::Dag(y)) => (r.is_fast(op, x, y) && x.id_map() == y.id_map())
                || r.is_generic(op, lhs, rhs),
            _ => r.is_generic(op, lhs, rhs),
        },
    ensures
        r.wf(),
        forall|n: Seq<u8>|
            r.contains_spec(n) <==> op_holds(op, lhs.contains_spec(n), rhs.contains_spec(n)),
{
    if r.is_generic(op, lhs, rhs) {
        lemma_alike(lhs, *r->Combination_lhs);
        lemma_alike(rhs, *r->Combination_rhs);
    } else {
        lemma_fast_contains(op, lhs->Dag_0, rhs->Dag_0, r);
    }
}

/// `keep` leaves a list as it is where every name of it passes the test,
/// and leaves nothing of it where none does.
pub proof fn lemma_keep_all_or_none(names: Seq<Seq<u8>>, set: NameSet, wanted: bool)
    ensures
        (forall|k: int| 0 <= k < names.len() ==> set.contains_spec(#[trigger] names[k]) == wanted)
            ==> keep(names, set, wanted) == names,
        (forall|k: int| 0 <= k < names.len() ==> set.contains_spec(#[trigger] names[k]) != wanted)
            ==> keep(names, set, wanted) == Seq::<Seq<u8>>::empty(),
    decreases names.len(),
{
    if names.len() > 0 {
        let rest = names.drop_last();
        lemma_keep_all_or_none(rest, set, wanted);
        if forall|k: int| 0 <= k < names.len() ==> set.contains_spec(#[trigger] names[k]) == wanted {
            assert forall|k: int| 0 <= k < rest.len() implies set.contains_spec(#[trigger] rest[k])
                == wanted by {
                assert(rest[k] == names[k]);
            }
            assert(set.contains_spec(names[names.len() - 1]) == wanted);
            assert(keep(names, set, wanted) =~= names);
        }
        if forall|k: int| 0 <= k < names.len() ==> set.contains_spec(#[trigger] names[k]) != wanted {
            assert forall|k: int| 0 <= k < rest.len() implies set.contains_spec(#[trigger] rest[k])
                != wanted by {
                assert(rest[k] == names[k]);
            }
            assert(set.contains_spec(names[names.len() - 1]) != wanted);
        }
    } else {
        assert(keep(names, set, wanted) =~= names);
    }
}

/// Idempotence: a set united or intersected with itself holds the names that
/// it holds and walks as it walks, failures included; taken from itself it
/// holds no name, and where its own walk succeeds the walk through the
/// result gives nothing. Here `r` is what `NameSet::combine` may return
/// for `op` and twice `a`.
pub proof fn law_idempotent_names(op: SetOp, a: NameSet, r: NameSet)
    requires
        a.wf(),
        match a {
            NameSet::Dag(x) => r.is_fast(op, x, x) || r.is_generic(op, a, a),
            _ => r.is_generic(op, a, a),
        },
    ensures
        op != SetOp::Difference ==> forall|n: Seq<u8>| r.contains_spec(n) <==> a.contains_spec(n),
        op == SetOp::Difference ==> forall|n: Seq<u8>| !r.contains_spec(n),
        op != SetOp::Difference ==> r.names_result() == a.names_result(),
        op == SetOp::Difference && a.names_result() is Ok ==> r.names_result() == Ok::<
            Seq<Seq<u8>>,
            DagError,
        >(Seq::empty()),
{
    law_combine(op, a, a, r);
    if r.is_generic(op, a, a) {
        let lhs = *r->Combination_lhs;
        let rhs = *r->Combination_rhs;
        lemma_alike(a, lhs);
        lemma_alike(a, rhs);
        if a.names_result() is Ok {
            let l = a.names_result()->Ok_0;
            law_membership(a);
            assert forall|k: int| 0 <= k < l.len() implies a.contains_spec(#[trigger] l[k]) by {
                assert(l.contains(l[k]));
            }
            lemma_keep_same(l, rhs, a, true);
            lemma_keep_same(l, rhs, a, false);
            lemma_keep_same(l, lhs, a, false);
            lemma_keep_all_or_none(l, a, true);
            lemma_keep_all_or_none(l, a, false);
            assert(l + Seq::<Seq<u8>>::empty() =~= l);
        }
    } else {
        let x = a->Dag_0;
        let d = r->Dag_0;
        if op == SetOp::Difference {
            assert(d.span_set()@ =~= Set::<u64>::empty());
            assert(ids_of(Seq::<Span>::empty()) =~= Set::<u64>::empty());
            lemma_canonical(d.span_set().spans(), Seq::<Span>::empty());
            assert(ids_asc(Seq::<Span>::empty()).reverse() =~= Seq::<u64>::empty());
        } else {
            assert(d.span_set()@ =~= x.span_set()@);
            lemma_canonical(d.span_set().spans(), x.span_set().spans());
        }
    }
}

/// The quick way and the general way agree: for two range-backed sets on
/// one identity map, the set worked out on the spans and the combination of
/// the two hold the same names; and where the walk through the combination
/// succeeds, so does the walk through the other, and both give the same names
/// (not always in the same order) and as many of them.
pub proof fn law_fast_path_agrees(op: SetOp, x: DagSet, y: DagSet, fast: NameSet, generic: NameSet)
    requires
        x.span_set().wf(),
        y.span_set().wf(),
        x.id_map().wf(),
        x.id_map() == y.id_map(),
        fast.is_fast(op, x, y),
        generic.is_generic(op, NameSet::Dag(x), NameSet::Dag(y)),
    ensures
        forall|n: Seq<u8>| fast.contains_spec(n) <==> generic.contains_spec(n),
        generic.names_result() is Ok ==> fast.names_result() is Ok
            && fast.names_result()->Ok_0.to_set() == generic.names_result()->Ok_0.to_set()
            && fast.names_result()->Ok_0.len() == generic.names_result()->Ok_0.len(),
{
    let lhs = NameSet::Dag(x);
    let rhs = NameSet::Dag(y);
    law_combine(op, lhs, rhs, fast);
    law_combine(op, lhs, rhs, generic);
    if generic.names_result() is Ok {
        let d = fast->Dag_0;
        let m = x.id_map()@;
        lemma_alike(lhs, *generic->Combination_lhs);
        lemma_alike(rhs, *generic->Combination_rhs);
        let xs = x.span_set().spans();
        let ys = y.span_set().spans();
        let ds = d.span_set().spans();
        let desc = ids_asc(ds).reverse();
        lemma_ids_asc(xs);
        lemma_ids_asc(ys);
        lemma_ids_asc(ds);
        lemma_resolve_all(ids_asc(xs).reverse(), m);
        lemma_resolve_all(ids_asc(ys).reverse(), m);
        assert forall|k: int| 0 <= k < desc.len() implies m.dom().contains(#[trigger] desc[k]) by {
            let id = desc[k];
            assert(id == ids_asc(ds)[ids_asc(ds).len() - 1 - k]);
            assert(covers(ds, ids_asc(ds)[ids_asc(ds).len() - 1 - k]));
            assert(d.span_set()@.contains(id));
            if x.span_set()@.contains(id) {
                assert(covers(xs, id));
                assert(ids_asc(xs).contains(id));
                let j = choose|j: int| 0 <= j < ids_asc(xs).len() && ids_asc(xs)[j] == id;
                assert(ids_asc(xs).reverse()[ids_asc(xs).len() - 1 - j] == id);
            } else {
                assert(op == SetOp::Or);
                assert(covers(ys, id));
                assert(ids_asc(ys).contains(id));
                let j = choose|j: int| 0 <= j < ids_asc(ys).len() && ids_asc(ys)[j] == id;
                assert(ids_asc(ys).reverse()[ids_asc(ys).len() - 1 - j] == id);
            }
        }
        lemma_resolve_all(desc, m);
        law_membership(fast);
        law_membership(generic);
        let f = fast.names_result()->Ok_0;
        let g = generic.names_result()->Ok_0;
        assert(f.to_set() =~= g.to_set());
        f.unique_seq_to_set();
        g.unique_seq_to_set();
    }
}

/// The ends of a walk: where the walk through a set succeeds and gives a
/// name, a range-backed set finds the first name at its largest id and the
/// last at its smallest, and any set finds the last name of the walk first
/// when it walks backwards.
pub proof fn law_first_last(s: NameSet)
    requires
        s.names_result() is Ok,
        s.names_result()->Ok_0.len() > 0,
    ensures
        s.names_rev_result() is Ok,
        s.names_rev_result()->Ok_0.first() == s.names_result()->Ok_0.last(),
        s.names_rev_result()->Ok_0.last() == s.names_result()->Ok_0.first(),
        s matches NameSet::Dag(d) ==> d.span_set().ids_descending().len() > 0
            && crate::idmap::lookup(d.id_map()@, d.span_set().ids_descending().first()) == Ok::<
            Seq<u8>,
            DagError,
        >(s.names_result()->Ok_0.first()) && crate::idmap::lookup(
            d.id_map()@,
            d.span_set().ids_descending().last(),
        ) == Ok::<Seq<u8>, DagError>(s.names_result()->Ok_0.last()),
{
    law_order_mirroring(s);
    if s is Dag {
        let d = s->Dag_0;
        let desc = d.span_set().ids_descending();
        lemma_resolve_all(desc, d.id_map()@);
        assert(d.id_map()@.dom().contains(desc[0]));
        assert(d.id_map()@.dom().contains(desc[desc.len() - 1]));
    }
}

/// A set is alike itself.
pub proof fn lemma_alike_itself(a: NameSet)
    ensures
        a.alike(a),
    decreases a,
{
    match a {
        NameSet::Combination { op, lhs, rhs } => {
            lemma_alike_itself(*lhs);
            lemma_alike_itself(*rhs);
        },
        _ => {},
    }
}

/// Where the walks through two well-formed sets succeed, so does the walk
/// through what they were combined to, whichever way they were combined.
/// Here `r` is what `NameSet::combine` may return for `op`, `lhs` and `rhs`.
pub proof fn lemma_combined_walk(op: SetOp, lhs: NameSet, rhs: NameSet, r: NameSet)
    requires
        lhs.wf(),
        rhs.wf(),
        lhs.names_result() is Ok,
        rhs.names_result() is Ok,
        match (lhs, rhs) {
            (NameSet::Dag(x), NameSet::Dag(y)) => (r.is_fast(op, x, y) && x.id_map() == y.id_map())
                || r.is_generic(op, lhs, rhs),
            _ => r.is_generic(op, lhs, rhs),
        },
    ensures
        r.names_result() is Ok,
{
    if r.is_generic(op, lhs, rhs) {
        lemma_alike(lhs, *r->Combination_lhs);
        lemma_alike(rhs, *r->Combination_rhs);
    } else {
        let general = NameSet::Combination { op, lhs: Box::new(lhs), rhs: Box::new(rhs) };
        lemma_alike_itself(lhs);
        lemma_alike_itself(rhs);
        law_fast_path_agrees(op, lhs->Dag_0, rhs->Dag_0, r, general);
    }
}

/// Counting: where the walks through two well-formed sets succeed, the walk
/// through their union gives as many names as the two walks together, less
/// those that the walk through their intersection gives. Here `u` and `i`
/// are what `NameSet::combine` may return for the union and for the
/// intersection of `a` and `b`.
pub proof fn law_count_union_intersection_names(a: NameSet, b: NameSet, u: NameSet, i: NameSet)
    requires
        a.wf(),
        b.wf(),
        a.names_result() is Ok,
        b.names_result() is Ok,
        match (a, b) {
            (NameSet::Dag(x), NameSet::Dag(y)) => (u.is_fast(SetOp::Or, x, y) && x.id_map()
                == y.id_map()) || u.is_generic(SetOp::Or, a, b),
            _ => u.is_generic(SetOp::Or, a, b),
        },
        match (a, b) {
            (NameSet::Dag(x), NameSet::Dag(y)) => (i.is_fast(SetOp::And, x, y) && x.id_map()
                == y.id_map()) || i.is_generic(SetOp::And, a, b),
            _ => i.is_generic(SetOp::And, a, b),
        },
    ensures
        u.names_result() is Ok,
        i.names_result() is Ok,
        u.names_result()->Ok_0.len() == a.names_result()->Ok_0.len() + b.names_result()->Ok_0.len()
            - i.names_result()->Ok_0.len(),
{
    lemma_combined_walk(SetOp::Or, a, b, u);
    lemma_combined_walk(SetOp::And, a, b, i);
    law_combine(SetOp::Or, a, b, u);
    law_combine(SetOp::And, a, b, i);
    law_membership(a);
    law_membership(b);
    law_membership(u);
    law_membership(i);
    let an = a.names_result()->Ok_0;
    let bn = b.names_result()->Ok_0;
    let un = u.names_result()->Ok_0;
    let inn = i.names_result()->Ok_0;
    assert(un.to_set() =~= an.to_set().union(bn.to_set()));
    assert(inn.to_set() =~= an.to_set().intersect(bn.to_set()));
    an.unique_seq_to_set();
    bn.unique_seq_to_set();
    un.unique_seq_to_set();
    inn.unique_seq_to_set();
    vstd::seq_lib::seq_to_set_is_finite(an);
    vstd::seq_lib::seq_to_set_is_finite(bn);
    vstd::set_lib::lemma_set_intersect_union_lens(an.to_set(), bn.to_set());
}

} // verus!
