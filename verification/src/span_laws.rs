//! What holds of the algebra of span sets, whatever the operands.

use crate::spanset::{covers, ids_asc, ids_of, in_span, lemma_ids_len, normalized, Span, SpanSet};
use vstd::prelude::*;

verus! {

/// Within normalized spans, an id below the last span's lower end is covered
/// exactly when the spans before the last cover it, and no id above the last
/// span's upper end is covered.
pub proof fn lemma_covers_split_last(spans: Seq<Span>, id: u64)
    requires
        normalized(spans),
        spans.len() > 0,
    ensures
        covers(spans, id) <==> covers(spans.drop_last(), id) || in_span(spans.last(), id),
        covers(spans.drop_last(), id) ==> id + 1 < spans.last().low,
        covers(spans, id) ==> id <= spans.last().high,
{
    let rest = spans.drop_last();
    let n = spans.len() - 1;
    if covers(spans, id) {
        let x = choose|x: int| 0 <= x < spans.len() && #[trigger] in_span(spans[x], id);
        if x < n {
            assert(in_span(rest[x], id));
            assert(spans[x].high + 1 < spans[n].low);
        }
    }
    if covers(rest, id) {
        let x = choose|x: int| 0 <= x < rest.len() && #[trigger] in_span(rest[x], id);
        assert(in_span(spans[x], id));
        assert(spans[x].high + 1 < spans[n].low);
    }
    if in_span(spans.last(), id) {
        assert(in_span(spans[n], id));
    }
}

/// A set of ids has one normalized form: normalized spans that cover the same
/// ids are the same spans.
pub proof fn lemma_canonical(a: Seq<Span>, b: Seq<Span>)
    requires
        normalized(a),
        normalized(b),
        ids_of(a) == ids_of(b),
    ensures
        a == b,
    decreases a.len(),
{
    assert forall|id: u64| covers(a, id) <==> covers(b, id) by {
        assert(ids_of(a).contains(id) <==> covers(a, id));
        assert(ids_of(b).contains(id) <==> covers(b, id));
    }
    if a.len() == 0 || b.len() == 0 {
        if b.len() > 0 {
            assert(in_span(b[0], b[0].low));
            assert(covers(b, b[0].low));
        }
        if a.len() > 0 {
            assert(in_span(a[0], a[0].low));
            assert(covers(a, a[0].low));
        }
        assert(a =~= b);
    } else {
        let la = a.last();
        let lb = b.last();
        assert(in_span(a[a.len() - 1], la.high));
        assert(in_span(b[b.len() - 1], lb.high));
        lemma_covers_split_last(a, lb.high);
        lemma_covers_split_last(b, la.high);
        assert(la.high == lb.high);
        if la.low < lb.low {
            let id = (lb.low - 1) as u64;
            assert(in_span(a[a.len() - 1], id));
            lemma_covers_split_last(b, id);
        }
        if lb.low < la.low {
            let id = (la.low - 1) as u64;
            assert(in_span(b[b.len() - 1], id));
            lemma_covers_split_last(a, id);
        }
        assert(la == lb);
        let ra = a.drop_last();
        let rb = b.drop_last();
        assert forall|id: u64| covers(ra, id) <==> covers(rb, id) by {
            lemma_covers_split_last(a, id);
            lemma_covers_split_last(b, id);
        }
        assert(ids_of(ra) =~= ids_of(rb));
        lemma_canonical(ra, rb);
        assert(a =~= ra.push(la));
        assert(b =~= rb.push(lb));
    }
}

/// Two span sets that hold the same ids have the same spans.
pub proof fn law_same_ids_same_spans(a: SpanSet, b: SpanSet)
    requires
        a.wf(),
        b.wf(),
        a@ == b@,
    ensures
        a.spans() == b.spans(),
{
    lemma_canonical(a.spans(), b.spans());
}

/// Counting: a union holds as many ids as its two operands together, less
/// those that both hold. Here `u` is the union of `a` and `b`, and `i` their
/// intersection.
pub proof fn law_count_union_intersection(a: SpanSet, b: SpanSet, u: SpanSet, i: SpanSet)
    requires
        a.wf(),
        b.wf(),
        u.wf(),
        i.wf(),
        u@ == a@.union(b@),
        i@ == a@.intersect(b@),
    ensures
        u@.len() == a@.len() + b@.len() - i@.len(),
        ids_asc(u.spans()).len() == ids_asc(a.spans()).len() + ids_asc(b.spans()).len() - ids_asc(
            i.spans(),
        ).len(),
{
    lemma_ids_len(a.spans());
    lemma_ids_len(b.spans());
    lemma_ids_len(u.spans());
    lemma_ids_len(i.spans());
    vstd::set_lib::lemma_set_intersect_union_lens(a@, b@);
}

/// Idempotence: a set united or intersected with itself is that set, spans
/// and all, and taken from itself it leaves nothing. Here `u`, `i` and `d`
/// are the union, the intersection and the difference of `a` with `a`.
pub proof fn law_idempotent(a: SpanSet, u: SpanSet, i: SpanSet, d: SpanSet)
    requires
        a.wf(),
        u.wf(),
        i.wf(),
        d.wf(),
        u@ == a@.union(a@),
        i@ == a@.intersect(a@),
        d@ == a@.difference(a@),
    ensures
        u@ == a@,
        u.spans() == a.spans(),
        i@ == a@,
        i.spans() == a.spans(),
        d@ == Set::<u64>::empty(),
        d.spans() == Seq::<Span>::empty(),
{
    assert(a@.union(a@) =~= a@);
    assert(a@.intersect(a@) =~= a@);
    assert(a@.difference(a@) =~= Set::<u64>::empty());
    lemma_canonical(u.spans(), a.spans());
    lemma_canonical(i.spans(), a.spans());
    assert(ids_of(Seq::<Span>::empty()) =~= Set::<u64>::empty());
    lemma_canonical(d.spans(), Seq::<Span>::empty());
}

/// An empty operand: uniting with it or taking it away changes nothing, and
/// intersecting with it or taking from it leaves nothing. Here `e` is empty,
/// `u` is `a ∪ e`, `i` is `a ∩ e`, `d` is `a − e` and `r` is `e − a`.
pub proof fn law_empty_operand(a: SpanSet, e: SpanSet, u: SpanSet, i: SpanSet, d: SpanSet, r: SpanSet)
    requires
        a.wf(),
        e.wf(),
        u.wf(),
        i.wf(),
        d.wf(),
        r.wf(),
        e@ == Set::<u64>::empty(),
        u@ == a@.union(e@),
        i@ == a@.intersect(e@),
        d@ == a@.difference(e@),
        r@ == e@.difference(a@),
    ensures
        u.spans() == a.spans(),
        i.spans() == Seq::<Span>::empty(),
        d.spans() == a.spans(),
        r.spans() == Seq::<Span>::empty(),
{
    assert(a@.union(e@) =~= a@);
    assert(a@.intersect(e@) =~= Set::<u64>::empty());
    assert(a@.difference(e@) =~= a@);
    assert(e@.difference(a@) =~= Set::<u64>::empty());
    assert(ids_of(Seq::<Span>::empty()) =~= Set::<u64>::empty());
    lemma_canonical(u.spans(), a.spans());
    lemma_canonical(i.spans(), Seq::<Span>::empty());
    lemma_canonical(d.spans(), a.spans());
    lemma_canonical(r.spans(), Seq::<Span>::empty());
}

/// The order of the operands does not matter to a union or an intersection.
/// Here `ab` and `ba` are both unions, or both intersections, of `a` and `b`,
/// taken in the two orders.
pub proof fn law_commutative(a: SpanSet, b: SpanSet, ab: SpanSet, ba: SpanSet)
    requires
        ab.wf(),
        ba.wf(),
        (ab@ == a@.union(b@) && ba@ == b@.union(a@)) || (ab@ == a@.intersect(b@) && ba@
            == b@.intersect(a@)),
    ensures
        ab.spans() == ba.spans(),
{
    assert(a@.union(b@) =~= b@.union(a@));
    assert(a@.intersect(b@) =~= b@.intersect(a@));
    lemma_canonical(ab.spans(), ba.spans());
}

} // verus!
