//! Sets of integer ids kept as sorted, disjoint, non-adjacent inclusive ranges.

use crate::render::{push_spans, spans_text};
use vstd::prelude::*;

verus! {

/// The largest id a set can hold. One below `u64::MAX`, so that the number of
/// ids in any set fits in a `u64`.
pub const MAX_ID: u64 = 0xffff_ffff_ffff_fffe;

/// An inclusive range of ids, `low ..= high`.
#[derive(Clone, Copy, Debug, PartialEq, Eq, Structural)]
pub struct Span {
    pub low: u64,
    pub high: u64,
}

/// Whether `id` lies inside `s`.
pub open spec fn in_span(s: Span, id: u64) -> bool {
    s.low <= id && id <= s.high
}

/// Whether some span of `spans` holds `id`.
pub open spec fn covers(spans: Seq<Span>, id: u64) -> bool {
    exists|i: int| 0 <= i < spans.len() && #[trigger] in_span(spans[i], id)
}

/// Every span is non-empty and within `MAX_ID`; spans ascend, and between
/// two neighbours at least one id is missing.
pub open spec fn normalized(spans: Seq<Span>) -> bool {
    &&& forall|i: int|
        0 <= i < spans.len() ==> (#[trigger] spans[i]).low <= spans[i].high && spans[i].high
            <= MAX_ID
    &&& forall|i: int, j: int|
        0 <= i < j < spans.len() ==> (#[trigger] spans[i]).high + 1 < (#[trigger] spans[j]).low
}

/// The ids that a sequence of spans holds.
pub open spec fn ids_of(spans: Seq<Span>) -> Set<u64> {
    Set::new(|id: u64| covers(spans, id))
}

/// The ids of one span, ascending.
pub open spec fn span_ids(s: Span) -> Seq<u64> {
    Seq::new(s.len_spec(), |k: int| (s.low + k) as u64)
}

/// The ids that a sequence of spans holds, span after span. For normalized
/// spans this is every id of the set once, ascending.
pub open spec fn ids_asc(spans: Seq<Span>) -> Seq<u64>
    decreases spans.len(),
{
    if spans.len() == 0 {
        Seq::empty()
    } else {
        ids_asc(spans.drop_last()) + span_ids(spans.last())
    }
}

/// For normalized spans, `ids_asc` lists exactly the ids that the spans
/// cover, strictly ascending and ending with the last span's upper end.
pub proof fn lemma_ids_asc(spans: Seq<Span>)
    requires
        normalized(spans),
    ensures
        forall|k: int| 0 <= k < ids_asc(spans).len() ==> covers(spans, #[trigger] ids_asc(spans)[k]),
        forall|id: u64| covers(spans, id) ==> #[trigger] ids_asc(spans).contains(id),
        forall|i: int, j: int|
            0 <= i < j < ids_asc(spans).len() ==> #[trigger] ids_asc(spans)[i] < #[trigger] ids_asc(
                spans,
            )[j],
        spans.len() > 0 ==> ids_asc(spans).len() > 0 && ids_asc(spans).last() == spans.last().high
            && ids_asc(spans).len() <= spans.last().high + 1,
    decreases spans.len(),
{
    if spans.len() > 0 {
        let rest = spans.drop_last();
        let last = spans.last();
        let tail = span_ids(last);
        let all = ids_asc(spans);
        let head = ids_asc(rest);
        lemma_ids_asc(rest);
        assert(all == head + tail);
        assert(last.low <= last.high);
        assert forall|k: int| 0 <= k < all.len() implies covers(spans, #[trigger] all[k]) by {
            if k < head.len() {
                assert(all[k] == head[k]);
                let i = choose|i: int| 0 <= i < rest.len() && #[trigger] in_span(rest[i], head[k]);
                assert(in_span(spans[i], all[k]));
            } else {
                assert(all[k] == tail[k - head.len()]);
                assert(in_span(spans[spans.len() - 1], all[k]));
            }
        }
        assert forall|id: u64| covers(spans, id) implies #[trigger] all.contains(id) by {
            let i = choose|i: int| 0 <= i < spans.len() && #[trigger] in_span(spans[i], id);
            if i < rest.len() {
                assert(in_span(rest[i], id));
                assert(covers(rest, id));
                assert(head.contains(id));
                let k = choose|k: int| 0 <= k < head.len() && head[k] == id;
                assert(all[k] == id);
            } else {
                let k = head.len() + (id - last.low);
                assert(tail[id - last.low] == id);
                assert(all[k] == id);
            }
        }
        if rest.len() > 0 {
            assert(rest.last() == spans[spans.len() - 2]);
            assert(spans[spans.len() - 2].high + 1 < spans[spans.len() - 1].low);
        }
        assert forall|i: int, j: int| 0 <= i < j < all.len() implies #[trigger] all[i]
            < #[trigger] all[j] by {
            if j < head.len() {
                assert(all[i] == head[i] && all[j] == head[j]);
            } else if i < head.len() {
                assert(all[i] == head[i]);
                assert(all[j] == tail[j - head.len()]);
                if i < head.len() - 1 {
                    assert(head[i] < head[head.len() - 1]);
                }
                assert(head[i] <= head.last());
            } else {
                assert(all[i] == tail[i - head.len()]);
                assert(all[j] == tail[j - head.len()]);
            }
        }
        assert(all.last() == tail[tail.len() - 1]);
    }
}

/// For normalized spans the covered ids are finitely many: as many as
/// `ids_asc` lists.
pub proof fn lemma_ids_len(spans: Seq<Span>)
    requires
        normalized(spans),
    ensures
        ids_of(spans).finite(),
        ids_of(spans).len() == ids_asc(spans).len(),
        ids_of(spans) == ids_asc(spans).to_set(),
{
    let all = ids_asc(spans);
    lemma_ids_asc(spans);
    assert forall|id: u64| ids_of(spans).contains(id) <==> all.to_set().contains(id) by {
        if all.to_set().contains(id) {
            let k = choose|k: int| 0 <= k < all.len() && all[k] == id;
            assert(covers(spans, all[k]));
        }
    }
    assert(ids_of(spans) =~= all.to_set());
    assert(all.no_duplicates());
    all.unique_seq_to_set();
    vstd::seq_lib::seq_to_set_is_finite(all);
}

/// What a pushed span adds to the covered ids.
pub proof fn lemma_covers_push(spans: Seq<Span>, s: Span)
    ensures
        forall|id: u64| #[trigger] covers(spans.push(s), id) <==> covers(spans, id) || in_span(s, id),
{
    let more = spans.push(s);
    assert forall|id: u64| #[trigger] covers(more, id) <==> covers(spans, id) || in_span(
        s,
        id,
    ) by {
        if covers(more, id) {
            let i = choose|i: int| 0 <= i < more.len() && #[trigger] in_span(more[i], id);
            if i < spans.len() {
                assert(in_span(spans[i], id));
            }
        }
        if covers(spans, id) {
            let i = choose|i: int| 0 <= i < spans.len() && #[trigger] in_span(spans[i], id);
            assert(in_span(more[i], id));
        }
        if in_span(s, id) {
            assert(in_span(more[spans.len() as int], id));
        }
    }
}

/// What one more span of a prefix adds to the covered ids.
pub proof fn lemma_covers_take(spans: Seq<Span>, n: int)
    requires
        0 <= n < spans.len(),
    ensures
        forall|id: u64| #[trigger]
            covers(spans.take(n + 1), id) <==> covers(spans.take(n), id) || in_span(spans[n], id),
{
    assert(spans.take(n + 1) =~= spans.take(n).push(spans[n]));
    lemma_covers_push(spans.take(n), spans[n]);
}

/// Appending a span that lies beyond the last one, with a gap, keeps
/// the spans normalized.
pub proof fn lemma_normalized_push(spans: Seq<Span>, s: Span)
    requires
        normalized(spans),
        s.low <= s.high <= MAX_ID,
        spans.len() > 0 ==> spans.last().high + 1 < s.low,
    ensures
        normalized(spans.push(s)),
{
    let more = spans.push(s);
    assert forall|i: int, j: int| 0 <= i < j < more.len() implies (#[trigger] more[i]).high + 1 < (
    #[trigger] more[j]).low by {
        if j == spans.len() {
            if i < spans.len() - 1 {
                assert(spans[i].high + 1 < spans[spans.len() - 1].low);
            }
        } else {
            assert(spans[i].high + 1 < spans[j].low);
        }
    }
}

/// `ids_asc` also unfolds at the front: the first span's ids, then the rest.
pub proof fn lemma_ids_asc_front(spans: Seq<Span>)
    requires
        spans.len() > 0,
    ensures
        ids_asc(spans) == span_ids(spans[0]) + ids_asc(spans.drop_first()),
    decreases spans.len(),
{
    if spans.len() == 1 {
        assert(spans.drop_last() =~= Seq::<Span>::empty());
        assert(spans.drop_first() =~= Seq::<Span>::empty());
        assert(ids_asc(spans) =~= span_ids(spans[0]) + ids_asc(spans.drop_first()));
    } else {
        let rest = spans.drop_last();
        lemma_ids_asc_front(rest);
        assert(rest.drop_first() =~= spans.drop_first().drop_last());
        assert(spans.drop_first().last() == spans.last());
        assert(ids_asc(spans) =~= span_ids(spans[0]) + ids_asc(spans.drop_first()));
    }
}

impl Span {
    /// The span `low ..= high`, if that is a non-empty range within `MAX_ID`.
    pub fn new(low: u64, high: u64) -> (r: Option<Span>)
        ensures
            r is Some <==> low <= high <= MAX_ID,
            r is Some ==> r->Some_0 == (Span { low, high }),
    {
        if low <= high && high <= MAX_ID {
            Some(Span { low, high })
        } else {
            None
        }
    }

    /// How many ids the span holds.
    pub open spec fn len_spec(self) -> nat {
        if self.low <= self.high {
            (self.high - self.low + 1) as nat
        } else {
            0
        }
    }
}

/// A set of ids.
pub struct SpanSet {
    spans: Vec<Span>,
}

impl View for SpanSet {
    type V = Set<u64>;

    open spec fn view(&self) -> Set<u64> {
        ids_of(self.spans())
    }
}

impl SpanSet {
    /// The spans of the set, ascending.
    pub closed spec fn spans(&self) -> Seq<Span> {
        self.spans@
    }

    /// The representation invariant: the spans are normalized.
    pub open spec fn wf(&self) -> bool {
        normalized(self.spans())
    }

    #[verifier::type_invariant]
    pub open spec fn inv(&self) -> bool {
        self.wf()
    }

    /// The empty set.
    pub fn empty() -> (r: SpanSet)
        ensures
            r.wf(),
            r.spans() == Seq::<Span>::empty(),
            r@ == Set::<u64>::empty(),
    {
        let r = SpanSet { spans: Vec::new() };
        assert(r@ =~= Set::<u64>::empty());
        r
    }

    /// The set of the ids from `low` to `high`, both included, that do not
    /// exceed `MAX_ID`. Empty where `low > high`.
    pub fn from_range(low: u64, high: u64) -> (r: SpanSet)
        ensures
            r.wf(),
            r@ == Set::new(|id: u64| low <= id <= high && id <= MAX_ID),
    {
        let top: u64 = if high <= MAX_ID { high } else { MAX_ID };
        if low <= top {
            let mut spans: Vec<Span> = Vec::new();
            spans.push(Span { low, high: top });
            let r = SpanSet { spans };
            assert forall|id: u64| r@.contains(id) <==> (low <= id <= high && id <= MAX_ID) by {
                if low <= id <= high && id <= MAX_ID {
                    assert(in_span(r.spans()[0], id));
                }
            }
            assert(r@ =~= Set::new(|id: u64| low <= id <= high && id <= MAX_ID));
            r
        } else {
            let r = SpanSet { spans: Vec::new() };
            assert(r@ =~= Set::new(|id: u64| low <= id <= high && id <= MAX_ID));
            r
        }
    }

    /// Whether the set holds no id.
    pub fn is_empty(&self) -> (r: bool)
        ensures
            r <==> self@ == Set::<u64>::empty(),
            r <==> self.spans().len() == 0,
    {
        proof {
            use_type_invariant(self);
            if self.spans@.len() > 0 {
                assert(in_span(self.spans@[0], self.spans@[0].low));
                assert(self@.contains(self.spans@[0].low));
            } else {
                assert(self@ =~= Set::<u64>::empty());
            }
        }
        self.spans.len() == 0
    }

    /// The smallest id of the set.
    pub fn min(&self) -> (r: Option<u64>)
        ensures
            r is None <==> self@ == Set::<u64>::empty(),
            r is None <==> self.ids_ascending().len() == 0,
            r is Some ==> r->Some_0 == self.ids_ascending().first(),
            r is Some ==> self@.contains(r->Some_0) && forall|id: u64|
                self@.contains(id) ==> r->Some_0 <= id,
    {
        proof {
            use_type_invariant(self);
        }
        if self.spans.len() == 0 {
            assert(self@ =~= Set::<u64>::empty());
            None
        } else {
            let low = self.spans[0].low;
            proof {
                lemma_ids_asc_front(self.spans@);
                assert(span_ids(self.spans@[0])[0] == low);
                assert(in_span(self.spans@[0], low));
                assert(self@.contains(low));
                assert forall|id: u64| self@.contains(id) implies low <= id by {
                    let i = choose|i: int|
                        0 <= i < self.spans@.len() && #[trigger] in_span(self.spans@[i], id);
                    if i > 0 {
                        assert(self.spans@[0].high + 1 < self.spans@[i].low);
                    }
                }
            }
            Some(low)
        }
    }

    /// The largest id of the set.
    pub fn max(&self) -> (r: Option<u64>)
        ensures
            r is None <==> self@ == Set::<u64>::empty(),
            r is None <==> self.ids_ascending().len() == 0,
            r is Some ==> r->Some_0 == self.ids_ascending().last(),
            r is Some ==> self@.contains(r->Some_0) && forall|id: u64|
                self@.contains(id) ==> id <= r->Some_0,
    {
        proof {
            use_type_invariant(self);
        }
        let n = self.spans.len();
        if n == 0 {
            assert(self@ =~= Set::<u64>::empty());
            None
        } else {
            let high = self.spans[n - 1].high;
            proof {
                lemma_ids_asc(self.spans@);
                assert(in_span(self.spans@[n - 1], high));
                assert(self@.contains(high));
                assert forall|id: u64| self@.contains(id) implies id <= high by {
                    let i = choose|i: int|
                        0 <= i < self.spans@.len() && #[trigger] in_span(self.spans@[i], id);
                    if i < n - 1 {
                        assert(self.spans@[i].high + 1 < self.spans@[n - 1].low);
                    }
                }
            }
            Some(high)
        }
    }

    /// Whether the set holds `id`. Binary search over the spans.
    pub fn contains(&self, id: u64) -> (r: bool)
        ensures
            r <==> self@.contains(id),
    {
        proof {
            use_type_invariant(self);
        }
        let mut lo: usize = 0;
        let mut hi: usize = self.spans.len();
        while lo < hi
            invariant
                0 <= lo <= hi <= self.spans@.len(),
                normalized(self.spans@),
                forall|k: int| 0 <= k < lo ==> (#[trigger] self.spans@[k]).high < id,
                forall|k: int| hi <= k < self.spans@.len() ==> id < (#[trigger] self.spans@[k]).low,
            decreases hi - lo,
        {
            let mid: usize = lo + (hi - lo) / 2;
            let s = self.spans[mid];
            if s.high < id {
                proof {
                    assert forall|k: int| 0 <= k < mid + 1 implies (#[trigger] self.spans@[k]).high
                        < id by {
                        if k < mid {
                            assert(self.spans@[k].high + 1 < self.spans@[mid as int].low);
                        }
                    }
                }
                lo = mid + 1;
            } else if id < s.low {
                proof {
                    assert forall|k: int| mid <= k < self.spans@.len() implies id < (
                    #[trigger] self.spans@[k]).low by {
                        if mid < k {
                            assert(self.spans@[mid as int].high + 1 < self.spans@[k].low);
                        }
                    }
                }
                hi = mid;
            } else {
                assert(in_span(self.spans@[mid as int], id));
                return true;
            }
        }
        proof {
            if self@.contains(id) {
                let i = choose|i: int|
                    0 <= i < self.spans@.len() && #[trigger] in_span(self.spans@[i], id);
                if i < lo {
                    assert(self.spans@[i].high < id);
                } else {
                    assert(id < self.spans@[i].low);
                }
            }
        }
        false
    }
}

impl SpanSet {
    /// The ids of the set, ascending.
    pub open spec fn ids_ascending(&self) -> Seq<u64> {
        ids_asc(self.spans())
    }

    /// The ids of the set, descending.
    pub open spec fn ids_descending(&self) -> Seq<u64> {
        ids_asc(self.spans()).reverse()
    }

    /// How many ids the set holds.
    pub fn count(&self) -> (r: u64)
        ensures
            r == self@.len(),
            r == self.ids_ascending().len(),
    {
        proof {
            use_type_invariant(self);
            lemma_ids_len(self.spans@);
        }
        let mut total: u64 = 0;
        let mut i: usize = 0;
        while i < self.spans.len()
            invariant
                0 <= i <= self.spans@.len(),
                normalized(self.spans@),
                total == ids_asc(self.spans@.take(i as int)).len(),
                i > 0 ==> total <= self.spans@[i - 1].high + 1,
            decreases self.spans@.len() - i,
        {
            let s = self.spans[i];
            proof {
                let next = self.spans@.take(i + 1);
                assert(next.drop_last() =~= self.spans@.take(i as int));
                assert(next.last() == s);
                if i > 0 {
                    assert(self.spans@[i - 1].high + 1 < self.spans@[i as int].low);
                }
            }
            total = total + (s.high - s.low + 1);
            i = i + 1;
        }
        proof {
            assert(self.spans@.take(i as int) =~= self.spans@);
        }
        total
    }
}

impl SpanSet {
    /// The ids that both sets hold. One pass over the spans of both.
    pub fn intersection(&self, other: &SpanSet) -> (r: SpanSet)
        ensures
            r.wf(),
            r@ == self@.intersect(other@),
    {
        proof {
            use_type_invariant(self);
            use_type_invariant(other);
        }
        let mut out: Vec<Span> = Vec::new();
        let mut i: usize = 0;
        let mut j: usize = 0;
        let ghost mut done: int = 0;
        while i < self.spans.len() && j < other.spans.len()
            invariant
                0 <= i <= self.spans@.len(),
                0 <= j <= other.spans@.len(),
                normalized(self.spans@),
                normalized(other.spans@),
                normalized(out@),
                0 <= done,
                forall|k: int| 0 <= k < i ==> (#[trigger] self.spans@[k]).high < done,
                forall|k: int| 0 <= k < j ==> (#[trigger] other.spans@[k]).high < done,
                i < self.spans@.len() ==> done <= self.spans@[i as int].high + 1,
                j < other.spans@.len() ==> done <= other.spans@[j as int].high + 1,
                (out@.len() > 0 && i < self.spans@.len() && j < other.spans@.len()) ==> (
                out@.last().high + 1 < self.spans@[i as int].low || out@.last().high + 1
                    < other.spans@[j as int].low),
                forall|id: u64|
                    covers(out@, id) <==> (covers(self.spans@, id) && covers(other.spans@, id) && id
                        < done),
            decreases self.spans@.len() - i + other.spans@.len() - j,
        {
            let a = self.spans[i];
            let b = other.spans[j];
            let low: u64 = if a.low >= b.low { a.low } else { b.low };
            let high: u64 = if a.high <= b.high { a.high } else { b.high };
            let ghost before = out@;
            let ghost was = done;
            if low <= high {
                proof {
                    lemma_normalized_push(out@, Span { low, high });
                    lemma_covers_push(out@, Span { low, high });
                }
                out.push(Span { low, high });
            }
            proof {
                done = high + 1;
                assert forall|id: u64|
                    covers(out@, id) <==> (covers(self.spans@, id) && covers(other.spans@, id) && id
                        < done) by {
                    let both = covers(self.spans@, id) && covers(other.spans@, id);
                    if low <= high {
                        assert(covers(out@, id) <==> covers(before, id) || in_span(
                            Span { low, high },
                            id,
                        ));
                    }
                    if in_span(a, id) && in_span(b, id) {
                        assert(in_span(self.spans@[i as int], id));
                        assert(in_span(other.spans@[j as int], id));
                    }
                    if both && was <= id && id < done {
                        let x = choose|x: int|
                            0 <= x < self.spans@.len() && #[trigger] in_span(self.spans@[x], id);
                        let y = choose|y: int|
                            0 <= y < other.spans@.len() && #[trigger] in_span(other.spans@[y], id);
                        if x < i {
                            assert(self.spans@[x].high < was);
                        }
                        if x > i {
                            assert(self.spans@[i as int].high + 1 < self.spans@[x].low);
                        }
                        if y < j {
                            assert(other.spans@[y].high < was);
                        }
                        if y > j {
                            assert(other.spans@[j as int].high + 1 < other.spans@[y].low);
                        }
                    }
                }
            }
            if a.high <= b.high {
                proof {
                    if i + 1 < self.spans@.len() {
                        assert(self.spans@[i as int].high + 1 < self.spans@[i + 1].low);
                    }
                }
                i = i + 1;
            } else {
                proof {
                    if j + 1 < other.spans@.len() {
                        assert(other.spans@[j as int].high + 1 < other.spans@[j + 1].low);
                    }
                }
                j = j + 1;
            }
        }
        let r = SpanSet { spans: out };
        proof {
            assert forall|id: u64| r@.contains(id) <==> self@.intersect(other@).contains(id) by {
                if covers(self.spans@, id) && covers(other.spans@, id) {
                    let x = choose|x: int|
                        0 <= x < self.spans@.len() && #[trigger] in_span(self.spans@[x], id);
                    let y = choose|y: int|
                        0 <= y < other.spans@.len() && #[trigger] in_span(other.spans@[y], id);
                    if i >= self.spans@.len() {
                        assert(self.spans@[x].high < done);
                    } else {
                        assert(other.spans@[y].high < done);
                    }
                }
            }
            assert(r@ =~= self@.intersect(other@));
        }
        r
    }

    /// The ids up to `MAX_ID` that the set does not hold.
    pub fn complement(&self) -> (r: SpanSet)
        ensures
            r.wf(),
            r@ == Set::new(|id: u64| id <= MAX_ID && !self@.contains(id)),
    {
        proof {
            use_type_invariant(self);
        }
        let mut out: Vec<Span> = Vec::new();
        let mut next: u64 = 0;
        let mut i: usize = 0;
        while i < self.spans.len()
            invariant
                0 <= i <= self.spans@.len(),
                normalized(self.spans@),
                normalized(out@),
                next <= MAX_ID + 1,
                forall|k: int| 0 <= k < i ==> (#[trigger] self.spans@[k]).high < next,
                i < self.spans@.len() ==> next <= self.spans@[i as int].low,
                (i > 0 && i < self.spans@.len()) ==> next < self.spans@[i as int].low,
                out@.len() > 0 ==> out@.last().high + 1 < next,
                forall|id: u64| covers(out@, id) <==> (id < next && !covers(self.spans@, id)),
            decreases self.spans@.len() - i,
        {
            let s = self.spans[i];
            let ghost before = out@;
            let ghost was = next;
            if s.low > next {
                proof {
                    lemma_normalized_push(out@, Span { low: next, high: (s.low - 1) as u64 });
                    lemma_covers_push(out@, Span { low: next, high: (s.low - 1) as u64 });
                }
                out.push(Span { low: next, high: s.low - 1 });
            }
            next = s.high + 1;
            proof {
                if i + 1 < self.spans@.len() {
                    assert(self.spans@[i as int].high + 1 < self.spans@[i + 1].low);
                }
                assert forall|id: u64|
                    covers(out@, id) <==> (id < next && !covers(self.spans@, id)) by {
                    if s.low > was {
                        assert(covers(out@, id) <==> covers(before, id) || in_span(
                            Span { low: was, high: (s.low - 1) as u64 },
                            id,
                        ));
                    }
                    if in_span(s, id) {
                        assert(in_span(self.spans@[i as int], id));
                    }
                    if was <= id && id < s.low && covers(self.spans@, id) {
                        let x = choose|x: int|
                            0 <= x < self.spans@.len() && #[trigger] in_span(self.spans@[x], id);
                        if x < i {
                            assert(self.spans@[x].high < was);
                        }
                        if x > i {
                            assert(self.spans@[i as int].high + 1 < self.spans@[x].low);
                        }
                    }
                }
            }
            i = i + 1;
        }
        let ghost before = out@;
        if next <= MAX_ID {
            proof {
                lemma_normalized_push(out@, Span { low: next, high: MAX_ID });
                lemma_covers_push(out@, Span { low: next, high: MAX_ID });
            }
            out.push(Span { low: next, high: MAX_ID });
        }
        let r = SpanSet { spans: out };
        proof {
            assert forall|id: u64| r@.contains(id) <==> (id <= MAX_ID && !self@.contains(id)) by {
                if next <= MAX_ID {
                    assert(covers(out@, id) <==> covers(before, id) || in_span(
                        Span { low: next, high: MAX_ID },
                        id,
                    ));
                }
                if covers(self.spans@, id) {
                    let x = choose|x: int|
                        0 <= x < self.spans@.len() && #[trigger] in_span(self.spans@[x], id);
                    assert(self.spans@[x].high < next);
                }
            }
            assert(r@ =~= Set::new(|id: u64| id <= MAX_ID && !self@.contains(id)));
        }
        r
    }

    /// The ids of this set that `other` does not hold.
    pub fn difference(&self, other: &SpanSet) -> (r: SpanSet)
        ensures
            r.wf(),
            r@ == self@.difference(other@),
    {
        let outside = other.complement();
        let r = self.intersection(&outside);
        proof {
            use_type_invariant(self);
            assert forall|id: u64| self@.contains(id) implies id <= MAX_ID by {
                let x = choose|x: int|
                    0 <= x < self.spans@.len() && #[trigger] in_span(self.spans@[x], id);
            }
            assert(r@ =~= self@.difference(other@));
        }
        r
    }
}

impl SpanSet {
    /// The ids that either set holds. One pass over the spans of both; spans
    /// that overlap or touch come out as one.
    pub fn union(&self, other: &SpanSet) -> (r: SpanSet)
        ensures
            r.wf(),
            r@ == self@.union(other@),
    {
        proof {
            use_type_invariant(self);
            use_type_invariant(other);
        }
        let n = self.spans.len();
        let m = other.spans.len();
        let mut out: Vec<Span> = Vec::new();
        let mut i: usize = 0;
        let mut j: usize = 0;
        while i < n || j < m
            invariant
                n == self.spans@.len(),
                m == other.spans@.len(),
                0 <= i <= n,
                0 <= j <= m,
                normalized(self.spans@),
                normalized(other.spans@),
                normalized(out@),
                (out@.len() > 0 && i < n) ==> out@.last().low <= self.spans@[i as int].low,
                (out@.len() > 0 && j < m) ==> out@.last().low <= other.spans@[j as int].low,
                forall|id: u64|
                    covers(out@, id) <==> (covers(self.spans@.take(i as int), id) || covers(
                        other.spans@.take(j as int),
                        id,
                    )),
            decreases n - i + m - j,
        {
            let ghost before = out@;
            let ghost i0 = i as int;
            let ghost j0 = j as int;
            let from_self: bool = if j >= m {
                true
            } else if i >= n {
                false
            } else {
                self.spans[i].low <= other.spans[j].low
            };
            let s: Span = if from_self {
                self.spans[i]
            } else {
                other.spans[j]
            };
            proof {
                if from_self {
                    lemma_covers_take(self.spans@, i0);
                    if i0 + 1 < n {
                        assert(self.spans@[i0].high + 1 < self.spans@[i0 + 1].low);
                    }
                } else {
                    lemma_covers_take(other.spans@, j0);
                    if j0 + 1 < m {
                        assert(other.spans@[j0].high + 1 < other.spans@[j0 + 1].low);
                    }
                }
            }
            if from_self {
                i = i + 1;
            } else {
                j = j + 1;
            }
            let k = out.len();
            if k > 0 && s.low <= out[k - 1].high + 1 {
                let last = out[k - 1];
                if s.high > last.high {
                    let merged = Span { low: last.low, high: s.high };
                    out.pop();
                    proof {
                        let kept = before.drop_last();
                        assert(out@ =~= kept);
                        assert(before =~= kept.push(last));
                        lemma_covers_push(kept, last);
                        lemma_covers_push(kept, merged);
                        assert(normalized(kept));
                        if kept.len() > 0 {
                            assert(kept.last() == before[before.len() - 2]);
                            assert(before[before.len() - 2].high + 1 < before[before.len()
                                - 1].low);
                        }
                        lemma_normalized_push(kept, merged);
                    }
                    out.push(merged);
                    proof {
                        assert forall|id: u64|
                            covers(out@, id) <==> (covers(before, id) || in_span(s, id)) by {
                            let kept = before.drop_last();
                            assert(covers(out@, id) <==> covers(kept, id) || in_span(merged, id));
                            assert(covers(before, id) <==> covers(kept, id) || in_span(last, id));
                        }
                    }
                } else {
                    proof {
                        assert forall|id: u64|
                            covers(out@, id) <==> (covers(before, id) || in_span(s, id)) by {
                            if in_span(s, id) {
                                assert(in_span(before[k - 1], id));
                            }
                        }
                    }
                }
            } else {
                proof {
                    lemma_normalized_push(out@, s);
                    lemma_covers_push(out@, s);
                }
                out.push(s);
            }
            proof {
                assert forall|id: u64|
                    covers(out@, id) <==> (covers(self.spans@.take(i as int), id) || covers(
                        other.spans@.take(j as int),
                        id,
                    )) by {
                    assert(covers(out@, id) <==> (covers(before, id) || in_span(s, id)));
                }
            }
        }
        let r = SpanSet { spans: out };
        proof {
            assert(self.spans@.take(i as int) =~= self.spans@);
            assert(other.spans@.take(j as int) =~= other.spans@);
            assert(r@ =~= self@.union(other@));
        }
        r
    }
}

impl Clone for SpanSet {
    fn clone(&self) -> (r: SpanSet)
        ensures
            r.wf(),
            r.spans() == self.spans(),
            r@ == self@,
    {
        proof {
            use_type_invariant(self);
        }
        let mut spans: Vec<Span> = Vec::new();
        let mut i: usize = 0;
        while i < self.spans.len()
            invariant
                0 <= i <= self.spans@.len(),
                spans@ == self.spans@.take(i as int),
            decreases self.spans@.len() - i,
        {
            spans.push(self.spans[i]);
            i = i + 1;
            assert(spans@ =~= self.spans@.take(i as int));
        }
        assert(spans@ =~= self.spans@);
        SpanSet { spans }
    }
}

/// A cursor over the ids of a span set that can be drawn from both ends:
/// `next` takes the largest id left, `next_back` the smallest.
pub struct SpanSetIter {
    spans: Vec<Span>,
    start: usize,
}

impl View for SpanSetIter {
    type V = Seq<u64>;

    /// The ids that are left, descending: the order in which `next` hands
    /// them out.
    closed spec fn view(&self) -> Seq<u64> {
        ids_asc(self.spans@.skip(self.start as int)).reverse()
    }
}

impl SpanSetIter {
    /// The representation invariant. Every cursor that `SpanSet::iter` hands
    /// out meets it, and `next` and `next_back` keep it.
    pub closed spec fn wf(&self) -> bool {
        self.start <= self.spans@.len() && normalized(self.spans@)
    }

    /// The largest id that is left, which is then gone from the cursor.
    pub fn next(&mut self) -> (r: Option<u64>)
        requires
            old(self).wf(),
        ensures
            final(self).wf(),
            old(self)@.len() == 0 ==> r is None && final(self)@ == old(self)@,
            old(self)@.len() > 0 ==> r == Some(old(self)@[0]) && final(self)@ == old(
                self,
            )@.drop_first(),
    {
        let n = self.spans.len();
        let ghost live = self.spans@.skip(self.start as int);
        if self.start >= n {
            assert(live =~= Seq::<Span>::empty());
            return None;
        }
        let last = self.spans[n - 1];
        proof {
            assert(live.last() == last);
            assert(last.low <= last.high);
        }
        if last.low == last.high {
            self.spans.pop();
            proof {
                assert(self.spans@.skip(self.start as int) =~= live.drop_last());
                assert(span_ids(last) =~= seq![last.high]);
                assert(self@ =~= old(self)@.drop_first());
            }
        } else {
            let shrunk = Span { low: last.low, high: last.high - 1 };
            proof {
                assert forall|i: int, j: int|
                    0 <= i < j < n implies (#[trigger] self.spans@.update(n - 1, shrunk)[i]).high + 1
                    < (#[trigger] self.spans@.update(n - 1, shrunk)[j]).low by {
                    assert(self.spans@[i].high + 1 < self.spans@[j].low);
                }
            }
            self.spans.set(n - 1, shrunk);
            proof {
                let now = self.spans@.skip(self.start as int);
                assert(now.drop_last() =~= live.drop_last());
                assert(now.last() == shrunk);
                assert(span_ids(last) =~= span_ids(shrunk) + seq![last.high]);
                assert(self@ =~= old(self)@.drop_first());
            }
        }
        Some(last.high)
    }

    /// The smallest id that is left, which is then gone from the cursor.
    pub fn next_back(&mut self) -> (r: Option<u64>)
        requires
            old(self).wf(),
        ensures
            final(self).wf(),
            old(self)@.len() == 0 ==> r is None && final(self)@ == old(self)@,
            old(self)@.len() > 0 ==> r == Some(old(self)@.last()) && final(self)@ == old(
                self,
            )@.drop_last(),
    {
        let n = self.spans.len();
        let at = self.start;
        let ghost live = self.spans@.skip(at as int);
        if at >= n {
            assert(live =~= Seq::<Span>::empty());
            return None;
        }
        let first = self.spans[at];
        proof {
            assert(live[0] == first);
            assert(first.low <= first.high);
            lemma_ids_asc_front(live);
        }
        if first.low == first.high {
            self.start = at + 1;
            proof {
                assert(self.spans@.skip(self.start as int) =~= live.drop_first());
                assert(span_ids(first) =~= seq![first.low]);
                assert(self@ =~= old(self)@.drop_last());
            }
        } else {
            let shrunk = Span { low: first.low + 1, high: first.high };
            proof {
                assert forall|i: int, j: int|
                    0 <= i < j < n implies (#[trigger] self.spans@.update(at as int, shrunk)[i]).high
                    + 1 < (#[trigger] self.spans@.update(at as int, shrunk)[j]).low by {
                    assert(self.spans@[i].high + 1 < self.spans@[j].low);
                }
            }
            self.spans.set(at, shrunk);
            proof {
                let now = self.spans@.skip(at as int);
                lemma_ids_asc_front(now);
                assert(now.drop_first() =~= live.drop_first());
                assert(now[0] == shrunk);
                assert(span_ids(first) =~= seq![first.low] + span_ids(shrunk));
                assert(self@ =~= old(self)@.drop_last());
            }
        }
        Some(first.low)
    }
}

impl SpanSet {
    /// A fresh cursor over the ids of the set, largest first.
    pub fn iter(&self) -> (r: SpanSetIter)
        ensures
            r.wf(),
            r@ == self.ids_descending(),
    {
        proof {
            use_type_invariant(self);
        }
        let copy = self.clone();
        let r = SpanSetIter { spans: copy.spans, start: 0 };
        assert(r.spans@.skip(0) =~= self.spans@);
        r
    }
}

impl SpanSet {
    /// The spans of the set, ascending.
    pub fn as_spans(&self) -> (r: &Vec<Span>)
        ensures
            r@ == self.spans(),
            normalized(r@),
    {
        proof {
            use_type_invariant(self);
        }
        &self.spans
    }

    /// The set of the given ids, those above `MAX_ID` left out.
    pub fn from_ids(ids: &Vec<u64>) -> (r: SpanSet)
        ensures
            r.wf(),
            r@ == Set::new(|id: u64| ids@.contains(id) && id <= MAX_ID),
    {
        let mut r = SpanSet::empty();
        let mut i: usize = 0;
        while i < ids.len()
            invariant
                0 <= i <= ids@.len(),
                r.wf(),
                r@ == Set::new(|id: u64| ids@.take(i as int).contains(id) && id <= MAX_ID),
            decreases ids@.len() - i,
        {
            let one = SpanSet::from_range(ids[i], ids[i]);
            let ghost before = r@;
            r = r.union(&one);
            proof {
                let next = ids@.take(i + 1);
                assert forall|id: u64|
                    r@.contains(id) <==> (next.contains(id) && id <= MAX_ID) by {
                    if ids@.take(i as int).contains(id) {
                        let k = choose|k: int|
                            0 <= k < ids@.take(i as int).len() && ids@.take(i as int)[k] == id;
                        assert(next[k] == id);
                    }
                    if id == ids@[i as int] {
                        assert(next[i as int] == id);
                    }
                    if next.contains(id) {
                        let k = choose|k: int| 0 <= k < next.len() && next[k] == id;
                        if k < i {
                            assert(ids@.take(i as int)[k] == id);
                        }
                    }
                }
                assert(r@ =~= Set::new(|id: u64| next.contains(id) && id <= MAX_ID));
            }
            i = i + 1;
        }
        proof {
            assert(ids@.take(i as int) =~= ids@);
        }
        r
    }

    /// The spans as text: see `spans_text`.
    pub fn debug_string(&self) -> (r: String)
        ensures
            r@ == spans_text(self.spans()),
    {
        proof {
            use_type_invariant(self);
        }
        let mut out = String::new();
        push_spans(&mut out, &self.spans);
        out
    }
}

} // verus!
