//! Sets of keys, kept as disjoint half-open ranges. The keys are line numbers,
//! or any other type whose values are ordered and follow one another in unit
//! steps.

use std::ops::Range;
use vstd::prelude::*;

verus! {

/// A key that sets of ranges can be made of: keys are ordered, and each key
/// but the greatest has a next one.
pub trait Key: Copy {
    /// The place of the key in the order.
    spec fn rank(self) -> int;

    /// Different keys have different places.
    proof fn lemma_rank_injective(a: Self, b: Self)
        requires
            a.rank() == b.rank(),
        ensures
            a == b,
    ;

    /// Whether the key comes before `other`.
    fn less(&self, other: &Self) -> (r: bool)
        ensures
            r == (self.rank() < other.rank()),
    ;

    /// The next key, if the key is not the greatest.
    fn successor(&self) -> (r: Option<Self>)
        ensures
            r matches Some(next) ==> next.rank() == self.rank() + 1,
            r is None ==> forall|other: Self| #[trigger] other.rank() <= self.rank(),
    ;
}

impl Key for u32 {
    open spec fn rank(self) -> int {
        self as int
    }

    proof fn lemma_rank_injective(a: u32, b: u32) {
    }

    fn less(&self, other: &u32) -> (r: bool) {
        *self < *other
    }

    fn successor(&self) -> (r: Option<u32>) {
        if *self < u32::MAX {
            Some(*self + 1)
        } else {
            None
        }
    }
}

/// One stored range: the keys from `start` up to, not including, `end`.
#[derive(Clone, Copy, Debug)]
pub struct Span<T: Key> {
    pub start: T,
    pub end: T,
}

/// The numbers that lie in some range of `spans`.
pub open spec fn covered(spans: Seq<(int, int)>) -> Set<int> {
    Set::new(|x: int| exists|i: int| 0 <= i < spans.len() && in_span(#[trigger] spans[i], x))
}

/// `x` lies in the half-open range `span`.
pub open spec fn in_span(span: (int, int), x: int) -> bool {
    span.0 <= x < span.1
}

/// The numbers of the half-open range from `start` to `end`.
pub open spec fn span_set(start: int, end: int) -> Set<int> {
    Set::new(|x: int| start <= x < end)
}

/// `spans` is the minimal disjoint cover of what it holds: no range is empty,
/// the ranges ascend, and between two of them lies at least one number, so that
/// no two of them could be merged.
pub open spec fn canonical(spans: Seq<(int, int)>) -> bool {
    &&& forall|i: int| 0 <= i < spans.len() ==> (#[trigger] spans[i]).0 < spans[i].1
    &&& forall|i: int, j: int|
        0 <= i < j < spans.len() ==> (#[trigger] spans[i]).1 < (#[trigger] spans[j]).0
}

/// Two half-open ranges overlap or touch, so that their union is one range.
pub open spec fn mergeable(a: (int, int), b: (int, int)) -> bool {
    if a.0 <= b.0 {
        a.1 >= b.0
    } else {
        b.1 >= a.0
    }
}

/// A set of keys, stored as ascending, pairwise disjoint and non-adjacent
/// half-open ranges.
#[derive(Debug)]
pub struct RangeSet<T: Key> {
    spans: Vec<Span<T>>,
}

impl<T: Key> View for RangeSet<T> {
    type V = Set<int>;

    /// The places of the keys in the set: those that lie in a stored range.
    open spec fn view(&self) -> Set<int> {
        covered(self.spans())
    }
}

impl<T: Key> RangeSet<T> {
    /// The stored ranges, in order, as pairs of the places of start and end.
    pub closed spec fn spans(&self) -> Seq<(int, int)> {
        span_seq(self.spans@)
    }

    /// The stored ranges are the minimal disjoint cover of the set.
    pub open spec fn wf(&self) -> bool {
        canonical(self.spans())
    }

    /// The empty set.
    pub fn new() -> (r: RangeSet<T>)
        ensures
            r.wf(),
            r@ == Set::<int>::empty(),
            r.spans() == Seq::<(int, int)>::empty(),
    {
        let r = RangeSet { spans: Vec::new() };
        assert(r.spans() =~= Seq::<(int, int)>::empty());
        assert(r@ =~= Set::<int>::empty());
        r
    }

    /// Whether the set holds no number.
    pub fn is_empty(&self) -> (r: bool)
        requires
            self.wf(),
        ensures
            r == (self@ == Set::<int>::empty()),
            r == (self.spans().len() == 0),
    {
        let r = self.spans.len() == 0;
        proof {
            if r {
                assert(self@ =~= Set::<int>::empty());
            } else {
                let s = self.spans()[0];
                assert(in_span(s, s.0));
                assert(self@.contains(s.0));
            }
        }
        r
    }

    /// The index of the stored range that holds `value`, if there is one. The
    /// ranges ascend, so the only candidate is the first whose end lies above
    /// `value`; a binary search finds it.
    fn find_disjoint_range(&self, value: T) -> (r: Option<usize>)
        requires
            self.wf(),
        ensures
            r matches Some(i) ==> i < self.spans().len() && in_span(self.spans()[i as int], value.rank()),
            r is None ==> !self@.contains(value.rank()),
    {
        let mut lo: usize = 0;
        let mut hi: usize = self.spans.len();
        while lo < hi
            invariant
                0 <= lo <= hi <= self.spans@.len(),
                self.wf(),
                forall|i: int| 0 <= i < lo ==> (#[trigger] self.spans()[i]).1 <= value.rank(),
                forall|i: int| hi <= i < self.spans@.len() ==> (#[trigger] self.spans()[i]).1 > value.rank(),
            decreases hi - lo,
        {
            let mid: usize = lo + (hi - lo) / 2;
            if !value.less(&self.spans[mid].end) {
                assert forall|i: int| 0 <= i < mid + 1 implies (#[trigger] self.spans()[i]).1
                    <= value.rank() by {
                    if i < mid {
                        assert(self.spans()[i].1 < self.spans()[mid as int].0);
                    }
                }
                lo = mid + 1;
            } else {
                assert forall|i: int| mid <= i < self.spans@.len() implies (#[trigger] self.spans()[i]).1
                    > value.rank() by {
                    if mid < i {
                        assert(self.spans()[mid as int].1 < self.spans()[i].0);
                    }
                }
                hi = mid;
            }
        }
        if lo < self.spans.len() && !value.less(&self.spans[lo].start) {
            assert(in_span(self.spans()[lo as int], value.rank()));
            Some(lo)
        } else {
            assert forall|i: int| 0 <= i < self.spans().len() implies !in_span(
                #[trigger] self.spans()[i],
                value.rank(),
            ) by {
                if lo < i {
                    assert(self.spans()[lo as int].1 < self.spans()[i].0);
                }
            }
            None
        }
    }

    /// Whether `value` is in the set.
    pub fn contains(&self, value: T) -> (r: bool)
        requires
            self.wf(),
        ensures
            r == self@.contains(value.rank()),
    {
        self.find_disjoint_range(value).is_some()
    }

    /// Adds the keys from `value.start` up to, not including, `value.end` to the set. Every stored
    /// range that overlaps or touches the new one is merged with it into a
    /// single range; an empty `value` changes nothing.
    pub fn insert_range(&mut self, value: Range<T>)
        requires
            old(self).wf(),
        ensures
            final(self).wf(),
            final(self)@ == old(self)@.union(span_set(value.start.rank(), value.end.rank())),
            value.start.rank() >= value.end.rank() ==> final(self).spans() == old(self).spans(),
    {
        if !value.start.less(&value.end) {
            assert(self@.union(span_set(value.start.rank(), value.end.rank())) =~= self@);
            return ;
        }
        let ghost before = self.spans();
        let ghost added = span_set(value.start.rank(), value.end.rank());
        let n = self.spans.len();
        let mut out: Vec<Span<T>> = Vec::new();
        let mut cur = Span { start: value.start, end: value.end };
        let mut placed = false;
        let mut i: usize = 0;
        assert(before.take(0) =~= Seq::<(int, int)>::empty());
        assert(covered(span_seq(out@)).union(span_set(cur.start.rank(), cur.end.rank())) =~= covered(
            before.take(0),
        ).union(added));
        while i < n
            invariant
                0 <= i <= n,
                n == self.spans@.len(),
                before == self.spans(),
                canonical(before),
                added == span_set(value.start.rank(), value.end.rank()),
                cur.start.rank() < cur.end.rank(),
                canonical(span_seq(out@)),
                !placed ==> forall|k: int|
                    0 <= k < out@.len() ==> (#[trigger] span_seq(out@)[k]).1 < cur.start.rank(),
                forall|k: int, j: int|
                    0 <= k < out@.len() && i <= j < n ==> (#[trigger] span_seq(out@)[k]).1 < (
                    #[trigger] before[j]).0,
                placed ==> forall|j: int| i <= j < n ==> cur.end.rank() < (#[trigger] before[j]).0,
                covered(span_seq(out@)).union(
                    if placed {
                        Set::<int>::empty()
                    } else {
                        span_set(cur.start.rank(), cur.end.rank())
                    },
                ) == covered(before.take(i as int)).union(added),
            decreases n - i,
        {
            let r = self.spans[i];
            let ghost rs = (r.start.rank(), r.end.rank());
            let ghost out0 = span_seq(out@);
            assert(before[i as int] == rs);
            assert(before.take(i + 1) =~= before.take(i as int).push(rs));
            proof {
                lemma_covered_push(before.take(i as int), rs);
            }
            assert forall|j: int| i + 1 <= j < n implies rs.1 < (#[trigger] before[j]).0 by {
                assert(before[i as int].1 < before[j].0);
            }
            if placed {
                out.push(r);
                proof {
                    assert(span_seq(out@) =~= out0.push(rs));
                    lemma_covered_push(out0, rs);
                    lemma_union_step(
                        covered(out0),
                        Set::<int>::empty(),
                        covered(before.take(i as int)),
                        added,
                        span_set(rs.0, rs.1),
                    );
                }
            } else if unionable(&cur, &r) {
                let ghost old_cur = span_set(cur.start.rank(), cur.end.rank());
                cur = union(cur, r);
                proof {
                    assert(span_set(cur.start.rank(), cur.end.rank()) =~= old_cur.union(
                        span_set(rs.0, rs.1),
                    ));
                    lemma_union_step(
                        covered(out0),
                        old_cur,
                        covered(before.take(i as int)),
                        added,
                        span_set(rs.0, rs.1),
                    );
                }
            } else if r.end.less(&cur.start) {
                out.push(r);
                proof {
                    assert(span_seq(out@) =~= out0.push(rs));
                    lemma_covered_push(out0, rs);
                    lemma_union_step(
                        covered(out0),
                        span_set(cur.start.rank(), cur.end.rank()),
                        covered(before.take(i as int)),
                        added,
                        span_set(rs.0, rs.1),
                    );
                }
            } else {
                let ghost cs = (cur.start.rank(), cur.end.rank());
                out.push(cur);
                out.push(r);
                placed = true;
                proof {
                    assert(span_seq(out@) =~= out0.push(cs).push(rs));
                    lemma_covered_push(out0, cs);
                    lemma_covered_push(out0.push(cs), rs);
                    assert(covered(span_seq(out@)).union(Set::<int>::empty()) =~= covered(
                        before.take(i + 1),
                    ).union(added));
                    assert forall|j: int| i + 1 <= j < n implies cur.end.rank() < (#[trigger] before[j]).0 by {
                        assert(before[i as int].1 < before[j].0);
                    }
                }
            }
            i += 1;
        }
        assert(before.take(n as int) =~= before);
        if !placed {
            let ghost out0 = span_seq(out@);
            let ghost cs = (cur.start.rank(), cur.end.rank());
            out.push(cur);
            proof {
                assert(span_seq(out@) =~= out0.push(cs));
                lemma_covered_push(out0, cs);
                assert(covered(span_seq(out@)) =~= covered(before).union(added));
            }
        } else {
            assert(covered(span_seq(out@)) =~= covered(before).union(added));
        }
        self.spans = out;
        assert(self.spans() =~= span_seq(out@));
    }

    /// Takes the single key `value` out of the set and says whether it was
    /// there. The range that held it is cut in two around it; a half that would
    /// be empty is left out.
    pub fn remove(&mut self, value: T) -> (r: bool)
        requires
            old(self).wf(),
        ensures
            final(self).wf(),
            r == old(self)@.contains(value.rank()),
            final(self)@ == old(self)@.remove(value.rank()),
            !r ==> final(self).spans() == old(self).spans(),
    {
        let ghost before = self.spans();
        let i = match self.find_disjoint_range(value) {
            Some(i) => i,
            None => {
                assert(self@.remove(value.rank()) =~= self@);
                return false;
            },
        };
        let found = self.spans[i];
        assert(before[i as int] == (found.start.rank(), found.end.rank()));
        assert(in_span(before[i as int], value.rank()));
        self.spans.remove(i);
        match value.successor() {
            Some(next) => {
                if next.less(&found.end) {
                    self.spans.insert(i, Span { start: next, end: found.end });
                }
            },
            None => {
                // The end of the range lies above the key, so the key has a next one.
                assert(found.end.rank() <= value.rank());
            },
        }
        if found.start.less(&value) {
            self.spans.insert(i, Span { start: found.start, end: value });
        }
        proof {
            lemma_remove_point(before, i as int, value.rank());
            assert(self.spans() =~= before.take(i as int) + pieces(before[i as int], value.rank())
                + before.skip(i + 1));
        }
        true
    }

    /// The stored ranges in ascending order.
    pub fn into_ranges(self) -> (r: Vec<Range<T>>)
        requires
            self.wf(),
        ensures
            r@.len() == self.spans().len(),
            forall|i: int|
                0 <= i < r@.len() ==> (#[trigger] r@[i]).start.rank() == self.spans()[i].0
                    && r@[i].end.rank() == self.spans()[i].1,
    {
        let mut out: Vec<Range<T>> = Vec::new();
        let mut i: usize = 0;
        while i < self.spans.len()
            invariant
                0 <= i <= self.spans@.len(),
                out@.len() == i,
                forall|k: int|
                    0 <= k < i ==> (#[trigger] out@[k]).start.rank() == self.spans()[k].0
                        && out@[k].end.rank() == self.spans()[k].1,
            decreases self.spans@.len() - i,
        {
            let s = self.spans[i];
            out.push(s.start..s.end);
            i += 1;
        }
        out
    }
}

impl<T: Key> Clone for RangeSet<T> {
    /// A copy with the same ranges.
    fn clone(&self) -> (r: RangeSet<T>)
        ensures
            r.spans() == self.spans(),
            r@ == self@,
    {
        let mut out: Vec<Span<T>> = Vec::new();
        let mut i: usize = 0;
        while i < self.spans.len()
            invariant
                0 <= i <= self.spans@.len(),
                out@ == self.spans@.take(i as int),
            decreases self.spans@.len() - i,
        {
            out.push(self.spans[i]);
            assert(self.spans@.take(i + 1) =~= self.spans@.take(i as int).push(self.spans@[i as int]));
            i += 1;
        }
        assert(self.spans@.take(self.spans@.len() as int) =~= self.spans@);
        RangeSet { spans: out }
    }
}

/// What is left of the range `span` when the number `x` in it is taken out.
pub open spec fn pieces(span: (int, int), x: int) -> Seq<(int, int)> {
    let left = if span.0 < x {
        seq![(span.0, x)]
    } else {
        Seq::<(int, int)>::empty()
    };
    let right = if x + 1 < span.1 {
        seq![(x + 1, span.1)]
    } else {
        Seq::<(int, int)>::empty()
    };
    left + right
}

/// Two lists one after the other cover what either covers.
pub proof fn lemma_covered_concat(a: Seq<(int, int)>, b: Seq<(int, int)>)
    ensures
        covered(a + b) == covered(a).union(covered(b)),
{
    let l = covered(a + b);
    let r = covered(a).union(covered(b));
    assert forall|x: int| l.contains(x) == r.contains(x) by {
        if l.contains(x) {
            let i = choose|i: int| 0 <= i < (a + b).len() && in_span(#[trigger] (a + b)[i], x);
            if i < a.len() {
                assert(in_span(a[i], x));
            } else {
                assert(in_span(b[i - a.len()], x));
            }
        }
        if covered(a).contains(x) {
            let i = choose|i: int| 0 <= i < a.len() && in_span(#[trigger] a[i], x);
            assert(in_span((a + b)[i], x));
        }
        if covered(b).contains(x) {
            let i = choose|i: int| 0 <= i < b.len() && in_span(#[trigger] b[i], x);
            assert(in_span((a + b)[i + a.len()], x));
        }
    }
    assert(l =~= r);
}

/// Cutting the number `x` out of the range that holds it keeps the list
/// canonical and takes exactly `x` from what it covers.
pub proof fn lemma_remove_point(spans: Seq<(int, int)>, i: int, x: int)
    requires
        canonical(spans),
        0 <= i < spans.len(),
        in_span(spans[i], x),
    ensures
        canonical(spans.take(i) + pieces(spans[i], x) + spans.skip(i + 1)),
        covered(spans.take(i) + pieces(spans[i], x) + spans.skip(i + 1)) == covered(spans).remove(x),
{
    let head = spans.take(i);
    let mid = pieces(spans[i], x);
    let tail = spans.skip(i + 1);
    let res = head + mid + tail;
    assert forall|k: int| 0 <= k < mid.len() implies spans[i].0 <= (#[trigger] mid[k]).0 && mid[k].0
        < mid[k].1 && mid[k].1 <= spans[i].1 by {}
    assert forall|k: int, l: int| 0 <= k < l < mid.len() implies (#[trigger] mid[k]).1 < (
    #[trigger] mid[l]).0 by {}
    assert forall|k: int| 0 <= k < res.len() implies (#[trigger] res[k]).0 < res[k].1 by {
        if k < head.len() {
            assert(res[k] == spans[k]);
        } else if k < head.len() + mid.len() {
            assert(res[k] == mid[k - head.len()]);
        } else {
            assert(res[k] == spans[k - mid.len() + 1]);
        }
    }
    assert forall|k: int, l: int| 0 <= k < l < res.len() implies (#[trigger] res[k]).1 < (
    #[trigger] res[l]).0 by {
        let lo = if k < head.len() {
            assert(res[k] == spans[k]);
            spans[k]
        } else if k < head.len() + mid.len() {
            assert(res[k] == mid[k - head.len()]);
            mid[k - head.len()]
        } else {
            assert(res[k] == spans[k - mid.len() + 1]);
            spans[k - mid.len() + 1]
        };
        if l < head.len() {
            assert(res[l] == spans[l]);
        } else if l < head.len() + mid.len() {
            assert(res[l] == mid[l - head.len()]);
            if k < head.len() {
                assert(spans[k].1 < spans[i].0);
            }
        } else {
            assert(res[l] == spans[l - mid.len() + 1]);
            if k < head.len() {
                assert(spans[k].1 < spans[l - mid.len() + 1].0);
            } else if k < head.len() + mid.len() {
                assert(spans[i].1 < spans[l - mid.len() + 1].0);
            } else {
                assert(spans[k - mid.len() + 1].1 < spans[l - mid.len() + 1].0);
            }
        }
    }
    lemma_covered_concat(head + mid, tail);
    lemma_covered_concat(head, mid);
    assert(spans =~= head + seq![spans[i]] + tail);
    lemma_covered_concat(head + seq![spans[i]], tail);
    lemma_covered_concat(head, seq![spans[i]]);
    let one = covered(seq![spans[i]]);
    assert forall|y: int| covered(mid).contains(y) == (one.contains(y) && y != x) by {
        if covered(mid).contains(y) {
            let k = choose|k: int| 0 <= k < mid.len() && in_span(#[trigger] mid[k], y);
            assert(in_span(seq![spans[i]][0], y));
        }
        if one.contains(y) && y != x {
            let k = choose|k: int| 0 <= k < 1 && in_span(#[trigger] seq![spans[i]][k], y);
            if y < x {
                assert(in_span(mid[0], y));
            } else {
                assert(in_span(mid[mid.len() - 1], y));
            }
        }
    }
    assert(!covered(head).contains(x)) by {
        if covered(head).contains(x) {
            let k = choose|k: int| 0 <= k < head.len() && in_span(#[trigger] head[k], x);
            assert(spans[k].1 < spans[i].0);
        }
    }
    assert(!covered(tail).contains(x)) by {
        if covered(tail).contains(x) {
            let k = choose|k: int| 0 <= k < tail.len() && in_span(#[trigger] tail[k], x);
            assert(spans[i].1 < spans[k + i + 1].0);
        }
    }
    assert forall|y: int| covered(res).contains(y) == covered(spans).remove(x).contains(y) by {
        assert(covered(res).contains(y) == (covered(head).contains(y) || covered(mid).contains(y)
            || covered(tail).contains(y)));
        assert(covered(spans).contains(y) == (covered(head).contains(y) || one.contains(y)
            || covered(tail).contains(y)));
    }
    assert(covered(res) =~= covered(spans).remove(x));
}

/// Whether two ranges overlap or touch.
fn unionable<T: Key>(x: &Span<T>, y: &Span<T>) -> (r: bool)
    ensures
        r == mergeable((x.start.rank(), x.end.rank()), (y.start.rank(), y.end.rank())),
{
    if !y.start.less(&x.start) {
        !x.end.less(&y.start)
    } else {
        !y.end.less(&x.start)
    }
}

/// The least range that holds both `x` and `y`.
fn union<T: Key>(x: Span<T>, y: Span<T>) -> (r: Span<T>)
    ensures
        r.start.rank() == if x.start.rank() <= y.start.rank() {
            x.start.rank()
        } else {
            y.start.rank()
        },
        r.end.rank() == if x.end.rank() >= y.end.rank() {
            x.end.rank()
        } else {
            y.end.rank()
        },
{
    Span {
        start: if y.start.less(&x.start) {
            y.start
        } else {
            x.start
        },
        end: if x.end.less(&y.end) {
            y.end
        } else {
            x.end
        },
    }
}

/// The pairs of the places of start and end of a list of stored ranges.
pub open spec fn span_seq<T: Key>(spans: Seq<Span<T>>) -> Seq<(int, int)> {
    Seq::new(spans.len(), |i: int| (spans[i].start.rank(), spans[i].end.rank()))
}

/// Adding the same numbers to both sides keeps two unions equal.
proof fn lemma_union_step(a: Set<int>, b: Set<int>, c: Set<int>, d: Set<int>, e: Set<int>)
    requires
        a.union(b) == c.union(d),
    ensures
        a.union(e).union(b) == c.union(e).union(d),
        a.union(b.union(e)) == c.union(e).union(d),
{
    assert forall|x: int| a.union(e).union(b).contains(x) == c.union(e).union(d).contains(x) by {
        assert(a.union(b).contains(x) == c.union(d).contains(x));
        assert(a.union(b).contains(x) == (a.contains(x) || b.contains(x)));
        assert(c.union(d).contains(x) == (c.contains(x) || d.contains(x)));
    }
    assert(a.union(e).union(b) =~= c.union(e).union(d));
    assert(a.union(b.union(e)) =~= a.union(e).union(b));
}

/// A range appended to a list adds its numbers to what the list covers.
pub proof fn lemma_covered_push(spans: Seq<(int, int)>, last: (int, int))
    ensures
        covered(spans.push(last)) == covered(spans).union(span_set(last.0, last.1)),
{
    let a = covered(spans.push(last));
    let b = covered(spans).union(span_set(last.0, last.1));
    assert forall|x: int| a.contains(x) <==> b.contains(x) by {
        if a.contains(x) {
            let i = choose|i: int| 0 <= i < spans.push(last).len() && in_span(#[trigger] spans.push(last)[i], x);
            if i < spans.len() {
                assert(in_span(spans[i], x));
            }
        }
        if b.contains(x) {
            if covered(spans).contains(x) {
                let i = choose|i: int| 0 <= i < spans.len() && in_span(#[trigger] spans[i], x);
                assert(in_span(spans.push(last)[i], x));
            } else {
                assert(in_span(spans.push(last)[spans.len() as int], x));
            }
        }
    }
    assert(a =~= b);
}

/// In a canonical list no two ranges overlap or touch: none could be merged
/// with another.
pub proof fn lemma_canonical_unmergeable(spans: Seq<(int, int)>, i: int, j: int)
    requires
        canonical(spans),
        0 <= i < spans.len(),
        0 <= j < spans.len(),
        i != j,
    ensures
        !mergeable(spans[i], spans[j]),
{
    if i < j {
        assert(spans[i].1 < spans[j].0);
    } else {
        assert(spans[j].1 < spans[i].0);
    }
}

/// A set of numbers has at most one canonical list of ranges: how a set is
/// stored depends on what it holds, not on how it came about.
pub proof fn lemma_canonical_unique(a: Seq<(int, int)>, b: Seq<(int, int)>)
    requires
        canonical(a),
        canonical(b),
        covered(a) == covered(b),
    ensures
        a == b,
    decreases a.len(),
{
    if a.len() == 0 {
        if b.len() > 0 {
            assert(in_span(b[0], b[0].0));
            assert(covered(b).contains(b[0].0));
            let k = choose|k: int| 0 <= k < a.len() && in_span(#[trigger] a[k], b[0].0);
        }
        assert(a =~= b);
    } else {
        assert(in_span(a[0], a[0].0));
        assert(covered(a).contains(a[0].0));
        let kb = choose|k: int| 0 <= k < b.len() && in_span(#[trigger] b[k], a[0].0);
        assert(in_span(b[0], b[0].0));
        assert(covered(b).contains(b[0].0));
        let ka = choose|k: int| 0 <= k < a.len() && in_span(#[trigger] a[k], b[0].0);
        if kb > 0 {
            assert(b[0].1 < b[kb].0);
        }
        if ka > 0 {
            assert(a[0].1 < a[ka].0);
        }
        assert(a[0].0 == b[0].0);
        if a[0].1 < b[0].1 {
            assert(in_span(b[0], a[0].1));
            assert(covered(b).contains(a[0].1));
            let k = choose|k: int| 0 <= k < a.len() && in_span(#[trigger] a[k], a[0].1);
            if k > 0 {
                assert(a[0].1 < a[k].0);
            }
        }
        if b[0].1 < a[0].1 {
            assert(in_span(a[0], b[0].1));
            assert(covered(a).contains(b[0].1));
            let k = choose|k: int| 0 <= k < b.len() && in_span(#[trigger] b[k], b[0].1);
            if k > 0 {
                assert(b[0].1 < b[k].0);
            }
        }
        assert(a[0] == b[0]);
        let ra = a.skip(1);
        let rb = b.skip(1);
        assert(a =~= seq![a[0]] + ra);
        assert(b =~= seq![b[0]] + rb);
        lemma_covered_concat(seq![a[0]], ra);
        lemma_covered_concat(seq![b[0]], rb);
        assert forall|x: int| covered(ra).contains(x) == covered(rb).contains(x) by {
            assert(covered(a).contains(x) == covered(b).contains(x));
            if covered(ra).contains(x) {
                let k = choose|k: int| 0 <= k < ra.len() && in_span(#[trigger] ra[k], x);
                assert(ra[k] == a[k + 1]);
                assert(a[0].1 < a[k + 1].0);
                assert(covered(a).contains(x));
                if covered(seq![b[0]]).contains(x) {
                    let l = choose|l: int| 0 <= l < 1 && in_span(#[trigger] seq![b[0]][l], x);
                }
            }
            if covered(rb).contains(x) {
                let k = choose|k: int| 0 <= k < rb.len() && in_span(#[trigger] rb[k], x);
                assert(rb[k] == b[k + 1]);
                assert(b[0].1 < b[k + 1].0);
                assert(covered(b).contains(x));
                if covered(seq![a[0]]).contains(x) {
                    let l = choose|l: int| 0 <= l < 1 && in_span(#[trigger] seq![a[0]][l], x);
                }
            }
        }
        assert(covered(ra) =~= covered(rb));
        assert(canonical(ra)) by {
            assert forall|i: int, j: int| 0 <= i < j < ra.len() implies (#[trigger] ra[i]).1 < (
            #[trigger] ra[j]).0 by {
                assert(a[i + 1].1 < a[j + 1].0);
            }
        }
        assert(canonical(rb)) by {
            assert forall|i: int, j: int| 0 <= i < j < rb.len() implies (#[trigger] rb[i]).1 < (
            #[trigger] rb[j]).0 by {
                assert(b[i + 1].1 < b[j + 1].0);
            }
        }
        lemma_canonical_unique(ra, rb);
    }
}

/// Union law. Start from the empty set and insert the ranges of `inserted`,
/// given by the places of their starts and ends, one after the other, `states[i + 1]` being the set after the insertion of
/// `inserted[i]`. The last set then holds exactly the numbers that lie in some
/// inserted range, no two of its stored ranges could be merged, and its stored
/// ranges are those of any other canonical list that covers the same numbers,
/// whatever the order of insertion was.
pub proof fn lemma_union_law<T: Key>(states: Seq<RangeSet<T>>, inserted: Seq<(int, int)>)
    requires
        states.len() == inserted.len() + 1,
        states[0].wf(),
        states[0]@ == Set::<int>::empty(),
        forall|i: int|
            0 <= i < inserted.len() ==> (#[trigger] states[i + 1]).wf() && states[i + 1]@
                == states[i]@.union(span_set(inserted[i].0, inserted[i].1)),
    ensures
        states.last().wf(),
        states.last()@ == covered(inserted),
        forall|i: int, j: int|
            0 <= i < states.last().spans().len() && 0 <= j < states.last().spans().len() && i != j
                ==> !mergeable(#[trigger] states.last().spans()[i], #[trigger] states.last().spans()[j]),
        forall|other: Seq<(int, int)>|
            canonical(other) && covered(other) == covered(inserted) ==> other
                == #[trigger] states.last().spans(),
    decreases inserted.len(),
{
    let last = states.last();
    if inserted.len() == 0 {
        assert(covered(inserted) =~= Set::<int>::empty());
    } else {
        let n = inserted.len() as int;
        let prev_states = states.drop_last();
        let prev = inserted.drop_last();
        assert forall|i: int| 0 <= i < prev.len() implies (#[trigger] prev_states[i + 1]).wf()
            && prev_states[i + 1]@ == prev_states[i]@.union(span_set(prev[i].0, prev[i].1)) by {
            assert(states[i + 1].wf());
        }
        lemma_union_law(prev_states, prev);
        assert(prev_states.last() == states[n - 1]);
        assert(states[n - 1 + 1].wf());
        assert(inserted =~= prev.push(inserted[n - 1]));
        lemma_covered_push(prev, inserted[n - 1]);
    }
    assert forall|i: int, j: int|
        0 <= i < last.spans().len() && 0 <= j < last.spans().len() && i != j implies !mergeable(
        #[trigger] last.spans()[i],
        #[trigger] last.spans()[j],
    ) by {
        lemma_canonical_unmergeable(last.spans(), i, j);
    }
    assert forall|other: Seq<(int, int)>|
        canonical(other) && covered(other) == covered(inserted) implies other
        == #[trigger] last.spans() by {
        lemma_canonical_unique(other, last.spans());
    }
}

/// Remove law. Let `after` be the set that `remove(x)` leaves of `before`, and
/// `found` what it returned. Then `x` is not in `after`, every other number is
/// in `after` exactly if it was in `before`, and where `x` was not in `before`
/// the call returned `false` and left the set, and its stored ranges, as they were.
pub proof fn lemma_remove_law<T: Key>(before: RangeSet<T>, after: RangeSet<T>, x: int, found: bool)
    requires
        before.wf(),
        after.wf(),
        found == before@.contains(x),
        after@ == before@.remove(x),
    ensures
        !after@.contains(x),
        forall|y: int| y != x ==> after@.contains(y) == before@.contains(y),
        !before@.contains(x) ==> !found && after@ == before@ && after.spans() == before.spans(),
{
    if !before@.contains(x) {
        assert(after@ =~= before@);
        lemma_canonical_unique(after.spans(), before.spans());
    }
}

/// Two sets that hold the same keys store the same ranges.
pub proof fn lemma_same_keys_same_ranges<T: Key>(a: RangeSet<T>, b: RangeSet<T>)
    requires
        a.wf(),
        b.wf(),
        a@ == b@,
    ensures
        a.spans() == b.spans(),
{
    lemma_canonical_unique(a.spans(), b.spans());
}

/// Insertion is idempotent and does not depend on the order. Let `once` be
/// what inserting a range into `start` gives and `twice` what inserting the
/// same range into `once` gives: they store the same ranges. Let `first_way` be
/// what inserting one range and then another into `start` gives, and
/// `other_way` what inserting them the other way round gives: they store the
/// same ranges.
pub proof fn lemma_insert_laws<T: Key>(
    start: RangeSet<T>,
    range: (int, int),
    other: (int, int),
    once: RangeSet<T>,
    twice: RangeSet<T>,
    first_way: RangeSet<T>,
    other_way: RangeSet<T>,
)
    requires
        once.wf(),
        twice.wf(),
        first_way.wf(),
        other_way.wf(),
        once@ == start@.union(span_set(range.0, range.1)),
        twice@ == once@.union(span_set(range.0, range.1)),
        first_way@ == once@.union(span_set(other.0, other.1)),
        other_way@ == start@.union(span_set(other.0, other.1)).union(span_set(range.0, range.1)),
    ensures
        twice.spans() == once.spans(),
        other_way.spans() == first_way.spans(),
{
    assert(twice@ =~= once@);
    assert(other_way@ =~= first_way@);
    lemma_same_keys_same_ranges(twice, once);
    lemma_same_keys_same_ranges(other_way, first_way);
}

} // verus!
