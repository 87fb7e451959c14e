//! Host bandwidth: a completion-counted numerator over a device-wide clock.
//! Device activity is kept as a union of half-open intervals, so overlapping
//! or queued requests are counted once in wall-clock time, never as a sum of
//! latencies. Unknown coverage never turns an unobserved gap into idle time.
use vstd::prelude::*;
use vstd::set_lib::{set_int_range, lemma_int_range, lemma_len_subset, lemma_set_disjoint_lens};

verus! {

/// `x` lies in the half-open span `[p.0, p.1)`.
pub open spec fn span_has(p: (u64, u64), x: int) -> bool {
    p.0 <= x < p.1
}

/// `x` lies in one of the spans.
pub open spec fn covers(spans: Seq<(u64, u64)>, x: int) -> bool
    decreases spans.len(),
{
    if spans.len() == 0 {
        false
    } else {
        covers(spans.drop_last(), x) || span_has(spans.last(), x)
    }
}

/// Canonical form of a union: every span is non-empty and each span ends
/// strictly before the next one starts (overlapping or touching spans are
/// merged), so the spans are sorted and the form is unique.
pub open spec fn normalized(spans: Seq<(u64, u64)>) -> bool {
    &&& forall|i: int| 0 <= i < spans.len() ==> (#[trigger] spans[i]).0 < spans[i].1
    &&& forall|i: int, j: int| 0 <= i < j < spans.len() ==> (#[trigger] spans[i]).1 < (#[trigger] spans[j]).0
}

proof fn lemma_covers_push(spans: Seq<(u64, u64)>, p: (u64, u64), x: int)
    ensures
        covers(spans.push(p), x) == (covers(spans, x) || span_has(p, x)),
{
    assert(spans.push(p).drop_last() == spans);
}

/// `covers` holds exactly when some span holds the point.
pub proof fn lemma_covers_index(spans: Seq<(u64, u64)>, x: int)
    ensures
        covers(spans, x) <==> exists|j: int| 0 <= j < spans.len() && span_has(#[trigger] spans[j], x),
    decreases spans.len(),
{
    if spans.len() > 0 {
        let init = spans.drop_last();
        lemma_covers_index(init, x);
        if covers(init, x) {
            let j = choose|j: int| 0 <= j < init.len() && span_has(#[trigger] init[j], x);
            assert(spans[j] == init[j]);
        }
        if exists|j: int| 0 <= j < spans.len() && span_has(#[trigger] spans[j], x) {
            let j = choose|j: int| 0 <= j < spans.len() && span_has(#[trigger] spans[j], x);
            if j < spans.len() - 1 {
                assert(init[j] == spans[j]);
            }
        }
    }
}

/// The instants covered by the spans.
pub open spec fn points(spans: Seq<(u64, u64)>) -> Set<int> {
    Set::new(|x: int| covers(spans, x))
}

/// The instants of `[lo, hi)`.
pub open spec fn instants(lo: int, hi: int) -> Set<int> {
    Set::new(|x: int| lo <= x < hi)
}

proof fn lemma_points_push(spans: Seq<(u64, u64)>, p: (u64, u64))
    ensures
        points(spans.push(p)) == points(spans) + instants(p.0 as int, p.1 as int),
{
    assert forall|x: int| #[trigger] points(spans.push(p)).contains(x) == (points(spans) + instants(p.0 as int, p.1 as int)).contains(x) by {
        lemma_covers_push(spans, p, x);
    }
    assert(points(spans.push(p)) =~= points(spans) + instants(p.0 as int, p.1 as int));
}

proof fn lemma_points_take(spans: Seq<(u64, u64)>, i: int)
    requires
        0 <= i < spans.len(),
    ensures
        points(spans.take(i + 1)) == points(spans.take(i)) + instants(spans[i].0 as int, spans[i].1 as int),
{
    assert(spans.take(i + 1) == spans.take(i).push(spans[i]));
    lemma_points_push(spans.take(i), spans[i]);
}

/// Two intervals that touch or overlap form one interval.
proof fn lemma_instants_join(lo: int, hi: int, a: int, b: int)
    requires
        a <= hi,
        b >= lo,
    ensures
        instants(lo, hi) + instants(a, b) == instants(if a < lo { a } else { lo }, if b > hi { b } else { hi }),
{
    assert(instants(lo, hi) + instants(a, b) =~= instants(if a < lo { a } else { lo }, if b > hi { b } else { hi }));
}

/// `p` cut to `[start, end)`.
pub open spec fn clip(p: (u64, u64), start: u64, end: u64) -> (u64, u64) {
    (if p.0 > start { p.0 } else { start }, if p.1 < end { p.1 } else { end })
}

/// The non-empty parts of the spans inside `[start, end)`, in order.
pub open spec fn clip_all(spans: Seq<(u64, u64)>, start: u64, end: u64) -> Seq<(u64, u64)>
    decreases spans.len(),
{
    if spans.len() == 0 {
        seq![]
    } else {
        let rest = clip_all(spans.drop_last(), start, end);
        let c = clip(spans.last(), start, end);
        if c.0 < c.1 { rest.push(c) } else { rest }
    }
}

/// Sum of the span lengths.
pub open spec fn span_total(spans: Seq<(u64, u64)>) -> int
    decreases spans.len(),
{
    if spans.len() == 0 {
        0
    } else {
        span_total(spans.drop_last()) + (spans.last().1 - spans.last().0)
    }
}

/// The covered instants of `[start, end)`.
pub open spec fn busy_points(spans: Seq<(u64, u64)>, start: u64, end: u64) -> Set<int> {
    points(spans).intersect(instants(start as int, end as int))
}

proof fn lemma_instants_len(lo: int, hi: int)
    ensures
        instants(lo, hi).finite(),
        instants(lo, hi).len() == (if lo < hi { hi - lo } else { 0 }),
{
    if lo < hi {
        lemma_int_range(lo, hi);
        assert(instants(lo, hi) =~= set_int_range(lo, hi));
    } else {
        assert(instants(lo, hi) =~= Set::<int>::empty());
    }
}

/// The covered instants of a normalized union lie before its last span.
proof fn lemma_points_before_last(spans: Seq<(u64, u64)>, x: int)
    requires
        normalized(spans),
        spans.len() > 0,
        covers(spans.drop_last(), x),
    ensures
        x < spans.last().0 - 1,
{
    let init = spans.drop_last();
    lemma_covers_index(init, x);
    let j = choose|j: int| 0 <= j < init.len() && span_has(#[trigger] init[j], x);
    assert(spans[j] == init[j]);
    assert(spans[j].1 < spans[spans.len() - 1].0);
}

/// On a normalized union the clipped lengths add up to the number of covered
/// instants: no instant is counted twice.
pub proof fn lemma_busy_total(spans: Seq<(u64, u64)>, start: u64, end: u64)
    requires
        normalized(spans),
    ensures
        busy_points(spans, start, end).finite(),
        span_total(clip_all(spans, start, end)) == busy_points(spans, start, end).len(),
        busy_points(spans, start, end).len() <= (if start < end { end - start } else { 0 }),
    decreases spans.len(),
{
    let all = instants(start as int, end as int);
    lemma_instants_len(start as int, end as int);
    lemma_len_subset(busy_points(spans, start, end), all);
    if spans.len() == 0 {
        assert(busy_points(spans, start, end) =~= Set::<int>::empty());
    } else {
        let init = spans.drop_last();
        let last = spans.last();
        assert(normalized(init)) by {
            assert forall|i: int, j: int| 0 <= i < j < init.len() implies (#[trigger] init[i]).1 < (#[trigger] init[j]).0 by {
                assert(init[i] == spans[i] && init[j] == spans[j]);
            }
        }
        lemma_busy_total(init, start, end);
        let c = clip(last, start, end);
        let a = busy_points(init, start, end);
        let b = instants(c.0 as int, c.1 as int);
        lemma_instants_len(c.0 as int, c.1 as int);
        assert(spans == init.push(last));
        lemma_points_push(init, last);
        assert(busy_points(spans, start, end) =~= a + b);
        assert forall|x: int| a.contains(x) implies !b.contains(x) by {
            lemma_points_before_last(spans, x);
        }
        assert(a.disjoint(b));
        lemma_set_disjoint_lens(a, b);
        let rest = clip_all(init, start, end);
        if c.0 < c.1 {
            assert(rest.push(c).drop_last() == rest);
        }
    }
}

/// Clipping keeps exactly the covered instants of `[start, end)`.
pub proof fn lemma_clip_points(spans: Seq<(u64, u64)>, start: u64, end: u64)
    ensures
        points(clip_all(spans, start, end)) == busy_points(spans, start, end),
    decreases spans.len(),
{
    if spans.len() == 0 {
        assert(points(clip_all(spans, start, end)) =~= busy_points(spans, start, end));
    } else {
        let init = spans.drop_last();
        let last = spans.last();
        lemma_clip_points(init, start, end);
        assert(spans == init.push(last));
        lemma_points_push(init, last);
        let rest = clip_all(init, start, end);
        let c = clip(last, start, end);
        if c.0 < c.1 {
            lemma_points_push(rest, c);
        }
        assert(points(clip_all(spans, start, end)) =~= busy_points(spans, start, end));
    }
}

proof fn lemma_normalized_init(spans: Seq<(u64, u64)>)
    requires
        normalized(spans),
        spans.len() > 0,
    ensures
        normalized(spans.drop_last()),
{
    let init = spans.drop_last();
    assert forall|i: int, j: int| 0 <= i < j < init.len() implies (#[trigger] init[i]).1 < (#[trigger] init[j]).0 by {
        assert(init[i] == spans[i] && init[j] == spans[j]);
    }
}

/// The last span of a normalized union is the maximal run of covered
/// instants at its top: everything before it ends before `last.0 - 1`.
proof fn lemma_last_span(spans: Seq<(u64, u64)>)
    requires
        normalized(spans),
        spans.len() > 0,
    ensures
        points(spans).contains(spans.last().1 - 1),
        forall|x: int| #[trigger] points(spans).contains(x) ==> x < spans.last().1,
        !points(spans).contains(spans.last().0 - 1),
        forall|x: int| spans.last().0 <= x < spans.last().1 ==> #[trigger] points(spans).contains(x),
        points(spans.drop_last()) == points(spans).difference(instants(spans.last().0 as int, spans.last().1 as int)),
{
    let init = spans.drop_last();
    let last = spans.last();
    assert(spans == init.push(last));
    lemma_points_push(init, last);
    assert forall|x: int| #[trigger] points(spans).contains(x) implies x < last.1 by {
        if covers(init, x) {
            lemma_points_before_last(spans, x);
        }
    }
    if covers(init, last.0 - 1) {
        lemma_points_before_last(spans, last.0 - 1);
    }
    assert forall|x: int| #[trigger] points(init).contains(x) implies x < last.0 by {
        lemma_points_before_last(spans, x);
    }
    assert(points(init) =~= points(spans).difference(instants(last.0 as int, last.1 as int)));
}

/// Two normalized unions that cover the same instants are the same union:
/// the canonical form is determined by the covered instants alone.
pub proof fn law_normalized_unique(a: Seq<(u64, u64)>, b: Seq<(u64, u64)>)
    requires
        normalized(a),
        normalized(b),
        points(a) == points(b),
    ensures
        a == b,
    decreases a.len() + b.len(),
{
    if a.len() == 0 && b.len() == 0 {
        assert(a =~= b);
    } else if a.len() == 0 {
        lemma_last_span(b);
        assert(!points(a).contains(b.last().1 - 1));
    } else if b.len() == 0 {
        lemma_last_span(a);
        assert(!points(b).contains(a.last().1 - 1));
    } else {
        lemma_last_span(a);
        lemma_last_span(b);
        let la = a.last();
        let lb = b.last();
        assert(la.1 == lb.1);
        if la.0 < lb.0 {
            assert(points(a).contains(lb.0 - 1));
        }
        if lb.0 < la.0 {
            assert(points(b).contains(la.0 - 1));
        }
        assert(la == lb);
        lemma_normalized_init(a);
        lemma_normalized_init(b);
        law_normalized_unique(a.drop_last(), b.drop_last());
        assert(a == a.drop_last().push(la));
        assert(b == b.drop_last().push(lb));
    }
}

/// Inserting the same intervals in either order gives the same union.
pub proof fn law_insert_order_irrelevant(u: Seq<(u64, u64)>, x: Seq<(u64, u64)>, y: Seq<(u64, u64)>, a1: u64, b1: u64, a2: u64, b2: u64)
    requires
        normalized(x),
        normalized(y),
        points(x) == points(u) + instants(a1 as int, b1 as int) + instants(a2 as int, b2 as int),
        points(y) == points(u) + instants(a2 as int, b2 as int) + instants(a1 as int, b1 as int),
    ensures
        x == y,
{
    assert(points(x) =~= points(y));
    law_normalized_unique(x, y);
}

/// A union of intervals on the device clock.
#[derive(Debug)]
pub struct IntervalUnion {
    spans: Vec<(u64, u64)>,
}

impl View for IntervalUnion {
    type V = Seq<(u64, u64)>;

    closed spec fn view(&self) -> Seq<(u64, u64)> {
        self.spans@
    }
}

impl IntervalUnion {
    #[verifier::type_invariant]
    spec fn well_formed(self) -> bool {
        normalized(self.spans@)
    }

    /// The empty union.
    pub fn new() -> (u: Self)
        ensures
            u@ == Seq::<(u64, u64)>::empty(),
    {
        IntervalUnion { spans: Vec::new() }
    }

    /// A copy holding the same spans.
    pub fn duplicate(&self) -> (r: Self)
        ensures
            r@ == self@,
    {
        proof { use_type_invariant(self); }
        let mut v: Vec<(u64, u64)> = Vec::new();
        let mut i: usize = 0;
        while i < self.spans.len()
            invariant
                i <= self.spans.len(),
                v@ == self.spans@.take(i as int),
            decreases self.spans.len() - i,
        {
            v.push(self.spans[i]);
            i += 1;
            assert(v@ == self.spans@.take(i as int));
        }
        assert(self.spans@.take(self.spans.len() as int) == self.spans@);
        IntervalUnion { spans: v }
    }

    /// The spans, in increasing order.
    pub fn spans(&self) -> (r: &Vec<(u64, u64)>)
        ensures
            r@ == self@,
            normalized(self@),
    {
        proof { use_type_invariant(self); }
        &self.spans
    }

    /// Adds `[start, end)`; an empty or reversed interval changes nothing.
    /// Overlapping and touching spans are merged into one.
    pub fn insert(&mut self, start: u64, end: u64)
        ensures
            normalized(final(self)@),
            start >= end ==> final(self)@ == old(self)@,
            start < end ==> points(final(self)@) == points(old(self)@) + instants(start as int, end as int),
    {
        proof { use_type_invariant(&*self); }
        if start >= end {
            return;
        }
        let ghost s = self.spans@;
        let n = self.spans.len();
        let mut out: Vec<(u64, u64)> = Vec::new();
        let mut i: usize = 0;
        while i < n && self.spans[i].1 < start
            invariant
                i <= n,
                n == s.len(),
                self.spans@ == s,
                normalized(s),
                out@ == s.take(i as int),
                forall|j: int| 0 <= j < i ==> (#[trigger] s[j]).1 < start,
            decreases n - i,
        {
            out.push(self.spans[i]);
            i += 1;
            assert(out@ == s.take(i as int));
        }
        let first = i;
        let mut lo = start;
        let mut hi = end;
        while i < n && self.spans[i].0 <= hi
            invariant
                first <= i <= n,
                n == s.len(),
                self.spans@ == s,
                normalized(s),
                lo <= start < end <= hi,
                first < n ==> s[first as int].1 >= start,
                i == first ==> lo == start,
                i > first ==> (lo == start || lo == s[first as int].0),
                i > first ==> s[i - 1].1 <= hi,
                points(s.take(i as int)) + instants(start as int, end as int) == points(s.take(first as int)) + instants(lo as int, hi as int),
            decreases n - i,
        {
            let (a, b) = self.spans[i];
            proof {
                assert(s[i as int] == (a, b));
                if i > first {
                    assert(s[first as int].1 < s[i as int].0);
                }
                lemma_points_take(s, i as int);
                lemma_instants_join(lo as int, hi as int, a as int, b as int);
                let pf = points(s.take(first as int));
                let pi = points(s.take(i as int));
                let st = instants(start as int, end as int);
                let ab = instants(a as int, b as int);
                let lh = instants(lo as int, hi as int);
                assert(pi + ab + st =~= (pi + st) + ab);
                assert(pf + lh + ab =~= pf + (lh + ab));
            }
            if a < lo {
                lo = a;
            }
            if b > hi {
                hi = b;
            }
            i += 1;
        }
        proof {
            if first > 0 {
                assert(s[first - 1].1 < start);
            }
            assert forall|j: int| 0 <= j < out.len() implies (#[trigger] out@[j]).1 < lo by {
                assert(out@[j] == s[j]);
                if lo != start {
                    assert(s[j].1 < s[first as int].0);
                }
            }
            lemma_points_push(out@, (lo, hi));
            assert(out@ == s.take(first as int));
        }
        out.push((lo, hi));
        while i < n
            invariant
                first <= i <= n,
                n == s.len(),
                self.spans@ == s,
                normalized(s),
                normalized(out@),
                out.len() > 0,
                i < n ==> out@.last().1 < s[i as int].0,
                points(out@) == points(s.take(i as int)) + instants(start as int, end as int),
            decreases n - i,
        {
            let p = self.spans[i];
            proof {
                let o = out@;
                lemma_points_push(o, p);
                lemma_points_take(s, i as int);
                let st = instants(start as int, end as int);
                let pp = instants(p.0 as int, p.1 as int);
                let pi = points(s.take(i as int));
                assert(pi + st + pp =~= pi + pp + st);
                assert forall|j: int| 0 <= j < o.len() implies (#[trigger] o[j]).1 < p.0 by {
                    if j < o.len() - 1 {
                        assert(o[j].1 < o[o.len() - 1].0);
                    }
                }
                if i + 1 < n {
                    assert(s[i as int].1 < s[i + 1].0);
                }
            }
            out.push(p);
            i += 1;
        }
        proof {
            assert(s.take(n as int) == s);
        }
        self.spans = out;
    }

    /// The parts of the union inside `[start, end)`, in order.
    pub fn clipped(&self, start: u64, end: u64) -> (r: Vec<(u64, u64)>)
        ensures
            r@ == clip_all(self@, start, end),
    {
        let mut r: Vec<(u64, u64)> = Vec::new();
        let mut i: usize = 0;
        while i < self.spans.len()
            invariant
                i <= self.spans.len(),
                r@ == clip_all(self.spans@.take(i as int), start, end),
            decreases self.spans.len() - i,
        {
            let (a, b) = self.spans[i];
            let lo = if a > start { a } else { start };
            let hi = if b < end { b } else { end };
            proof {
                assert(self.spans@.take(i + 1).drop_last() == self.spans@.take(i as int));
            }
            if lo < hi {
                r.push((lo, hi));
            }
            i += 1;
        }
        assert(self.spans@.take(self.spans.len() as int) == self.spans@);
        r
    }

    /// Busy time in `[start, end)`: the number of covered nanoseconds, each
    /// counted once however many spans or requests overlap it.
    pub fn duration(&self, start: u64, end: u64) -> (r: u64)
        ensures
            busy_points(self@, start, end).finite(),
            r == busy_points(self@, start, end).len(),
            r <= (if start < end { end - start } else { 0 }),
    {
        proof { use_type_invariant(self); }
        proof { lemma_busy_total(self.spans@, start, end); }
        if start >= end {
            return 0;
        }
        let ghost s = self.spans@;
        let mut total: u64 = 0;
        let mut i: usize = 0;
        while i < self.spans.len()
            invariant
                i <= self.spans.len(),
                self.spans@ == s,
                normalized(s),
                start < end,
                total == span_total(clip_all(s.take(i as int), start, end)),
            decreases self.spans.len() - i,
        {
            let (a, b) = self.spans[i];
            let lo = if a > start { a } else { start };
            let hi = if b < end { b } else { end };
            proof {
                let t = s.take(i + 1);
                assert(t.drop_last() == s.take(i as int));
                assert(normalized(t)) by {
                    assert forall|p: int, q: int| 0 <= p < q < t.len() implies (#[trigger] t[p]).1 < (#[trigger] t[q]).0 by {
                        assert(t[p] == s[p] && t[q] == s[q]);
                    }
                }
                lemma_busy_total(t, start, end);
                let rest = clip_all(s.take(i as int), start, end);
                if lo < hi {
                    assert(rest.push((lo, hi)).drop_last() == rest);
                }
            }
            if lo < hi {
                total = total + (hi - lo);
            }
            i += 1;
        }
        assert(s.take(s.len() as int) == s);
        total
    }
}


/// A block device as (major, minor).
pub type Device = (u32, u32);

/// Index of the first entry for `d`.
pub open spec fn find_device(devs: Seq<(Device, IntervalUnion)>, d: Device) -> Option<int>
    decreases devs.len(),
{
    if devs.len() == 0 {
        None
    } else {
        match find_device(devs.drop_last(), d) {
            Some(i) => Some(i),
            None => if devs.last().0 == d { Some(devs.len() - 1) } else { None },
        }
    }
}

/// The activity recorded for `d`: the spans of its first entry, or none.
pub open spec fn device_spans(devs: Seq<(Device, IntervalUnion)>, d: Device) -> Seq<(u64, u64)> {
    match find_device(devs, d) {
        Some(i) => devs[i].1@,
        None => Seq::empty(),
    }
}

proof fn lemma_find_device_bound(devs: Seq<(Device, IntervalUnion)>, d: Device)
    ensures
        find_device(devs, d) matches Some(i) ==> 0 <= i < devs.len() && devs[i].0 == d,
        find_device(devs, d) matches Some(i) ==> forall|k: int| 0 <= k < i ==> (#[trigger] devs[k]).0 != d,
        find_device(devs, d) is None ==> forall|k: int| 0 <= k < devs.len() ==> (#[trigger] devs[k]).0 != d,
    decreases devs.len(),
{
    if devs.len() > 0 {
        let init = devs.drop_last();
        lemma_find_device_bound(init, d);
        if let Some(i) = find_device(devs, d) {
            assert forall|k: int| 0 <= k < i implies (#[trigger] devs[k]).0 != d by {
                assert(init[k] == devs[k]);
            }
        }
        if find_device(devs, d) is None {
            assert forall|k: int| 0 <= k < devs.len() implies (#[trigger] devs[k]).0 != d by {
                if k < devs.len() - 1 {
                    assert(init[k] == devs[k]);
                }
            }
        }
        if let Some(i) = find_device(init, d) {
            assert(init[i] == devs[i]);
        }
    }
}

/// Changing entry `idx` (keeping its device) or appending an entry for a
/// device not yet listed leaves the first entry of each device in place.
proof fn lemma_find_device_update(devs: Seq<(Device, IntervalUnion)>, idx: int, e: (Device, IntervalUnion), d: Device)
    requires
        0 <= idx < devs.len(),
        devs[idx].0 == e.0,
    ensures
        find_device(devs.update(idx, e), d) == find_device(devs, d),
    decreases devs.len(),
{
    let u = devs.update(idx, e);
    if idx < devs.len() - 1 {
        assert(u.drop_last() == devs.drop_last().update(idx, e));
        lemma_find_device_update(devs.drop_last(), idx, e, d);
    } else {
        assert(u.drop_last() == devs.drop_last());
    }
}

/// `a` comes before `b` in (major, minor) order.
pub open spec fn device_before(a: Device, b: Device) -> bool {
    a.0 < b.0 || (a.0 == b.0 && a.1 < b.1)
}

/// Entries in ascending (major, minor) order, as a `BTreeMap` keeps them.
pub open spec fn devices_ordered(devs: Seq<(Device, IntervalUnion)>) -> bool {
    forall|i: int, j: int| 0 <= i < j < devs.len() ==> device_before((#[trigger] devs[i]).0, (#[trigger] devs[j]).0)
}

proof fn lemma_find_device_char(devs: Seq<(Device, IntervalUnion)>, d: Device, i: int)
    requires
        0 <= i < devs.len(),
        devs[i].0 == d,
        forall|k: int| 0 <= k < i ==> (#[trigger] devs[k]).0 != d,
    ensures
        find_device(devs, d) == Some(i),
    decreases devs.len(),
{
    let init = devs.drop_last();
    if i < devs.len() - 1 {
        assert forall|k: int| 0 <= k < i implies (#[trigger] init[k]).0 != d by {
            assert(init[k] == devs[k]);
        }
        assert(init[i] == devs[i]);
        lemma_find_device_char(init, d, i);
    } else {
        lemma_find_device_bound(init, d);
        if let Some(j) = find_device(init, d) {
            assert(init[j] == devs[j]);
        }
    }
}

/// Inserting an entry for a device not yet listed keeps every other
/// device's activity and finds the new device where it was put.
proof fn lemma_find_device_insert(devs: Seq<(Device, IntervalUnion)>, p: int, e: (Device, IntervalUnion), d: Device)
    requires
        0 <= p <= devs.len(),
        find_device(devs, e.0) is None,
    ensures
        d == e.0 ==> find_device(devs.insert(p, e), d) == Some(p),
        d != e.0 ==> device_spans(devs.insert(p, e), d) == device_spans(devs, d),
{
    let n = devs.insert(p, e);
    lemma_find_device_bound(devs, e.0);
    lemma_find_device_bound(devs, d);
    if d == e.0 {
        assert forall|k: int| 0 <= k < p implies (#[trigger] n[k]).0 != d by {
            assert(n[k] == devs[k]);
        }
        lemma_find_device_char(n, d, p);
    } else {
        lemma_find_device_bound(n, d);
        match find_device(devs, d) {
            Some(i) => {
                let j = if i < p { i } else { i + 1 };
                assert(n[j] == devs[i]);
                assert forall|k: int| 0 <= k < j implies (#[trigger] n[k]).0 != d by {
                    if k < p {
                        assert(n[k] == devs[k]);
                    } else if k > p {
                        assert(n[k] == devs[k - 1]);
                    } else {
                        assert(n[k] == e);
                    }
                }
                lemma_find_device_char(n, d, j);
            },
            None => {
                if let Some(j) = find_device(n, d) {
                    if j < p {
                        assert(n[j] == devs[j]);
                    } else if j > p {
                        assert(n[j] == devs[j - 1]);
                    }
                }
            },
        }
    }
}

/// Device-wide activity, collected before any view filter.
#[derive(Debug)]
pub struct ActivityTimeline {
    pub range: Option<(u64, u64)>,
    pub devices: Vec<(Device, IntervalUnion)>,
    pub observed_requests: u64,
    pub missing_issue: u64,
    /// Exact coverage must be supported by acquisition provenance, never
    /// inferred from zero drops alone or the retained event count.
    pub verified_complete: bool,
    pub limitation: Option<String>,
}

/// Text of the coverage explanation.
pub open spec fn missing_issue_text(n: u64) -> Seq<char> {
    crate::text::decimal(n as nat) + " requests have no measured issue timestamp"@
}

pub open spec fn complete_coverage_text() -> Seq<char> {
    "Complete device activity coverage"@
}

pub open spec fn unproven_coverage_text() -> Seq<char> {
    "Full, unfiltered block activity coverage is not proven for this source; detail gaps may be sampling, capture filters or loss"@
}

impl ActivityTimeline {
    /// An empty timeline with unproven coverage.
    pub fn new() -> (t: Self)
        ensures
            t.range is None,
            t.devices@.len() == 0,
            devices_ordered(t.devices@),
            t.observed_requests == 0,
            t.missing_issue == 0,
            !t.verified_complete,
            t.limitation is None,
    {
        ActivityTimeline {
            range: None,
            devices: Vec::new(),
            observed_requests: 0,
            missing_issue: 0,
            verified_complete: false,
            limitation: None,
        }
    }

    /// Widens the observed range to include `[start, end]`.
    pub fn observe_range(&mut self, start: u64, end: u64)
        ensures
            final(self).range == Some(match old(self).range {
                None => (start, end),
                Some((a, b)) => (if a < start { a } else { start }, if b > end { b } else { end }),
            }),
            final(self).devices@ == old(self).devices@,
            final(self).observed_requests == old(self).observed_requests,
            final(self).missing_issue == old(self).missing_issue,
            final(self).verified_complete == old(self).verified_complete,
            final(self).limitation == old(self).limitation,
    {
        self.range = Some(match self.range {
            None => (start, end),
            Some((a, b)) => (if a < start { a } else { start }, if b > end { b } else { end }),
        });
    }

    /// Position of the first entry for `device`.
    fn position(&self, device: Device) -> (r: Option<usize>)
        ensures
            r matches Some(i) ==> find_device(self.devices@, device) == Some(i as int),
            r is None ==> find_device(self.devices@, device) is None,
    {
        let mut i: usize = 0;
        while i < self.devices.len()
            invariant
                i <= self.devices.len(),
                find_device(self.devices@.take(i as int), device) is None,
            decreases self.devices.len() - i,
        {
            proof {
                assert(self.devices@.take(i + 1).drop_last() == self.devices@.take(i as int));
            }
            let key = self.devices[i].0;
            if key.0 == device.0 && key.1 == device.1 {
                proof { lemma_find_prefix(self.devices@, i + 1, device); }
                return Some(i);
            }
            i += 1;
        }
        assert(self.devices@.take(self.devices.len() as int) == self.devices@);
        None
    }

    /// Makes sure `device` has an entry, adding an empty one in (major,
    /// minor) order.
    fn ensure_device(&mut self, device: Device) -> (idx: usize)
        ensures
            idx < final(self).devices@.len(),
            find_device(final(self).devices@, device) == Some(idx as int),
            forall|d: Device| #[trigger] device_spans(final(self).devices@, d) == device_spans(old(self).devices@, d),
            devices_ordered(old(self).devices@) ==> devices_ordered(final(self).devices@),
            final(self).range == old(self).range,
            final(self).observed_requests == old(self).observed_requests,
            final(self).missing_issue == old(self).missing_issue,
            final(self).verified_complete == old(self).verified_complete,
            final(self).limitation == old(self).limitation,
    {
        match self.position(device) {
            Some(i) => {
                proof { lemma_find_device_bound(self.devices@, device); }
                i
            },
            None => {
                let ghost before = self.devices@;
                let mut p: usize = 0;
                while p < self.devices.len()
                    invariant
                        p <= self.devices@.len(),
                        self.devices@ == before,
                        find_device(before, device) is None,
                        devices_ordered(before) ==> forall|k: int| 0 <= k < p ==> device_before((#[trigger] before[k]).0, device),
                    ensures
                        p <= before.len(),
                        self.devices@ == before,
                        devices_ordered(before) ==> forall|k: int| 0 <= k < p ==> device_before((#[trigger] before[k]).0, device),
                        p < before.len() ==> device_before(device, before[p as int].0),
                    decreases self.devices.len() - p,
                {
                    let key = self.devices[p].0;
                    if device.0 < key.0 || (device.0 == key.0 && device.1 < key.1) {
                        break;
                    }
                    proof {
                        lemma_find_device_bound(before, device);
                        if devices_ordered(before) {
                            assert(before[p as int].0 != device);
                        }
                    }
                    p += 1;
                }
                proof { lemma_find_device_bound(before, device); }
                let e = (device, IntervalUnion::new());
                self.devices.insert(p, e);
                proof {
                    assert(self.devices@ == before.insert(p as int, e));
                    assert forall|d: Device| #[trigger] device_spans(self.devices@, d) == device_spans(before, d) by {
                        lemma_find_device_insert(before, p as int, e, d);
                        if d == device {
                            lemma_find_device_bound(before, d);
                        }
                    }
                    lemma_find_device_insert(before, p as int, e, device);
                    if devices_ordered(before) {
                        let n = self.devices@;
                        assert forall|i: int, j: int| 0 <= i < j < n.len() implies device_before((#[trigger] n[i]).0, (#[trigger] n[j]).0) by {
                            if j < p {
                                assert(n[i] == before[i] && n[j] == before[j]);
                            } else if j == p {
                                assert(n[i] == before[i]);
                            } else if i > p {
                                assert(n[i] == before[i - 1] && n[j] == before[j - 1]);
                            } else if i == p {
                                assert(n[j] == before[j - 1]);
                                if p < before.len() {
                                    assert(device_before(device, before[p as int].0));
                                    if j - 1 > p {
                                        assert(device_before(before[p as int].0, before[j - 1].0));
                                    }
                                }
                            } else {
                                assert(n[i] == before[i] && n[j] == before[j - 1]);
                            }
                        }
                    }
                }
                p
            },
        }
    }

    /// Records that `device` was busy during `[start, end)`.
    pub fn record_activity(&mut self, device: Device, start: u64, end: u64)
        ensures
            forall|d: Device| d != device ==> #[trigger] device_spans(final(self).devices@, d) == device_spans(old(self).devices@, d),
            start < end ==> points(device_spans(final(self).devices@, device)) == points(device_spans(old(self).devices@, device)) + instants(start as int, end as int),
            start >= end ==> device_spans(final(self).devices@, device) == device_spans(old(self).devices@, device),
            find_device(final(self).devices@, device) is Some,
            devices_ordered(old(self).devices@) ==> devices_ordered(final(self).devices@),
            final(self).range == old(self).range,
            final(self).observed_requests == old(self).observed_requests,
            final(self).missing_issue == old(self).missing_issue,
            final(self).verified_complete == old(self).verified_complete,
            final(self).limitation == old(self).limitation,
    {
        let idx = self.ensure_device(device);
        let ghost mid = self.devices@;
        proof { lemma_find_device_bound(mid, device); }
        let mut u = self.devices[idx].1.duplicate();
        u.insert(start, end);
        let e = (device, u);
        self.devices.set(idx, e);
        proof {
            assert forall|d: Device| #[trigger] find_device(self.devices@, d) == find_device(mid, d) by {
                lemma_find_device_update(mid, idx as int, e, d);
            }
            assert forall|d: Device| d != device implies #[trigger] device_spans(self.devices@, d) == device_spans(mid, d) by {
                lemma_find_device_bound(mid, d);
                if let Some(j) = find_device(mid, d) {
                    assert(j != idx);
                    assert(self.devices@[j] == mid[j]);
                }
            }
            assert(device_spans(self.devices@, device) == u@);
            assert(device_spans(mid, device) == device_spans(old(self).devices@, device));
            if devices_ordered(mid) {
                assert forall|i: int, j: int| 0 <= i < j < self.devices@.len() implies
                    device_before((#[trigger] self.devices@[i]).0, (#[trigger] self.devices@[j]).0) by {
                    assert(mid[i].0 == self.devices@[i].0 && mid[j].0 == self.devices@[j].0);
                }
            }
        }
    }

    /// Counts one completed request. Its busy span runs from the measured
    /// issue to the completion; a request without a measured issue adds no
    /// span and is counted as missing.
    pub fn observe(&mut self, device: Device, start_ns: u64, issue_ns: Option<u64>, completion_ns: u64)
        requires
            old(self).observed_requests < u64::MAX,
            issue_ns is None ==> old(self).missing_issue < u64::MAX,
        ensures
            final(self).range == Some(match old(self).range {
                None => (start_ns, completion_ns),
                Some((a, b)) => (if a < start_ns { a } else { start_ns }, if b > completion_ns { b } else { completion_ns }),
            }),
            final(self).observed_requests == old(self).observed_requests + 1,
            final(self).missing_issue == old(self).missing_issue + (if issue_ns is None { 1int } else { 0 }),
            find_device(final(self).devices@, device) is Some,
            devices_ordered(old(self).devices@) ==> devices_ordered(final(self).devices@),
            forall|d: Device| d != device ==> #[trigger] device_spans(final(self).devices@, d) == device_spans(old(self).devices@, d),
            match issue_ns {
                Some(s) if s < completion_ns =>
                    points(device_spans(final(self).devices@, device)) == points(device_spans(old(self).devices@, device)) + instants(s as int, completion_ns as int),
                _ => device_spans(final(self).devices@, device) == device_spans(old(self).devices@, device),
            },
            final(self).verified_complete == old(self).verified_complete,
            final(self).limitation == old(self).limitation,
    {
        self.observe_range(start_ns, completion_ns);
        self.observed_requests = self.observed_requests + 1;
        self.ensure_device(device);
        match issue_ns {
            Some(s) => self.record_activity(device, s, completion_ns),
            None => self.missing_issue = self.missing_issue + 1,
        }
    }

    /// Coverage is exact only when acquisition proved it, every request has
    /// a measured issue and nothing limited the capture.
    pub fn exact(&self) -> (r: bool)
        ensures
            r == (self.verified_complete && self.missing_issue == 0 && self.limitation is None),
    {
        self.verified_complete && self.missing_issue == 0 && self.limitation.is_none()
    }

    /// Why coverage is or is not exact.
    pub fn reason(&self) -> (r: String)
        ensures
            r@ == (if self.missing_issue > 0 {
                missing_issue_text(self.missing_issue)
            } else {
                match self.limitation {
                    Some(text) => text@,
                    None => if self.verified_complete { complete_coverage_text() } else { unproven_coverage_text() },
                }
            }),
    {
        if self.missing_issue > 0 {
            let mut out: Vec<char> = Vec::new();
            crate::text::push_decimal(&mut out, self.missing_issue);
            crate::text::push_str(&mut out, " requests have no measured issue timestamp");
            return crate::text::string_from_chars(out.as_slice());
        }
        match &self.limitation {
            Some(text) => text.clone(),
            None => {
                let mut out: Vec<char> = Vec::new();
                if self.verified_complete {
                    crate::text::push_str(&mut out, "Complete device activity coverage");
                } else {
                    crate::text::push_str(&mut out, "Full, unfiltered block activity coverage is not proven for this source; detail gaps may be sampling, capture filters or loss");
                }
                crate::text::string_from_chars(out.as_slice())
            },
        }
    }
}

impl Default for ActivityTimeline {
    fn default() -> (t: Self)
        ensures
            t.range is None,
            t.devices@.len() == 0,
            t.observed_requests == 0,
            t.missing_issue == 0,
            !t.verified_complete,
            t.limitation is None,
    {
        ActivityTimeline::new()
    }
}

proof fn lemma_find_prefix(devs: Seq<(Device, IntervalUnion)>, k: int, d: Device)
    requires
        0 < k <= devs.len(),
        find_device(devs.take(k - 1), d) is None,
        devs[k - 1].0 == d,
    ensures
        find_device(devs, d) == Some(k - 1),
    decreases devs.len() - k,
{
    if k == devs.len() {
        assert(devs.take(k) == devs);
        assert(devs.take(k).drop_last() == devs.take(k - 1));
    } else {
        assert(devs.take(k).drop_last() == devs.take(k - 1));
        lemma_find_prefix_extend(devs, k, d);
    }
}

/// Once found in a prefix, the first entry stays first in any longer prefix.
proof fn lemma_find_prefix_extend(devs: Seq<(Device, IntervalUnion)>, k: int, d: Device)
    requires
        0 <= k <= devs.len(),
        find_device(devs.take(k), d) is Some,
    ensures
        find_device(devs, d) == find_device(devs.take(k), d),
    decreases devs.len() - k,
{
    if k < devs.len() {
        assert(devs.take(k + 1).drop_last() == devs.take(k));
        lemma_find_prefix_extend(devs, k + 1, d);
    } else {
        assert(devs.take(k) == devs);
    }
}

/// Instants of `[start, end)` at which any listed device is busy.
pub open spec fn devices_busy(devs: Seq<(Device, IntervalUnion)>, list: Seq<Device>, start: u64, end: u64) -> Set<int>
    decreases list.len(),
{
    if list.len() == 0 {
        Set::empty()
    } else {
        devices_busy(devs, list.drop_last(), start, end) + busy_points(device_spans(devs, list.last()), start, end)
    }
}

proof fn lemma_devices_busy_within(devs: Seq<(Device, IntervalUnion)>, list: Seq<Device>, start: u64, end: u64)
    ensures
        devices_busy(devs, list, start, end).subset_of(instants(start as int, end as int)),
    decreases list.len(),
{
    if list.len() > 0 {
        lemma_devices_busy_within(devs, list.drop_last(), start, end);
    }
}

/// The integer part of the bandwidth computation: the range, the wall-clock
/// busy time of the selected devices, and busy and idle time when coverage
/// is exact.
#[derive(Debug, Clone, Copy, PartialEq, Eq)]
pub struct BusyTime {
    pub start_ns: u64,
    pub end_ns: u64,
    pub duration_ns: u64,
    pub observed_busy_ns: u64,
    pub busy_ns: Option<u64>,
    pub idle_ns: Option<u64>,
}

/// Busy time of `devices` over `range`. Activity of several devices, and of
/// overlapping requests, is merged into one wall-clock union; devices without
/// recorded activity add nothing. Busy and idle time are known only when the
/// timeline's coverage is exact.
pub fn busy_time(activity: &ActivityTimeline, range: (u64, u64), devices: &Vec<Device>) -> (r: BusyTime)
    ensures
        r.start_ns == range.0,
        r.end_ns == range.1,
        r.duration_ns == (if range.1 > range.0 { range.1 - range.0 } else { 0 }),
        r.observed_busy_ns == devices_busy(activity.devices@, devices@, range.0, range.1).len(),
        r.observed_busy_ns <= r.duration_ns,
        r.busy_ns == (if activity.verified_complete && activity.missing_issue == 0 && activity.limitation is None {
            Some(r.observed_busy_ns)
        } else {
            None
        }),
        r.idle_ns == (match r.busy_ns {
            Some(b) => Some((r.duration_ns - b) as u64),
            None => None,
        }),
{
    let (start_ns, end_ns) = range;
    let duration_ns = end_ns.saturating_sub(start_ns);
    let ghost devs = activity.devices@;
    let mut combined = IntervalUnion::new();
    if duration_ns > 0 {
        let mut i: usize = 0;
        while i < devices.len()
            invariant
                i <= devices.len(),
                devs == activity.devices@,
                points(combined@) == devices_busy(devs, devices@.take(i as int), start_ns, end_ns),
            decreases devices.len() - i,
        {
            let device = devices[i];
            let ghost before = points(combined@);
            proof {
                assert(devices@.take(i + 1).drop_last() == devices@.take(i as int));
                assert(devices@.take(i + 1).last() == device);
            }
            match activity.position(device) {
                Some(idx) => {
                    proof { lemma_find_device_bound(devs, device); }
                    let pieces = activity.devices[idx].1.clipped(start_ns, end_ns);
                    proof { lemma_clip_points(devs[idx as int].1@, start_ns, end_ns); }
                    let mut j: usize = 0;
                    while j < pieces.len()
                        invariant
                            j <= pieces.len(),
                            points(combined@) == before + points(pieces@.take(j as int)),
                        decreases pieces.len() - j,
                    {
                        let (a, b) = pieces[j];
                        let ghost prev = points(combined@);
                        combined.insert(a, b);
                        proof {
                            assert(pieces@.take(j + 1) == pieces@.take(j as int).push((a, b)));
                            lemma_points_push(pieces@.take(j as int), (a, b));
                            if a >= b {
                                assert(instants(a as int, b as int) =~= Set::<int>::empty());
                            }
                            let pj = points(pieces@.take(j as int));
                            let ab = instants(a as int, b as int);
                            assert(points(combined@) =~= before + (pj + ab));
                        }
                        j += 1;
                    }
                    proof {
                        assert(pieces@.take(pieces.len() as int) == pieces@);
                    }
                },
                None => {
                    proof {
                        assert(device_spans(devs, device) == Seq::<(u64, u64)>::empty());
                        assert(busy_points(Seq::<(u64, u64)>::empty(), start_ns, end_ns) =~= Set::<int>::empty());
                        assert(points(combined@) =~= before + busy_points(device_spans(devs, device), start_ns, end_ns));
                    }
                },
            }
            i += 1;
        }
        proof {
            assert(devices@.take(devices.len() as int) == devices@);
        }
    } else {
        proof {
            lemma_devices_busy_within(devs, devices@, start_ns, end_ns);
            assert(devices_busy(devs, devices@, start_ns, end_ns) =~= Set::<int>::empty());
            assert(points(combined@) =~= Set::<int>::empty());
        }
    }
    let observed_busy_ns = combined.duration(start_ns, end_ns);
    proof {
        lemma_devices_busy_within(devs, devices@, start_ns, end_ns);
        assert(busy_points(combined@, start_ns, end_ns) =~= devices_busy(devs, devices@, start_ns, end_ns));
    }
    let busy_ns = if activity.exact() { Some(observed_busy_ns) } else { None };
    let idle_ns = match busy_ns {
        Some(v) => Some(duration_ns - v),
        None => None,
    };
    BusyTime { start_ns, end_ns, duration_ns, observed_busy_ns, busy_ns, idle_ns }
}

/// Direction of a transfer.
#[derive(Debug, Clone, Copy, PartialEq, Eq)]
pub enum IoOperation {
    Read,
    Write,
    Flush,
    Discard,
    Other,
}

/// Completed bytes by direction; every count saturates at `u64::MAX`.
#[derive(Debug, Clone, Copy, PartialEq, Eq)]
pub struct TransferBytes {
    pub read: u64,
    pub write: u64,
    pub other: u64,
}

pub open spec fn sat_add(a: u64, b: int) -> u64 {
    if a + b > u64::MAX { u64::MAX } else { (a + b) as u64 }
}

impl TransferBytes {
    pub fn new() -> (t: Self)
        ensures
            t.read == 0 && t.write == 0 && t.other == 0,
    {
        TransferBytes { read: 0, write: 0, other: 0 }
    }

    /// Adds a completed request's bytes to its direction.
    pub fn observe(&mut self, operation: IoOperation, bytes: u32)
        ensures
            final(self).read == (if operation == IoOperation::Read { sat_add(old(self).read, bytes as int) } else { old(self).read }),
            final(self).write == (if operation == IoOperation::Write { sat_add(old(self).write, bytes as int) } else { old(self).write }),
            final(self).other == (if operation != IoOperation::Read && operation != IoOperation::Write {
                sat_add(old(self).other, bytes as int)
            } else {
                old(self).other
            }),
    {
        match operation {
            IoOperation::Read => self.read = self.read.saturating_add(bytes as u64),
            IoOperation::Write => self.write = self.write.saturating_add(bytes as u64),
            _ => self.other = self.other.saturating_add(bytes as u64),
        }
    }

    /// All bytes, saturating.
    pub fn total(&self) -> (r: u64)
        ensures
            r == sat_add(sat_add(self.read, self.write as int), self.other as int),
    {
        self.read.saturating_add(self.write).saturating_add(self.other)
    }
}

impl Default for TransferBytes {
    fn default() -> (t: Self)
        ensures
            t.read == 0 && t.write == 0 && t.other == 0,
    {
        TransferBytes::new()
    }
}

} // verus!
