//! The mathematical model of a page list: which slots are populated, and with what.
//!
//! Pages are numbered: the page at byte offset `o` is page `o / 4096`. Nodes are numbered too: node
//! `k` holds the pages `16 * k` up to `16 * k + 15`.

use vstd::prelude::*;
use crate::page_or_marker::{
    content_ok, SentinelType, SlotContent, ZeroRangeDirtyState, stored_awaiting,
};

verus! {

/// The populated slots, by page number. No page maps to `SlotContent::Empty`.
pub type Slots = Map<int, SlotContent>;

/// The number of the node that holds page `p`.
pub open spec fn node_of(p: int) -> int {
    p / 16
}

/// The number of the page that byte offset `offset` lies in.
pub open spec fn page_of(offset: u64) -> int {
    offset as int / 4096
}

/// The content of page `p`.
pub open spec fn at(s: Slots, p: int) -> SlotContent {
    if s.contains_key(p) {
        s[p]
    } else {
        SlotContent::Empty
    }
}

/// `s` with the content of page `p` replaced by `c`.
pub open spec fn put(s: Slots, p: int, c: SlotContent) -> Slots {
    if c is Empty {
        s.remove(p)
    } else {
        s.insert(p, c)
    }
}

/// No page strictly between `a` and `b` is populated.
pub open spec fn clear_between(s: Slots, a: int, b: int) -> bool {
    forall|q: int| a < q < b ==> #[trigger] at(s, q) is Empty
}

/// No page from `a` up to, but not including, `b` is populated.
pub open spec fn clear_range(s: Slots, a: int, b: int) -> bool {
    forall|q: int| a <= q < b ==> #[trigger] at(s, q) is Empty
}

/// A multi-page interval starts at page `a` and ends at page `b`. What is awaiting clean is noted at
/// its start.
pub open spec fn spans(s: Slots, a: int, b: int) -> bool {
    &&& a < b
    &&& at(s, a).is_start()
    &&& at(s, b).is_end()
    &&& at(s, a)->state == at(s, b)->state
    &&& at(s, b)->awaiting == 0
    &&& clear_between(s, a, b)
}

/// Page `p` lies strictly inside a multi-page interval.
pub open spec fn covered(s: Slots, p: int) -> bool {
    exists|a: int, b: int| a < p < b && #[trigger] spans(s, a, b)
}

/// Page `p` belongs to an interval.
pub open spec fn in_interval(s: Slots, p: int) -> bool {
    at(s, p) is Interval || covered(s, p)
}

/// Every interval start has its end.
#[verifier::opaque]
pub open spec fn starts_ok(s: Slots) -> bool {
    forall|a: int| #[trigger] at(s, a).is_start() ==> exists|b: int| spans(s, a, b)
}

/// Every interval end has its start.
#[verifier::opaque]
pub open spec fn ends_ok(s: Slots) -> bool {
    forall|b: int| #[trigger] at(s, b).is_end() ==> exists|a: int| spans(s, a, b)
}

/// Every interval start has its end, and every end its start.
pub open spec fn intervals_ok(s: Slots) -> bool {
    starts_ok(s) && ends_ok(s)
}

/// The page on which the interval that ends at page `b` starts.
pub open spec fn start_of(s: Slots, b: int) -> int {
    choose|a: int| spans(s, a, b)
}

/// The page on which the interval that starts at page `a` ends.
pub open spec fn end_of(s: Slots, a: int) -> int {
    choose|b: int| spans(s, a, b)
}

/// The dirty state of the interval that page `p` belongs to.
pub open spec fn interval_state(s: Slots, p: int) -> ZeroRangeDirtyState {
    if at(s, p) is Empty {
        let (a, b) = choose|a: int, b: int| a < p < b && #[trigger] spans(s, a, b);
        at(s, a)->state
    } else {
        at(s, p)->state
    }
}

pub open spec fn sentinel(kind: SentinelType, state: ZeroRangeDirtyState) -> SlotContent {
    SlotContent::Interval { sentinel: kind, state, awaiting: 0 }
}

/// A content that is no part of a multi-page interval.
pub open spec fn standalone(c: SlotContent) -> bool {
    !c.is_start() && !c.is_end()
}

/// What becomes of the content left of a page that an interval is split at.
pub open spec fn split_left(s: Slots, p: int, state: ZeroRangeDirtyState) -> SlotContent {
    if at(s, p - 1).is_start() {
        at(s, p - 1).with_sentinel(SentinelType::Slot)
    } else {
        sentinel(SentinelType::End, state)
    }
}

/// What becomes of the content right of a page that an interval is split at. Where the page was
/// the start of the interval, what is left of its awaiting-clean length moves here.
pub open spec fn split_right(s: Slots, p: int, state: ZeroRangeDirtyState) -> SlotContent {
    let next = if at(s, p + 1).is_end() {
        at(s, p + 1).with_sentinel(SentinelType::Slot)
    } else {
        sentinel(SentinelType::Start, state)
    };
    if at(s, p).is_start() && at(s, p)->awaiting > 1 {
        next.with_awaiting(at(s, p)->awaiting - 1)
    } else {
        next
    }
}

/// What becomes of the page itself that an interval is split at.
pub open spec fn split_here(s: Slots, p: int, state: ZeroRangeDirtyState) -> SlotContent {
    let c = at(s, p);
    if c is Empty {
        sentinel(SentinelType::Slot, state)
    } else if c.is_start() && c->awaiting > 1 {
        c.with_awaiting(1).with_sentinel(SentinelType::Slot)
    } else {
        c.with_sentinel(SentinelType::Slot)
    }
}

/// `s` with the interval around page `p` split so that `p` is an interval of its own.
pub open spec fn split(s: Slots, p: int) -> Slots {
    let c = at(s, p);
    let state = interval_state(s, p);
    if c.is_slot() {
        s
    } else {
        let s1 = if c.is_start() {
            s
        } else {
            put(s, p - 1, split_left(s, p, state))
        };
        let s2 = if c.is_end() {
            s1
        } else {
            put(s1, p + 1, split_right(s, p, state))
        };
        put(s2, p, split_here(s, p, state))
    }
}

pub proof fn lemma_end_of(s: Slots, a: int)
    requires
        starts_ok(s),
        at(s, a).is_start(),
    ensures
        spans(s, a, end_of(s, a)),
{
    reveal(starts_ok);
}

pub proof fn lemma_start_of(s: Slots, b: int)
    requires
        ends_ok(s),
        at(s, b).is_end(),
    ensures
        spans(s, start_of(s, b), b),
{
    reveal(ends_ok);
}

/// A new interval of the given state that starts at page `first` joins the interval left of it.
pub open spec fn merges_left(s: Slots, first: int, state: ZeroRangeDirtyState) -> bool {
    let prev = at(s, first - 1);
    first > 0 && (prev.is_end() || prev.is_slot()) && prev->state == state
}

/// A new interval of the given state that ends at page `last` joins the interval right of it.
pub open spec fn merges_right(s: Slots, last: int, state: ZeroRangeDirtyState) -> bool {
    let next = at(s, last + 1);
    (next.is_start() || next.is_slot()) && next->state == state
}

/// The first page of the interval that a new interval from page `first` on ends up in.
pub open spec fn merged_start(s: Slots, first: int, state: ZeroRangeDirtyState) -> int {
    if !merges_left(s, first, state) {
        first
    } else if at(s, first - 1).is_slot() {
        first - 1
    } else {
        start_of(s, first - 1)
    }
}

/// The last page of the interval that a new interval up to page `last` ends up in.
pub open spec fn merged_end(s: Slots, last: int, state: ZeroRangeDirtyState) -> int {
    if !merges_right(s, last, state) {
        last
    } else if at(s, last + 1).is_slot() {
        last + 1
    } else {
        end_of(s, last + 1)
    }
}

/// The awaiting-clean length of an interval that starts at page `start` with length `len`, after
/// `more` pages from page `from` on have been joined to it. Where there is a gap between the two
/// the length stays as it was.
pub open spec fn joined(start: int, len: int, from: int, more: int) -> int {
    if start + len >= from {
        stored_awaiting(if start + len >= from + more {
            len
        } else {
            from + more - start
        })
    } else {
        len
    }
}

/// The left half of adding an interval: extends the interval that ends right before page `first`,
/// or starts a new one there.
pub open spec fn add_left(
    s: Slots,
    first: int,
    state: ZeroRangeDirtyState,
    awaiting: int,
) -> Slots {
    if merges_left(s, first, state) {
        let start = merged_start(s, first, state);
        let s1 = if awaiting > 0 {
            put(
                s,
                start,
                at(s, start).with_awaiting(
                    joined(start, at(s, start)->awaiting, first, awaiting),
                ),
            )
        } else {
            s
        };
        if at(s1, first - 1).is_end() {
            put(s1, first - 1, SlotContent::Empty)
        } else {
            put(s1, first - 1, at(s1, first - 1).with_sentinel(SentinelType::Start))
        }
    } else {
        put(s, first, sentinel(SentinelType::Start, state).with_awaiting(awaiting))
    }
}

/// The right half of adding an interval, of which `start` is the first page: takes in the interval
/// that starts right after page `last`, or ends the new one there. The awaiting-clean length of
/// the interval on the right is only looked at where the new one has one.
pub open spec fn add_right(
    s: Slots,
    last: int,
    start: int,
    state: ZeroRangeDirtyState,
    awaiting: int,
) -> Slots {
    let next = at(s, last + 1);
    if merges_right(s, last, state) {
        let s1 = if awaiting > 0 && next->awaiting > 0 {
            put(
                s,
                start,
                at(s, start).with_awaiting(
                    joined(start, at(s, start)->awaiting, last + 1, next->awaiting),
                ),
            )
        } else {
            s
        };
        if next.is_start() {
            put(s1, last + 1, SlotContent::Empty)
        } else {
            put(s1, last + 1, sentinel(SentinelType::End, state))
        }
    } else if at(s, last).is_start() {
        put(s, last, at(s, last).with_sentinel(SentinelType::Slot))
    } else {
        put(s, last, sentinel(SentinelType::End, state))
    }
}

/// `s` with a zero interval added from page `first` to page `last`, of which the first `awaiting`
/// pages are awaiting clean. It joins the intervals left and right of it that have the same state.
pub open spec fn add_interval(
    s: Slots,
    first: int,
    last: int,
    state: ZeroRangeDirtyState,
    awaiting: int,
) -> Slots {
    add_right(
        add_left(s, first, state, awaiting),
        last,
        merged_start(s, first, state),
        state,
        awaiting,
    )
}

/// Two intervals that overlap are one.
pub proof fn lemma_spans_unique(s: Slots, a: int, b: int, c: int, d: int)
    requires
        spans(s, a, b),
        spans(s, c, d),
        a < d,
        c < b,
    ensures
        a == c,
        b == d,
{
    assert(!(a < c) && !(c < a) && !(b < d) && !(d < b)) by {
        assert(!(at(s, a) is Empty) && !(at(s, b) is Empty));
        assert(!(at(s, c) is Empty) && !(at(s, d) is Empty));
    }
}

/// The start, the end and the state of the interval around a page strictly inside it.
pub proof fn lemma_covered(s: Slots, p: int, a: int, b: int)
    requires
        spans(s, a, b),
        a < p < b,
    ensures
        covered(s, p),
        at(s, p) is Empty,
        interval_state(s, p) == at(s, a)->state,
        interval_state(s, p) == at(s, b)->state,
{
    let (x, y) = choose|x: int, y: int| x < p < y && #[trigger] spans(s, x, y);
    lemma_spans_unique(s, a, b, x, y);
}

/// The interval around a page of an interval that is more than one page long.
pub open spec fn bounds(s: Slots, p: int) -> (int, int) {
    if at(s, p).is_start() {
        (p, end_of(s, p))
    } else if at(s, p).is_end() {
        (start_of(s, p), p)
    } else {
        choose|a: int, b: int| a < p < b && #[trigger] spans(s, a, b)
    }
}

/// `t` is `s` with the interval from `a` to `b` split at `p`, as far as sentinels and states go.
spec fn split_shape(s: Slots, t: Slots, p: int, a: int, b: int) -> bool {
    let state = at(s, a)->state;
    &&& spans(s, a, b)
    &&& a <= p <= b
    &&& forall|x: int| x < p - 1 || x > p + 1 ==> #[trigger] at(t, x) == at(s, x)
    &&& at(t, p).is_slot()
    &&& at(t, p)->state == state
    &&& if a == p {
        at(t, p - 1) == at(s, p - 1)
    } else {
        at(t, p - 1) is Interval && at(t, p - 1)->state == state && if a == p - 1 {
            at(t, p - 1).is_slot()
        } else {
            at(t, p - 1).is_end() && at(t, p - 1)->awaiting == 0
        }
    }
    &&& if b == p {
        at(t, p + 1) == at(s, p + 1)
    } else {
        at(t, p + 1) is Interval && at(t, p + 1)->state == state && if b == p + 1 {
            at(t, p + 1).is_slot()
        } else {
            at(t, p + 1).is_start()
        }
    }
}

/// The intervals of a split list.
proof fn lemma_split_spans(s: Slots, t: Slots, p: int, a: int, b: int, u: int, v: int)
    requires
        split_shape(s, t, p, a, b),
    ensures
        a < p - 1 ==> spans(t, a, p - 1),
        p + 1 < b ==> spans(t, p + 1, b),
        (v <= a || b <= u) && spans(s, u, v) ==> spans(t, u, v),
        u < v && spans(t, u, v) ==> {
            ||| u == a && v == p - 1
            ||| u == p + 1 && v == b
            ||| spans(s, u, v) && (v <= a || b <= u)
        },
{
    assert(!(at(s, a) is Empty) && !(at(s, b) is Empty));
    if (v <= a || b <= u) && spans(s, u, v) {
        assert forall|q: int| u < q < v implies #[trigger] at(t, q) is Empty by {
            assert(at(s, q) is Empty);
        }
        assert(at(t, u) == at(s, u));
        assert(at(t, v) == at(s, v));
        assert(spans(t, u, v));
    }
    if a < p - 1 {
        assert forall|q: int| a < q < p - 1 implies #[trigger] at(t, q) is Empty by {
            assert(at(s, q) is Empty);
        }
    }
    if p + 1 < b {
        assert forall|q: int| p + 1 < q < b implies #[trigger] at(t, q) is Empty by {
            assert(at(s, q) is Empty);
        }
    }
    if u < v && spans(t, u, v) && !(u == a && v == p - 1) && !(u == p + 1 && v == b) {
        assert(!(u < p < v));
        assert(at(t, u).is_start() && at(t, v).is_end());
        assert(a < u < b ==> u == p + 1 || at(s, u) is Empty);
        assert(a < v < b ==> v == p - 1 || at(s, v) is Empty);
        assert(at(t, a) is Interval && at(t, b) is Interval);
        assert(!(u < a < v) && !(u < b < v));
        assert(v <= a || b <= u);
        assert(at(s, u) == at(t, u) && at(s, v) == at(t, v));
        assert forall|q: int| u < q < v implies #[trigger] at(s, q) is Empty by {
            assert(at(t, q) is Empty);
        }
    }
}

/// Splitting keeps the intervals well formed, makes `p` an interval of its own, and changes for no
/// page whether it belongs to an interval.
pub proof fn lemma_split(s: Slots, p: int)
    requires
        intervals_ok(s),
        in_interval(s, p),
    ensures
        intervals_ok(split(s, p)),
        at(split(s, p), p).is_slot(),
        at(split(s, p), p)->state == interval_state(s, p),
        forall|x: int| #[trigger] in_interval(split(s, p), x) == in_interval(s, x),
{
    if !at(s, p).is_slot() {
        let (a, b) = bounds(s, p);
        lemma_bounds(s, p);
        let t = split(s, p);
        lemma_split_has_shape(s, p, a, b);
        assert forall|x: int| #[trigger] in_interval(t, x) == in_interval(s, x) by {
            lemma_split_membership(s, t, p, a, b, x);
        }
        lemma_split_starts(s, t, p, a, b);
        lemma_split_ends(s, t, p, a, b);
    }
}

pub proof fn lemma_bounds(s: Slots, p: int)
    requires
        intervals_ok(s),
        in_interval(s, p),
        !at(s, p).is_slot(),
    ensures
        spans(s, bounds(s, p).0, bounds(s, p).1),
        bounds(s, p).0 <= p <= bounds(s, p).1,
        interval_state(s, p) == at(s, bounds(s, p).0)->state,
        interval_state(s, p) == at(s, bounds(s, p).1)->state,
{
    if at(s, p).is_start() {
        lemma_end_of(s, p);
    } else if at(s, p).is_end() {
        lemma_start_of(s, p);
    } else {
        let (a, b) = bounds(s, p);
        lemma_covered(s, p, a, b);
    }
}

proof fn lemma_split_has_shape(s: Slots, p: int, a: int, b: int)
    requires
        spans(s, a, b),
        a <= p <= b,
        interval_state(s, p) == at(s, a)->state,
    ensures
        split_shape(s, split(s, p), p, a, b),
{
    assert(a < p ==> (at(s, p - 1).is_start() <==> a == p - 1));
    assert(p < b ==> (at(s, p + 1).is_end() <==> b == p + 1));
    assert(at(s, p).is_start() <==> a == p);
    assert(at(s, p).is_end() <==> b == p);
}

proof fn lemma_split_starts(s: Slots, t: Slots, p: int, a: int, b: int)
    requires
        starts_ok(s),
        split_shape(s, t, p, a, b),
    ensures
        starts_ok(t),
{
    assert forall|x: int| #[trigger] at(t, x).is_start() implies exists|y: int| spans(t, x, y) by {
        lemma_split_spans(s, t, p, a, b, 0, 0);
        if x == a && a < p - 1 {
            assert(spans(t, x, p - 1));
        } else if x == p + 1 && p + 1 < b {
            assert(spans(t, x, b));
        } else {
            assert(at(s, x).is_start()) by {
                assert(a < x < b ==> at(s, x) is Empty);
            }
            let y = end_of(s, x);
            lemma_end_of(s, x);
            if !(y <= a || b <= x) {
                lemma_spans_unique(s, a, b, x, y);
            }
            lemma_split_spans(s, t, p, a, b, x, y);
            assert(spans(t, x, y));
        }
    }
    reveal(starts_ok);
}

proof fn lemma_split_ends(s: Slots, t: Slots, p: int, a: int, b: int)
    requires
        ends_ok(s),
        split_shape(s, t, p, a, b),
    ensures
        ends_ok(t),
{
    assert forall|y: int| #[trigger] at(t, y).is_end() implies exists|x: int| spans(t, x, y) by {
        lemma_split_spans(s, t, p, a, b, 0, 0);
        if y == p - 1 && a < p - 1 {
            assert(spans(t, a, y));
        } else if y == b && p + 1 < b {
            assert(spans(t, p + 1, y));
        } else {
            assert(at(s, y).is_end()) by {
                assert(a < y < b ==> at(s, y) is Empty);
            }
            let x = start_of(s, y);
            lemma_start_of(s, y);
            if !(y <= a || b <= x) {
                lemma_spans_unique(s, a, b, x, y);
            }
            lemma_split_spans(s, t, p, a, b, x, y);
            assert(spans(t, x, y));
        }
    }
    reveal(ends_ok);
}

proof fn lemma_split_membership(s: Slots, t: Slots, p: int, a: int, b: int, x: int)
    requires
        split_shape(s, t, p, a, b),
    ensures
        in_interval(t, x) == in_interval(s, x),
{
    lemma_split_spans(s, t, p, a, b, 0, 0);
    if a < x < b {
        assert(covered(s, x));
        if x < p - 1 {
            assert(spans(t, a, p - 1));
            assert(covered(t, x));
        } else if x > p + 1 {
            assert(spans(t, p + 1, b));
            assert(covered(t, x));
        }
    } else if x == a || x == b {
        assert(at(t, x) is Interval && at(s, x) is Interval);
    } else {
        assert(at(t, x) == at(s, x));
        if covered(s, x) {
            let (u, v) = choose|u: int, v: int| u < x < v && #[trigger] spans(s, u, v);
            if !(v <= a || b <= u) {
                lemma_spans_unique(s, a, b, u, v);
            }
            lemma_split_spans(s, t, p, a, b, u, v);
            assert(spans(t, u, v));
        }
        if covered(t, x) {
            let (u, v) = choose|u: int, v: int| u < x < v && #[trigger] spans(t, u, v);
            lemma_split_spans(s, t, p, a, b, u, v);
            assert(spans(s, u, v));
        }
    }
}

/// `t` is `s` but for the pages from `a` to `b`, which no interval of `s` reaches into from
/// outside, and whose intervals in `t` lie inside.
spec fn region_shape(s: Slots, t: Slots, a: int, b: int) -> bool {
    &&& forall|x: int| x < a || x > b ==> #[trigger] at(t, x) == at(s, x)
    &&& forall|u: int, v: int| #[trigger] spans(s, u, v) ==> v < a || u > b || (a <= u && v <= b)
}

proof fn lemma_region_spans(s: Slots, t: Slots, a: int, b: int, u: int, v: int)
    requires
        region_shape(s, t, a, b),
        spans(s, u, v),
        v < a || u > b,
    ensures
        spans(t, u, v),
{
    assert(at(t, u) == at(s, u));
    assert(at(t, v) == at(s, v));
    assert forall|q: int| u < q < v implies #[trigger] at(t, q) is Empty by {
        assert(at(s, q) is Empty);
    }
}

proof fn lemma_region_starts(s: Slots, t: Slots, a: int, b: int)
    requires
        starts_ok(s),
        region_shape(s, t, a, b),
        forall|x: int| a <= x <= b && #[trigger] at(t, x).is_start() ==> exists|y: int|
            spans(t, x, y),
    ensures
        starts_ok(t),
{
    assert forall|x: int| #[trigger] at(t, x).is_start() implies exists|y: int| spans(t, x, y) by {
        if x < a || x > b {
            lemma_end_of(s, x);
            lemma_region_spans(s, t, a, b, x, end_of(s, x));
        }
    }
    reveal(starts_ok);
}

proof fn lemma_region_ends(s: Slots, t: Slots, a: int, b: int)
    requires
        ends_ok(s),
        region_shape(s, t, a, b),
        forall|y: int| a <= y <= b && #[trigger] at(t, y).is_end() ==> exists|x: int|
            spans(t, x, y),
    ensures
        ends_ok(t),
{
    assert forall|y: int| #[trigger] at(t, y).is_end() implies exists|x: int| spans(t, x, y) by {
        if y < a || y > b {
            lemma_start_of(s, y);
            lemma_region_spans(s, t, a, b, start_of(s, y), y);
        }
    }
    reveal(ends_ok);
}

/// Outside a changed region the same pages belong to intervals.
proof fn lemma_region_membership(s: Slots, t: Slots, a: int, b: int, x: int)
    requires
        starts_ok(s),
        ends_ok(s),
        region_shape(s, t, a, b),
        x < a || x > b,
    ensures
        in_interval(t, x) == in_interval(s, x),
{
    assert(at(t, x) == at(s, x));
    if covered(s, x) {
        let (u, v) = choose|u: int, v: int| u < x < v && #[trigger] spans(s, u, v);
        lemma_region_spans(s, t, a, b, u, v);
        assert(covered(t, x));
    }
    if covered(t, x) {
        let (u, v) = choose|u: int, v: int| u < x < v && #[trigger] spans(t, u, v);
        if x < a {
            let y = end_of(s, u);
            lemma_end_of(s, u);
            lemma_region_spans(s, t, a, b, u, y);
            lemma_spans_unique(t, u, v, u, y);
            assert(covered(s, x));
        } else {
            let y = start_of(s, v);
            lemma_start_of(s, v);
            lemma_region_spans(s, t, a, b, y, v);
            lemma_spans_unique(t, u, v, y, v);
            assert(covered(s, x));
        }
    }
}

/// The pages that a new interval ends up on.
spec fn add_shape(
    s: Slots,
    t: Slots,
    first: int,
    last: int,
    a: int,
    b: int,
    state: ZeroRangeDirtyState,
) -> bool {
    &&& a <= first <= last <= b
    &&& a == first || a == first - 1 && at(s, a).is_slot() || spans(s, a, first - 1)
    &&& b == last || b == last + 1 && at(s, b).is_slot() || spans(s, last + 1, b)
    &&& forall|x: int| x < a || x > b ==> #[trigger] at(t, x) == at(s, x)
    &&& at(t, a) is Interval && at(t, a)->state == state
    &&& if a == b {
        at(t, a).is_slot()
    } else {
        spans(t, a, b)
    }
}

proof fn lemma_add_has_shape(
    s: Slots,
    first: int,
    last: int,
    state: ZeroRangeDirtyState,
    awaiting: int,
)
    requires
        intervals_ok(s),
        0 <= first <= last,
        clear_range(s, first, last + 1),
    ensures
        add_shape(
            s,
            add_interval(s, first, last, state, awaiting),
            first,
            last,
            merged_start(s, first, state),
            merged_end(s, last, state),
            state,
        ),
{
    let a = merged_start(s, first, state);
    let b = merged_end(s, last, state);
    let l = add_left(s, first, state, awaiting);
    let t = add_interval(s, first, last, state, awaiting);
    if merges_left(s, first, state) && at(s, first - 1).is_end() {
        lemma_start_of(s, first - 1);
    }
    if merges_right(s, last, state) && at(s, last + 1).is_start() {
        lemma_end_of(s, last + 1);
    }
    assert(at(s, first) is Empty && at(s, last) is Empty);
    assert forall|x: int| x != a && x != first - 1 && x != first implies #[trigger] at(l, x) == at(
        s,
        x,
    ) by {}
    assert(at(l, a).is_start());
    assert(at(l, a)->state == state);
    assert(a < first ==> at(l, first) is Empty);
    assert(a < first - 1 ==> at(l, first - 1) is Empty);
    assert(at(l, last + 1) == at(s, last + 1));
    assert(first < last ==> at(l, last) is Empty);
    assert forall|x: int| x < a || x > b implies #[trigger] at(t, x) == at(s, x) by {
        assert(x < first - 1 ==> at(l, x) == at(s, x));
        assert(x > last ==> at(l, x) == at(s, x));
    }
    if a < b {
        assert(at(t, b).is_end() && at(t, b)->state == state);
        assert(at(t, a).is_start() && at(t, a)->state == state);
        assert forall|q: int| a < q < b implies #[trigger] at(t, q) is Empty by {
            assert(q < first - 1 ==> at(s, q) is Empty);
            assert(q > last + 1 ==> at(s, q) is Empty);
            assert(first <= q <= last ==> at(s, q) is Empty);
        }
    }
}

/// Two neighbouring pages belong to intervals that a single one could have stood for.
pub open spec fn joinable(left: SlotContent, right: SlotContent) -> bool {
    &&& left.is_end() || left.is_slot()
    &&& right.is_start() || right.is_slot()
    &&& left->state == right->state
}

/// Every interval spans a maximal range.
pub open spec fn maximal(s: Slots) -> bool {
    forall|p: int, q: int| q == p + 1 ==> !joinable(#[trigger] at(s, p), #[trigger] at(s, q))
}

/// Adding an interval keeps all intervals maximal.
pub proof fn lemma_add_keeps_maximal(
    s: Slots,
    first: int,
    last: int,
    state: ZeroRangeDirtyState,
    awaiting: int,
)
    requires
        intervals_ok(s),
        maximal(s),
        0 < first <= last || first == 0 && at(s, -1) is Empty && 0 <= last,
        clear_range(s, first, last + 1),
    ensures
        maximal(add_interval(s, first, last, state, awaiting)),
{
    let t = add_interval(s, first, last, state, awaiting);
    let a = merged_start(s, first, state);
    let b = merged_end(s, last, state);
    lemma_add_has_shape(s, first, last, state, awaiting);
    assert(at(s, first) is Empty && at(s, last) is Empty);
    assert forall|p: int, q: int| q == p + 1 implies !joinable(
        #[trigger] at(t, p),
        #[trigger] at(t, q),
    ) by {
        assert(!joinable(at(s, p), at(s, p + 1)));
        if p < a - 1 || p > b {
            assert(at(t, p) == at(s, p) && at(t, p + 1) == at(s, p + 1));
        } else if p == a - 1 {
            assert(at(t, p) == at(s, p));
            if a == first {
                assert(!merges_left(s, first, state));
            }
        } else if p == b {
            assert(at(t, p + 1) == at(s, p + 1));
            if b == last {
                assert(!merges_right(s, last, state));
            }
            if b > last + 1 {
                assert(!joinable(at(s, b), at(s, b + 1)));
            }
        } else if a < p < b {
            assert(at(t, p) is Empty);
        } else {
            assert(at(t, a).is_start());
        }
    }
}

/// Adding an interval to an unpopulated range keeps the intervals well formed, and the pages that
/// belong to intervals afterwards are those of the range and those that did before.
pub proof fn lemma_add_interval(
    s: Slots,
    first: int,
    last: int,
    state: ZeroRangeDirtyState,
    awaiting: int,
)
    requires
        intervals_ok(s),
        0 <= first <= last,
        clear_range(s, first, last + 1),
        !covered(s, first),
    ensures
        intervals_ok(add_interval(s, first, last, state, awaiting)),
        forall|x: int|
            #[trigger] in_interval(add_interval(s, first, last, state, awaiting), x) <==> (
            in_interval(s, x) || first <= x <= last),
{
    let a = merged_start(s, first, state);
    let b = merged_end(s, last, state);
    let t = add_interval(s, first, last, state, awaiting);
    lemma_add_has_shape(s, first, last, state, awaiting);
    assert(at(s, first) is Empty && at(s, last) is Empty);
    assert forall|u: int, v: int| #[trigger] spans(s, u, v) implies v < a || u > b || (a <= u && v
        <= b) by {
        assert(!(u < first < v)) by {
            if u < first < v {
                assert(covered(s, first));
            }
        }
        assert(at(s, u).is_start() && at(s, v).is_end());
        assert(u != first && v != first);
        if v < first && a <= v {
            if spans(s, a, first - 1) && u < first - 1 {
                lemma_spans_unique(s, a, first - 1, u, v);
            }
        }
        if u > first && u <= b {
            assert(first <= u <= last ==> at(s, u) is Empty);
            if spans(s, last + 1, b) && u < b {
                lemma_spans_unique(s, last + 1, b, u, v);
            }
        }
    }
    assert(region_shape(s, t, a, b));
    assert forall|x: int| a <= x <= b && #[trigger] at(t, x).is_start() implies exists|y: int|
        spans(t, x, y) by {
        assert(x == a);
        assert(spans(t, a, b));
    }
    lemma_region_starts(s, t, a, b);
    assert forall|y: int| a <= y <= b && #[trigger] at(t, y).is_end() implies exists|x: int|
        spans(t, x, y) by {
        assert(y == b);
        assert(spans(t, a, b));
    }
    lemma_region_ends(s, t, a, b);
    assert forall|x: int| #[trigger] in_interval(t, x) <==> (in_interval(s, x) || first <= x
        <= last) by {
        if x < a || x > b {
            lemma_region_membership(s, t, a, b, x);
        } else {
            if a < x < b {
                assert(covered(t, x));
            }
            if x < first && a < first - 1 && x < first - 1 && a < x {
                assert(covered(s, x));
            }
            if x > last && b > last + 1 && x > last + 1 && x < b {
                assert(covered(s, x));
            }
        }
    }
}

/// The next populated page tells whether an unpopulated page lies in an interval.
pub proof fn lemma_next_populated(s: Slots, p: int, q: int)
    requires
        intervals_ok(s),
        p < q,
        at(s, p) is Empty,
        clear_between(s, p, q),
        !(at(s, q) is Empty),
    ensures
        covered(s, p) == at(s, q).is_end(),
        at(s, q).is_end() ==> interval_state(s, p) == at(s, q)->state,
{
    if at(s, q).is_end() {
        let a = start_of(s, q);
        lemma_start_of(s, q);
        assert(a < p) by {
            assert(!(at(s, a) is Empty));
        }
        lemma_covered(s, p, a, q);
    }
    if covered(s, p) {
        let (a, b) = choose|a: int, b: int| a < p < b && #[trigger] spans(s, a, b);
        assert(!(at(s, b) is Empty));
        assert(b == q);
    }
}

/// So does the previous populated page.
pub proof fn lemma_prev_populated(s: Slots, p: int, q: int)
    requires
        intervals_ok(s),
        q < p,
        at(s, p) is Empty,
        clear_between(s, q, p),
        !(at(s, q) is Empty),
    ensures
        covered(s, p) == at(s, q).is_start(),
        at(s, q).is_start() ==> interval_state(s, p) == at(s, q)->state,
{
    if at(s, q).is_start() {
        let b = end_of(s, q);
        lemma_end_of(s, q);
        assert(p < b) by {
            assert(!(at(s, b) is Empty));
        }
        lemma_covered(s, p, q, b);
    }
    if covered(s, p) {
        let (a, b) = choose|a: int, b: int| a < p < b && #[trigger] spans(s, a, b);
        assert(!(at(s, a) is Empty));
        assert(a == q);
    }
}

/// Where nothing is populated from a page on, that page lies in no interval.
pub proof fn lemma_last_populated(s: Slots, p: int)
    requires
        forall|q: int| q >= p ==> #[trigger] at(s, q) is Empty,
    ensures
        !in_interval(s, p),
{
    if covered(s, p) {
        let (a, b) = choose|a: int, b: int| a < p < b && #[trigger] spans(s, a, b);
        assert(!(at(s, b) is Empty));
    }
}

/// Writing a content that is no part of a multi-page interval over one that is not either keeps the
/// intervals well formed.
pub proof fn lemma_put_standalone(s: Slots, p: int, c: SlotContent)
    requires
        intervals_ok(s),
        !covered(s, p),
        standalone(at(s, p)),
        standalone(c),
    ensures
        intervals_ok(put(s, p, c)),
        forall|x: int| x != p ==> #[trigger] in_interval(put(s, p, c), x) == in_interval(s, x),
        !covered(put(s, p, c), p),
{
    let t = put(s, p, c);
    assert forall|u: int, v: int| #[trigger] spans(s, u, v) implies v < p || u > p || (p <= u && v
        <= p) by {
        if u <= p <= v {
            assert(covered(s, p));
        }
    }
    assert(region_shape(s, t, p, p));
    lemma_region_starts(s, t, p, p);
    lemma_region_ends(s, t, p, p);
    assert forall|x: int| x != p implies #[trigger] in_interval(t, x) == in_interval(s, x) by {
        lemma_region_membership(s, t, p, p, x);
    }
    if covered(t, p) {
        let (a, b) = choose|a: int, b: int| a < p < b && #[trigger] spans(t, a, b);
        let y = end_of(s, a);
        assert(at(s, a).is_start());
        lemma_end_of(s, a);
        lemma_region_spans(s, t, p, p, a, y);
        lemma_spans_unique(t, a, b, a, y);
    }
}

/// The node next to the node of page `p` that splitting the interval around `p` also takes.
pub open spec fn extra_node(s: Slots, p: int) -> Option<int> {
    if !in_interval(s, p) || at(s, p).is_slot() {
        None
    } else if p % 16 == 0 && !at(s, p).is_start() {
        Some(node_of(p) - 1)
    } else if p % 16 == 15 && !at(s, p).is_end() {
        Some(node_of(p) + 1)
    } else {
        None
    }
}

/// The nodes that there are after a slot for page `p` has been made available.
pub open spec fn nodes_with_slot(nodes: Set<int>, s: Slots, p: int) -> Set<int> {
    match extra_node(s, p) {
        Some(k) => nodes.insert(node_of(p)).insert(k),
        None => nodes.insert(node_of(p)),
    }
}

/// The number of nodes that have to be added for that.
pub open spec fn nodes_lacking(nodes: Set<int>, s: Slots, p: int) -> int {
    (if nodes.contains(node_of(p)) {
        0int
    } else {
        1int
    }) + (match extra_node(s, p) {
        Some(k) => if nodes.contains(k) {
            0int
        } else {
            1int
        },
        None => 0int,
    })
}

/// Node `k` holds nothing.
pub open spec fn node_vacant(s: Slots, k: int) -> bool {
    forall|p: int| 16 * k <= p < 16 * k + 16 ==> #[trigger] at(s, p) is Empty
}

/// No node is completely empty.
#[verifier::opaque]
pub open spec fn tight(nodes: Set<int>, s: Slots) -> bool {
    forall|k: int| #[trigger] nodes.contains(k) ==> !node_vacant(s, k)
}

/// A populated page of a node.
pub proof fn lemma_tight(nodes: Set<int>, s: Slots, k: int) -> (p: int)
    requires
        tight(nodes, s),
        nodes.contains(k),
    ensures
        16 * k <= p < 16 * k + 16,
        !(at(s, p) is Empty),
{
    reveal(tight);
    choose|p: int| 16 * k <= p < 16 * k + 16 && !(#[trigger] at(s, p) is Empty)
}

/// No node apart from node `x` is completely empty.
#[verifier::opaque]
pub open spec fn tight_apart(nodes: Set<int>, s: Slots, x: int) -> bool {
    forall|k: int| #[trigger] nodes.contains(k) && k != x ==> !node_vacant(s, k)
}

pub proof fn lemma_tight_apart(nodes: Set<int>, s: Slots, x: int, k: int) -> (p: int)
    requires
        tight_apart(nodes, s, x),
        nodes.contains(k),
        k != x,
    ensures
        16 * k <= p < 16 * k + 16,
        !(at(s, p) is Empty),
{
    reveal(tight_apart);
    choose|p: int| 16 * k <= p < 16 * k + 16 && !(#[trigger] at(s, p) is Empty)
}

/// The largest page number that a byte offset can lie in.
pub open spec fn max_page() -> int {
    0xf_ffff_ffff_ffff
}

/// The number of nodes that have to be added for a new interval.
pub open spec fn add_lacking(
    nodes: Set<int>,
    s: Slots,
    first: int,
    last: int,
    state: ZeroRangeDirtyState,
) -> int {
    let left = !merges_left(s, first, state) && !nodes.contains(node_of(first));
    let right = !merges_right(s, last, state) && !nodes.contains(node_of(last)) && !(left
        && node_of(first) == node_of(last));
    (if left {
        1int
    } else {
        0int
    }) + (if right {
        1int
    } else {
        0int
    })
}

/// The list between the two halves of adding an interval.
pub proof fn lemma_after_add_left(
    s: Slots,
    first: int,
    last: int,
    state: ZeroRangeDirtyState,
    awaiting: int,
)
    requires
        intervals_ok(s),
        0 <= first <= last,
        clear_range(s, first, last + 1),
    ensures
        ({
            let l = add_left(s, first, state, awaiting);
            let start = merged_start(s, first, state);
            &&& merges_right(l, last, state) == merges_right(s, last, state)
            &&& at(l, start).is_start()
            &&& at(l, start)->state == state
            &&& start <= first
        }),
{
    let l = add_left(s, first, state, awaiting);
    let start = merged_start(s, first, state);
    if merges_left(s, first, state) && at(s, first - 1).is_end() {
        lemma_start_of(s, first - 1);
    }
    assert(at(s, first) is Empty && at(s, last) is Empty);
    assert(at(l, last + 1) == at(s, last + 1));
}

/// Adding an interval populates its ends and takes out at most the sentinels next to it.
pub proof fn lemma_added_pages(
    s: Slots,
    first: int,
    last: int,
    state: ZeroRangeDirtyState,
    awaiting: int,
)
    requires
        intervals_ok(s),
        0 <= first <= last,
        clear_range(s, first, last + 1),
    ensures
        ({
            let t = add_interval(s, first, last, state, awaiting);
            let no_prev = merges_left(s, first, state) && at(s, first - 1).is_end();
            let no_next = merges_right(s, last, state) && at(s, last + 1).is_start();
            &&& !merges_left(s, first, state) ==> !(at(t, first) is Empty)
            &&& !merges_right(s, last, state) ==> !(at(t, last) is Empty)
            &&& no_prev ==> at(t, first - 1) is Empty
            &&& no_next ==> at(t, last + 1) is Empty
            &&& forall|p: int|
                #![trigger at(t, p)]
                #![trigger at(s, p)]
                !(at(s, p) is Empty) && !(no_prev && p == first - 1) && !(no_next && p == last + 1)
                    ==> !(at(t, p) is Empty)
        }),
{
    let t = add_interval(s, first, last, state, awaiting);
    lemma_add_has_shape(s, first, last, state, awaiting);
    assert(at(s, first) is Empty && at(s, last) is Empty);
    let a = merged_start(s, first, state);
    let b = merged_end(s, last, state);
    assert forall|p: int|
        #![trigger at(t, p)]
        #![trigger at(s, p)]
        !(at(s, p) is Empty) && !(merges_left(s, first, state) && at(s, first - 1).is_end() && p
            == first - 1) && !(merges_right(s, last, state) && at(s, last + 1).is_start() && p
            == last + 1) implies !(at(t, p) is Empty) by {
        if a <= p <= b && p != a && p != b {
            assert(first <= p <= last ==> at(s, p) is Empty);
        }
    }
}

/// The nodes that are left after an interval has been added hold something.
pub proof fn lemma_added_nodes(
    s: Slots,
    t: Slots,
    nodes: Set<int>,
    nodes_after: Set<int>,
    first: int,
    last: int,
    state: ZeroRangeDirtyState,
    awaiting: int,
    replaced: bool,
)
    requires
        intervals_ok(s),
        0 <= first <= last,
        clear_range(s, first, last + 1),
        t == add_interval(s, first, last, state, awaiting),
        if replaced {
            first == last && tight_apart(nodes, s, node_of(first))
        } else {
            tight(nodes, s)
        },
        forall|k: int| #[trigger] nodes_after.contains(k) ==> {
            ||| nodes.contains(k)
            ||| !merges_left(s, first, state) && k == node_of(first)
            ||| !merges_right(s, last, state) && k == node_of(last)
        },
        merges_left(s, first, state) && at(s, first - 1).is_end() && nodes_after.contains(
            node_of(first - 1),
        ) ==> !node_vacant(t, node_of(first - 1)),
        merges_right(s, last, state) && at(s, last + 1).is_start() && nodes_after.contains(
            node_of(last + 1),
        ) ==> !node_vacant(t, node_of(last + 1)),
    ensures
        tight(nodes_after, t),
{
    lemma_added_pages(s, first, last, state, awaiting);
    let no_prev = merges_left(s, first, state) && at(s, first - 1).is_end();
    let no_next = merges_right(s, last, state) && at(s, last + 1).is_start();
    assert forall|k: int| #[trigger] nodes_after.contains(k) implies !node_vacant(t, k) by {
        if no_prev && k == node_of(first - 1) {
        } else if no_next && k == node_of(last + 1) {
        } else if !merges_left(s, first, state) && k == node_of(first) {
            assert(!(at(t, first) is Empty));
        } else if !merges_right(s, last, state) && k == node_of(last) {
            assert(!(at(t, last) is Empty));
        } else if replaced && k == node_of(first) {
            if node_of(first - 1) == k {
                assert(!(at(s, first - 1) is Empty));
                assert(!(at(t, first - 1) is Empty));
            } else {
                assert(node_of(first + 1) == k);
                assert(!(at(s, first + 1) is Empty));
                assert(!(at(t, first + 1) is Empty));
            }
        } else {
            let p = if replaced {
                lemma_tight_apart(nodes, s, node_of(first), k)
            } else {
                lemma_tight(nodes, s, k)
            };
            assert(!(at(t, p) is Empty));
        }
    }
    reveal(tight);
}

/// Splitting leaves no node empty.
pub proof fn lemma_split_tight(nodes: Set<int>, s: Slots, p: int)
    requires
        tight(nodes, s),
        intervals_ok(s),
        in_interval(s, p),
    ensures
        tight(nodes_with_slot(nodes, s, p), split(s, p)),
        forall|x: int| !(at(s, x) is Empty) ==> !(#[trigger] at(split(s, p), x) is Empty),
{
    let t = split(s, p);
    let after = nodes_with_slot(nodes, s, p);
    assert forall|x: int| !(at(s, x) is Empty) implies !(#[trigger] at(t, x) is Empty) by {}
    assert forall|k: int| #[trigger] after.contains(k) implies !node_vacant(t, k) by {
        if nodes.contains(k) {
            let q = lemma_tight(nodes, s, k);
            assert(!(at(t, q) is Empty));
        } else if k == node_of(p) {
            assert(!(at(t, p) is Empty));
        } else if k == node_of(p) - 1 {
            assert(!(at(t, p - 1) is Empty));
        } else {
            assert(!(at(t, p + 1) is Empty));
        }
    }
    reveal(tight);
}

/// `s` with the single page interval at page `p` merged back into the intervals next to it.
pub open spec fn return_slot(s: Slots, p: int) -> Slots {
    add_interval(
        put(s, p, SlotContent::Empty),
        p,
        p,
        at(s, p)->state,
        at(s, p)->awaiting,
    )
}

/// The nodes that hold something.
pub open spec fn occupied(s: Slots) -> Set<int> {
    Set::new(|k: int| !node_vacant(s, k))
}

/// The nodes of `nodes` in which `s` has nothing.
pub open spec fn vacated(nodes: Set<int>, s: Slots) -> Set<int> {
    nodes.filter(|k: int| node_vacant(s, k))
}

/// Those of them that hold pages from `a` up to, but not including, `e`.
pub open spec fn vacated_between(nodes: Set<int>, s: Slots, a: int, e: int) -> Set<int> {
    vacated(nodes, s).filter(|k: int| node_of(a) <= k && 16 * k < e)
}

/// Populated pages lie in occupied nodes.
pub proof fn lemma_occupied(s: Slots, p: int)
    requires
        !(at(s, p) is Empty),
    ensures
        occupied(s).contains(node_of(p)),
{
    let k = node_of(p);
    assert(16 * k <= p < 16 * k + 16);
}

/// Nodes are counted by what is added to them and what falls vacant.
proof fn lemma_node_count(nodes: Set<int>, t: Slots, added: Set<int>)
    requires
        nodes.finite(),
        added.finite(),
        added.disjoint(nodes),
        forall|k: int| #[trigger]
            occupied(t).contains(k) ==> nodes.contains(k) || added.contains(k),
        forall|k: int| #[trigger] added.contains(k) ==> occupied(t).contains(k),
    ensures
        occupied(t).finite(),
        occupied(t).len() == nodes.len() + added.len() - vacated(nodes, t).len(),
{
    let gone = vacated(nodes, t);
    let kept = nodes.filter(|k: int| !node_vacant(t, k));
    vstd::set_lib::lemma_len_subset(gone, nodes);
    vstd::set_lib::lemma_len_subset(kept, nodes);
    vstd::set_lib::lemma_set_disjoint_lens(gone, kept);
    assert(gone + kept =~= nodes);
    vstd::set_lib::lemma_set_disjoint_lens(kept, added);
    assert(kept + added =~= occupied(t));
}

/// A new interval populates no page but its first and its last.
proof fn lemma_added_only(
    s: Slots,
    first: int,
    last: int,
    state: ZeroRangeDirtyState,
    awaiting: int,
    p: int,
)
    requires
        intervals_ok(s),
        0 <= first <= last,
        clear_range(s, first, last + 1),
        at(s, p) is Empty,
        !(at(add_interval(s, first, last, state, awaiting), p) is Empty),
    ensures
        p == first && !merges_left(s, first, state) || p == last && !merges_right(s, last, state),
{
    lemma_add_has_shape(s, first, last, state, awaiting);
    let a = merged_start(s, first, state);
    let b = merged_end(s, last, state);
    if merges_left(s, first, state) && at(s, first - 1).is_end() {
        lemma_start_of(s, first - 1);
    }
    if merges_right(s, last, state) && at(s, last + 1).is_start() {
        lemma_end_of(s, last + 1);
    }
    assert(a < p < b ==> at(add_interval(s, first, last, state, awaiting), p) is Empty);
    assert(p == a || p == b);
}

/// The number of nodes after an interval has been added.
pub proof fn lemma_added_count(
    nodes: Set<int>,
    s: Slots,
    first: int,
    last: int,
    state: ZeroRangeDirtyState,
    awaiting: int,
)
    requires
        intervals_ok(s),
        0 <= first <= last,
        clear_range(s, first, last + 1),
        nodes == occupied(s),
        nodes.finite(),
    ensures
        ({
            let t = add_interval(s, first, last, state, awaiting);
            &&& occupied(t).finite()
            &&& occupied(t).len() == nodes.len() + add_lacking(nodes, s, first, last, state)
                - vacated(nodes, t).len()
        }),
{
    let t = add_interval(s, first, last, state, awaiting);
    let empty = Set::<int>::empty();
    let left = !merges_left(s, first, state) && !nodes.contains(node_of(first));
    let right = !merges_right(s, last, state) && !nodes.contains(node_of(last)) && !(left
        && node_of(first) == node_of(last));
    let added = if left && right {
        empty.insert(node_of(first)).insert(node_of(last))
    } else if left {
        empty.insert(node_of(first))
    } else if right {
        empty.insert(node_of(last))
    } else {
        empty
    };
    lemma_added_pages(s, first, last, state, awaiting);
    assert forall|k: int| #[trigger] added.contains(k) implies occupied(t).contains(k) by {
        if left && k == node_of(first) {
            lemma_occupied(t, first);
        } else {
            lemma_occupied(t, last);
        }
    }
    assert forall|k: int| #[trigger] occupied(t).contains(k) implies nodes.contains(k)
        || added.contains(k) by {
        let p = choose|p: int| 16 * k <= p < 16 * k + 16 && !(#[trigger] at(t, p) is Empty);
        assert(node_of(p) == k);
        if at(s, p) is Empty {
            lemma_added_only(s, first, last, state, awaiting, p);
        } else {
            lemma_occupied(s, p);
        }
    }
    assert(added.len() == add_lacking(nodes, s, first, last, state));
    lemma_node_count(nodes, t, added);
}

/// The number of nodes after a slot has been returned.
pub proof fn lemma_returned_count(nodes: Set<int>, s: Slots, p: int)
    requires
        intervals_ok(s),
        at(s, p).is_slot(),
        0 <= p,
        nodes == occupied(s),
        nodes.finite(),
    ensures
        occupied(return_slot(s, p)).finite(),
        occupied(return_slot(s, p)).len() == nodes.len() - vacated(nodes, return_slot(s, p)).len(),
{
    let t = return_slot(s, p);
    let e = put(s, p, SlotContent::Empty);
    assert(!covered(s, p)) by {
        if covered(s, p) {
            let (a, b) = choose|a: int, b: int| a < p < b && #[trigger] spans(s, a, b);
            assert(at(s, p) is Empty);
        }
    }
    lemma_put_standalone(s, p, SlotContent::Empty);
    assert forall|k: int| #[trigger] occupied(t).contains(k) implies nodes.contains(k) by {
        let q = choose|q: int| 16 * k <= q < 16 * k + 16 && !(#[trigger] at(t, q) is Empty);
        assert(node_of(q) == k);
        if at(e, q) is Empty {
            lemma_added_only(e, p, p, at(s, p)->state, at(s, p)->awaiting, q);
        }
        lemma_occupied(s, q);
    }
    lemma_node_count(nodes, t, Set::empty());
}

/// Returning a slot keeps the intervals well formed, and changes for no page whether it belongs to
/// an interval.
pub proof fn lemma_returned(s: Slots, p: int)
    requires
        intervals_ok(s),
        at(s, p).is_slot(),
        0 <= p,
    ensures
        intervals_ok(return_slot(s, p)),
        forall|x: int| #[trigger] in_interval(return_slot(s, p), x) == in_interval(s, x),
{
    let e = put(s, p, SlotContent::Empty);
    assert(!covered(s, p)) by {
        if covered(s, p) {
            let (a, b) = choose|a: int, b: int| a < p < b && #[trigger] spans(s, a, b);
            assert(at(s, p) is Empty);
        }
    }
    lemma_put_standalone(s, p, SlotContent::Empty);
    lemma_add_interval(e, p, p, at(s, p)->state, at(s, p)->awaiting);
    assert forall|x: int| #[trigger] in_interval(return_slot(s, p), x) == in_interval(s, x) by {
        assert(x != p ==> in_interval(e, x) == in_interval(s, x));
    }
}

/// Another awaiting-clean length changes nothing of how intervals are formed.
pub proof fn lemma_awaiting(s: Slots, p: int, awaiting: int)
    requires
        intervals_ok(s),
        at(s, p).is_start() || at(s, p).is_slot(),
    ensures
        intervals_ok(put(s, p, at(s, p).with_awaiting(awaiting))),
        forall|x: int| #[trigger]
            in_interval(put(s, p, at(s, p).with_awaiting(awaiting)), x) == in_interval(s, x),
{
    let t = put(s, p, at(s, p).with_awaiting(awaiting));
    assert forall|x: int| same_kind(#[trigger] at(s, x), at(t, x)) by {}
    lemma_same_kind(s, t);
}

/// Pages `a` and `b` and all between them can be made single page intervals.
pub open spec fn populatable(s: Slots, a: int, b: int) -> bool {
    &&& a <= b
    &&& in_interval(s, a)
    &&& in_interval(s, b)
    &&& interval_state(s, a) == interval_state(s, b)
    &&& forall|q: int| a < q < b ==> #[trigger] covered(s, q)
}

/// `s` with the pages strictly between `a` and `b` made single page intervals, the first `awaiting`
/// of which are awaiting clean.
pub open spec fn filled(
    s: Slots,
    a: int,
    b: int,
    state: ZeroRangeDirtyState,
    awaiting: int,
) -> Slots {
    Map::new(
        |p: int| a < p < b || s.contains_key(p),
        |p: int|
            if a < p < b {
                sentinel(SentinelType::Slot, state).with_awaiting(
                    if p - a <= awaiting {
                        1
                    } else {
                        0
                    },
                )
            } else {
                s[p]
            },
    )
}

/// `s` with `awaiting` pages from page `b` on awaiting clean: one of them in the single page interval
/// at `b`, the rest in the interval after it, if there is one.
pub open spec fn carried(s: Slots, b: int, awaiting: int) -> Slots {
    if awaiting <= 0 {
        s
    } else {
        let s1 = put(s, b, at(s, b).with_awaiting(1));
        let next = at(s, b + 1);
        if awaiting > 1 && (next.is_start() || next.is_slot()) {
            put(
                s1,
                b + 1,
                next.with_awaiting(
                    if next->awaiting > awaiting - 1 {
                        next->awaiting
                    } else {
                        awaiting - 1
                    },
                ),
            )
        } else {
            s1
        }
    }
}

/// `s` with the pages from `a` to `b` made single page intervals.
pub open spec fn populate(s: Slots, a: int, b: int) -> Slots {
    if a == b {
        split(s, a)
    } else {
        let s2 = split(split(s, a), b);
        if b == a + 1 {
            s2
        } else {
            let awaiting = at(s2, a + 1)->awaiting;
            carried(
                filled(s2, a, b, interval_state(s, a), awaiting),
                b,
                awaiting - (b - a - 1),
            )
        }
    }
}

/// Where more is awaiting clean than the interval that ends at page `b` is long, the interval next
/// to it, if there is one, can take the rest.
pub open spec fn carries_to_dirty(s: Slots, a: int, b: int) -> bool {
    b >= a + 2 && at(s, a).is_start() && at(s, b).is_end() && at(s, a)->awaiting > b - a + 1 && (at(
        s,
        b + 1,
    ).is_start() || at(s, b + 1).is_slot()) ==> at(s, b + 1)->state == ZeroRangeDirtyState::Dirty
}

/// The number of nodes between those that splitting at `a` and `b` already takes.
pub open spec fn nodes_between(a: int, b: int) -> int {
    let n = node_of(b - 1) - node_of(a + 1) - 1;
    if b >= a + 2 && n > 0 {
        n
    } else {
        0
    }
}

/// The contents have the same sentinels and states.
spec fn same_kind(c: SlotContent, d: SlotContent) -> bool {
    ||| c == d
    ||| {
        &&& c is Interval && d is Interval
        &&& c->sentinel == d->sentinel
        &&& c->state == d->state
        &&& !c.is_end()
    }
}

/// Awaiting-clean lengths play no part in how intervals are formed.
proof fn lemma_same_kind(s: Slots, t: Slots)
    requires
        intervals_ok(s),
        forall|x: int| same_kind(#[trigger] at(s, x), at(t, x)),
    ensures
        intervals_ok(t),
        forall|x: int| #[trigger] in_interval(t, x) == in_interval(s, x),
{
    assert forall|u: int, v: int| #[trigger] spans(s, u, v) == spans(t, u, v) by {
        assert(same_kind(at(s, u), at(t, u)) && same_kind(at(s, v), at(t, v)));
        assert(clear_between(s, u, v) == clear_between(t, u, v)) by {
            if clear_between(s, u, v) {
                assert forall|q: int| u < q < v implies #[trigger] at(t, q) is Empty by {
                    assert(same_kind(at(s, q), at(t, q)));
                }
            }
            if clear_between(t, u, v) {
                assert forall|q: int| u < q < v implies #[trigger] at(s, q) is Empty by {
                    assert(same_kind(at(s, q), at(t, q)));
                }
            }
        }
    }
    assert(starts_ok(t)) by {
        assert forall|a: int| #[trigger] at(t, a).is_start() implies exists|b: int|
            spans(t, a, b) by {
            assert(same_kind(at(s, a), at(t, a)));
            lemma_end_of(s, a);
            assert(spans(t, a, end_of(s, a)));
        }
        reveal(starts_ok);
    }
    assert(ends_ok(t)) by {
        assert forall|b: int| #[trigger] at(t, b).is_end() implies exists|a: int|
            spans(t, a, b) by {
            assert(same_kind(at(s, b), at(t, b)));
            lemma_start_of(s, b);
            assert(spans(t, start_of(s, b), b));
        }
        reveal(ends_ok);
    }
    assert forall|x: int| #[trigger] in_interval(t, x) == in_interval(s, x) by {
        assert(same_kind(at(s, x), at(t, x)));
        if covered(s, x) {
            let (u, v) = choose|u: int, v: int| u < x < v && #[trigger] spans(s, u, v);
            assert(spans(t, u, v));
        }
        if covered(t, x) {
            let (u, v) = choose|u: int, v: int| u < x < v && #[trigger] spans(t, u, v);
            assert(spans(s, u, v));
        }
    }
}

/// Pages that can be made single page intervals lie in one interval, if there are more than two.
proof fn lemma_populatable(s: Slots, a: int, b: int) -> (xy: (int, int))
    requires
        intervals_ok(s),
        populatable(s, a, b),
        b >= a + 2,
    ensures
        spans(s, xy.0, xy.1),
        xy.0 <= a,
        b <= xy.1,
{
    assert(covered(s, a + 1));
    let (x, y) = choose|x: int, y: int| x < a + 1 < y && #[trigger] spans(s, x, y);
    if y < b {
        assert(covered(s, y));
        let (u, v) = choose|u: int, v: int| u < y < v && #[trigger] spans(s, u, v);
        assert(!(at(s, y) is Empty));
    }
    (x, y)
}

/// After splitting at both ends, what is left between them is one interval.
pub proof fn lemma_populate_middle(s: Slots, a: int, b: int)
    requires
        intervals_ok(s),
        populatable(s, a, b),
        a < b,
    ensures
        ({
            let s1 = split(s, a);
            let s2 = split(s1, b);
            let state = interval_state(s, a);
            &&& intervals_ok(s1)
            &&& in_interval(s1, b)
            &&& intervals_ok(s2)
            &&& at(s1, a).is_slot()
            &&& at(s1, a)->state == state
            &&& at(s2, a).is_slot()
            &&& at(s2, b).is_slot()
            &&& at(s2, b)->state == state
            &&& forall|x: int| #[trigger] in_interval(s2, x) == in_interval(s, x)
            &&& b == a + 2 ==> at(s2, a + 1).is_slot()
            &&& b > a + 2 ==> spans(s2, a + 1, b - 1)
            &&& b >= a + 2 ==> at(s2, a + 1) is Interval && at(s2, a + 1)->state == state
        }),
{
    let s1 = split(s, a);
    let s2 = split(s1, b);
    let state = interval_state(s, a);
    lemma_split(s, a);
    assert(in_interval(s1, b) == in_interval(s, b));
    lemma_split(s1, b);
    assert forall|x: int| #[trigger] in_interval(s2, x) == in_interval(s, x) by {
        assert(in_interval(s1, x) == in_interval(s, x));
    }
    if b >= a + 2 {
        let (x, y) = lemma_populatable(s, a, b);
        lemma_bounds_are(s, a, x, y);
        lemma_split_has_shape(s, a, x, y);
        lemma_split_spans(s, s1, a, x, y, 0, 0);
        assert(spans(s1, a + 1, y));
        lemma_bounds_are(s1, b, a + 1, y);
        lemma_split_has_shape(s1, b, a + 1, y);
        lemma_split_spans(s1, s2, b, a + 1, y, 0, 0);
        assert(at(s2, a) == at(s1, a));
        if b > a + 2 {
            assert(spans(s2, a + 1, b - 1));
        }
    } else {
        lemma_split_pair(s, a);
    }
}

/// The bounds and the state of an interval from any of its pages.
proof fn lemma_bounds_are(s: Slots, p: int, a: int, b: int)
    requires
        spans(s, a, b),
        a <= p <= b,
    ensures
        in_interval(s, p),
        interval_state(s, p) == at(s, a)->state,
{
    if a < p < b {
        lemma_covered(s, p, a, b);
    }
}

/// Splitting at two neighbouring pages of the same state.
proof fn lemma_split_pair(s: Slots, a: int)
    requires
        intervals_ok(s),
        in_interval(s, a),
        in_interval(s, a + 1),
        interval_state(s, a) == interval_state(s, a + 1),
    ensures
        ({
            let s1 = split(s, a);
            let s2 = split(s1, a + 1);
            &&& at(s2, a).is_slot()
            &&& at(s2, a + 1).is_slot()
            &&& at(s2, a + 1)->state == interval_state(s, a)
        }),
{
    let s1 = split(s, a);
    let s2 = split(s1, a + 1);
    lemma_split(s, a);
    assert(in_interval(s1, a + 1) == in_interval(s, a + 1));
    lemma_split(s1, a + 1);
    if !at(s, a).is_slot() {
        lemma_bounds(s, a);
        let (x, y) = bounds(s, a);
        lemma_split_has_shape(s, a, x, y);
    }
    assert(at(s1, a).is_slot());
    assert(at(s1, a + 1) is Interval ==> interval_state(s1, a + 1) == at(s1, a + 1)->state);
    if !at(s1, a + 1).is_slot() {
        lemma_bounds(s1, a + 1);
        let (u, v) = bounds(s1, a + 1);
        assert(u == a + 1) by {
            if u <= a {
                assert(!(at(s1, a) is Empty));
                assert(u != a);
            }
        }
        lemma_split_has_shape(s1, a + 1, u, v);
    }
    if at(s, a).is_slot() {
        assert(s1 == s);
    } else {
        let (x, y) = bounds(s, a);
        if y == a {
            assert(at(s1, a + 1) == at(s, a + 1));
        }
    }
    assert(interval_state(s1, a + 1) == interval_state(s, a));
}

/// Populating keeps the intervals well formed, makes the pages single page intervals, and changes
/// for no page whether it belongs to an interval.
pub proof fn lemma_populate(s: Slots, a: int, b: int)
    requires
        intervals_ok(s),
        populatable(s, a, b),
    ensures
        intervals_ok(populate(s, a, b)),
        forall|x: int| #[trigger] in_interval(populate(s, a, b), x) == in_interval(s, x),
        forall|x: int| a <= x <= b ==> #[trigger] at(populate(s, a, b), x).is_slot(),
{
    if a == b {
        lemma_split(s, a);
    } else {
        lemma_populate_middle(s, a, b);
        if b >= a + 2 {
            let s2 = split(split(s, a), b);
            let state = interval_state(s, a);
            let awaiting = at(s2, a + 1)->awaiting;
            let s3 = filled(s2, a, b, state, awaiting);
            lemma_filled(s2, a, b, state, awaiting);
            let s4 = carried(s3, b, awaiting - (b - a - 1));
            assert(at(s3, b) == at(s2, b));
            assert(at(s3, a) == at(s2, a));
            assert forall|x: int| same_kind(#[trigger] at(s3, x), at(s4, x)) by {}
            lemma_same_kind(s3, s4);
            assert forall|x: int| #[trigger] in_interval(s4, x) == in_interval(s, x) by {
                assert(in_interval(s3, x) == in_interval(s2, x));
                assert(in_interval(s2, x) == in_interval(s, x));
            }
            assert forall|x: int| a <= x <= b implies #[trigger] at(s4, x).is_slot() by {
                assert(same_kind(at(s3, x), at(s4, x)));
            }
        } else {
            let s2 = split(split(s, a), b);
            assert(populate(s, a, b) == s2);
        }
    }
}

/// Making all pages of an interval single page intervals.
proof fn lemma_filled(s: Slots, a: int, b: int, state: ZeroRangeDirtyState, awaiting: int)
    requires
        intervals_ok(s),
        b >= a + 2,
        at(s, a).is_slot(),
        at(s, b).is_slot(),
        b == a + 2 ==> at(s, a + 1).is_slot(),
        b > a + 2 ==> spans(s, a + 1, b - 1),
    ensures
        intervals_ok(filled(s, a, b, state, awaiting)),
        forall|x: int|
            #[trigger] in_interval(filled(s, a, b, state, awaiting), x) == in_interval(s, x),
        forall|x: int|
            a < x < b ==> (#[trigger] at(filled(s, a, b, state, awaiting), x)).is_slot(),
{
    let t = filled(s, a, b, state, awaiting);
    assert forall|x: int| x < a + 1 || x > b - 1 implies #[trigger] at(t, x) == at(s, x) by {}
    assert forall|u: int, v: int| #[trigger] spans(s, u, v) implies v < a + 1 || u > b - 1 || (a + 1
        <= u && v <= b - 1) by {
        assert(u != a && v != a && u != b && v != b);
        assert(!(u < a < v) && !(u < b < v)) by {
            assert(!(at(s, a) is Empty) && !(at(s, b) is Empty));
        }
    }
    assert(region_shape(s, t, a + 1, b - 1));
    lemma_region_starts(s, t, a + 1, b - 1);
    lemma_region_ends(s, t, a + 1, b - 1);
    assert forall|x: int| #[trigger] in_interval(t, x) == in_interval(s, x) by {
        if x < a + 1 || x > b - 1 {
            lemma_region_membership(s, t, a + 1, b - 1, x);
        } else {
            assert(at(t, x) is Interval);
            if a + 1 < x < b - 1 {
                assert(covered(s, x));
            }
        }
    }
}

/// After the first of two slots has been returned the second is still there.
pub proof fn lemma_returned_first(s: Slots, a: int, b: int)
    requires
        intervals_ok(s),
        populatable(s, a, b),
        b >= a + 2,
        0 <= a,
    ensures
        ({
            let s2 = split(split(s, a), b);
            at(return_slot(s2, a), b) == at(s2, b)
        }),
{
    let s2 = split(split(s, a), b);
    lemma_populate_middle(s, a, b);
    let state = at(s2, a)->state;
    let e = put(s2, a, SlotContent::Empty);
    let start = merged_start(e, a, state);
    let t = return_slot(s2, a);
    if merges_left(e, a, state) && at(e, a - 1).is_end() {
        assert(!covered(s2, a)) by {
            if covered(s2, a) {
                let (u, v) = choose|u: int, v: int| u < a < v && #[trigger] spans(s2, u, v);
                assert(at(s2, a) is Empty);
            }
        }
        lemma_put_standalone(s2, a, SlotContent::Empty);
        lemma_start_of(e, a - 1);
    }
    assert(at(e, b) == at(s2, b));
    assert(start <= a);
}

/// What is left to carry past the last of the pages that are populated.
pub proof fn lemma_populate_carry(s: Slots, a: int, b: int)
    requires
        intervals_ok(s),
        populatable(s, a, b),
        carries_to_dirty(s, a, b),
        content_ok(at(s, a)),
    ensures
        ({
            let s2 = split(split(s, a), b);
            b >= a + 2 && at(s2, a + 1)->awaiting > b - a && (at(s2, b + 1).is_start() || at(
                s2,
                b + 1,
            ).is_slot()) ==> at(s2, b + 1)->state == ZeroRangeDirtyState::Dirty
        }),
{
    if b >= a + 2 {
        let s1 = split(s, a);
        let s2 = split(s1, b);
        let (x, y) = lemma_populatable(s, a, b);
        lemma_bounds_are(s, a, x, y);
        lemma_split_has_shape(s, a, x, y);
        lemma_split_spans(s, s1, a, x, y, 0, 0);
        assert(spans(s1, a + 1, y));
        lemma_bounds_are(s1, b, a + 1, y);
        lemma_split_has_shape(s1, b, a + 1, y);
        if y == b {
            assert(at(s2, b + 1) == at(s, b + 1));
        }
    }
}

} // verus!
