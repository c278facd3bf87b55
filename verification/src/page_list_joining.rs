//! What becomes of the intervals of a page list when one more is added: which of them are joined,
//! which state each page has afterwards, and which pages are awaiting clean.

use vstd::prelude::*;
use crate::page_list_model::{
    Slots, add_interval, add_left, at, covered, end_of, intervals_ok, lemma_end_of,
    lemma_put_standalone, lemma_spans_unique, lemma_start_of, merged_start, merges_left,
    merges_right, put, return_slot, spans, start_of,
};
use crate::page_or_marker::{SentinelType, SlotContent, ZeroRangeDirtyState};

verus! {

/// An interval starts at page `a` and ends at page `b`, which may be the same.
pub open spec fn interval(s: Slots, a: int, b: int) -> bool {
    spans(s, a, b) || a == b && at(s, a) is Interval && at(s, a)->sentinel == SentinelType::Slot
}

/// Page `x` is one of the first pages of its interval, as many as are awaiting clean.
pub open spec fn awaits_clean(s: Slots, x: int) -> bool {
    exists|a: int, b: int|
        a <= x <= b && #[trigger] interval(s, a, b) && x < a + at(s, a)->awaiting
}

/// Page `x` lies in an interval of the given state.
pub open spec fn has_state(s: Slots, x: int, state: ZeroRangeDirtyState) -> bool {
    exists|a: int, b: int| a <= x <= b && #[trigger] interval(s, a, b) && at(s, a)->state == state
}

/// A new interval of the given state from page `first` on ends up in one that starts at page `a`:
/// the one right before it, if that has the same state.
pub open spec fn joins_left(s: Slots, first: int, state: ZeroRangeDirtyState, a: int) -> bool {
    ||| first > 0 && interval(s, a, first - 1) && at(s, a)->state == state
    ||| a == first && (first == 0 || forall|u: int| #[trigger]
        interval(s, u, first - 1) ==> at(s, u)->state != state)
}

/// A new interval of the given state up to page `last` ends up in one that ends at page `b`: the one
/// right after it, if that has the same state.
pub open spec fn joins_right(s: Slots, last: int, state: ZeroRangeDirtyState, b: int) -> bool {
    ||| interval(s, last + 1, b) && at(s, last + 1)->state == state
    ||| b == last && forall|v: int| #[trigger]
        interval(s, last + 1, v) ==> at(s, last + 1)->state != state
}

/// No page of the range is populated, nor does an interval reach over it.
pub open spec fn vacant(s: Slots, first: int, last: int) -> bool {
    &&& 0 <= first <= last
    &&& forall|q: int| first <= q <= last ==> #[trigger] at(s, q) is Empty
    &&& !covered(s, first)
}

/// Every page lies in one interval at most.
pub proof fn lemma_interval_unique(s: Slots, a: int, b: int, c: int, d: int, x: int)
    requires
        interval(s, a, b),
        interval(s, c, d),
        a <= x <= b,
        c <= x <= d,
    ensures
        a == c,
        b == d,
{
    if a < b && c < d {
        assert(!(at(s, a) is Empty) && !(at(s, b) is Empty));
        assert(!(at(s, c) is Empty) && !(at(s, d) is Empty));
        lemma_spans_unique(s, a, b, c, d);
    } else if a < b {
        assert(!(at(s, c) is Empty));
    } else if c < d {
        assert(!(at(s, a) is Empty));
    }
}

pub proof fn lemma_awaits(s: Slots, a: int, b: int, x: int)
    requires
        interval(s, a, b),
        a <= x <= b,
    ensures
        awaits_clean(s, x) <==> x < a + at(s, a)->awaiting,
{
    if awaits_clean(s, x) {
        let (c, d) = choose|c: int, d: int|
            c <= x <= d && #[trigger] interval(s, c, d) && x < c + at(s, c)->awaiting;
        lemma_interval_unique(s, a, b, c, d, x);
    }
}

pub proof fn lemma_state(s: Slots, a: int, b: int, x: int, state: ZeroRangeDirtyState)
    requires
        interval(s, a, b),
        a <= x <= b,
    ensures
        has_state(s, x, state) <==> at(s, a)->state == state,
{
    if has_state(s, x, state) {
        let (c, d) = choose|c: int, d: int|
            c <= x <= d && #[trigger] interval(s, c, d) && at(s, c)->state == state;
        lemma_interval_unique(s, a, b, c, d, x);
    }
}

/// Where a new interval ends up.
pub proof fn lemma_where_it_joins(
    s: Slots,
    first: int,
    last: int,
    state: ZeroRangeDirtyState,
) -> (ab: (int, int))
    requires
        intervals_ok(s),
        vacant(s, first, last),
    ensures
        ab.0 <= first <= last <= ab.1,
        joins_left(s, first, state, ab.0),
        joins_right(s, last, state, ab.1),
{
    let prev = at(s, first - 1);
    let next = at(s, last + 1);
    let a = if first == 0 {
        first
    } else if prev.is_end() {
        lemma_start_of(s, first - 1);
        let u = start_of(s, first - 1);
        if at(s, u)->state == state {
            u
        } else {
            assert forall|w: int| #[trigger] interval(s, w, first - 1) implies at(s, w)->state
                != state by {
                lemma_interval_unique(s, u, first - 1, w, first - 1, first - 1);
            }
            first
        }
    } else if prev.is_slot() && prev->state == state {
        first - 1
    } else {
        first
    };
    let b = if next.is_start() {
        lemma_end_of(s, last + 1);
        let v = end_of(s, last + 1);
        if next->state == state {
            v
        } else {
            last
        }
    } else if next.is_slot() && next->state == state {
        last + 1
    } else {
        last
    };
    (a, b)
}

/// How much is awaiting clean of the interval from page `a` to page `b` that a new one from page
/// `first` to page `last` ends up in. Where lengths are put together, what the field cannot take is
/// cut off from the top.
pub open spec fn joined_length(
    s: Slots,
    first: int,
    last: int,
    awaiting: int,
    a: int,
    b: int,
) -> int {
    let kept = if a < first {
        at(s, a)->awaiting
    } else {
        0
    };
    let left = if awaiting == 0 || a + kept < first {
        kept
    } else if a == first {
        awaiting
    } else if a + kept > first + awaiting {
        kept % 0x80_0000
    } else {
        (first + awaiting - a) % 0x80_0000
    };
    if awaiting == 0 || b == last || at(s, last + 1)->awaiting <= 0 || a + left <= last {
        left
    } else if a + left > last + 1 + at(s, last + 1)->awaiting {
        left % 0x80_0000
    } else {
        (last + 1 + at(s, last + 1)->awaiting - a) % 0x80_0000
    }
}

/// A new interval from page `first` to page `last` and those that it joins, from page `a` to page
/// `b`, are one interval of the given state. No page outside it changes.
///
/// Of it the pages before the new interval that were awaiting clean still are. Those of the new
/// interval are added where they follow on from that without a gap, and those after it where they
/// follow on from the new interval's; where nothing of the new interval is awaiting clean nothing
/// is added at all.
#[verifier::rlimit(40)]
pub proof fn lemma_adding(
    s: Slots,
    first: int,
    last: int,
    state: ZeroRangeDirtyState,
    awaiting: int,
    a: int,
    b: int,
)
    requires
        intervals_ok(s),
        vacant(s, first, last),
        awaiting >= 0,
        joins_left(s, first, state, a),
        joins_right(s, last, state, b),
    ensures
        ({
            let t = add_interval(s, first, last, state, awaiting);
            let kept = if a < first {
                at(s, a)->awaiting
            } else {
                0
            };
            let more = if b > last {
                at(s, last + 1)->awaiting
            } else {
                0
            };
            let left = if awaiting == 0 || a + kept < first || a + kept > first + awaiting {
                a + kept
            } else {
                first + awaiting
            };
            let right = if awaiting == 0 || more == 0 || left <= last || left > last + 1 + more {
                left
            } else {
                last + 1 + more
            };
            &&& interval(t, a, b)
            &&& at(t, a)->state == state
            &&& forall|x: int| x < a || b < x ==> #[trigger] at(t, x) == at(s, x)
            &&& kept >= 0 && more >= 0 && left - a < 0x80_0000 && right - a < 0x80_0000 ==> at(
                t,
                a,
            )->awaiting == right - a
            &&& awaiting == 0 ==> at(t, a)->awaiting == kept
            &&& at(t, a)->awaiting == joined_length(s, first, last, awaiting, a, b)
        }),
{
    lemma_joined_left(s, first, last, state, a);
    lemma_joined_right(s, last, state, b);
    let t = add_interval(s, first, last, state, awaiting);
    let l = add_left(s, first, state, awaiting);
    assert(at(s, first) is Empty && at(s, last) is Empty);
    assert(at(l, a).is_start() && at(l, a)->state == state);
    assert(at(l, last + 1) == at(s, last + 1));
    assert(merges_right(l, last, state) == merges_right(s, last, state));
    assert(a < first ==> at(l, first) is Empty);
    assert(a < first - 1 ==> at(l, first - 1) is Empty);
    assert(first < last ==> at(l, last) is Empty);
    assert forall|x: int| x < a || b < x implies #[trigger] at(t, x) == at(s, x) by {}
    if a < b {
        assert(at(t, b).is_end() && at(t, b)->state == state && at(t, b)->awaiting == 0);
        assert forall|q: int| a < q < b implies #[trigger] at(t, q) is Empty by {
            assert(q < first - 1 ==> at(s, q) is Empty);
            assert(q > last + 1 ==> at(s, q) is Empty);
            assert(first <= q <= last ==> at(s, q) is Empty);
        }
        assert(spans(t, a, b));
    }
}

proof fn lemma_joined_left(s: Slots, first: int, last: int, state: ZeroRangeDirtyState, a: int)
    requires
        intervals_ok(s),
        vacant(s, first, last),
        joins_left(s, first, state, a),
    ensures
        merged_start(s, first, state) == a,
        a <= first,
        merges_left(s, first, state) <==> a < first,
        a < first - 1 ==> spans(s, a, first - 1),
        a < first - 1 ==> at(s, first - 1).is_end(),
        a == first - 1 ==> at(s, a).is_slot(),
{
    if first > 0 && at(s, first - 1).is_end() {
        lemma_start_of(s, first - 1);
        let u = start_of(s, first - 1);
        assert(interval(s, u, first - 1));
        if interval(s, a, first - 1) {
            lemma_interval_unique(s, u, first - 1, a, first - 1, first - 1);
        }
    }
    if first > 0 && at(s, first - 1).is_slot() {
        assert(interval(s, first - 1, first - 1));
        if interval(s, a, first - 1) {
            lemma_interval_unique(s, first - 1, first - 1, a, first - 1, first - 1);
        }
    }
}

proof fn lemma_joined_right(s: Slots, last: int, state: ZeroRangeDirtyState, b: int)
    requires
        intervals_ok(s),
        joins_right(s, last, state, b),
    ensures
        merges_right(s, last, state) <==> last < b,
        last <= b,
        b > last + 1 ==> spans(s, last + 1, b),
        b > last + 1 ==> at(s, last + 1).is_start(),
        b == last + 1 ==> at(s, b).is_slot(),
{
    if at(s, last + 1).is_start() {
        lemma_end_of(s, last + 1);
        let v = end_of(s, last + 1);
        assert(interval(s, last + 1, v));
        if interval(s, last + 1, b) {
            lemma_interval_unique(s, last + 1, v, last + 1, b, last + 1);
        }
    }
    if at(s, last + 1).is_slot() {
        assert(interval(s, last + 1, last + 1));
        if interval(s, last + 1, b) {
            lemma_interval_unique(s, last + 1, last + 1, last + 1, b, last + 1);
        }
    }
}

/// The intervals beside the one that a new interval ends up in.
proof fn lemma_beside(
    s: Slots,
    t: Slots,
    first: int,
    last: int,
    a: int,
    b: int,
    u: int,
    v: int,
    x: int,
)
    requires
        vacant(s, first, last),
        a <= first <= last <= b,
        a < first ==> interval(s, a, first - 1),
        last < b ==> interval(s, last + 1, b),
        interval(t, a, b),
        forall|y: int| y < a || b < y ==> #[trigger] at(t, y) == at(s, y),
        u <= x <= v,
        x < a || b < x,
    ensures
        interval(t, u, v) <==> interval(s, u, v),
        interval(s, u, v) ==> at(t, u) == at(s, u),
{
    if u < v && spans(t, u, v) {
        assert(!(at(t, a) is Empty) && !(at(t, b) is Empty));
        assert(v < a || b < u);
        assert forall|q: int| u < q < v implies #[trigger] at(s, q) is Empty by {
            assert(at(t, q) is Empty);
        }
        assert(spans(s, u, v));
    }
    if u < v && spans(s, u, v) {
        if u < first < v {
            assert(covered(s, first));
        }
        assert(at(s, first) is Empty && at(s, last) is Empty);
        assert(a < first ==> !(at(s, a) is Empty));
        assert(last < b ==> !(at(s, b) is Empty));
        if first <= u <= last {
            assert(at(s, u) is Empty);
        }
        if first <= v <= last {
            assert(at(s, v) is Empty);
        }
        assert(v < first || last < u);
        if v < first && v >= a {
            lemma_interval_unique(s, a, first - 1, u, v, v);
        }
        if last < u && u <= b {
            lemma_interval_unique(s, last + 1, b, u, v, u);
        }
        assert(v < a || b < u);
        assert forall|q: int| u < q < v implies #[trigger] at(t, q) is Empty by {
            assert(at(s, q) is Empty);
        }
        assert(spans(t, u, v));
    }
}

/// Adding an interval of which nothing is awaiting clean makes no page await clean that did not
/// before. Where no interval on the left is joined nothing is awaiting clean of the interval that
/// it ends up in; where one is joined its length is kept. So no page of the new interval is awaiting
/// clean, unless the length on the left was longer than the interval there.
pub proof fn lemma_adding_nothing_awaiting(
    s: Slots,
    first: int,
    last: int,
    state: ZeroRangeDirtyState,
)
    requires
        intervals_ok(s),
        vacant(s, first, last),
        forall|a: int| #[trigger]
            interval(s, a, first - 1) ==> a + at(s, a)->awaiting <= first,
    ensures
        ({
            let t = add_interval(s, first, last, state, 0);
            &&& forall|x: int| #[trigger] awaits_clean(t, x) ==> awaits_clean(s, x)
            &&& forall|x: int| first <= x <= last ==> !(#[trigger] awaits_clean(t, x))
            &&& forall|a: int| #[trigger]
                interval(s, a, first - 1) && first > 0 && at(s, a)->state == state ==> at(
                    t,
                    a,
                )->awaiting == at(s, a)->awaiting
            &&& first == 0 || (forall|a: int| #[trigger]
                interval(s, a, first - 1) ==> at(s, a)->state != state) ==> at(t, first)
                is Interval && at(t, first)->awaiting == 0
        }),
{
    let t = add_interval(s, first, last, state, 0);
    let (a, b) = lemma_where_it_joins(s, first, last, state);
    lemma_adding(s, first, last, state, 0, a, b);
    lemma_joined_left(s, first, last, state, a);
    lemma_joined_right(s, last, state, b);
    assert forall|x: int| #[trigger] awaits_clean(t, x) implies awaits_clean(s, x) && !(first <= x
        <= last) by {
        let (u, v) = choose|u: int, v: int|
            u <= x <= v && #[trigger] interval(t, u, v) && x < u + at(t, u)->awaiting;
        if a <= x <= b {
            lemma_interval_unique(t, a, b, u, v, x);
            assert(a < first);
            assert(interval(s, a, first - 1));
        } else {
            lemma_beside(s, t, first, last, a, b, u, v, x);
            assert(interval(s, u, v));
        }
    }
    assert forall|u: int| #[trigger]
        interval(s, u, first - 1) && first > 0 && at(s, u)->state == state implies at(
        t,
        u,
    )->awaiting == at(s, u)->awaiting by {
        assert(joins_left(s, first, state, u));
        lemma_joined_left(s, first, last, state, u);
    }
    if first == 0 || (forall|u: int| #[trigger]
        interval(s, u, first - 1) ==> at(s, u)->state != state) {
        assert(joins_left(s, first, state, first));
        lemma_joined_left(s, first, last, state, first);
    }
}

/// Which pages are awaiting clean after an interval has been added: those left of it as before;
/// those of it that are to be, if all those left of it are that it is joined with; and those right
/// of it that were, if all those left of them are that they are joined with. Nothing changes
/// elsewhere.
pub proof fn lemma_adding_awaiting(
    s: Slots,
    first: int,
    last: int,
    state: ZeroRangeDirtyState,
    awaiting: int,
    a: int,
    b: int,
)
    requires
        intervals_ok(s),
        vacant(s, first, last),
        joins_left(s, first, state, a),
        joins_right(s, last, state, b),
        0 <= awaiting <= last - first + 1,
        b - a < 0x7f_ffff,
        a < first ==> 0 <= at(s, a)->awaiting <= first - a,
        last < b ==> 0 <= at(s, last + 1)->awaiting <= b - last,
    ensures
        ({
            let t = add_interval(s, first, last, state, awaiting);
            let follows_on = forall|y: int| a <= y < first ==> #[trigger] awaits_clean(s, y);
            &&& forall|x: int|
                x < first || b < x ==> #[trigger] awaits_clean(t, x) == awaits_clean(s, x)
            &&& forall|x: int|
                first <= x <= last ==> #[trigger] awaits_clean(t, x) == (x < first + awaiting
                    && follows_on)
            &&& forall|x: int|
                last < x <= b ==> #[trigger] awaits_clean(t, x) == (awaits_clean(s, x) && awaiting
                    == last - first + 1 && follows_on)
        }),
{
    let t = add_interval(s, first, last, state, awaiting);
    lemma_adding(s, first, last, state, awaiting, a, b);
    lemma_joined_left(s, first, last, state, a);
    lemma_joined_right(s, last, state, b);
    let follows_on = forall|y: int| a <= y < first ==> #[trigger] awaits_clean(s, y);
    if a < first {
        assert(interval(s, a, first - 1));
        assert forall|y: int| a <= y < first implies (#[trigger] awaits_clean(s, y) <==> y < a + at(
            s,
            a,
        )->awaiting) by {
            lemma_awaits(s, a, first - 1, y);
        }
        assert(follows_on ==> awaits_clean(s, first - 1));
    }
    if last < b {
        assert(interval(s, last + 1, b));
        assert forall|y: int| last < y <= b implies (#[trigger] awaits_clean(s, y) <==> y < last + 1
            + at(s, last + 1)->awaiting) by {
            lemma_awaits(s, last + 1, b, y);
        }
    }
    assert forall|x: int| a <= x <= b implies (#[trigger] awaits_clean(t, x) <==> x < a + at(
        t,
        a,
    )->awaiting) by {
        lemma_awaits(t, a, b, x);
    }
    assert forall|x: int| x < a || b < x implies #[trigger] awaits_clean(t, x) == awaits_clean(
        s,
        x,
    ) by {
        if awaits_clean(t, x) {
            let (u, v) = choose|u: int, v: int|
                u <= x <= v && #[trigger] interval(t, u, v) && x < u + at(t, u)->awaiting;
            lemma_beside(s, t, first, last, a, b, u, v, x);
            assert(interval(s, u, v));
        }
        if awaits_clean(s, x) {
            let (u, v) = choose|u: int, v: int|
                u <= x <= v && #[trigger] interval(s, u, v) && x < u + at(s, u)->awaiting;
            lemma_beside(s, t, first, last, a, b, u, v, x);
            assert(interval(t, u, v));
        }
    }
}

/// After an interval has been added its pages have its state, every other page of an interval has
/// the state that it had, and what is no interval is unchanged.
pub proof fn lemma_adding_keeps_states(
    s: Slots,
    first: int,
    last: int,
    state: ZeroRangeDirtyState,
    awaiting: int,
)
    requires
        intervals_ok(s),
        vacant(s, first, last),
        awaiting >= 0,
    ensures
        ({
            let t = add_interval(s, first, last, state, awaiting);
            &&& forall|x: int, other: ZeroRangeDirtyState| #[trigger]
                has_state(t, x, other) <==> if first <= x <= last {
                    other == state
                } else {
                    has_state(s, x, other)
                }
            &&& forall|x: int|
                !(first <= x <= last) && !(at(s, x) is Interval) ==> #[trigger] at(t, x) == at(s, x)
        }),
{
    let t = add_interval(s, first, last, state, awaiting);
    let (a, b) = lemma_where_it_joins(s, first, last, state);
    lemma_adding(s, first, last, state, awaiting, a, b);
    lemma_joined_left(s, first, last, state, a);
    lemma_joined_right(s, last, state, b);
    assert(a < first ==> interval(s, a, first - 1));
    assert(last < b ==> interval(s, last + 1, b));
    assert forall|x: int, other: ZeroRangeDirtyState| #[trigger]
        has_state(t, x, other) <==> if first <= x <= last {
            other == state
        } else {
            has_state(s, x, other)
        } by {
        if a <= x <= b {
            lemma_state(t, a, b, x, other);
            if x < first {
                lemma_state(s, a, first - 1, x, other);
            } else if x > last {
                lemma_state(s, last + 1, b, x, other);
            }
        } else {
            if has_state(t, x, other) {
                let (u, v) = choose|u: int, v: int|
                    u <= x <= v && #[trigger] interval(t, u, v) && at(t, u)->state == other;
                lemma_beside(s, t, first, last, a, b, u, v, x);
                assert(interval(s, u, v));
            }
            if has_state(s, x, other) {
                let (u, v) = choose|u: int, v: int|
                    u <= x <= v && #[trigger] interval(s, u, v) && at(s, u)->state == other;
                lemma_beside(s, t, first, last, a, b, u, v, x);
                assert(interval(t, u, v));
            }
        }
    }
    assert forall|x: int| !(first <= x <= last) && !(at(s, x) is Interval) implies #[trigger] at(
        t,
        x,
    ) == at(s, x) by {
        if a <= x <= b {
            assert(x != a && x != b && x != first - 1 && x != last + 1);
            assert(at(t, x) is Empty);
            if x < first {
                assert(at(s, x) is Empty);
            } else {
                assert(at(s, x) is Empty);
            }
        }
    }
}

/// Without a single page interval the others are as they were.
proof fn lemma_without(s: Slots, p: int)
    requires
        intervals_ok(s),
        0 <= p,
        at(s, p).is_slot(),
    ensures
        ({
            let e = put(s, p, SlotContent::Empty);
            &&& intervals_ok(e)
            &&& vacant(e, p, p)
            &&& forall|x: int| x != p ==> #[trigger] at(e, x) == at(s, x)
            &&& forall|u: int, v: int| #[trigger]
                interval(e, u, v) <==> interval(s, u, v) && u != p
            &&& forall|u: int, v: int| #[trigger]
                interval(s, u, v) && u != p ==> v < p || p < u
        }),
{
    let e = put(s, p, SlotContent::Empty);
    assert(!covered(s, p)) by {
        if covered(s, p) {
            let (u, v) = choose|u: int, v: int| u < p < v && #[trigger] spans(s, u, v);
            assert(at(s, p) is Empty);
        }
    }
    lemma_put_standalone(s, p, SlotContent::Empty);
    assert(interval(s, p, p));
    assert forall|u: int, v: int| #[trigger] interval(s, u, v) && u != p implies (v < p || p < u)
        && interval(e, u, v) by {
        if u <= p <= v {
            lemma_interval_unique(s, p, p, u, v, p);
        }
        if u < v {
            assert forall|q: int| u < q < v implies #[trigger] at(e, q) is Empty by {
                assert(at(s, q) is Empty);
            }
            assert(spans(e, u, v));
        }
    }
    assert forall|u: int, v: int| #[trigger] interval(e, u, v) implies interval(s, u, v) && u
        != p by {
        if u < v {
            assert(!(u < p < v)) by {
                if u < p < v {
                    assert(covered(e, p));
                }
            }
            assert(at(e, p) is Empty);
            assert forall|q: int| u < q < v implies #[trigger] at(s, q) is Empty by {
                assert(at(e, q) is Empty);
            }
            assert(spans(s, u, v));
        }
    }
}

/// Returning a slot is the same as adding an interval of its page, state and length to the list
/// without it.
pub proof fn lemma_returning_is_adding(s: Slots, p: int)
    requires
        at(s, p) is Interval,
    ensures
        return_slot(s, p) == add_interval(
            s.remove(p),
            p,
            p,
            at(s, p)->state,
            at(s, p)->awaiting,
        ),
{
}

/// Returning a slot changes the state of no page, and nothing that is no interval. Pages before it
/// are awaiting clean as they were; it is itself if all those left of it are that it is joined with,
/// and the pages right of it, as far as they are joined with it, if it still is. Nothing changes
/// elsewhere.
pub proof fn lemma_returning(s: Slots, p: int, a: int, b: int)
    requires
        intervals_ok(s),
        0 <= p,
        at(s, p).is_slot(),
        joins_left(s, p, at(s, p)->state, a),
        joins_right(s, p, at(s, p)->state, b),
        b - a < 0x7f_ffff,
        0 <= at(s, p)->awaiting <= 1,
        a < p ==> 0 <= at(s, a)->awaiting <= p - a,
        p < b ==> 0 <= at(s, p + 1)->awaiting <= b - p,
    ensures
        ({
            let t = return_slot(s, p);
            let follows_on = forall|y: int| a <= y < p ==> #[trigger] awaits_clean(s, y);
            &&& interval(t, a, b)
            &&& forall|x: int, state: ZeroRangeDirtyState| #[trigger]
                has_state(t, x, state) <==> has_state(s, x, state)
            &&& forall|x: int| !(at(s, x) is Interval) ==> #[trigger] at(t, x) == at(s, x)
            &&& forall|x: int|
                x < p || b < x ==> #[trigger] awaits_clean(t, x) == awaits_clean(s, x)
            &&& awaits_clean(t, p) == (awaits_clean(s, p) && follows_on)
            &&& forall|x: int|
                p < x <= b ==> #[trigger] awaits_clean(t, x) == (awaits_clean(s, x)
                    && awaits_clean(t, p))
        }),
{
    let t = return_slot(s, p);
    let state = at(s, p)->state;
    let awaiting = at(s, p)->awaiting;
    let e = put(s, p, SlotContent::Empty);
    lemma_without(s, p);
    assert(a <= p);
    assert(p <= b);
    assert(a < p ==> interval(e, a, p - 1));
    assert(p < b ==> interval(e, p + 1, b));
    assert(joins_left(e, p, state, a));
    assert(joins_right(e, p, state, b));
    lemma_adding(e, p, p, state, awaiting, a, b);
    lemma_adding_awaiting(e, p, p, state, awaiting, a, b);
    lemma_adding_keeps_states(e, p, p, state, awaiting);
    assert forall|x: int, other: ZeroRangeDirtyState| x != p implies #[trigger] has_state(
        e,
        x,
        other,
    ) == has_state(s, x, other) by {
        if has_state(e, x, other) {
            let (u, v) = choose|u: int, v: int|
                u <= x <= v && #[trigger] interval(e, u, v) && at(e, u)->state == other;
            assert(interval(s, u, v));
        }
        if has_state(s, x, other) {
            let (u, v) = choose|u: int, v: int|
                u <= x <= v && #[trigger] interval(s, u, v) && at(s, u)->state == other;
            if u == p {
                lemma_interval_unique(s, p, p, u, v, p);
            }
            assert(interval(e, u, v));
        }
    }
    assert forall|x: int| x != p implies #[trigger] awaits_clean(e, x) == awaits_clean(s, x) by {
        if awaits_clean(e, x) {
            let (u, v) = choose|u: int, v: int|
                u <= x <= v && #[trigger] interval(e, u, v) && x < u + at(e, u)->awaiting;
            assert(interval(s, u, v));
        }
        if awaits_clean(s, x) {
            let (u, v) = choose|u: int, v: int|
                u <= x <= v && #[trigger] interval(s, u, v) && x < u + at(s, u)->awaiting;
            if u == p {
                lemma_interval_unique(s, p, p, u, v, p);
            }
            assert(interval(e, u, v));
        }
    }
    lemma_awaits(s, p, p, p);
    assert forall|x: int, other: ZeroRangeDirtyState| #[trigger]
        has_state(t, x, other) <==> has_state(s, x, other) by {
        if x == p {
            lemma_state(s, p, p, p, other);
        } else {
            assert(has_state(e, x, other) == has_state(s, x, other));
        }
    }
    let before = forall|y: int| a <= y < p ==> #[trigger] awaits_clean(e, y);
    let follows_on = forall|y: int| a <= y < p ==> #[trigger] awaits_clean(s, y);
    assert(before == follows_on) by {
        if before {
            assert forall|y: int| a <= y < p implies #[trigger] awaits_clean(s, y) by {
                assert(awaits_clean(e, y));
            }
        }
    }
}

} // verus!
