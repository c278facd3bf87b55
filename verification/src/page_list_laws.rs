//! What holds of the operations of a page list together.

use vstd::prelude::*;
use crate::page_list_model::{
    Slots, add_left, at, bounds, carried, covered, filled, in_interval, interval_state,
    intervals_ok, lemma_bounds, lemma_covered, lemma_populate_middle, lemma_put_standalone,
    lemma_split, lemma_split_tight, lemma_tight, merges_left, merges_right, node_of, node_vacant,
    nodes_with_slot, occupied, page_of, populatable, populate, put, return_slot, sentinel, spans,
    split, standalone, tight, vacated, vacated_between,
};
use crate::page_or_marker::{
    SentinelType, SlotContent, VmPageOrMarker, ZeroRangeDirtyState, content_ok,
};
use crate::status::Status;
use crate::traversal::{
    Event, Visit, answers, answers_event, called, events, last_status, moved, next_page, outcome,
    replaced, stops_right, visits, walk_end, walked, walked_events,
};

verus! {

/// All contents are ones that slots take, and only populated pages are listed.
pub open spec fn contents_ok(s: Slots) -> bool {
    &&& forall|p: int| content_ok(#[trigger] at(s, p))
    &&& forall|p: int| #[trigger] s.contains_key(p) ==> !(s[p] is Empty)
}

/// A read gives back what was last written, and writing one page changes no other.
pub proof fn lemma_read_back(s: Slots, p: int, c: SlotContent, x: int)
    ensures
        at(put(s, p, c), p) == c,
        x != p ==> at(put(s, p, c), x) == at(s, x),
{
}

/// Filling the slot that a lookup made available keeps the list settled, whatever the content is,
/// as long as it is no part of a multi-page interval: no node is empty, and every interval has a
/// start and an end.
pub proof fn lemma_fill_slot(nodes: Set<int>, s: Slots, p: int, c: SlotContent)
    requires
        tight(nodes, s),
        intervals_ok(s),
        !(c is Empty),
        standalone(c),
    ensures
        ({
            let target = if in_interval(s, p) {
                split(s, p)
            } else {
                s
            };
            &&& tight(nodes_with_slot(nodes, s, p), put(target, p, c))
            &&& intervals_ok(put(target, p, c))
        }),
{
    let target = if in_interval(s, p) {
        split(s, p)
    } else {
        s
    };
    let after = nodes_with_slot(nodes, s, p);
    let t = put(target, p, c);
    if in_interval(s, p) {
        lemma_split(s, p);
        lemma_split_tight(nodes, s, p);
        assert(!covered(target, p)) by {
            if covered(target, p) {
                let (a, b) = choose|a: int, b: int| a < p < b && #[trigger] spans(target, a, b);
                assert(at(target, p) is Empty);
            }
        }
    }
    lemma_put_standalone(target, p, c);
    assert forall|k: int| #[trigger] after.contains(k) implies !node_vacant(t, k) by {
        if k == node_of(p) {
            assert(!(at(t, p) is Empty));
        } else if in_interval(s, p) {
            let q = lemma_tight(after, target, k);
            assert(at(t, q) == at(target, q));
        } else {
            assert(nodes.contains(k));
            let q = lemma_tight(nodes, s, k);
            assert(at(t, q) == at(s, q));
        }
    }
    reveal(tight);
}

/// Taking out what was put into an empty slot gives back the list, node by node.
pub proof fn lemma_remove_undoes_fill(nodes: Set<int>, s: Slots, p: int, c: SlotContent)
    requires
        tight(nodes, s),
        contents_ok(s),
        at(s, p) is Empty,
        !(c is Empty),
        forall|x: int| !(#[trigger] at(s, x) is Empty) ==> nodes.contains(node_of(x)),
    ensures
        put(put(s, p, c), p, SlotContent::Empty) == s,
        ({
            let after = nodes.insert(node_of(p));
            (if node_vacant(s, node_of(p)) {
                after.remove(node_of(p))
            } else {
                after
            }) == nodes
        }),
{
    assert(put(put(s, p, c), p, SlotContent::Empty) =~= s);
    let after = nodes.insert(node_of(p));
    if node_vacant(s, node_of(p)) {
        if nodes.contains(node_of(p)) {
            let q = lemma_tight(nodes, s, node_of(p));
            assert(at(s, q) is Empty);
        }
        assert(after.remove(node_of(p)) =~= nodes);
    } else {
        let q = choose|q: int|
            16 * node_of(p) <= q < 16 * node_of(p) + 16 && !(#[trigger] at(s, q) is Empty);
        assert(nodes.contains(node_of(q)));
        assert(after =~= nodes);
    }
}

/// Splitting the interval from page `a` to page `b` around page `p` leaves up to three intervals:
/// the pages before `p`, `p` itself, and the pages after `p`. All have the state that the interval
/// had. What was awaiting clean stays with the part before `p`, where there is one; else one page
/// of it is left at `p`, and the rest goes to the part after it. No other page changes.
pub proof fn lemma_split_parts(s: Slots, p: int, a: int, b: int)
    requires
        spans(s, a, b),
        a <= p <= b,
    ensures
        ({
            let t = split(s, p);
            let state = at(s, a)->state;
            let awaiting = at(s, a)->awaiting;
            &&& at(t, p) == sentinel(SentinelType::Slot, state).with_awaiting(
                if p > a {
                    0
                } else if awaiting > 1 {
                    1
                } else {
                    awaiting
                },
            )
            &&& a < p - 1 ==> spans(t, a, p - 1) && at(t, a) == at(s, a)
            &&& a == p - 1 ==> at(t, a) == at(s, a).with_sentinel(SentinelType::Slot)
            &&& p + 1 < b ==> spans(t, p + 1, b) && at(t, b) == at(s, b)
            &&& p + 1 == b ==> at(t, b).is_slot()
            &&& p < b ==> at(t, p + 1)->state == state && at(t, p + 1)->awaiting == if p == a
                && awaiting > 1 {
                awaiting - 1
            } else {
                0
            }
            &&& forall|x: int|
                x < a || b < x || x < p - 1 || p + 1 < x ==> #[trigger] at(t, x) == at(s, x)
        }),
{
    let t = split(s, p);
    if a < p < b {
        lemma_covered(s, p, a, b);
    }
    assert(a < p ==> (at(s, p - 1).is_start() <==> a == p - 1));
    assert(p < b ==> (at(s, p + 1).is_end() <==> b == p + 1));
    assert(at(s, p).is_start() <==> a == p);
    assert(at(s, p).is_end() <==> b == p);
    assert forall|x: int| x < a || b < x || x < p - 1 || p + 1 < x implies #[trigger] at(t, x)
        == at(s, x) by {}
    if a < p - 1 {
        assert forall|q: int| a < q < p - 1 implies #[trigger] at(t, q) is Empty by {
            assert(at(s, q) is Empty);
        }
    }
    if p + 1 < b {
        assert forall|q: int| p + 1 < q < b implies #[trigger] at(t, q) is Empty by {
            assert(at(s, q) is Empty);
        }
    }
}

/// No interval could have been joined with the one at page `p`.
pub open spec fn apart_from_neighbours(s: Slots, p: int) -> bool {
    let c = at(s, p);
    &&& c.is_start() || c.is_slot() ==> !merges_left(s, p, c->state)
    &&& c.is_end() || c.is_slot() ==> !merges_right(s, p, c->state)
}

/// Returning a slot right after an interval has been split around it restores the interval, and
/// with it what was awaiting clean, if the interval could not have been joined with its
/// neighbours.
pub proof fn lemma_return_undoes_split(s: Slots, p: int)
    requires
        intervals_ok(s),
        contents_ok(s),
        in_interval(s, p),
        p >= 0,
        at(s, p).is_start() || at(s, p).is_slot() || p > 0,
        apart_from_neighbours(s, p),
    ensures
        return_slot(split(s, p), p) == s,
{
    let t = split(s, p);
    let state = interval_state(s, p);
    let e = put(t, p, SlotContent::Empty);
    let r = return_slot(t, p);
    assert(content_ok(at(s, p)));
    assert(content_ok(at(s, p - 1)));
    assert(content_ok(at(s, p + 1)));
    if at(s, p).is_slot() {
        assert(at(e, p - 1) == at(s, p - 1));
        assert(at(e, p + 1) == at(s, p + 1));
        assert(!merges_left(e, p, state));
        assert(r =~= s);
    } else {
        lemma_bounds(s, p);
        let (a, b) = bounds(s, p);
        assert(a < p ==> (at(s, p - 1).is_start() <==> a == p - 1));
        assert(p < b ==> (at(s, p + 1).is_end() <==> b == p + 1));
        assert(a < p - 1 ==> at(s, p - 1) is Empty);
        assert(p + 1 < b ==> at(s, p + 1) is Empty);
        assert(a == p <==> at(s, p).is_start());
        assert(b == p <==> at(s, p).is_end());
        assert(at(t, p)->state == state);
        let c = at(t, p);
        if a == p {
            assert(at(e, p - 1) == at(s, p - 1));
            assert(!merges_left(e, p, state));
            assert(merges_right(add_left(e, p, state, c->awaiting), p, state));
        } else {
            assert(merges_left(e, p, state));
            assert(c->awaiting == 0);
            if b == p {
                assert(at(e, p + 1) == at(s, p + 1));
                assert(!merges_right(add_left(e, p, state, 0), p, state));
            } else {
                assert(merges_right(add_left(e, p, state, 0), p, state));
            }
        }
        assert(r =~= s);
    }
}

/// Every page from `a` to `b` is split off in turn.
pub open spec fn split_all(s: Slots, a: int, b: int) -> Slots
    decreases b + 1 - a,
{
    if a > b {
        s
    } else {
        split_all(split(s, a), a + 1, b)
    }
}

/// Populating a range is the same as splitting the interval around each of its pages in turn.
///
/// That leaves out a range of more than two pages that is a whole interval, if more is awaiting
/// clean than it is long: populating moves the rest on to the next interval, splitting leaves all
/// of it with the last page.
pub proof fn lemma_populate_is_split_all(s: Slots, a: int, b: int)
    requires
        intervals_ok(s),
        contents_ok(s),
        populatable(s, a, b),
        b >= a + 2 && at(s, a).is_start() && at(s, b).is_end() ==> at(s, a)->awaiting <= b - a + 1,
    ensures
        populate(s, a, b) == split_all(s, a, b),
{
    let s1 = split(s, a);
    assert(split_all(s, a, b) == split_all(s1, a + 1, b));
    if a == b {
        assert(split_all(s1, a + 1, b) == s1);
    } else {
        let s2 = split(s1, b);
        let state = interval_state(s, a);
        lemma_populate_middle(s, a, b);
        if b == a + 1 {
            assert(split_all(s1, b, b) == split_all(s2, b + 1, b));
            assert(split_all(s2, b + 1, b) == s2);
        } else {
            let (x, y) = lemma_one_interval(s, a, b);
            assert(content_ok(at(s, a)));
            assert(content_ok(at(s, y)));
            lemma_covered_state(s, a, x, y);
            assert(at(s, a).is_start() <==> x == a);
            assert(at(s, b).is_end() <==> y == b);
            assert(at(s1, a + 1).is_start());
            assert(at(s1, a + 1)->state == state);
            assert(at(s1, a + 1)->awaiting == if x == a && at(s, a)->awaiting > 1 {
                at(s, a)->awaiting - 1
            } else {
                0
            });
            assert(spans(s1, a + 1, y)) by {
                assert(at(s1, y) == at(s, y));
                assert forall|q: int| a + 1 < q < y implies #[trigger] at(s1, q) is Empty by {
                    assert(at(s, q) is Empty);
                }
            }
            lemma_split_run(s1, a, b, y);
            let awaiting = at(s1, a + 1)->awaiting;
            lemma_populate_shape(s1, a, b, y, state);
            assert(at(s2, a + 1)->awaiting == awaiting);
        }
    }
}

/// The interval that a range of more than two pages lies in.
proof fn lemma_one_interval(s: Slots, a: int, b: int) -> (xy: (int, int))
    requires
        intervals_ok(s),
        populatable(s, a, b),
        b >= a + 2,
    ensures
        spans(s, xy.0, xy.1),
        xy.0 <= a,
        b <= xy.1,
{
    assert(covered(s, a + 1));
    let (x, y) = choose|x: int, y: int| x < a + 1 < y && #[trigger] spans(s, x, y);
    if y < b {
        assert(covered(s, y));
        let (u, v) = choose|u: int, v: int| u < y < v && #[trigger] spans(s, u, v);
        assert(!(at(s, y) is Empty));
    }
    (x, y)
}

proof fn lemma_covered_state(s: Slots, p: int, a: int, b: int)
    requires
        spans(s, a, b),
        a <= p <= b,
    ensures
        interval_state(s, p) == at(s, a)->state,
{
    if a < p < b {
        lemma_covered(s, p, a, b);
    }
}

/// An interval that starts at page `a + 1` and reaches at least to page `b`, with the pages up to
/// `b` split off.
spec fn run_after(s: Slots, a: int, b: int, y: int) -> Slots {
    let state = at(s, a + 1)->state;
    let awaiting = at(s, a + 1)->awaiting;
    let done = filled(s, a, b + 1, state, awaiting);
    let left = awaiting - (b - a);
    if y == b {
        if awaiting >= b - a {
            put(done, b, sentinel(SentinelType::Slot, state).with_awaiting(awaiting - (b - a - 1)))
        } else {
            done
        }
    } else {
        put(
            done,
            b + 1,
            (if y == b + 1 {
                sentinel(SentinelType::Slot, state)
            } else {
                sentinel(SentinelType::Start, state)
            }).with_awaiting(
                if left > 0 {
                    left
                } else {
                    0
                },
            ),
        )
    }
}

/// Splitting off pages from the start of an interval, one after the other.
proof fn lemma_split_run(s: Slots, a: int, b: int, y: int)
    requires
        spans(s, a + 1, y),
        a + 1 <= b <= y,
        at(s, a + 1)->awaiting >= 0,
    ensures
        split_all(s, a + 1, b) == run_after(s, a, b, y),
    decreases b - a,
{
    let p = a + 1;
    let t = split(s, p);
    assert(split_all(s, p, b) == split_all(t, p + 1, b));
    assert(at(s, p + 1).is_end() <==> y == p + 1);
    if b == p {
        assert(split_all(t, p + 1, b) == t);
        assert(t =~= run_after(s, a, b, y));
    } else if y == p + 1 {
        assert(b == y);
        assert(at(t, y).is_slot());
        assert(split(t, y) == t);
        assert(split_all(t, y, y) == split_all(split(t, y), y + 1, y));
        assert(split_all(t, y + 1, y) == t);
        assert(t =~= run_after(s, a, b, y));
    } else {
        assert(spans(t, p + 1, y)) by {
            assert(at(t, y) == at(s, y));
            assert forall|q: int| p + 1 < q < y implies #[trigger] at(t, q) is Empty by {
                assert(at(s, q) is Empty);
            }
        }
        lemma_split_run(t, p, b, y);
        assert(run_after(t, p, b, y) =~= run_after(s, a, b, y));
    }
}

/// The same from populating all pages at once.
proof fn lemma_populate_shape(s1: Slots, a: int, b: int, y: int, state: ZeroRangeDirtyState)
    requires
        spans(s1, a + 1, y),
        a + 2 <= b <= y,
        at(s1, a + 1)->state == state,
        at(s1, a + 1)->awaiting >= 0,
        y == b ==> at(s1, a + 1)->awaiting <= b - a,
    ensures
        ({
            let s2 = split(s1, b);
            let awaiting = at(s2, a + 1)->awaiting;
            &&& awaiting == at(s1, a + 1)->awaiting
            &&& carried(filled(s2, a, b, state, awaiting), b, awaiting - (b - a - 1)) == run_after(
                s1,
                a,
                b,
                y,
            )
        }),
{
    let s2 = split(s1, b);
    lemma_covered_state(s1, b, a + 1, y);
    assert(at(s1, b).is_end() <==> y == b);
    assert(!at(s1, b).is_start());
    assert(at(s1, b - 1).is_start() <==> b - 1 == a + 1);
    assert(y > b ==> (at(s1, b + 1).is_end() <==> y == b + 1));
    let awaiting = at(s2, a + 1)->awaiting;
    assert(carried(filled(s2, a, b, state, awaiting), b, awaiting - (b - a - 1)) =~= run_after(
        s1,
        a,
        b,
        y,
    ));
}

/// Splitting keeps all contents such that slots take them.
pub proof fn lemma_split_contents(s: Slots, p: int)
    requires
        contents_ok(s),
        intervals_ok(s),
        in_interval(s, p),
    ensures
        contents_ok(split(s, p)),
{
    let t = split(s, p);
    assert(content_ok(at(s, p)));
    assert(content_ok(at(s, p - 1)));
    assert(content_ok(at(s, p + 1)));
    if !at(s, p).is_slot() {
        lemma_bounds(s, p);
        let (a, b) = bounds(s, p);
        assert(content_ok(at(s, a)));
        assert(a == p <==> at(s, p).is_start());
        assert(at(s, p + 1).is_end() && p < b ==> b == p + 1);
        assert forall|x: int| content_ok(#[trigger] at(t, x)) by {
            assert(content_ok(at(s, x)));
        }
        assert forall|x: int| #[trigger] t.contains_key(x) implies !(t[x] is Empty) by {
            if x != p && x != p - 1 && x != p + 1 {
                assert(s.contains_key(x));
            }
        }
    }
}

/// Populating a range that fails for want of memory leaves the list as it was, if the interval
/// could not have been joined with its neighbours: the pages that were split off are merged back.
pub proof fn lemma_failed_populate_restores(s: Slots, a: int, b: int)
    requires
        intervals_ok(s),
        contents_ok(s),
        populatable(s, a, b),
        b >= a + 2,
        a >= 0,
        at(s, a).is_start() || a > 0,
        apart_from_neighbours(s, a),
        apart_from_neighbours(s, b),
    ensures
        return_slot(split(s, a), a) == s,
        return_slot(return_slot(split(split(s, a), b), a), b) == s,
{
    lemma_return_undoes_split(s, a);
    let t = split(s, b);
    let s1 = split(s, a);
    let (x, y) = lemma_one_interval(s, a, b);
    lemma_covered_state(s, a, x, y);
    lemma_covered_state(s, b, x, y);
    lemma_split(s, b);
    lemma_split_contents(s, b);
    assert(at(s, a).is_start() <==> x == a);
    assert(at(s, b).is_end() <==> y == b);
    assert(!at(s, a).is_slot() && !at(s, b).is_slot() && !at(s, a).is_end() && !at(
        s,
        b,
    ).is_start());
    assert(x < a ==> (at(s, a - 1).is_start() <==> x == a - 1));
    assert(at(s, a + 1) is Empty && at(s, b - 1) is Empty);
    assert(y > b ==> (at(s, b + 1).is_end() <==> y == b + 1));
    // In the other order the same comes out.
    assert(split(s1, b) =~= split(t, a)) by {
        lemma_split(s, a);
        assert(in_interval(s1, b) == in_interval(s, b));
        assert(at(s1, b) == at(s, b));
        assert(at(t, a) == at(s, a));
        assert(at(s1, a + 1).is_start());
        assert(spans(s1, a + 1, y)) by {
            assert(at(s1, y) == at(s, y));
            assert forall|q: int| a + 1 < q < y implies #[trigger] at(s1, q) is Empty by {
                assert(at(s, q) is Empty);
            }
        }
        assert(spans(t, x, b - 1)) by {
            assert(at(t, x) == at(s, x));
            assert forall|q: int| x < q < b - 1 implies #[trigger] at(t, q) is Empty by {
                assert(at(s, q) is Empty);
            }
        }
        lemma_covered_state(s1, b, a + 1, y);
        lemma_covered_state(t, a, x, b - 1);
    }
    assert(in_interval(t, a) == in_interval(s, a)) by {
        assert(in_interval(t, a) == in_interval(s, a));
    }
    assert(in_interval(t, a));
    assert(at(t, a - 1) == at(s, a - 1));
    assert(at(t, a) == at(s, a));
    lemma_return_undoes_split(t, a);
    lemma_return_undoes_split(s, b);
}

/// A walk comes by every populated slot of its range and by nothing else, in ascending order.
pub proof fn lemma_walk_visits_all(s: Slots, a: int, b: int)
    requires
        0 <= a,
        b * 4096 <= u64::MAX,
    ensures
        forall|i: int|
            0 <= i < visits(s, a, b).len() ==> is_visit(s, a, b, #[trigger] visits(s, a, b)[i]),
        forall|i: int, j: int|
            0 <= i < j < visits(s, a, b).len() ==> (#[trigger] visits(s, a, b)[i]).1 < (
            #[trigger] visits(s, a, b)[j]).1,
        forall|p: int|
            a <= p < b && !(#[trigger] at(s, p) is Empty) ==> visits(s, a, b).contains(
                (at(s, p), (p * 4096) as u64),
            ),
    decreases b - a,
{
    if a < b {
        lemma_walk_visits_all(s, a + 1, b);
        let all = visits(s, a, b);
        let rest = visits(s, a + 1, b);
        if at(s, a) is Empty {
            assert(all == rest);
            assert forall|i: int| 0 <= i < all.len() implies is_visit(s, a, b, #[trigger] all[i]) by {
                assert(is_visit(s, a + 1, b, rest[i]));
            }
        } else {
            assert(all == seq![(at(s, a), (a * 4096) as u64)] + rest);
            assert forall|i: int| 0 <= i < all.len() implies is_visit(s, a, b, #[trigger] all[i]) by {
                if i > 0 {
                    assert(all[i] == rest[i - 1]);
                    assert(is_visit(s, a + 1, b, rest[i - 1]));
                }
            }
            assert forall|i: int, j: int| 0 <= i < j < all.len() implies (#[trigger] all[i]).1 < (
            #[trigger] all[j]).1 by {
                assert(all[j] == rest[j - 1]);
                assert(is_visit(s, a + 1, b, rest[j - 1]));
                if i > 0 {
                    assert(all[i] == rest[i - 1]);
                }
            }
            assert forall|p: int| a <= p < b && !(#[trigger] at(s, p) is Empty) implies all.contains(
                (at(s, p), (p * 4096) as u64),
            ) by {
                if p == a {
                    assert(all[0] == (at(s, p), (p * 4096) as u64));
                } else {
                    let i = choose|i: int|
                        0 <= i < rest.len() && rest[i] == (at(s, p), (p * 4096) as u64);
                    assert(all[i + 1] == rest[i]);
                }
            }
        }
    }
}

/// `visit` is a populated slot from page `a` up to, but not including, page `b`.
pub open spec fn is_visit(s: Slots, a: int, b: int, visit: Visit) -> bool {
    let p = page_of(visit.1);
    a <= p < b && visit.1 == p * 4096 && visit.0 == at(s, p) && !(visit.0 is Empty)
}

/// `event` is a populated slot from page `a` up to, but not including, page `b`, or a gap there
/// whose pages are not populated and lie in no interval.
pub open spec fn is_event(s: Slots, a: int, b: int, event: Event) -> bool {
    match event {
        Event::Page(visit) => is_visit(s, a, b, visit),
        Event::Gap(start, end) => {
            &&& start == page_of(start) * 4096
            &&& end == page_of(end) * 4096
            &&& a <= page_of(start) < page_of(end) <= b
            &&& forall|p: int|
                page_of(start) <= p < page_of(end) ==> #[trigger] at(s, p) is Empty && !in_interval(
                    s,
                    p,
                )
        },
    }
}

/// A walk comes by page `p` with `event`.
pub open spec fn comes_by(event: Event, p: int) -> bool {
    match event {
        Event::Page(visit) => page_of(visit.1) == p,
        Event::Gap(start, end) => page_of(start) <= p < page_of(end),
    }
}

/// A walk over pages and gaps comes by every populated slot of its range, and by every page that is
/// not populated and lies in no interval, each of them once and in ascending order.
pub proof fn lemma_walk_of_pages_and_gaps(s: Slots, a: int, b: int)
    requires
        0 <= a,
        b * 4096 <= u64::MAX,
    ensures
        forall|i: int|
            0 <= i < events(s, a, b).len() ==> is_event(s, a, b, #[trigger] events(s, a, b)[i]),
        forall|i: int, j: int, p: int, q: int|
            0 <= i < j < events(s, a, b).len() && #[trigger] comes_by(events(s, a, b)[i], p)
                && #[trigger] comes_by(events(s, a, b)[j], q) ==> p < q,
        forall|p: int|
            a <= p < b && (!(#[trigger] at(s, p) is Empty) || !in_interval(s, p)) ==> exists|i: int|
                0 <= i < events(s, a, b).len() && #[trigger] comes_by(events(s, a, b)[i], p),
    decreases b - a,
{
    if a < b {
        let all = events(s, a, b);
        let q = next_page(s, a, b);
        lemma_next_populated_page(s, a, b);
        let gap = if q > a && !in_interval(s, a) {
            seq![Event::Gap((a * 4096) as u64, (q * 4096) as u64)]
        } else {
            Seq::empty()
        };
        lemma_gap(s, a, q);
        let head = if q < b {
            gap + seq![Event::Page((at(s, q), (q * 4096) as u64))]
        } else {
            gap
        };
        let rest = if q < b {
            events(s, q + 1, b)
        } else {
            Seq::empty()
        };
        if q < b {
            lemma_walk_of_pages_and_gaps(s, q + 1, b);
        }
        assert(all =~= head + rest);
        assert forall|i: int| 0 <= i < rest.len() implies #[trigger] rest[i] == all[i + head.len()]
            && is_event(s, q + 1, b, rest[i]) by {}
        assert forall|i: int| 0 <= i < all.len() implies is_event(s, a, b, #[trigger] all[i]) by {
            if i >= head.len() {
                assert(all[i] == rest[i - head.len()]);
            }
        }
        assert forall|i: int, j: int, x: int, y: int|
            0 <= i < j < all.len() && #[trigger] comes_by(all[i], x) && #[trigger] comes_by(
                all[j],
                y,
            ) implies x < y by {
            if j >= head.len() {
                assert(all[j] == rest[j - head.len()]);
                if i >= head.len() {
                    assert(all[i] == rest[i - head.len()]);
                }
            }
        }
        assert forall|p: int|
            a <= p < b && (!(#[trigger] at(s, p) is Empty) || !in_interval(s, p)) implies exists|
            i: int,
        |
            0 <= i < all.len() && #[trigger] comes_by(all[i], p) by {
            if p < q {
                assert(comes_by(all[0], p));
            } else if p == q {
                assert(comes_by(all[head.len() - 1], p));
            } else {
                let i = choose|i: int| 0 <= i < rest.len() && #[trigger] comes_by(rest[i], p);
                assert(rest[i] == all[i + head.len()]);
                assert(comes_by(all[i + head.len()], p));
            }
        }
    }
}

proof fn lemma_next_populated_page(s: Slots, a: int, b: int)
    requires
        a <= b,
    ensures
        a <= next_page(s, a, b) <= b,
        forall|x: int| a <= x < next_page(s, a, b) ==> #[trigger] at(s, x) is Empty,
        next_page(s, a, b) < b ==> !(at(s, next_page(s, a, b)) is Empty),
    decreases b - a,
{
    if a < b && at(s, a) is Empty {
        lemma_next_populated_page(s, a + 1, b);
    }
}

/// Pages between two populated ones are all in the same interval, or all in none.
proof fn lemma_gap(s: Slots, a: int, q: int)
    requires
        forall|x: int| a <= x < q ==> #[trigger] at(s, x) is Empty,
    ensures
        forall|x: int| a <= x < q ==> #[trigger] in_interval(s, x) == in_interval(s, a),
{
    assert forall|x: int| a <= x < q implies #[trigger] in_interval(s, x) == in_interval(s, a) by {
        assert(at(s, x) is Empty && at(s, a) is Empty);
        if covered(s, x) {
            let (u, v) = choose|u: int, v: int| u < x < v && #[trigger] spans(s, u, v);
            assert(!(at(s, u) is Empty) && !(at(s, v) is Empty));
            assert(u < a < v);
        }
        if covered(s, a) {
            let (u, v) = choose|u: int, v: int| u < a < v && #[trigger] spans(s, u, v);
            assert(!(at(s, u) is Empty) && !(at(s, v) is Empty));
            assert(u < x < v);
        }
    }
}

/// To stop early is no error for who started the walk, and nothing else but an end of the walk is a
/// success.
pub proof fn lemma_how_a_walk_ends(status: Status)
    ensures
        status == Status::NEXT || status == Status::STOP ==> outcome(status) is Ok,
        status != Status::NEXT && status != Status::STOP ==> outcome(status) == Err::<(), Status>(
            status,
        ),
{
}

/// A walk comes by all slots if every answer is `NEXT`, and ends on the first one for which it is
/// not; the answer to that one is what it ends with.
pub proof fn lemma_answers_of_a_walk(len: int, statuses: Seq<Status>)
    requires
        0 <= len,
        stops_right(len, statuses),
    ensures
        statuses.len() <= len,
        forall|i: int| 0 <= i < statuses.len() - 1 ==> #[trigger] statuses[i] == Status::NEXT,
        (forall|i: int| 0 <= i < statuses.len() ==> #[trigger] statuses[i] == Status::NEXT)
            ==> statuses.len() == len && last_status(statuses) == Status::NEXT,
        forall|i: int|
            0 <= i < statuses.len() && #[trigger] statuses[i] != Status::NEXT ==> i
                == statuses.len() - 1 && last_status(statuses) == statuses[i],
        last_status(statuses) == Status::NEXT ==> statuses.len() == len,
{
}

/// A walk over a range ends behind the last slot that it came by if it was stopped there, and at
/// the end of the range if not: the slots before that page are those that it came by.
pub proof fn lemma_where_a_walk_ends(s: Slots, a: int, b: int, statuses: Seq<Status>)
    requires
        0 <= a <= b,
        b * 4096 <= u64::MAX,
        stops_right(visits(s, a, b).len() as int, statuses),
    ensures
        ({
            let entries = visits(s, a, b);
            let end = walk_end(entries, statuses, b);
            &&& a <= end <= b
            &&& forall|i: int|
                0 <= i < entries.len() ==> (i < statuses.len() <==> (#[trigger] entries[i]).1
                    < end * 4096)
            &&& last_status(statuses) != Status::NEXT ==> end * 4096 == entries[statuses.len()
                - 1].1 + 4096
            &&& last_status(statuses) == Status::NEXT ==> end == b
        }),
{
    lemma_walk_visits_all(s, a, b);
    let entries = visits(s, a, b);
    let end = walk_end(entries, statuses, b);
    if last_status(statuses) != Status::NEXT {
        assert(is_visit(s, a, b, entries[statuses.len() - 1]));
    }
    assert forall|i: int| 0 <= i < entries.len() implies (i < statuses.len() <==> (
    #[trigger] entries[i]).1 < end * 4096) by {
        assert(is_visit(s, a, b, entries[i]));
        if last_status(statuses) != Status::NEXT {
            let last = statuses.len() - 1;
            if i < last {
                assert(entries[i].1 < entries[last].1);
            }
            if i > last {
                assert(entries[last].1 < entries[i].1);
            }
        }
    }
}

/// A walk with mutable access leaves in each slot what was made of it, and changes no other.
pub proof fn lemma_what_a_walk_leaves(s: Slots, a: int, b: int, afters: Seq<SlotContent>)
    requires
        0 <= a,
        b * 4096 <= u64::MAX,
        afters.len() <= visits(s, a, b).len(),
    ensures
        ({
            let entries = visits(s, a, b);
            let t = replaced(s, entries, afters);
            &&& forall|i: int|
                0 <= i < afters.len() ==> at(t, page_of((#[trigger] entries[i]).1)) == afters[i]
            &&& forall|x: int|
                (forall|i: int| 0 <= i < afters.len() ==> page_of((#[trigger] entries[i]).1) != x)
                    ==> #[trigger] at(t, x) == at(s, x)
        }),
    decreases afters.len(),
{
    let entries = visits(s, a, b);
    let t = replaced(s, entries, afters);
    if afters.len() > 0 {
        let n = afters.len() - 1;
        let before = replaced(s, entries, afters.drop_last());
        lemma_what_a_walk_leaves(s, a, b, afters.drop_last());
        lemma_walk_visits_all(s, a, b);
        assert(is_visit(s, a, b, entries[n]));
        assert forall|i: int| 0 <= i < afters.len() implies at(
            t,
            page_of((#[trigger] entries[i]).1),
        ) == afters[i] by {
            assert(is_visit(s, a, b, entries[i]));
            if i < n {
                assert(entries[i].1 < entries[n].1);
                assert(at(before, page_of(entries[i].1)) == afters.drop_last()[i]);
            }
        }
        assert forall|x: int|
            (forall|i: int|
                0 <= i < afters.len() ==> page_of((#[trigger] entries[i]).1)
                    != x) implies #[trigger] at(t, x) == at(s, x) by {
            assert(page_of(entries[n].1) != x);
            assert(at(before, x) == at(s, x));
        }
    }
}

/// Slots that are seen from another range keep their contents and their distances.
pub proof fn lemma_moved(entries: Seq<Visit>, from: u64, to: u64, i: int)
    requires
        0 <= i < entries.len(),
        from <= entries[i].1,
        entries[i].1 - from + to <= u64::MAX,
    ensures
        moved(entries, from, to).len() == entries.len(),
        moved(entries, from, to)[i].0 == entries[i].0,
        moved(entries, from, to)[i].1 - to == entries[i].1 - from,
{
}

/// A page is 4096 bytes and a node 16 pages.
pub proof fn lemma_pages_and_nodes(offset: u64, p: int)
    ensures
        page_of(offset) * 4096 <= offset < page_of(offset) * 4096 + 4096,
        node_of(p) * 16 <= p < node_of(p) * 16 + 16,
{
}

/// Nodes are occupied if they hold something. Those that are given up after a walk over a range hold
/// nothing and have pages in it.
pub proof fn lemma_nodes_given_up(nodes: Set<int>, s: Slots, a: int, e: int, k: int)
    ensures
        occupied(s).contains(k) <==> exists|p: int|
            16 * k <= p < 16 * k + 16 && !(#[trigger] at(s, p) is Empty),
        vacated(nodes, s).contains(k) <==> nodes.contains(k) && forall|p: int|
            16 * k <= p < 16 * k + 16 ==> #[trigger] at(s, p) is Empty,
        vacated_between(nodes, s, a, e).contains(k) <==> vacated(nodes, s).contains(k) && a < 16 * k
            + 16 && 16 * k < e,
{
}

/// The callback was called on each slot that a walk came by, and its answers are those that the
/// walk went by.
pub proof fn lemma_walk_asks<F: FnMut(&VmPageOrMarker, u64) -> Status>(
    f: F,
    entries: Seq<Visit>,
    statuses: Seq<Status>,
    i: int,
)
    requires
        walked(f, entries, statuses),
        0 <= i < statuses.len(),
    ensures
        stops_right(entries.len() as int, statuses),
        called(statuses, i),
        exists|v: VmPageOrMarker|
            v.wf() && v@ == entries[i].0 && #[trigger] call_ensures(
                f,
                (&v, entries[i].1),
                statuses[i],
            ),
{
    assert(answers(f, entries[i], statuses[i]));
}

/// The same of a walk over pages and gaps.
pub proof fn lemma_walk_of_pages_and_gaps_asks<
    P: FnMut(&VmPageOrMarker, u64) -> Status,
    G: FnMut(u64, u64) -> Status,
>(page_func: P, gap_func: G, entries: Seq<Event>, statuses: Seq<Status>, i: int)
    requires
        walked_events(page_func, gap_func, entries, statuses),
        0 <= i < statuses.len(),
    ensures
        stops_right(entries.len() as int, statuses),
        match entries[i] {
            Event::Page(entry) => exists|v: VmPageOrMarker|
                v.wf() && v@ == entry.0 && #[trigger] call_ensures(
                    page_func,
                    (&v, entry.1),
                    statuses[i],
                ),
            Event::Gap(start, end) => call_ensures(gap_func, (start, end), statuses[i]),
        },
{
    assert(answers_event(page_func, gap_func, entries[i], statuses[i]));
}

} // verus!
