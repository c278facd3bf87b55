//! What becomes of the pages of an interval when some of them are made single page intervals.

use vstd::prelude::*;
use crate::page_list_joining::{
    awaits_clean, has_state, interval, lemma_awaits, lemma_interval_unique, lemma_state,
};
use crate::page_list_laws::{
    contents_ok, lemma_populate_is_split_all, lemma_split_contents, lemma_split_parts, split_all,
};
use crate::page_list_model::{
    Slots, at, bounds, covered, in_interval, interval_state, intervals_ok, lemma_bounds,
    lemma_split, nodes_lacking, nodes_with_slot, populatable, populate, spans, split,
};
use crate::page_or_marker::{SentinelType, SlotContent, ZeroRangeDirtyState, content_ok};

verus! {

/// The interval that is split leaves the pages before `p`, page `p`, and the pages after it.
proof fn lemma_pieces(s: Slots, p: int, a: int, b: int)
    requires
        interval(s, a, b),
        a <= p <= b,
    ensures
        ({
            let t = split(s, p);
            &&& interval(t, p, p)
            &&& a < p ==> interval(t, a, p - 1)
            &&& p < b ==> interval(t, p + 1, b)
            &&& at(t, a)->state == at(s, a)->state
            &&& at(t, p)->state == at(s, a)->state
            &&& p < b ==> at(t, p + 1)->state == at(s, a)->state
            &&& forall|x: int| x < a || b < x ==> #[trigger] at(t, x) == at(s, x)
        }),
{
    if a < b {
        lemma_split_parts(s, p, a, b);
    } else {
        assert(split(s, p) == s);
    }
}

proof fn lemma_elsewhere(s: Slots, p: int, a: int, b: int, u: int, v: int, x: int)
    requires
        interval(s, a, b),
        a <= p <= b,
        u <= x <= v,
        x < a || b < x,
    ensures
        interval(split(s, p), u, v) <==> interval(s, u, v),
        interval(s, u, v) ==> at(split(s, p), u) == at(s, u),
{
    let t = split(s, p);
    lemma_pieces(s, p, a, b);
    if interval(t, u, v) {
        if u <= a <= v {
            if a < p {
                lemma_interval_unique(t, a, p - 1, u, v, a);
            } else {
                lemma_interval_unique(t, a, a, u, v, a);
            }
        }
        if u <= b <= v {
            if p < b {
                lemma_interval_unique(t, p + 1, b, u, v, b);
            } else {
                lemma_interval_unique(t, b, b, u, v, b);
            }
        }
        assert(v < a || b < u);
        assert(at(s, u) == at(t, u) && at(s, v) == at(t, v));
        if u < v {
            assert forall|q: int| u < q < v implies #[trigger] at(s, q) is Empty by {
                assert(at(t, q) is Empty);
            }
            assert(spans(s, u, v));
        }
    }
    if interval(s, u, v) {
        if u <= a <= v {
            lemma_interval_unique(s, a, b, u, v, a);
        }
        if u <= b <= v {
            lemma_interval_unique(s, a, b, u, v, b);
        }
        assert(v < a || b < u);
        assert(at(s, u) == at(t, u) && at(s, v) == at(t, v));
        if u < v {
            assert forall|q: int| u < q < v implies #[trigger] at(t, q) is Empty by {
                assert(at(s, q) is Empty);
            }
            assert(spans(t, u, v));
        }
    }
}

/// Splitting an interval around a page makes the page an interval of its own and changes the state
/// of no page. Pages are awaiting clean as they were, but for page `p` and those after it where
/// there are pages before it: what is awaiting clean is then left with those. Nothing changes
/// outside the interval.
pub proof fn lemma_splitting(s: Slots, p: int, a: int, b: int)
    requires
        interval(s, a, b),
        a <= p <= b,
        at(s, a)->awaiting >= 0,
    ensures
        ({
            let t = split(s, p);
            &&& interval(t, p, p)
            &&& a < p ==> interval(t, a, p - 1) && at(t, a)->awaiting == at(s, a)->awaiting
            &&& p < b ==> interval(t, p + 1, b)
            &&& forall|x: int, state: ZeroRangeDirtyState| #[trigger]
                has_state(t, x, state) <==> has_state(s, x, state)
            &&& forall|x: int| #[trigger]
                awaits_clean(t, x) <==> awaits_clean(s, x) && !(a < p <= x <= b)
            &&& forall|x: int| x < a || b < x ==> #[trigger] at(t, x) == at(s, x)
        }),
{
    let t = split(s, p);
    lemma_pieces(s, p, a, b);
    if a < b {
        lemma_split_parts(s, p, a, b);
    }
    assert forall|x: int, state: ZeroRangeDirtyState| #[trigger]
        has_state(t, x, state) <==> has_state(s, x, state) by {
        if a <= x <= b {
            lemma_state(s, a, b, x, state);
            if x < p {
                lemma_state(t, a, p - 1, x, state);
            } else if x == p {
                lemma_state(t, p, p, x, state);
            } else {
                lemma_state(t, p + 1, b, x, state);
            }
        } else {
            if has_state(t, x, state) {
                let (u, v) = choose|u: int, v: int|
                    u <= x <= v && #[trigger] interval(t, u, v) && at(t, u)->state == state;
                lemma_elsewhere(s, p, a, b, u, v, x);
                assert(interval(s, u, v));
            }
            if has_state(s, x, state) {
                let (u, v) = choose|u: int, v: int|
                    u <= x <= v && #[trigger] interval(s, u, v) && at(s, u)->state == state;
                lemma_elsewhere(s, p, a, b, u, v, x);
                assert(interval(t, u, v));
            }
        }
    }
    assert forall|x: int| #[trigger]
        awaits_clean(t, x) <==> awaits_clean(s, x) && !(a < p <= x <= b) by {
        if a <= x <= b {
            lemma_awaits(s, a, b, x);
            if x < p {
                lemma_awaits(t, a, p - 1, x);
            } else if x == p {
                lemma_awaits(t, p, p, x);
            } else {
                lemma_awaits(t, p + 1, b, x);
            }
        } else {
            if awaits_clean(t, x) {
                let (u, v) = choose|u: int, v: int|
                    u <= x <= v && #[trigger] interval(t, u, v) && x < u + at(t, u)->awaiting;
                lemma_elsewhere(s, p, a, b, u, v, x);
                assert(interval(s, u, v));
            }
            if awaits_clean(s, x) {
                let (u, v) = choose|u: int, v: int|
                    u <= x <= v && #[trigger] interval(s, u, v) && x < u + at(s, u)->awaiting;
                lemma_elsewhere(s, p, a, b, u, v, x);
                assert(interval(t, u, v));
            }
        }
    }
}

/// The interval that a page lies in.
pub proof fn lemma_interval_of(s: Slots, p: int) -> (ab: (int, int))
    requires
        intervals_ok(s),
        in_interval(s, p),
    ensures
        interval(s, ab.0, ab.1),
        ab.0 <= p <= ab.1,
{
    if at(s, p).is_slot() {
        (p, p)
    } else {
        lemma_bounds(s, p);
        bounds(s, p)
    }
}

proof fn lemma_in_interval(s: Slots, a: int, b: int, x: int)
    requires
        interval(s, a, b),
        a <= x <= b,
    ensures
        in_interval(s, x),
{
    if a < x < b {
        assert(covered(s, x));
    }
}

/// The interval of page `x` starts before page `a`, which is not after it.
pub open spec fn starts_before(s: Slots, a: int, x: int) -> bool {
    exists|u: int, v: int| u < a <= x <= v && #[trigger] interval(s, u, v)
}

/// Splitting at each page of a range in turn.
proof fn lemma_splitting_all(s: Slots, a: int, b: int)
    requires
        intervals_ok(s),
        contents_ok(s),
        forall|x: int| a <= x <= b ==> #[trigger] in_interval(s, x),
    ensures
        ({
            let t = split_all(s, a, b);
            &&& forall|x: int| a <= x <= b ==> #[trigger] interval(t, x, x)
            &&& forall|x: int, state: ZeroRangeDirtyState| #[trigger]
                has_state(t, x, state) <==> has_state(s, x, state)
            &&& forall|x: int| #[trigger]
                awaits_clean(t, x) <==> awaits_clean(s, x) && !(a <= b && starts_before(s, a, x))
            &&& forall|x: int|
                !(at(s, x) is Interval) && !in_interval(s, x) ==> #[trigger] at(t, x) == at(s, x)
            &&& forall|x: int| x < a - 1 || b + 1 < x ==> #[trigger] at(t, x) == at(s, x)
            &&& at(s, a - 1).is_slot() ==> at(t, a - 1) == at(s, a - 1)
        }),
    decreases b + 1 - a,
{
    if a <= b {
        let s1 = split(s, a);
        let t = split_all(s, a, b);
        assert(in_interval(s, a));
        let (u, v) = lemma_interval_of(s, a);
        assert(content_ok(at(s, u)));
        lemma_splitting(s, a, u, v);
        lemma_split(s, a);
        lemma_split_contents(s, a);
        assert forall|x: int| a + 1 <= x <= b implies #[trigger] in_interval(s1, x) by {
            assert(in_interval(s, x));
        }
        lemma_splitting_all(s1, a + 1, b);
        assert(interval(s1, a, a));
        assert forall|x: int| !(#[trigger] starts_before(s1, a + 1, x)) by {
            if starts_before(s1, a + 1, x) {
                let (c, d) = choose|c: int, d: int|
                    c < a + 1 <= x <= d && #[trigger] interval(s1, c, d);
                lemma_interval_unique(s1, a, a, c, d, a);
            }
        }
        assert forall|x: int| #[trigger]
            awaits_clean(t, x) <==> awaits_clean(s, x) && !starts_before(s, a, x) by {
            assert(awaits_clean(t, x) == awaits_clean(s1, x));
            if starts_before(s, a, x) {
                let (c, d) = choose|c: int, d: int|
                    c < a <= x <= d && #[trigger] interval(s, c, d);
                lemma_interval_unique(s, u, v, c, d, a);
            }
        }
        assert forall|x: int, state: ZeroRangeDirtyState| #[trigger]
            has_state(t, x, state) <==> has_state(s, x, state) by {
            assert(has_state(s1, x, state) == has_state(s, x, state));
        }
        assert forall|x: int| a <= x <= b implies #[trigger] interval(t, x, x) by {
            if x == a {
                assert(at(t, a) == at(s1, a));
            }
        }
        assert forall|x: int| !(at(s, x) is Interval) && !in_interval(s, x) implies #[trigger] at(
            t,
            x,
        ) == at(s, x) by {
            if u <= x <= v {
                lemma_in_interval(s, u, v, x);
            }
            assert(at(s1, x) == at(s, x));
            assert(in_interval(s1, x) == in_interval(s, x));
        }
        if at(s, a - 1).is_slot() {
            assert(interval(s, a - 1, a - 1));
            if u <= a - 1 {
                lemma_interval_unique(s, a - 1, a - 1, u, v, a - 1);
            }
            assert(at(s1, a - 1) == at(s, a - 1));
        }
        assert forall|x: int| x < a - 1 || b + 1 < x implies #[trigger] at(t, x) == at(s, x) by {
            assert(at(s1, x) == at(s, x));
        }
    }
}

/// Populating a range makes each of its pages an interval of its own and changes the state of no
/// page. Pages are awaiting clean as they were, but for those of the range and after it in an
/// interval that starts before the range: what is awaiting clean of that is left with the pages
/// before the range. What is no interval is unchanged.
pub proof fn lemma_populating(s: Slots, a: int, b: int)
    requires
        intervals_ok(s),
        contents_ok(s),
        populatable(s, a, b),
        b >= a + 2 && at(s, a).is_start() && at(s, b).is_end() ==> at(s, a)->awaiting <= b - a + 1,
    ensures
        ({
            let t = populate(s, a, b);
            &&& forall|x: int| a <= x <= b ==> #[trigger] interval(t, x, x)
            &&& forall|x: int, state: ZeroRangeDirtyState| #[trigger]
                has_state(t, x, state) <==> has_state(s, x, state)
            &&& forall|x: int| #[trigger]
                awaits_clean(t, x) <==> awaits_clean(s, x) && !starts_before(s, a, x)
            &&& forall|x: int|
                !(at(s, x) is Interval) && !in_interval(s, x) ==> #[trigger] at(t, x) == at(s, x)
            &&& forall|x: int| x < a - 1 || b + 1 < x ==> #[trigger] at(t, x) == at(s, x)
        }),
{
    lemma_populate_is_split_all(s, a, b);
    assert forall|x: int| a <= x <= b implies #[trigger] in_interval(s, x) by {
        if a < x < b {
            assert(covered(s, x));
        }
    }
    lemma_splitting_all(s, a, b);
}

/// Populating a whole interval of more than two pages, with more awaiting clean than it is long:
/// every page of it is awaiting clean, and the rest goes to the interval right after it, if there is
/// one and it has not as much.
pub proof fn lemma_populating_with_rest(s: Slots, a: int, b: int)
    requires
        intervals_ok(s),
        spans(s, a, b),
        b >= a + 2,
        at(s, a)->awaiting > b - a + 1,
    ensures
        ({
            let t = populate(s, a, b);
            let rest = at(s, a)->awaiting - (b - a + 1);
            let next = at(s, b + 1);
            &&& forall|x: int|
                a <= x <= b ==> #[trigger] at(t, x) == (SlotContent::Interval {
                    sentinel: SentinelType::Slot,
                    state: at(s, a)->state,
                    awaiting: 1,
                })
            &&& (next is Interval && next->sentinel != SentinelType::End) ==> at(t, b + 1) == (
            SlotContent::Interval {
                sentinel: next->sentinel,
                state: next->state,
                awaiting: if next->awaiting > rest {
                    next->awaiting
                } else {
                    rest
                },
            })
            &&& !(next is Interval && next->sentinel != SentinelType::End) ==> at(t, b + 1) == next
            &&& forall|x: int| x < a || b + 1 < x ==> #[trigger] at(t, x) == at(s, x)
        }),
{
    let s1 = split(s, a);
    let s2 = split(s1, b);
    lemma_split_parts(s, a, a, b);
    assert(spans(s1, a + 1, b));
    assert(interval_state(s, a) == at(s, a)->state);
    lemma_split_parts(s1, b, a + 1, b);
    let t = populate(s, a, b);
    assert(at(s2, a + 1)->awaiting == at(s, a)->awaiting - 1);
    assert(at(s2, a) == at(s1, a));
    assert(at(s2, b + 1) == at(s, b + 1));
    assert forall|x: int| a <= x <= b implies #[trigger] at(t, x) == (SlotContent::Interval {
        sentinel: SentinelType::Slot,
        state: at(s, a)->state,
        awaiting: 1,
    }) by {}
    assert forall|x: int| x < a || b + 1 < x implies #[trigger] at(t, x) == at(s, x) by {
        assert(at(s1, x) == at(s, x));
        assert(at(s2, x) == at(s1, x));
    }
}

/// A page lies in an interval if one starts no later and ends no earlier, and has its state then.
pub proof fn lemma_membership(s: Slots, x: int)
    requires
        intervals_ok(s),
    ensures
        in_interval(s, x) <==> exists|a: int, b: int| a <= x <= b && #[trigger] interval(s, a, b),
        forall|state: ZeroRangeDirtyState| #[trigger]
            has_state(s, x, state) <==> in_interval(s, x) && interval_state(s, x) == state,
{
    if in_interval(s, x) {
        let (a, b) = lemma_interval_of(s, x);
        assert(interval(s, a, b));
        assert forall|state: ZeroRangeDirtyState| #[trigger]
            has_state(s, x, state) <==> interval_state(s, x) == state by {
            lemma_state(s, a, b, x, state);
            if !at(s, x).is_slot() {
                lemma_bounds(s, x);
                let (c, d) = bounds(s, x);
                lemma_interval_unique(s, a, b, c, d, x);
            }
        }
    }
    if exists|a: int, b: int| a <= x <= b && #[trigger] interval(s, a, b) {
        let (a, b) = choose|a: int, b: int| a <= x <= b && #[trigger] interval(s, a, b);
        lemma_in_interval(s, a, b, x);
    }
}

/// A slot in an interval takes the nodes in which something stands after the interval was split
/// around it, and no others. They are counted right.
pub proof fn lemma_nodes_for_a_slot(nodes: Set<int>, s: Slots, p: int)
    requires
        intervals_ok(s),
        in_interval(s, p),
        nodes.finite(),
        forall|k: int| #[trigger]
            nodes.contains(k) <==> exists|x: int|
                16 * k <= x < 16 * k + 16 && !(#[trigger] at(s, x) is Empty),
    ensures
        forall|k: int| #[trigger]
            nodes_with_slot(nodes, s, p).contains(k) <==> exists|x: int|
                16 * k <= x < 16 * k + 16 && !(#[trigger] at(split(s, p), x) is Empty),
        nodes_with_slot(nodes, s, p).len() == nodes.len() + nodes_lacking(nodes, s, p),
{
    let t = split(s, p);
    let after = nodes_with_slot(nodes, s, p);
    let (a, b) = lemma_interval_of(s, p);
    lemma_pieces(s, p, a, b);
    if a < b {
        assert(at(s, p).is_start() <==> a == p);
        assert(at(s, p).is_end() <==> b == p);
    }
    assert(!(at(t, p) is Empty));
    assert(a < p ==> !(at(t, p - 1) is Empty));
    assert(p < b ==> !(at(t, p + 1) is Empty));
    assert forall|x: int| !(at(s, x) is Empty) implies !(#[trigger] at(t, x) is Empty) by {}
    assert forall|k: int| #[trigger] after.contains(k) implies exists|x: int|
        16 * k <= x < 16 * k + 16 && !(#[trigger] at(t, x) is Empty) by {
        if nodes.contains(k) {
            let x = choose|x: int| 16 * k <= x < 16 * k + 16 && !(#[trigger] at(s, x) is Empty);
            assert(!(at(t, x) is Empty));
        } else if k == p / 16 {
            assert(!(at(t, p) is Empty));
        } else if k == p / 16 - 1 {
            assert(!(at(t, p - 1) is Empty));
        } else {
            assert(!(at(t, p + 1) is Empty));
        }
    }
    assert forall|k: int|
        (exists|x: int| 16 * k <= x < 16 * k + 16 && !(#[trigger] at(t, x) is Empty)) implies (
    #[trigger] after.contains(k)) by {
        let x = choose|x: int| 16 * k <= x < 16 * k + 16 && !(#[trigger] at(t, x) is Empty);
        if !(at(s, x) is Empty) {
            assert(nodes.contains(k));
        } else {
            assert(x == p || x == p - 1 || x == p + 1);
            assert(x == p - 1 ==> a < p);
            assert(x == p + 1 ==> p < b);
        }
    }
}

/// A slot outside all intervals takes one node, the one that it lies in.
pub proof fn lemma_node_for_a_slot(nodes: Set<int>, s: Slots, p: int)
    requires
        !in_interval(s, p),
        nodes.finite(),
    ensures
        forall|k: int| #[trigger]
            nodes_with_slot(nodes, s, p).contains(k) <==> nodes.contains(k) || 16 * k <= p < 16 * k
                + 16,
        nodes_with_slot(nodes, s, p).len() == nodes.len() + nodes_lacking(nodes, s, p),
{
}

} // verus!
