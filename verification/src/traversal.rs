//! What a traversal of populated slots does with the callback that it is given.

use vstd::prelude::*;
use crate::page_list_model::{Slots, at, in_interval, put};
use crate::page_or_marker::{SlotContent, VmPageOrMarker, VmPageOrMarkerRef};
use crate::status::Status;

verus! {

/// A populated slot as a callback gets to see it: its content and its byte offset.
pub type Visit = (SlotContent, u64);

/// The populated slots from page `a` up to, but not including, page `b`, in ascending order.
pub open spec fn visits(s: Slots, a: int, b: int) -> Seq<Visit>
    decreases b - a,
{
    if a >= b {
        Seq::empty()
    } else if at(s, a) is Empty {
        visits(s, a + 1, b)
    } else {
        seq![(at(s, a), (a * 4096) as u64)] + visits(s, a + 1, b)
    }
}

/// `f` may answer `status` when it is called on the slot `entry`.
pub open spec fn answers<F: FnMut(&VmPageOrMarker, u64) -> Status>(
    f: F,
    entry: Visit,
    status: Status,
) -> bool {
    exists|v: VmPageOrMarker|
        v.wf() && v@ == entry.0 && #[trigger] call_ensures(f, (&v, entry.1), status)
}

/// A walk can come by slot number `i`: `f` may answer `NEXT` on each slot before it.
pub open spec fn reached<F: FnMut(&VmPageOrMarker, u64) -> Status>(
    f: F,
    entries: Seq<Visit>,
    i: int,
) -> bool {
    forall|j: int| 0 <= j < i ==> answers(f, #[trigger] entries[j], Status::NEXT)
}

/// `f` accepts the slots that it is called on, which are those that the walk reaches.
pub open spec fn accepts<F: FnMut(&VmPageOrMarker, u64) -> Status>(
    f: F,
    entries: Seq<Visit>,
) -> bool {
    forall|i: int, v: VmPageOrMarker|
        0 <= i < entries.len() && v.wf() && v@ == entries[i].0 && reached(f, entries, i)
            ==> #[trigger] call_requires(f, (&v, entries[i].1))
}

/// `f` may answer `status` when it gets mutable access to the slot `entry`.
pub open spec fn answers_mut<F: FnMut(&mut VmPageOrMarker, u64) -> Status>(
    f: F,
    entry: Visit,
    status: Status,
) -> bool {
    exists|r: &mut VmPageOrMarker|
        r.wf() && r@ == entry.0 && #[trigger] call_ensures(f, (r, entry.1), status)
}

/// A walk with mutable access can come by slot number `i`.
pub open spec fn reached_mut<F: FnMut(&mut VmPageOrMarker, u64) -> Status>(
    f: F,
    entries: Seq<Visit>,
    i: int,
) -> bool {
    forall|j: int| 0 <= j < i ==> answers_mut(f, #[trigger] entries[j], Status::NEXT)
}

/// `f` accepts the slots that it gets mutable access to, which are those that the walk reaches.
pub open spec fn accepts_mut<F: FnMut(&mut VmPageOrMarker, u64) -> Status>(
    f: F,
    entries: Seq<Visit>,
) -> bool {
    forall|i: int, r: &mut VmPageOrMarker|
        0 <= i < entries.len() && r.wf() && r@ == entries[i].0 && reached_mut(f, entries, i)
            ==> #[trigger] call_requires(f, (r, entries[i].1))
}

/// `f` may answer `status` when it gets limited access to the slot `entry`.
pub open spec fn answers_ref<F: FnMut(VmPageOrMarkerRef<'_>, u64) -> Status>(
    f: F,
    entry: Visit,
    status: Status,
) -> bool {
    exists|r: VmPageOrMarkerRef<'_>|
        r.wf() && r@ == entry.0 && #[trigger] call_ensures(f, (r, entry.1), status)
}

/// A walk with limited access can come by slot number `i`.
pub open spec fn reached_ref<F: FnMut(VmPageOrMarkerRef<'_>, u64) -> Status>(
    f: F,
    entries: Seq<Visit>,
    i: int,
) -> bool {
    forall|j: int| 0 <= j < i ==> answers_ref(f, #[trigger] entries[j], Status::NEXT)
}

/// `f` accepts the slots that it gets limited access to, which are those that the walk reaches.
pub open spec fn accepts_ref<F: FnMut(VmPageOrMarkerRef<'_>, u64) -> Status>(
    f: F,
    entries: Seq<Visit>,
) -> bool {
    forall|i: int, r: VmPageOrMarkerRef<'_>|
        0 <= i < entries.len() && r.wf() && r@ == entries[i].0 && reached_ref(f, entries, i)
            ==> #[trigger] call_requires(f, (r, entries[i].1))
}

/// The answers of a callback end a walk over `len` slots where one of them is not `NEXT`, and not
/// before.
pub open spec fn stops_right(len: int, statuses: Seq<Status>) -> bool {
    &&& statuses.len() <= len
    &&& forall|i: int| 0 <= i < statuses.len() - 1 ==> #[trigger] statuses[i] == Status::NEXT
    &&& statuses.len() < len ==> statuses.len() > 0 && statuses.last() != Status::NEXT
}

/// There was a call number `i`.
pub open spec fn called<A>(answers: Seq<A>, i: int) -> bool {
    0 <= i < answers.len()
}

/// `f` was called on the slots of `entries` in order, and answered `statuses`.
pub open spec fn walked<F: FnMut(&VmPageOrMarker, u64) -> Status>(
    f: F,
    entries: Seq<Visit>,
    statuses: Seq<Status>,
) -> bool {
    &&& stops_right(entries.len() as int, statuses)
    &&& forall|i: int| 0 <= i < statuses.len() ==> answers(f, entries[i], #[trigger] statuses[i])
}

/// The last answer of a walk, or `NEXT` if there was none.
pub open spec fn last_status(statuses: Seq<Status>) -> Status {
    if statuses.len() == 0 {
        Status::NEXT
    } else {
        statuses.last()
    }
}

/// The page up to which a walk over `entries` came that goes up to page `b`: it ends behind the
/// slot on which it was stopped.
pub open spec fn walk_end(entries: Seq<Visit>, statuses: Seq<Status>, b: int) -> int {
    if last_status(statuses) == Status::NEXT {
        b
    } else {
        entries[statuses.len() - 1].1 as int / 4096 + 1
    }
}

/// How a walk ends for its caller: to stop early is no error.
pub open spec fn outcome(status: Status) -> Result<(), Status> {
    if status == Status::NEXT || status == Status::STOP {
        Ok(())
    } else {
        Err(status)
    }
}

/// `entries` as seen from another range: byte `from` lies at byte `to` there.
pub open spec fn moved(entries: Seq<Visit>, from: u64, to: u64) -> Seq<Visit> {
    Seq::new(entries.len(), |i: int| (entries[i].0, (entries[i].1 - from + to) as u64))
}

/// `s` with the slots of the first entries replaced by `afters`.
pub open spec fn replaced(s: Slots, entries: Seq<Visit>, afters: Seq<SlotContent>) -> Slots
    decreases afters.len(),
{
    if afters.len() == 0 {
        s
    } else {
        put(
            replaced(s, entries, afters.drop_last()),
            entries[afters.len() - 1].1 as int / 4096,
            afters.last(),
        )
    }
}

/// Unpopulated pages at the front of a range are not visited.
pub proof fn lemma_visits_skip(s: Slots, a: int, c: int, b: int)
    requires
        a <= c <= b,
        forall|q: int| a <= q < c ==> #[trigger] at(s, q) is Empty,
    ensures
        visits(s, a, b) == visits(s, c, b),
    decreases c - a,
{
    if a < c {
        assert(at(s, a) is Empty);
        lemma_visits_skip(s, a + 1, c, b);
    }
}

/// A range is visited part after part.
pub proof fn lemma_visits_split(s: Slots, a: int, c: int, b: int)
    requires
        a <= c <= b,
    ensures
        visits(s, a, b) == visits(s, a, c) + visits(s, c, b),
    decreases c - a,
{
    if a < c {
        lemma_visits_split(s, a + 1, c, b);
    }
    assert(visits(s, a, b) =~= visits(s, a, c) + visits(s, c, b));
}

/// Visits depend only on the slots in the range.
pub proof fn lemma_visits_agree(s: Slots, t: Slots, a: int, b: int)
    requires
        forall|q: int| a <= q < b ==> #[trigger] at(s, q) == at(t, q),
    ensures
        visits(s, a, b) == visits(t, a, b),
    decreases b - a,
{
    if a < b {
        assert(at(s, a) == at(t, a));
        lemma_visits_agree(s, t, a + 1, b);
    }
}

/// The step of a walk to the next populated page.
pub proof fn lemma_visits_step(s: Slots, p: int, b: int, entries: Seq<Visit>, done: int)
    requires
        p < b,
        !(at(s, p) is Empty),
        0 <= done <= entries.len(),
        visits(s, p, b) == entries.skip(done),
    ensures
        done < entries.len(),
        entries[done] == (at(s, p), (p * 4096) as u64),
        visits(s, p + 1, b) == entries.skip(done + 1),
{
    let rest = visits(s, p, b);
    assert(rest.len() > 0);
    assert(rest[0] == entries[done]);
    assert(visits(s, p + 1, b) =~= rest.skip(1));
    assert(rest.skip(1) =~= entries.skip(done + 1));
}

/// Replacing one more slot.
pub proof fn lemma_replaced_push(
    s: Slots,
    entries: Seq<Visit>,
    afters: Seq<SlotContent>,
    after: SlotContent,
)
    ensures
        replaced(s, entries, afters.push(after)) == put(
            replaced(s, entries, afters),
            entries[afters.len() as int].1 as int / 4096,
            after,
        ),
{
    assert(afters.push(after).drop_last() =~= afters);
}

/// The first populated page from `a` on, or `b` if there is none before it.
pub open spec fn next_page(s: Slots, a: int, b: int) -> int
    decreases b - a,
{
    if a >= b {
        b
    } else if at(s, a) is Empty {
        next_page(s, a + 1, b)
    } else {
        a
    }
}

pub proof fn lemma_next_page(s: Slots, a: int, q: int, b: int)
    requires
        a <= q <= b,
        forall|x: int| a <= x < q ==> #[trigger] at(s, x) is Empty,
        q < b ==> !(at(s, q) is Empty),
    ensures
        next_page(s, a, b) == q,
    decreases q - a,
{
    if a < q {
        assert(at(s, a) is Empty);
        lemma_next_page(s, a + 1, q, b);
    }
}

/// A traversal of pages and gaps comes by a populated slot, or by a range, from one byte offset up to
/// another, that holds nothing and lies in no interval.
pub enum Event {
    Page(Visit),
    Gap(u64, u64),
}

/// The pages and the gaps from page `a` up to, but not including, page `b`, in ascending order.
pub open spec fn events(s: Slots, a: int, b: int) -> Seq<Event>
    decreases b - a,
{
    if a >= b {
        Seq::empty()
    } else {
        let q = next_page(s, a, b);
        let gap = if q > a && !in_interval(s, a) {
            seq![Event::Gap((a * 4096) as u64, (q * 4096) as u64)]
        } else {
            Seq::empty()
        };
        if a <= q < b {
            gap + seq![Event::Page((at(s, q), (q * 4096) as u64))] + events(s, q + 1, b)
        } else {
            gap
        }
    }
}

/// The callback that belongs to `event` may answer `status`.
pub open spec fn answers_event<
    P: FnMut(&VmPageOrMarker, u64) -> Status,
    G: FnMut(u64, u64) -> Status,
>(page_func: P, gap_func: G, event: Event, status: Status) -> bool {
    match event {
        Event::Page(entry) => answers(page_func, entry, status),
        Event::Gap(start, end) => call_ensures(gap_func, (start, end), status),
    }
}

/// A walk can come by event number `i`: the callbacks may answer `NEXT` on each event before it.
pub open spec fn reached_event<
    P: FnMut(&VmPageOrMarker, u64) -> Status,
    G: FnMut(u64, u64) -> Status,
>(page_func: P, gap_func: G, entries: Seq<Event>, i: int) -> bool {
    forall|j: int|
        0 <= j < i ==> answers_event(page_func, gap_func, #[trigger] entries[j], Status::NEXT)
}

/// The callbacks accept what they are called on, which is what the walk reaches.
pub open spec fn accepts_events<
    P: FnMut(&VmPageOrMarker, u64) -> Status,
    G: FnMut(u64, u64) -> Status,
>(page_func: P, gap_func: G, entries: Seq<Event>) -> bool {
    &&& forall|i: int, v: VmPageOrMarker|
        0 <= i < entries.len() && v.wf() && entries[i] is Page && v@ == entries[i]->Page_0.0
            && reached_event(page_func, gap_func, entries, i) ==> #[trigger] call_requires(
            page_func,
            (&v, entries[i]->Page_0.1),
        )
    &&& forall|i: int|
        0 <= i < entries.len() && #[trigger] entries[i] is Gap && reached_event(
            page_func,
            gap_func,
            entries,
            i,
        ) ==> call_requires(gap_func, (entries[i]->Gap_0, entries[i]->Gap_1))
}

/// The callbacks were called on `entries` in order, and answered `statuses`.
pub open spec fn walked_events<
    P: FnMut(&VmPageOrMarker, u64) -> Status,
    G: FnMut(u64, u64) -> Status,
>(page_func: P, gap_func: G, entries: Seq<Event>, statuses: Seq<Status>) -> bool {
    &&& stops_right(entries.len() as int, statuses)
    &&& forall|i: int|
        0 <= i < statuses.len() ==> answers_event(
            page_func,
            gap_func,
            entries[i],
            #[trigger] statuses[i],
        )
}

/// The next steps of a walk over pages and gaps.
pub proof fn lemma_events_step(s: Slots, a: int, q: int, b: int, entries: Seq<Event>, done: int)
    requires
        a < b,
        next_page(s, a, b) == q,
        a <= q <= b,
        0 <= done <= entries.len(),
        events(s, a, b) == entries.skip(done),
    ensures
        ({
            let has_gap = q > a && !in_interval(s, a);
            let after = done + if has_gap {
                1int
            } else {
                0int
            };
            &&& after <= entries.len()
            &&& has_gap ==> entries[done] == Event::Gap((a * 4096) as u64, (q * 4096) as u64)
            &&& q < b ==> {
                &&& after < entries.len()
                &&& entries[after] == Event::Page((at(s, q), (q * 4096) as u64))
                &&& events(s, q + 1, b) == entries.skip(after + 1)
            }
            &&& q == b ==> after == entries.len()
        }),
{
    let rest = entries.skip(done);
    let has_gap = q > a && !in_interval(s, a);
    let after = done + if has_gap {
        1int
    } else {
        0int
    };
    let gap = if has_gap {
        seq![Event::Gap((a * 4096) as u64, (q * 4096) as u64)]
    } else {
        Seq::empty()
    };
    if q < b {
        let page = seq![Event::Page((at(s, q), (q * 4096) as u64))];
        assert(rest == gap + page + events(s, q + 1, b));
        assert(rest[after - done] == page[0]);
        assert(rest[after - done] == entries[after]);
        assert(entries.skip(after + 1) =~= rest.skip(after - done + 1));
        assert(rest.skip(after - done + 1) =~= events(s, q + 1, b));
    } else {
        assert(rest == gap);
    }
    if has_gap {
        assert(rest[0] == gap[0]);
        assert(rest[0] == entries[done]);
    }
}

} // verus!
