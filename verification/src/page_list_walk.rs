//! Traversals of a page list.

use vstd::prelude::*;
use crate::page;
use crate::page_list_laws::{is_visit, lemma_walk_visits_all};
use crate::page_list_model::{
    at, clear_range, in_interval, lemma_next_populated, lemma_prev_populated, lemma_tight, node_of,
    node_vacant, page_of, tight, vacated_between,
};
use crate::page_or_marker::{SlotContent, VmPageOrMarker, VmPageOrMarkerRef};
use crate::status::Status;
use crate::traversal::{
    accepts, accepts_events, accepts_mut, accepts_ref, answers, answers_event, answers_mut,
    answers_ref, called, events, last_status, lemma_events_step, lemma_next_page,
    lemma_replaced_push, lemma_visits_skip, lemma_visits_step, outcome, reached, reached_event,
    reached_mut, reached_ref, replaced, stops_right, visits, walk_end, walked,
    walked_events, Visit,
};
use crate::vm_page_list::VmPageList;

verus! {

/// Where only slots from page `a` up to page `e` have been changed, and the empty nodes there are
/// removed, no node is left empty.
proof fn lemma_cleaned(before: VmPageList, after: VmPageList, a: int, e: int)
    requires
        tight(before.nodes(), before.slots()),
        forall|q: int|
            q < a || q >= e ==> #[trigger] at(after.slots(), q) == at(before.slots(), q),
        after.nodes() == before.nodes().difference(
            vacated_between(before.nodes(), after.slots(), a, e),
        ),
    ensures
        tight(after.nodes(), after.slots()),
{
    assert forall|k: int| #[trigger] after.nodes().contains(k) implies !node_vacant(
        after.slots(),
        k,
    ) by {
        assert(before.nodes().contains(k));
        let q = lemma_tight(before.nodes(), before.slots(), k);
        if node_vacant(after.slots(), k) {
            assert(at(after.slots(), q) is Empty);
            assert(a <= q < e);
            assert(vacated_between(before.nodes(), after.slots(), a, e).contains(k));
        }
    }
    reveal(tight);
}

impl VmPageList {
    /// The populated slots from one byte offset up to another.
    #[verifier::inline]
    pub open spec fn visits_in(self, start_offset: u64, end_offset: u64) -> Seq<Visit> {
        visits(self.slots(), page_of(start_offset), page_of(end_offset))
    }

    /// The slots that a walk comes by are those that hold something and lie between the two byte
    /// offsets, in ascending order.
    pub proof fn lemma_visits_in(self, start_offset: u64, end_offset: u64)
        requires
            start_offset % 4096 == 0,
            end_offset % 4096 == 0,
        ensures
            ({
                let entries = self.visits_in(start_offset, end_offset);
                &&& forall|i: int|
                    0 <= i < entries.len() ==> {
                        &&& start_offset <= (#[trigger] entries[i]).1 < end_offset
                        &&& entries[i].1 % 4096 == 0
                        &&& entries[i].0 == at(self.slots(), entries[i].1 as int / 4096)
                        &&& !(entries[i].0 is Empty)
                    }
                &&& forall|i: int, j: int|
                    0 <= i < j < entries.len() ==> (#[trigger] entries[i]).1 < (
                    #[trigger] entries[j]).1
                &&& forall|p: int|
                    start_offset <= p * 4096 < end_offset && !(#[trigger] at(self.slots(), p)
                        is Empty) ==> entries.contains((at(self.slots(), p), (p * 4096) as u64))
            }),
    {
        let entries = self.visits_in(start_offset, end_offset);
        let a = page_of(start_offset);
        let b = page_of(end_offset);
        lemma_walk_visits_all(self.slots(), a, b);
        assert forall|i: int| 0 <= i < entries.len() implies {
            &&& start_offset <= (#[trigger] entries[i]).1 < end_offset
            &&& entries[i].1 % 4096 == 0
            &&& entries[i].0 == at(self.slots(), entries[i].1 as int / 4096)
            &&& !(entries[i].0 is Empty)
        } by {
            assert(is_visit(self.slots(), a, b, entries[i]));
        }
    }

    /// Walk the page list, calling the passed in function on every populated slot.
    pub fn for_every_page<F: FnMut(&VmPageOrMarker, u64) -> Status>(
        &self,
        per_page_func: F,
    ) -> (result: Result<(), Status>)
        requires
            self.wf(),
            accepts(per_page_func, self.visits_in(0, Self::MAX_SIZE)),
        ensures
            exists|statuses: Seq<Status>|
                #[trigger] walked(
                    per_page_func,
                    self.visits_in(0, Self::MAX_SIZE),
                    statuses,
                ) && result == outcome(last_status(statuses)),
    {
        self.for_every_page_in_range(0, Self::MAX_SIZE, per_page_func)
    }

    /// Walk the page list, calling the passed in function on every populated slot in the given
    /// range, as long as it answers `NEXT`. Any other answer than `STOP` is the error.
    pub fn for_every_page_in_range<F: FnMut(&VmPageOrMarker, u64) -> Status>(
        &self,
        start_offset: u64,
        end_offset: u64,
        per_page_func: F,
    ) -> (result: Result<(), Status>)
        requires
            self.wf(),
            start_offset % 4096 == 0,
            end_offset % 4096 == 0,
            accepts(
                per_page_func,
                self.visits_in(start_offset, end_offset),
            ),
        ensures
            exists|statuses: Seq<Status>|
                #[trigger] walked(
                    per_page_func,
                    self.visits_in(start_offset, end_offset),
                    statuses,
                ) && result == outcome(last_status(statuses)),
    {
        let mut call: F = per_page_func;
        let ghost s = self.slots();
        let ghost a = page_of(start_offset);
        let ghost b = page_of(end_offset);
        let ghost entries = visits(s, a, b);
        let ghost mut statuses: Seq<Status> = Seq::empty();
        assert(entries.skip(0) =~= entries);
        let mut cur: u64 = start_offset;
        while cur < end_offset
            invariant
                self.wf(),
                call == per_page_func,
                s == self.slots(),
                a == page_of(start_offset),
                b == page_of(end_offset),
                entries == visits(s, a, b),
                start_offset % 4096 == 0,
                end_offset % 4096 == 0,
                cur % 4096 == 0,
                cur <= end_offset || statuses.len() == 0 && cur == start_offset,
                accepts(per_page_func, entries),
                statuses.len() <= entries.len(),
                visits(s, page_of(cur), b) == entries.skip(statuses.len() as int),
                forall|j: int|
                    0 <= j < statuses.len() ==> answers(
                        per_page_func,
                        entries[j],
                        #[trigger] statuses[j],
                    ) && statuses[j] == Status::NEXT,
            decreases end_offset - cur,
        {
            match self.next_populated(cur, end_offset) {
                None => {
                    proof {
                        lemma_visits_skip(s, page_of(cur), b, b);
                        assert(entries.skip(statuses.len() as int).len() == 0);
                        assert(walked(per_page_func, entries, statuses));
                    }
                    return Ok(());
                },
                Some(offset) => {
                    let ghost p = page_of(offset);
                    let ghost n = statuses.len() as int;
                    let slot: &VmPageOrMarker = self.peek(offset);
                    proof {
                        lemma_visits_skip(s, page_of(cur), p, b);
                        lemma_visits_step(s, p, b, entries, n);
                        assert(entries[n].1 == offset);
                        assert forall|j: int| 0 <= j < n implies answers(
                            per_page_func,
                            #[trigger] entries[j],
                            Status::NEXT,
                        ) by {
                            assert(statuses[j] == Status::NEXT);
                        }
                        assert(reached(per_page_func, entries, n));
                    }
                    let status: Status = call(slot, offset);
                    proof {
                        assert(answers(per_page_func, entries[n], status));
                        statuses = statuses.push(status);
                    }
                    if status != Status::NEXT {
                        proof {
                            assert(walked(per_page_func, entries, statuses));
                        }
                        return if status == Status::STOP {
                            Ok(())
                        } else {
                            Err(status)
                        };
                    }
                    cur = offset + page::PAGE_SIZE;
                },
            }
        }
        proof {
            assert(entries.skip(statuses.len() as int).len() == 0);
            assert(walked(per_page_func, entries, statuses));
        }
        Ok(())
    }

    /// Iterates over all pages and gaps in the range `[start_offset, end_offset)`.
    ///
    /// `per_page_func` is called on every populated slot in the range, and `per_gap_func` on every
    /// maximal part of the range that is unpopulated and lies in no interval, with its first offset
    /// and the one past its end. Both are called in ascending order and as long as they answer
    /// `NEXT`.
    pub fn for_every_page_and_gap_in_range<
        P: FnMut(&VmPageOrMarker, u64) -> Status,
        G: FnMut(u64, u64) -> Status,
    >(&self, start_offset: u64, end_offset: u64, per_page_func: P, per_gap_func: G) -> (result:
        Result<(), Status>)
        requires
            self.wf(),
            self.settled(),
            start_offset % 4096 == 0,
            end_offset % 4096 == 0,
            start_offset <= end_offset,
            accepts_events(
                per_page_func,
                per_gap_func,
                events(self.slots(), page_of(start_offset), page_of(end_offset)),
            ),
        ensures
            exists|statuses: Seq<Status>|
                #[trigger] walked_events(
                    per_page_func,
                    per_gap_func,
                    events(self.slots(), page_of(start_offset), page_of(end_offset)),
                    statuses,
                ) && result == outcome(last_status(statuses)),
    {
        let mut on_page: P = per_page_func;
        let mut on_gap: G = per_gap_func;
        let ghost s = self.slots();
        let ghost a = page_of(start_offset);
        let ghost b = page_of(end_offset);
        let ghost entries = events(s, a, b);
        let ghost mut statuses: Seq<Status> = Seq::empty();
        assert(entries.skip(0) =~= entries);
        // The next offset that was not looked at yet.
        let mut next: u64 = start_offset;
        // Whether the slot before that is the start of an interval.
        let mut in_interval_now: bool = false;
        while next < end_offset
            invariant
                self.wf(),
                self.settled(),
                on_page == per_page_func,
                on_gap == per_gap_func,
                s == self.slots(),
                a == page_of(start_offset),
                b == page_of(end_offset),
                entries == events(s, a, b),
                start_offset % 4096 == 0,
                end_offset % 4096 == 0,
                next % 4096 == 0,
                start_offset <= next <= end_offset,
                accepts_events(per_page_func, per_gap_func, entries),
                statuses.len() <= entries.len(),
                events(s, page_of(next), b) == entries.skip(statuses.len() as int),
                next == start_offset ==> !in_interval_now,
                next > start_offset ==> !(at(s, page_of(next) - 1) is Empty),
                next > start_offset ==> in_interval_now == at(s, page_of(next) - 1).is_start(),
                forall|j: int|
                    0 <= j < statuses.len() ==> answers_event(
                        per_page_func,
                        per_gap_func,
                        entries[j],
                        #[trigger] statuses[j],
                    ) && statuses[j] == Status::NEXT,
            decreases end_offset - next,
        {
            let ghost x = page_of(next);
            let ghost n = statuses.len() as int;
            proof {
                assert forall|j: int| 0 <= j < n implies answers_event(
                    per_page_func,
                    per_gap_func,
                    #[trigger] entries[j],
                    Status::NEXT,
                ) by {
                    assert(statuses[j] == Status::NEXT);
                }
                assert(reached_event(per_page_func, per_gap_func, entries, n));
            }
            match self.next_populated(next, end_offset) {
                None => {
                    // The rest of the range lies in an interval if the slot before it is the start
                    // of one, or if there was no such slot and the range began inside one.
                    let ended_in_interval: bool = in_interval_now || (next == start_offset
                        && self.is_offset_in_interval(start_offset));
                    proof {
                        lemma_next_page(s, x, b, b);
                        lemma_events_step(s, x, b, b, entries, n);
                        assert(at(s, x) is Empty);
                        if next > start_offset {
                            lemma_prev_populated(s, x, x - 1);
                        }
                        assert(ended_in_interval == in_interval(s, x));
                    }
                    if !ended_in_interval {
                        let status: Status = on_gap(next, end_offset);
                        proof {
                            statuses = statuses.push(status);
                            assert(walked_events(per_page_func, per_gap_func, entries, statuses));
                        }
                        return if status != Status::NEXT && status != Status::STOP {
                            Err(status)
                        } else {
                            Ok(())
                        };
                    }
                    proof {
                        assert(walked_events(per_page_func, per_gap_func, entries, statuses));
                    }
                    return Ok(());
                },
                Some(offset) => {
                    let ghost q = page_of(offset);
                    let slot: &VmPageOrMarker = self.peek(offset);
                    proof {
                        lemma_next_page(s, x, q, b);
                        lemma_events_step(s, x, q, b, entries, n);
                        if x < q {
                            assert(at(s, x) is Empty);
                            lemma_next_populated(s, x, q);
                        }
                    }
                    in_interval_now = slot.is_interval_start();
                    // Past the end of an interval is no gap.
                    if next != offset && !slot.is_interval_end() {
                        proof {
                            assert(entries[n] is Gap);
                        }
                        let status: Status = on_gap(next, offset);
                        proof {
                            statuses = statuses.push(status);
                        }
                        if status != Status::NEXT {
                            proof {
                                assert(walked_events(
                                    per_page_func,
                                    per_gap_func,
                                    entries,
                                    statuses,
                                ));
                            }
                            return if status == Status::STOP {
                                Ok(())
                            } else {
                                Err(status)
                            };
                        }
                    }
                    let ghost m = statuses.len() as int;
                    proof {
                        assert(entries[m]->Page_0.1 == offset);
                        assert forall|j: int| 0 <= j < m implies answers_event(
                            per_page_func,
                            per_gap_func,
                            #[trigger] entries[j],
                            Status::NEXT,
                        ) by {
                            assert(statuses[j] == Status::NEXT);
                        }
                        assert(reached_event(per_page_func, per_gap_func, entries, m));
                    }
                    let status: Status = on_page(slot, offset);
                    proof {
                        assert(answers(per_page_func, entries[m]->Page_0, status));
                        statuses = statuses.push(status);
                    }
                    if status != Status::NEXT {
                        proof {
                            assert(walked_events(per_page_func, per_gap_func, entries, statuses));
                        }
                        return if status == Status::STOP {
                            Ok(())
                        } else {
                            Err(status)
                        };
                    }
                    next = offset + page::PAGE_SIZE;
                },
            }
        }
        proof {
            assert(entries.skip(statuses.len() as int).len() == 0);
            assert(walked_events(per_page_func, per_gap_func, entries, statuses));
        }
        Ok(())
    }

    /// Returns true if any pages (actual pages, references, or markers) are in the given range, or
    /// if the range forms a part of a sparse page interval.
    pub fn any_pages_or_intervals_in_range(&self, start_offset: u64, end_offset: u64) -> (result:
        bool)
        requires
            self.wf(),
            self.settled(),
            start_offset % 4096 == 0,
            end_offset % 4096 == 0,
        ensures
            result == (!clear_range(self.slots(), page_of(start_offset), page_of(end_offset))
                || in_interval(self.slots(), page_of(start_offset))),
    {
        // The range can form a part of an interval even if nothing in it is populated. All of it
        // does then, so it is enough to look at its start.
        match self.next_populated(start_offset, end_offset) {
            Some(offset) => {
                proof {
                    assert(!(at(self.slots(), page_of(offset)) is Empty));
                }
                true
            },
            None => self.is_offset_in_interval(start_offset),
        }
    }

    /// Similar to `any_pages_or_intervals_in_range` but skips over any ParentContent markers, as
    /// these do not represent content owned by this page list, but rather content owned by a
    /// parent.
    pub fn any_owned_pages_or_intervals_in_range(
        &self,
        start_offset: u64,
        end_offset: u64,
    ) -> (result: bool)
        requires
            self.wf(),
            self.settled(),
            start_offset % 4096 == 0,
            end_offset % 4096 == 0,
        ensures
            result == ((exists|p: int|
                page_of(start_offset) <= p < page_of(end_offset) && !(#[trigger] at(
                    self.slots(),
                    p,
                ) is Empty) && !(at(self.slots(), p) is ParentContent)) || in_interval(
                self.slots(),
                page_of(start_offset),
            )),
    {
        let mut cur: u64 = start_offset;
        while cur < end_offset
            invariant
                self.wf(),
                start_offset % 4096 == 0,
                end_offset % 4096 == 0,
                cur % 4096 == 0,
                start_offset <= cur,
                forall|p: int|
                    page_of(start_offset) <= p < page_of(cur) ==> #[trigger] at(
                        self.slots(),
                        p,
                    ) is Empty || at(self.slots(), p) is ParentContent,
                start_offset <= end_offset ==> cur <= end_offset,
            ensures
                forall|p: int|
                    page_of(start_offset) <= p < page_of(end_offset) ==> #[trigger] at(
                        self.slots(),
                        p,
                    ) is Empty || at(self.slots(), p) is ParentContent,
            decreases end_offset - cur,
        {
            match self.next_populated(cur, end_offset) {
                None => {
                    break ;
                },
                Some(offset) => {
                    if !self.peek(offset).is_parent_content() {
                        proof {
                            let p = page_of(offset);
                            assert(!(at(self.slots(), p) is Empty));
                        }
                        return true;
                    }
                    cur = offset + page::PAGE_SIZE;
                },
            }
        }
        self.is_offset_in_interval(start_offset)
    }

    /// Returns true if the page list does not own any pages or references. Meant to check whether
    /// the page list has any resource that needs to be returned.
    pub fn has_no_page_or_ref(&self) -> (result: bool)
        requires
            self.wf(),
        ensures
            result == (forall|p: int|
                !(#[trigger] at(self.slots(), p) is Page) && !(at(self.slots(), p) is Reference)),
    {
        let mut cur: u64 = 0;
        proof {
            self.lemma_outside();
        }
        while cur < Self::MAX_SIZE
            invariant
                self.wf(),
                cur % 4096 == 0,
                cur <= Self::MAX_SIZE,
                forall|p: int|
                    p < page_of(cur) ==> !(#[trigger] at(self.slots(), p) is Page) && !(at(
                        self.slots(),
                        p,
                    ) is Reference),
            ensures
                forall|p: int|
                    p < page_of(Self::MAX_SIZE) ==> !(#[trigger] at(self.slots(), p) is Page) && !(
                    at(self.slots(), p) is Reference),
            decreases Self::MAX_SIZE - cur,
        {
            match self.next_populated(cur, Self::MAX_SIZE) {
                None => {
                    break ;
                },
                Some(offset) => {
                    if self.peek(offset).is_page_or_ref() {
                        proof {
                            let c = at(self.slots(), page_of(offset));
                            assert(c is Page || c is Reference);
                        }
                        return false;
                    }
                    cur = offset + page::PAGE_SIZE;
                },
            }
        }
        true
    }

    /// Similar to `has_no_page_or_ref` but returns false if there is a marker.
    pub fn has_no_page_ref_or_marker(&self) -> (result: bool)
        requires
            self.wf(),
        ensures
            result == (forall|p: int|
                !(#[trigger] at(self.slots(), p) is Page) && !(at(self.slots(), p) is Reference)
                    && !(at(self.slots(), p) is Marker)),
    {
        let mut cur: u64 = 0;
        proof {
            self.lemma_outside();
        }
        while cur < Self::MAX_SIZE
            invariant
                self.wf(),
                cur % 4096 == 0,
                cur <= Self::MAX_SIZE,
                forall|p: int|
                    p < page_of(cur) ==> !(#[trigger] at(self.slots(), p) is Page) && !(at(
                        self.slots(),
                        p,
                    ) is Reference) && !(at(self.slots(), p) is Marker),
            ensures
                forall|p: int|
                    p < page_of(Self::MAX_SIZE) ==> !(#[trigger] at(self.slots(), p) is Page) && !(
                    at(self.slots(), p) is Reference) && !(at(self.slots(), p) is Marker),
            decreases Self::MAX_SIZE - cur,
        {
            match self.next_populated(cur, Self::MAX_SIZE) {
                None => {
                    break ;
                },
                Some(offset) => {
                    let slot: &VmPageOrMarker = self.peek(offset);
                    if slot.is_page_or_ref() || slot.is_marker() {
                        proof {
                            let c = at(self.slots(), page_of(offset));
                            assert(c is Page || c is Reference || c is Marker);
                        }
                        return false;
                    }
                    cur = offset + page::PAGE_SIZE;
                },
            }
        }
        true
    }

    /// All pages lie in the range of offsets.
    proof fn lemma_outside(self)
        requires
            self.wf(),
        ensures
            forall|p: int|
                p < 0 || p >= page_of(Self::MAX_SIZE) ==> #[trigger] at(self.slots(), p) is Empty,
    {
        self.lemma_wf();
        assert forall|p: int| p < 0 || p >= page_of(Self::MAX_SIZE) implies #[trigger] at(
            self.slots(),
            p,
        ) is Empty by {
            if !(at(self.slots(), p) is Empty) {
                assert(self.nodes().contains(node_of(p)));
            }
        }
    }

    /// Similar to `for_every_page`, but the function gets mutable access to the slots.
    pub fn for_every_page_mut<F: FnMut(&mut VmPageOrMarker, u64) -> Status>(
        &mut self,
        per_page_func: F,
    ) -> (result: Result<(), Status>)
        requires
            old(self).wf(),
            accepts_mut(per_page_func, old(self).visits_in(0, Self::MAX_SIZE)),
            forall|i: int, r: &mut VmPageOrMarker, answer: Status|
                0 <= i < old(self).visits_in(0, Self::MAX_SIZE).len() && r.wf() && r@
                    == old(self).visits_in(0, Self::MAX_SIZE)[i].0 && reached_mut(
                    per_page_func,
                    old(self).visits_in(0, Self::MAX_SIZE),
                    i,
                ) && #[trigger] call_ensures(
                    per_page_func,
                    (r, old(self).visits_in(0, Self::MAX_SIZE)[i].1),
                    answer,
                ) ==> final(r).wf(),
        ensures
            final(self).wf(),
            final(self).limit() == old(self).limit(),
            final(self).nodes() == old(self).nodes(),
            final(self).count() == old(self).count(),
            exists|afters: Seq<SlotContent>, statuses: Seq<Status>|
                {
                    &&& #[trigger] stops_right(
                        old(self).visits_in(0, Self::MAX_SIZE).len() as int,
                        statuses,
                    )
                    &&& afters.len() == statuses.len()
                    &&& forall|i: int| #[trigger]
                        called(statuses, i) ==> exists|r: &mut VmPageOrMarker|
                            {
                                &&& r.wf()
                                &&& r@ == old(self).visits_in(0, Self::MAX_SIZE)[i].0
                                &&& final(r)@ == afters[i]
                                &&& #[trigger] call_ensures(
                                    per_page_func,
                                    (r, old(self).visits_in(0, Self::MAX_SIZE)[i].1),
                                    statuses[i],
                                )
                            }
                    &&& result == outcome(last_status(statuses))
                    &&& final(self).slots() == #[trigger] replaced(
                        old(self).slots(),
                        old(self).visits_in(0, Self::MAX_SIZE),
                        afters,
                    )
                },
    {
        self.for_every_page_in_range_mut(0, Self::MAX_SIZE, per_page_func)
    }

    /// Similar to `for_every_page_in_range`, but the function gets mutable access to the slots.
    pub fn for_every_page_in_range_mut<F: FnMut(&mut VmPageOrMarker, u64) -> Status>(
        &mut self,
        start_offset: u64,
        end_offset: u64,
        per_page_func: F,
    ) -> (result: Result<(), Status>)
        requires
            old(self).wf(),
            start_offset % 4096 == 0,
            end_offset % 4096 == 0,
            accepts_mut(per_page_func, old(self).visits_in(start_offset, end_offset)),
            forall|i: int, r: &mut VmPageOrMarker, answer: Status|
                0 <= i < old(self).visits_in(start_offset, end_offset).len() && r.wf() && r@
                    == old(self).visits_in(start_offset, end_offset)[i].0 && reached_mut(
                    per_page_func,
                    old(self).visits_in(start_offset, end_offset),
                    i,
                ) && #[trigger] call_ensures(
                    per_page_func,
                    (r, old(self).visits_in(start_offset, end_offset)[i].1),
                    answer,
                ) ==> final(r).wf(),
        ensures
            final(self).wf(),
            final(self).limit() == old(self).limit(),
            final(self).nodes() == old(self).nodes(),
            final(self).count() == old(self).count(),
            exists|afters: Seq<SlotContent>, statuses: Seq<Status>|
                {
                    &&& #[trigger] stops_right(
                        old(self).visits_in(start_offset, end_offset).len() as int,
                        statuses,
                    )
                    &&& afters.len() == statuses.len()
                    &&& forall|i: int| #[trigger]
                        called(statuses, i) ==> exists|r: &mut VmPageOrMarker|
                            {
                                &&& r.wf()
                                &&& r@ == old(self).visits_in(start_offset, end_offset)[i].0
                                &&& final(r)@ == afters[i]
                                &&& #[trigger] call_ensures(
                                    per_page_func,
                                    (r, old(self).visits_in(start_offset, end_offset)[i].1),
                                    statuses[i],
                                )
                            }
                    &&& result == outcome(last_status(statuses))
                    &&& final(self).slots() == #[trigger] replaced(
                        old(self).slots(),
                        old(self).visits_in(start_offset, end_offset),
                        afters,
                    )
                },
    {
        let ended: (Status, u64) = self.for_every_page_in_range_internal_mut(
            start_offset,
            end_offset,
            per_page_func,
        );
        if ended.0 == Status::NEXT || ended.0 == Status::STOP {
            Ok(())
        } else {
            Err(ended.0)
        }
    }

    /// Calls the function on the populated slots in the range as long as it answers `NEXT`. Returns
    /// its last answer, and the offset up to which the walk came.
    fn for_every_page_in_range_internal_mut<F: FnMut(&mut VmPageOrMarker, u64) -> Status>(
        &mut self,
        start_offset: u64,
        end_offset: u64,
        per_page_func: F,
    ) -> (ended: (Status, u64))
        requires
            old(self).wf(),
            start_offset % 4096 == 0,
            end_offset % 4096 == 0,
            accepts_mut(per_page_func, old(self).visits_in(start_offset, end_offset)),
            forall|i: int, r: &mut VmPageOrMarker, answer: Status|
                0 <= i < old(self).visits_in(start_offset, end_offset).len() && r.wf() && r@
                    == old(self).visits_in(start_offset, end_offset)[i].0 && reached_mut(
                    per_page_func,
                    old(self).visits_in(start_offset, end_offset),
                    i,
                ) && #[trigger] call_ensures(
                    per_page_func,
                    (r, old(self).visits_in(start_offset, end_offset)[i].1),
                    answer,
                ) ==> final(r).wf(),
        ensures
            final(self).wf(),
            final(self).limit() == old(self).limit(),
            final(self).nodes() == old(self).nodes(),
            final(self).count() == old(self).count(),
            ended.1 % 4096 == 0,
            forall|q: int|
                q < page_of(start_offset) || q >= page_of(ended.1) ==> #[trigger] at(
                    final(self).slots(),
                    q,
                ) == at(old(self).slots(), q),
            exists|afters: Seq<SlotContent>, statuses: Seq<Status>|
                {
                    &&& #[trigger] stops_right(
                        old(self).visits_in(start_offset, end_offset).len() as int,
                        statuses,
                    )
                    &&& afters.len() == statuses.len()
                    &&& forall|i: int| #[trigger]
                        called(statuses, i) ==> exists|r: &mut VmPageOrMarker|
                            {
                                &&& r.wf()
                                &&& r@ == old(self).visits_in(start_offset, end_offset)[i].0
                                &&& final(r)@ == afters[i]
                                &&& #[trigger] call_ensures(
                                    per_page_func,
                                    (r, old(self).visits_in(start_offset, end_offset)[i].1),
                                    statuses[i],
                                )
                            }
                    &&& ended.0 == last_status(statuses)
                    &&& page_of(ended.1) == walk_end(
                        old(self).visits_in(start_offset, end_offset),
                        statuses,
                        page_of(end_offset),
                    )
                    &&& final(self).slots() == #[trigger] replaced(
                        old(self).slots(),
                        old(self).visits_in(start_offset, end_offset),
                        afters,
                    )
                },
    {
        let mut call: F = per_page_func;
        let ghost s = self.slots();
        let ghost a = page_of(start_offset);
        let ghost b = page_of(end_offset);
        let ghost entries = visits(s, a, b);
        let ghost mut statuses: Seq<Status> = Seq::empty();
        let ghost mut afters: Seq<SlotContent> = Seq::empty();
        assert(entries.skip(0) =~= entries);
        let mut cur: u64 = start_offset;
        while cur < end_offset
            invariant
                self.wf(),
                call == per_page_func,
                s == old(self).slots(),
                a == page_of(start_offset),
                b == page_of(end_offset),
                entries == visits(s, a, b),
                start_offset % 4096 == 0,
                end_offset % 4096 == 0,
                cur % 4096 == 0,
                cur <= end_offset || statuses.len() == 0 && cur == start_offset,
                accepts_mut(per_page_func, entries),
                forall|k: int, r: &mut VmPageOrMarker, answer: Status|
                    0 <= k < entries.len() && r.wf() && r@ == entries[k].0 && reached_mut(
                        per_page_func,
                        entries,
                        k,
                    ) && #[trigger] call_ensures(per_page_func, (r, entries[k].1), answer)
                        ==> final(r).wf(),
                self.limit() == old(self).limit(),
                self.nodes() == old(self).nodes(),
                self.count() == old(self).count(),
                statuses.len() <= entries.len(),
                afters.len() == statuses.len(),
                visits(s, page_of(cur), b) == entries.skip(statuses.len() as int),
                forall|q: int|
                    q < a || q >= page_of(cur) ==> #[trigger] at(self.slots(), q) == at(s, q),
                start_offset <= cur,
                self.slots() == replaced(s, entries, afters),
                forall|j: int| #[trigger]
                    called(statuses, j) ==> (exists|r: &mut VmPageOrMarker|
                        {
                            &&& r.wf()
                            &&& r@ == entries[j].0
                            &&& final(r)@ == afters[j]
                            &&& #[trigger] call_ensures(
                                per_page_func,
                                (r, entries[j].1),
                                statuses[j],
                            )
                        }),
                forall|j: int| 0 <= j < statuses.len() ==> #[trigger] statuses[j] == Status::NEXT,
            decreases end_offset - cur,
        {
            match self.next_populated(cur, end_offset) {
                None => {
                    proof {
                        assert forall|q: int| page_of(cur) <= q < b implies #[trigger] at(
                            s,
                            q,
                        ) is Empty by {
                            assert(at(self.slots(), q) == at(s, q));
                        }
                        lemma_visits_skip(s, page_of(cur), b, b);
                        assert(entries.skip(statuses.len() as int).len() == 0);
                        assert(stops_right(entries.len() as int, statuses));
                    }
                    return (Status::NEXT, end_offset);
                },
                Some(offset) => {
                    let ghost p = page_of(offset);
                    let ghost n = statuses.len() as int;
                    let ghost before = *self;
                    proof {
                        assert forall|q: int| page_of(cur) <= q < p implies #[trigger] at(
                            s,
                            q,
                        ) is Empty by {
                            assert(at(self.slots(), q) == at(s, q));
                        }
                        assert(at(self.slots(), p) == at(s, p));
                        lemma_visits_skip(s, page_of(cur), p, b);
                        lemma_visits_step(s, p, b, entries, n);
                        assert(entries[n].1 == offset);
                        assert forall|j: int| 0 <= j < n implies answers_mut(
                            per_page_func,
                            #[trigger] entries[j],
                            Status::NEXT,
                        ) by {
                            assert(called(statuses, j));
                            assert(statuses[j] == Status::NEXT);
                        }
                        assert(reached_mut(per_page_func, entries, n));
                    }
                    let status: Status = call(self.slot_for(offset), offset);
                    let ghost after = at(self.slots(), p);
                    proof {
                        lemma_replaced_push(s, entries, afters, after);
                        let next_statuses = statuses.push(status);
                        let next_afters = afters.push(after);
                        assert forall|j: int| #[trigger] called(next_statuses, j) implies exists|
                            r: &mut VmPageOrMarker,
                        |
                            {
                                &&& r.wf()
                                &&& r@ == entries[j].0
                                &&& final(r)@ == next_afters[j]
                                &&& #[trigger] call_ensures(
                                    per_page_func,
                                    (r, entries[j].1),
                                    next_statuses[j],
                                )
                            } by {
                            if j < n {
                                assert(called(statuses, j));
                                assert(next_afters[j] == afters[j]);
                                assert(next_statuses[j] == statuses[j]);
                            } else {
                                assert(next_afters[j] == after);
                                assert(next_statuses[j] == status);
                            }
                        }
                        statuses = next_statuses;
                        afters = next_afters;
                        assert forall|q: int| q < a || q >= p + 1 implies #[trigger] at(
                            self.slots(),
                            q,
                        ) == at(s, q) by {
                            assert(at(before.slots(), q) == at(s, q));
                        }
                    }
                    if status != Status::NEXT {
                        proof {
                            assert(stops_right(entries.len() as int, statuses));
                        }
                        return (status, offset + page::PAGE_SIZE);
                    }
                    cur = offset + page::PAGE_SIZE;
                },
            }
        }
        proof {
            assert(entries.skip(statuses.len() as int).len() == 0);
            assert(stops_right(entries.len() as int, statuses));
            assert(last_status(statuses) == Status::NEXT);
        }
        (Status::NEXT, end_offset)
    }

    /// Similar to `for_every_page`, but the function gets a `VmPageOrMarkerRef`, which allows for
    /// limited mutation.
    pub fn for_every_page_ref<F: FnMut(VmPageOrMarkerRef<'_>, u64) -> Status>(
        &mut self,
        per_page_func: F,
    ) -> (result: Result<(), Status>)
        requires
            old(self).wf(),
            accepts_ref(per_page_func, old(self).visits_in(0, Self::MAX_SIZE)),
            forall|i: int, r: VmPageOrMarkerRef<'_>, answer: Status|
                0 <= i < old(self).visits_in(0, Self::MAX_SIZE).len() && r.wf() && r@
                    == old(self).visits_in(0, Self::MAX_SIZE)[i].0 && reached_ref(
                    per_page_func,
                    old(self).visits_in(0, Self::MAX_SIZE),
                    i,
                ) && #[trigger] call_ensures(
                    per_page_func,
                    (r, old(self).visits_in(0, Self::MAX_SIZE)[i].1),
                    answer,
                ) ==> final(r.slot).wf(),
        ensures
            final(self).wf(),
            final(self).limit() == old(self).limit(),
            final(self).nodes() == old(self).nodes(),
            final(self).count() == old(self).count(),
            exists|afters: Seq<SlotContent>, statuses: Seq<Status>|
                {
                    &&& #[trigger] stops_right(
                        old(self).visits_in(0, Self::MAX_SIZE).len() as int,
                        statuses,
                    )
                    &&& afters.len() == statuses.len()
                    &&& forall|i: int| #[trigger]
                        called(statuses, i) ==> exists|r: VmPageOrMarkerRef<'_>|
                            {
                                &&& r.wf()
                                &&& r@ == old(self).visits_in(0, Self::MAX_SIZE)[i].0
                                &&& final(r.slot)@ == afters[i]
                                &&& #[trigger] call_ensures(
                                    per_page_func,
                                    (r, old(self).visits_in(0, Self::MAX_SIZE)[i].1),
                                    statuses[i],
                                )
                            }
                    &&& result == outcome(last_status(statuses))
                    &&& final(self).slots() == #[trigger] replaced(
                        old(self).slots(),
                        old(self).visits_in(0, Self::MAX_SIZE),
                        afters,
                    )
                },
    {
        self.for_every_page_in_range_ref(0, Self::MAX_SIZE, per_page_func)
    }

    /// Similar to `for_every_page_in_range`, but the function gets a `VmPageOrMarkerRef`, which
    /// allows for limited mutation.
    pub fn for_every_page_in_range_ref<F: FnMut(VmPageOrMarkerRef<'_>, u64) -> Status>(
        &mut self,
        start_offset: u64,
        end_offset: u64,
        per_page_func: F,
    ) -> (result: Result<(), Status>)
        requires
            old(self).wf(),
            start_offset % 4096 == 0,
            end_offset % 4096 == 0,
            accepts_ref(per_page_func, old(self).visits_in(start_offset, end_offset)),
            forall|i: int, r: VmPageOrMarkerRef<'_>, answer: Status|
                0 <= i < old(self).visits_in(start_offset, end_offset).len() && r.wf() && r@
                    == old(self).visits_in(start_offset, end_offset)[i].0 && reached_ref(
                    per_page_func,
                    old(self).visits_in(start_offset, end_offset),
                    i,
                ) && #[trigger] call_ensures(
                    per_page_func,
                    (r, old(self).visits_in(start_offset, end_offset)[i].1),
                    answer,
                ) ==> final(r.slot).wf(),
        ensures
            final(self).wf(),
            final(self).limit() == old(self).limit(),
            final(self).nodes() == old(self).nodes(),
            final(self).count() == old(self).count(),
            exists|afters: Seq<SlotContent>, statuses: Seq<Status>|
                {
                    &&& #[trigger] stops_right(
                        old(self).visits_in(start_offset, end_offset).len() as int,
                        statuses,
                    )
                    &&& afters.len() == statuses.len()
                    &&& forall|i: int| #[trigger]
                        called(statuses, i) ==> exists|r: VmPageOrMarkerRef<'_>|
                            {
                                &&& r.wf()
                                &&& r@ == old(self).visits_in(start_offset, end_offset)[i].0
                                &&& final(r.slot)@ == afters[i]
                                &&& #[trigger] call_ensures(
                                    per_page_func,
                                    (r, old(self).visits_in(start_offset, end_offset)[i].1),
                                    statuses[i],
                                )
                            }
                    &&& result == outcome(last_status(statuses))
                    &&& final(self).slots() == #[trigger] replaced(
                        old(self).slots(),
                        old(self).visits_in(start_offset, end_offset),
                        afters,
                    )
                },
    {
        let mut call: F = per_page_func;
        let ghost s = self.slots();
        let ghost a = page_of(start_offset);
        let ghost b = page_of(end_offset);
        let ghost entries = visits(s, a, b);
        let ghost mut statuses: Seq<Status> = Seq::empty();
        let ghost mut afters: Seq<SlotContent> = Seq::empty();
        assert(entries.skip(0) =~= entries);
        let mut cur: u64 = start_offset;
        while cur < end_offset
            invariant
                self.wf(),
                call == per_page_func,
                s == old(self).slots(),
                a == page_of(start_offset),
                b == page_of(end_offset),
                entries == visits(s, a, b),
                start_offset % 4096 == 0,
                end_offset % 4096 == 0,
                cur % 4096 == 0,
                cur <= end_offset || statuses.len() == 0 && cur == start_offset,
                accepts_ref(per_page_func, entries),
                forall|k: int, r: VmPageOrMarkerRef<'_>, answer: Status|
                    0 <= k < entries.len() && r.wf() && r@ == entries[k].0 && reached_ref(
                        per_page_func,
                        entries,
                        k,
                    ) && #[trigger] call_ensures(per_page_func, (r, entries[k].1), answer)
                        ==> final(r.slot).wf(),
                self.limit() == old(self).limit(),
                self.nodes() == old(self).nodes(),
                self.count() == old(self).count(),
                statuses.len() <= entries.len(),
                afters.len() == statuses.len(),
                visits(s, page_of(cur), b) == entries.skip(statuses.len() as int),
                forall|q: int| q >= page_of(cur) ==> #[trigger] at(self.slots(), q) == at(s, q),
                self.slots() == replaced(s, entries, afters),
                forall|j: int| #[trigger]
                    called(statuses, j) ==> (exists|r: VmPageOrMarkerRef<'_>|
                        {
                            &&& r.wf()
                            &&& r@ == entries[j].0
                            &&& final(r.slot)@ == afters[j]
                            &&& #[trigger] call_ensures(
                                per_page_func,
                                (r, entries[j].1),
                                statuses[j],
                            )
                        }),
                forall|j: int| 0 <= j < statuses.len() ==> #[trigger] statuses[j] == Status::NEXT,
            decreases end_offset - cur,
        {
            match self.next_populated(cur, end_offset) {
                None => {
                    proof {
                        assert forall|q: int| page_of(cur) <= q < b implies #[trigger] at(
                            s,
                            q,
                        ) is Empty by {
                            assert(at(self.slots(), q) == at(s, q));
                        }
                        lemma_visits_skip(s, page_of(cur), b, b);
                        assert(entries.skip(statuses.len() as int).len() == 0);
                        assert(stops_right(entries.len() as int, statuses));
                    }
                    return Ok(());
                },
                Some(offset) => {
                    let ghost p = page_of(offset);
                    let ghost n = statuses.len() as int;
                    let ghost before = *self;
                    proof {
                        assert forall|q: int| page_of(cur) <= q < p implies #[trigger] at(
                            s,
                            q,
                        ) is Empty by {
                            assert(at(self.slots(), q) == at(s, q));
                        }
                        assert(at(self.slots(), p) == at(s, p));
                        lemma_visits_skip(s, page_of(cur), p, b);
                        lemma_visits_step(s, p, b, entries, n);
                        assert(entries[n].1 == offset);
                        assert forall|j: int| 0 <= j < n implies answers_ref(
                            per_page_func,
                            #[trigger] entries[j],
                            Status::NEXT,
                        ) by {
                            assert(called(statuses, j));
                            assert(statuses[j] == Status::NEXT);
                        }
                        assert(reached_ref(per_page_func, entries, n));
                    }
                    let slot_ref = VmPageOrMarkerRef::new(self.slot_for(offset));
                    let status: Status = call(slot_ref, offset);
                    let ghost after = at(self.slots(), p);
                    proof {
                        lemma_replaced_push(s, entries, afters, after);
                        let next_statuses = statuses.push(status);
                        let next_afters = afters.push(after);
                        assert forall|j: int| #[trigger] called(next_statuses, j) implies exists|
                            r: VmPageOrMarkerRef<'_>,
                        |
                            {
                                &&& r.wf()
                                &&& r@ == entries[j].0
                                &&& final(r.slot)@ == next_afters[j]
                                &&& #[trigger] call_ensures(
                                    per_page_func,
                                    (r, entries[j].1),
                                    next_statuses[j],
                                )
                            } by {
                            if j < n {
                                assert(called(statuses, j));
                                assert(next_afters[j] == afters[j]);
                                assert(next_statuses[j] == statuses[j]);
                            } else {
                                assert(next_afters[j] == after);
                                assert(next_statuses[j] == status);
                            }
                        }
                        statuses = next_statuses;
                        afters = next_afters;
                        assert forall|q: int| q >= p + 1 implies #[trigger] at(self.slots(), q)
                            == at(s, q) by {
                            assert(at(before.slots(), q) == at(s, q));
                        }
                    }
                    if status != Status::NEXT {
                        proof {
                            assert(stops_right(entries.len() as int, statuses));
                        }
                        return if status == Status::STOP {
                            Ok(())
                        } else {
                            Err(status)
                        };
                    }
                    cur = offset + page::PAGE_SIZE;
                },
            }
        }
        proof {
            assert(entries.skip(statuses.len() as int).len() == 0);
            assert(stops_right(entries.len() as int, statuses));
            assert(last_status(statuses) == Status::NEXT);
        }
        Ok(())
    }

    /// Calls the provided callback for every page or marker in the range
    /// `[start_offset, end_offset)`. The callback can modify the slot and take ownership of any
    /// pages, or leave them in place. Unlike for the other traversals, the nodes that the walk came
    /// by and that hold nothing in the end are removed.
    pub fn remove_pages<F: FnMut(&mut VmPageOrMarker, u64) -> Status>(
        &mut self,
        start_offset: u64,
        end_offset: u64,
        per_page_fn: F,
    ) -> (result: Result<(), Status>)
        requires
            old(self).wf(),
            start_offset % 4096 == 0,
            end_offset % 4096 == 0,
            accepts_mut(per_page_fn, old(self).visits_in(start_offset, end_offset)),
            forall|i: int, r: &mut VmPageOrMarker, answer: Status|
                0 <= i < old(self).visits_in(start_offset, end_offset).len() && r.wf() && r@
                    == old(self).visits_in(start_offset, end_offset)[i].0 && reached_mut(
                    per_page_fn,
                    old(self).visits_in(start_offset, end_offset),
                    i,
                ) && #[trigger] call_ensures(
                    per_page_fn,
                    (r, old(self).visits_in(start_offset, end_offset)[i].1),
                    answer,
                ) ==> final(r).wf(),
        ensures
            final(self).wf(),
            final(self).limit() == old(self).limit(),
            tight(old(self).nodes(), old(self).slots()) ==> tight(
                final(self).nodes(),
                final(self).slots(),
            ),
            exists|afters: Seq<SlotContent>, statuses: Seq<Status>|
                {
                    &&& #[trigger] stops_right(
                        old(self).visits_in(start_offset, end_offset).len() as int,
                        statuses,
                    )
                    &&& afters.len() == statuses.len()
                    &&& forall|i: int| #[trigger]
                        called(statuses, i) ==> exists|r: &mut VmPageOrMarker|
                            {
                                &&& r.wf()
                                &&& r@ == old(self).visits_in(start_offset, end_offset)[i].0
                                &&& final(r)@ == afters[i]
                                &&& #[trigger] call_ensures(
                                    per_page_fn,
                                    (r, old(self).visits_in(start_offset, end_offset)[i].1),
                                    statuses[i],
                                )
                            }
                    &&& result == outcome(last_status(statuses))
                    &&& final(self).slots() == #[trigger] replaced(
                        old(self).slots(),
                        old(self).visits_in(start_offset, end_offset),
                        afters,
                    )
                    &&& ({
                        let gone = vacated_between(
                            old(self).nodes(),
                            final(self).slots(),
                            page_of(start_offset),
                            walk_end(
                                old(self).visits_in(start_offset, end_offset),
                                statuses,
                                page_of(end_offset),
                            ),
                        );
                        &&& final(self).nodes() == old(self).nodes().difference(gone)
                        &&& final(self).count() == old(self).count() - gone.len()
                    })
                },
    {
        let ended: (Status, u64) = self.for_every_page_in_range_internal_mut(
            start_offset,
            end_offset,
            per_page_fn,
        );
        self.remove_empty_nodes(start_offset, ended.1);
        proof {
            if tight(old(self).nodes(), old(self).slots()) {
                lemma_cleaned(*old(self), *self, page_of(start_offset), page_of(ended.1));
            }
        }
        if ended.0 == Status::NEXT || ended.0 == Status::STOP {
            Ok(())
        } else {
            Err(ended.0)
        }
    }

    /// Takes the content out of every populated slot, in ascending order, and hands it to
    /// `free_content_fn`. After this the page list is empty.
    pub fn remove_all_content<F: FnMut(VmPageOrMarker)>(&mut self, free_content_fn: F)
        requires
            old(self).wf(),
            forall|i: int, v: VmPageOrMarker|
                #[trigger] called(old(self).visits_in(0, Self::MAX_SIZE), i) && v.wf() && v@
                    == old(self).visits_in(0, Self::MAX_SIZE)[i].0 ==> #[trigger] call_requires(
                    free_content_fn,
                    (v,),
                ),
        ensures
            final(self).wf(),
            final(self).settled(),
            final(self).slots() == Map::<int, SlotContent>::empty(),
            final(self).nodes() == Set::<int>::empty(),
            final(self).count() == 0,
            final(self).limit() == old(self).limit(),
            forall|i: int| #[trigger]
                called(old(self).visits_in(0, Self::MAX_SIZE), i) ==> exists|
                    v: VmPageOrMarker,
                |
                    {
                        &&& v.wf()
                        &&& v@ == old(self).visits_in(0, Self::MAX_SIZE)[i].0
                        &&& #[trigger] call_ensures(free_content_fn, (v,), ())
                    },
    {
        let mut call: F = free_content_fn;
        let ghost s = self.slots();
        let ghost b = page_of(Self::MAX_SIZE);
        let ghost entries = self.visits_in(0, Self::MAX_SIZE);
        let ghost mut done: int = 0;
        assert(entries.skip(0) =~= entries);
        proof {
            self.lemma_outside();
        }
        let mut cur: u64 = 0;
        while cur < Self::MAX_SIZE
            invariant
                self.wf(),
                call == free_content_fn,
                s == old(self).slots(),
                b == page_of(Self::MAX_SIZE),
                entries == visits(s, 0, b),
                cur % 4096 == 0,
                cur <= Self::MAX_SIZE,
                self.limit() == old(self).limit(),
                forall|i: int, v: VmPageOrMarker|
                    #[trigger] called(entries, i) && v.wf() && v@ == entries[i].0
                        ==> #[trigger] call_requires(free_content_fn, (v,)),
                0 <= done <= entries.len(),
                visits(s, page_of(cur), b) == entries.skip(done),
                forall|q: int| q >= page_of(cur) ==> #[trigger] at(self.slots(), q) == at(s, q),
                forall|q: int| q < page_of(cur) ==> #[trigger] at(self.slots(), q) is Empty,
                forall|i: int|
                    i < done && #[trigger] called(entries, i) ==> exists|v: VmPageOrMarker|
                        {
                            &&& v.wf()
                            &&& v@ == entries[i].0
                            &&& #[trigger] call_ensures(free_content_fn, (v,), ())
                        },
            ensures
                self.wf(),
                self.limit() == old(self).limit(),
                forall|q: int| q < b ==> #[trigger] at(self.slots(), q) is Empty,
                done == entries.len(),
                forall|i: int|
                    i < done && #[trigger] called(entries, i) ==> exists|v: VmPageOrMarker|
                        {
                            &&& v.wf()
                            &&& v@ == entries[i].0
                            &&& #[trigger] call_ensures(free_content_fn, (v,), ())
                        },
            decreases Self::MAX_SIZE - cur,
        {
            match self.next_populated(cur, Self::MAX_SIZE) {
                None => {
                    proof {
                        assert forall|q: int| page_of(cur) <= q < b implies #[trigger] at(
                            s,
                            q,
                        ) is Empty by {
                            assert(at(self.slots(), q) == at(s, q));
                        }
                        lemma_visits_skip(s, page_of(cur), b, b);
                        assert(entries.skip(done).len() == 0);
                    }
                    break ;
                },
                Some(offset) => {
                    let ghost p = page_of(offset);
                    let ghost before = *self;
                    proof {
                        assert forall|q: int| page_of(cur) <= q < p implies #[trigger] at(
                            s,
                            q,
                        ) is Empty by {
                            assert(at(self.slots(), q) == at(s, q));
                        }
                        assert(at(self.slots(), p) == at(s, p));
                        lemma_visits_skip(s, page_of(cur), p, b);
                        lemma_visits_step(s, p, b, entries, done);
                    }
                    let slot = self.slot_for(offset);
                    let content: VmPageOrMarker = slot.swap(VmPageOrMarker::empty());
                    proof {
                        assert(content@ == entries[done].0);
                        assert(called(entries, done));
                    }
                    call(content);
                    proof {
                        assert forall|i: int| i < done + 1 && #[trigger] called(entries, i)
                            implies exists|v: VmPageOrMarker|
                            {
                                &&& v.wf()
                                &&& v@ == entries[i].0
                                &&& #[trigger] call_ensures(free_content_fn, (v,), ())
                            } by {
                            if i == done {
                                assert(call_ensures(free_content_fn, (content,), ()));
                            }
                        }
                        done = done + 1;
                        assert forall|q: int| q >= p + 1 implies #[trigger] at(self.slots(), q)
                            == at(s, q) by {
                            assert(at(before.slots(), q) == at(s, q));
                        }
                        assert forall|q: int| q < p + 1 implies #[trigger] at(
                            self.slots(),
                            q,
                        ) is Empty by {
                            if q < p {
                                assert(at(before.slots(), q) is Empty);
                            }
                        }
                    }
                    cur = offset + page::PAGE_SIZE;
                },
            }
        }
        proof {
            self.lemma_outside();
        }
        self.clear();
    }
}

} // verus!
