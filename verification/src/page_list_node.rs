//! A run of sixteen page list slots.

use vstd::prelude::*;
use crate::page;
use crate::page_list_laws::{is_visit, lemma_walk_visits_all};
use crate::page_list_model::{Slots, at, put};
use crate::page_or_marker::{
    content_ok, lemma_slot_content, SlotContent, VmPageOrMarker, VmPageOrMarkerRef,
};
use crate::status::Status;
use crate::traversal::{
    accepts, accepts_mut, accepts_ref, answers, answers_mut, answers_ref, called, last_status,
    lemma_replaced_push, lemma_visits_step, moved, reached, reached_mut, reached_ref, replaced,
    stops_right, visits, walked, Visit,
};

verus! {

/// Node in a page list representing a contiguous 64 KiB span (16 pages).
#[derive(Debug)]
pub struct VmPageListNode {
    pages: [VmPageOrMarker; 16],
}

impl VmPageListNode {
    /// Number of page slots in a node.
    pub const PAGE_FAN_OUT: usize = 16;

    /// Total size in bytes of the range covered by a single node (64 KiB).
    pub const NODE_SPAN_BYTES: u64 = 65536;

    /// The content of slot `i`.
    pub closed spec fn slot(self, i: int) -> SlotContent {
        self.pages@[i]@
    }

    pub closed spec fn wf(self) -> bool {
        forall|i: int| 0 <= i < 16 ==> #[trigger] self.pages@[i].wf()
    }

    pub proof fn lemma_content(self, i: int)
        requires
            self.wf(),
            0 <= i < 16,
        ensures
            content_ok(self.slot(i)),
    {
        lemma_slot_content(self.pages@[i]);
    }

    /// The populated slots of a node whose first slot is page `first`.
    pub open spec fn slots_at(self, first: int) -> Slots {
        Map::new(
            |p: int| first <= p < first + 16 && !(self.slot(p - first) is Empty),
            |p: int| self.slot(p - first),
        )
    }

    /// The populated slots of the node at byte offset `base` in a byte range inside it.
    pub open spec fn entries(self, base: u64, start_offset: u64, end_offset: u64) -> Seq<Visit> {
        visits(
            self.slots_at(base as int / 4096),
            start_offset as int / 4096,
            end_offset as int / 4096,
        )
    }

    /// The slots of a node are sixteen pages in a row, and the populated ones in a byte range are
    /// visited in ascending order.
    pub proof fn lemma_entries(self, base: u64, start_offset: u64, end_offset: u64)
        requires
            base % 65536 == 0,
            base <= start_offset <= end_offset <= base + 65536 <= u64::MAX,
        ensures
            ({
                let first = base as int / 4096;
                let entries = self.entries(base, start_offset, end_offset);
                &&& forall|i: int|
                    0 <= i < 16 ==> at(self.slots_at(first), first + i) == #[trigger] self.slot(i)
                &&& forall|p: int|
                    p < first || first + 16 <= p ==> #[trigger] at(self.slots_at(first), p) is Empty
                &&& forall|i: int|
                    0 <= i < entries.len() ==> {
                        &&& start_offset - start_offset % 4096 <= (#[trigger] entries[i]).1
                            < end_offset - end_offset % 4096
                        &&& (entries[i].1 - base) % 4096 == 0
                        &&& entries[i].0 == self.slot((entries[i].1 - base) / 4096)
                        &&& !(entries[i].0 is Empty)
                    }
                &&& forall|i: int, j: int|
                    0 <= i < j < entries.len() ==> (#[trigger] entries[i]).1 < (
                    #[trigger] entries[j]).1
                &&& forall|i: int|
                    start_offset - start_offset % 4096 <= base + i * 4096 < end_offset - end_offset
                        % 4096 && !(#[trigger] self.slot(i) is Empty) ==> entries.contains(
                        (self.slot(i), (base + i * 4096) as u64),
                    )
            }),
    {
        let first = base as int / 4096;
        let s = self.slots_at(first);
        let a = start_offset as int / 4096;
        let b = end_offset as int / 4096;
        let entries = self.entries(base, start_offset, end_offset);
        lemma_walk_visits_all(s, a, b);
        assert forall|i: int| 0 <= i < entries.len() implies {
            &&& start_offset - start_offset % 4096 <= (#[trigger] entries[i]).1 < end_offset
                - end_offset % 4096
            &&& (entries[i].1 - base) % 4096 == 0
            &&& entries[i].0 == self.slot((entries[i].1 - base) / 4096)
            &&& !(entries[i].0 is Empty)
        } by {
            assert(is_visit(s, a, b, entries[i]));
        }
        assert forall|i: int|
            start_offset - start_offset % 4096 <= base + i * 4096 < end_offset - end_offset % 4096
                && !(#[trigger] self.slot(i) is Empty) implies entries.contains(
            (self.slot(i), (base + i * 4096) as u64),
        ) by {
            assert(at(s, first + i) == self.slot(i));
        }
    }

    /// No slot holds anything.
    pub open spec fn vacant(self) -> bool {
        forall|i: int| 0 <= i < 16 ==> #[trigger] self.slot(i) is Empty
    }

    /// Creates a new empty `VmPageListNode`.
    pub fn new() -> (node: Self)
        ensures
            node.wf(),
            node.vacant(),
    {
        VmPageListNode {
            pages: [
                VmPageOrMarker::empty(),
                VmPageOrMarker::empty(),
                VmPageOrMarker::empty(),
                VmPageOrMarker::empty(),
                VmPageOrMarker::empty(),
                VmPageOrMarker::empty(),
                VmPageOrMarker::empty(),
                VmPageOrMarker::empty(),
                VmPageOrMarker::empty(),
                VmPageOrMarker::empty(),
                VmPageOrMarker::empty(),
                VmPageOrMarker::empty(),
                VmPageOrMarker::empty(),
                VmPageOrMarker::empty(),
                VmPageOrMarker::empty(),
                VmPageOrMarker::empty(),
            ],
        }
    }

    /// Computes the end offset for a node starting at `base_offset`.
    pub fn end_offset(base_offset: u64) -> (end: u64)
        requires
            base_offset % 65536 == 0,
            base_offset + 65536 <= u64::MAX,
        ensures
            end == base_offset + 65536,
    {
        base_offset + Self::NODE_SPAN_BYTES
    }

    /// Lookup the page or marker at the specified index.
    pub fn lookup(&self, index: usize) -> (slot: &VmPageOrMarker)
        requires
            self.wf(),
            index < 16,
        ensures
            slot.wf(),
            slot@ == self.slot(index as int),
    {
        &self.pages[index]
    }

    /// Lookup the mutable page or marker at the specified index.
    pub fn lookup_mut(&mut self, index: usize) -> (slot: &mut VmPageOrMarker)
        requires
            old(self).wf(),
            index < 16,
        ensures
            slot.wf(),
            slot@ == old(self).slot(index as int),
            final(slot).wf() ==> final(self).wf(),
            final(self).slot(index as int) == final(slot)@,
            forall|i: int|
                0 <= i < 16 && i != index ==> #[trigger] final(self).slot(i) == old(self).slot(i),
    {
        &mut self.pages[index]
    }

    /// A node is empty if it contains no pages, page interval sentinels, references, or markers.
    pub fn is_empty(&self) -> (result: bool)
        requires
            self.wf(),
        ensures
            result == self.vacant(),
    {
        let mut i: usize = 0;
        while i < Self::PAGE_FAN_OUT
            invariant
                i <= 16,
                self.wf(),
                forall|j: int| 0 <= j < i ==> #[trigger] self.slot(j) is Empty,
            decreases 16 - i,
        {
            if !self.pages[i].is_empty() {
                assert(!(self.slot(i as int) is Empty));
                return false;
            }
            i += 1;
        }
        true
    }

    /// Returns true if there are no pages or references owned by this node.
    pub fn has_no_page_or_ref(&self) -> (result: bool)
        requires
            self.wf(),
        ensures
            result == (forall|i: int|
                0 <= i < 16 ==> !(#[trigger] self.slot(i) is Page) && !(self.slot(
                    i,
                ) is Reference)),
    {
        let mut i: usize = 0;
        while i < Self::PAGE_FAN_OUT
            invariant
                i <= 16,
                self.wf(),
                forall|j: int|
                    0 <= j < i ==> !(#[trigger] self.slot(j) is Page) && !(self.slot(
                        j,
                    ) is Reference),
            decreases 16 - i,
        {
            if self.pages[i].is_page_or_ref() {
                assert(self.slot(i as int) is Page || self.slot(i as int) is Reference);
                return false;
            }
            i += 1;
        }
        true
    }

    /// Returns true if there are no pages, references or markers owned by this node.
    pub fn has_no_page_ref_or_marker(&self) -> (result: bool)
        requires
            self.wf(),
        ensures
            result == (forall|i: int|
                0 <= i < 16 ==> !(#[trigger] self.slot(i) is Page) && !(self.slot(i) is Reference)
                    && !(self.slot(i) is Marker)),
    {
        let mut i: usize = 0;
        while i < Self::PAGE_FAN_OUT
            invariant
                i <= 16,
                self.wf(),
                forall|j: int|
                    0 <= j < i ==> !(#[trigger] self.slot(j) is Page) && !(self.slot(
                        j,
                    ) is Reference) && !(self.slot(j) is Marker),
            decreases 16 - i,
        {
            if self.pages[i].is_page_or_ref() || self.pages[i].is_marker() {
                assert(self.slot(i as int) is Page || self.slot(i as int) is Reference
                    || self.slot(i as int) is Marker);
                return false;
            }
            i += 1;
        }
        true
    }

    /// Returns true if there are no interval sentinels owned by this node.
    pub fn has_no_interval_sentinel(&self) -> (result: bool)
        requires
            self.wf(),
        ensures
            result == (forall|i: int| 0 <= i < 16 ==> !(#[trigger] self.slot(i) is Interval)),
    {
        let mut i: usize = 0;
        while i < Self::PAGE_FAN_OUT
            invariant
                i <= 16,
                self.wf(),
                forall|j: int| 0 <= j < i ==> !(#[trigger] self.slot(j) is Interval),
            decreases 16 - i,
        {
            if self.pages[i].is_interval() {
                assert(self.slot(i as int) is Interval);
                return false;
            }
            i += 1;
        }
        true
    }

    /// The index of the first populated slot from `from` on.
    pub fn first_populated(&self, from: usize) -> (found: Option<usize>)
        requires
            self.wf(),
            from <= 16,
        ensures
            match found {
                Some(i) => {
                    &&& from <= i < 16
                    &&& !(self.slot(i as int) is Empty)
                    &&& forall|j: int| from <= j < i ==> #[trigger] self.slot(j) is Empty
                },
                None => forall|j: int| from <= j < 16 ==> #[trigger] self.slot(j) is Empty,
            },
    {
        let mut i: usize = from;
        while i < Self::PAGE_FAN_OUT
            invariant
                from <= i <= 16,
                self.wf(),
                forall|j: int| from <= j < i ==> #[trigger] self.slot(j) is Empty,
            decreases 16 - i,
        {
            if !self.pages[i].is_empty() {
                return Some(i);
            }
            i += 1;
        }
        None
    }

    /// The index of the last populated slot before `before`.
    pub fn last_populated(&self, before: usize) -> (found: Option<usize>)
        requires
            self.wf(),
            before <= 16,
        ensures
            match found {
                Some(i) => {
                    &&& i < before
                    &&& !(self.slot(i as int) is Empty)
                    &&& forall|j: int| i < j < before ==> #[trigger] self.slot(j) is Empty
                },
                None => forall|j: int| 0 <= j < before ==> #[trigger] self.slot(j) is Empty,
            },
    {
        let mut i: usize = before;
        while i > 0
            invariant
                i <= before <= 16,
                self.wf(),
                forall|j: int| i <= j < before ==> #[trigger] self.slot(j) is Empty,
            decreases i,
        {
            i -= 1;
            if !self.pages[i].is_empty() {
                return Some(i);
            }
        }
        None
    }

    /// Checks if the given offset is part of an interval involving this node. This cannot find the
    /// full interval, since that may take an additional node, but it can determine whether there
    /// is one. Returns any interval sentinel found, otherwise `None`.
    pub fn is_offset_in_interval(&self, obj_offset: u64, off: u64) -> (found: Option<
        &VmPageOrMarker,
    >)
        requires
            self.wf(),
            !self.vacant(),
            obj_offset % 65536 == 0,
            obj_offset <= off < obj_offset + 65536 <= u64::MAX,
        ensures
            ({
                let index = (off - obj_offset) / 4096;
                let right = self.next_slot(index);
                let left = self.prev_slot(index);
                match found {
                    Some(slot) => {
                        &&& slot.wf()
                        &&& slot@ is Interval
                        &&& slot@ == if !(self.slot(index) is Empty) {
                            self.slot(index)
                        } else if right < 16 {
                            self.slot(right)
                        } else {
                            self.slot(left)
                        }
                        &&& self.slot(index) is Empty ==> if right < 16 {
                            slot@.is_end()
                        } else {
                            slot@.is_start()
                        }
                    },
                    None => if !(self.slot(index) is Empty) {
                        !(self.slot(index) is Interval)
                    } else if right < 16 {
                        !self.slot(right).is_end()
                    } else {
                        !self.slot(left).is_start()
                    },
                }
            }),
    {
        let index: usize = ((off - obj_offset) / page::PAGE_SIZE) as usize;
        if !self.pages[index].is_empty() {
            return if self.pages[index].is_interval() {
                Some(&self.pages[index])
            } else {
                None
            };
        }
        match self.first_populated(index + 1) {
            Some(i) => {
                proof {
                    self.lemma_next_slot(index as int, i as int);
                }
                return if self.pages[i].is_interval_end() {
                    Some(&self.pages[i])
                } else {
                    None
                };
            },
            None => {
                proof {
                    self.lemma_next_slot(index as int, 16);
                }
            },
        }
        match self.last_populated(index) {
            Some(i) => {
                proof {
                    self.lemma_prev_slot(index as int, i as int);
                }
                if self.pages[i].is_interval_start() {
                    Some(&self.pages[i])
                } else {
                    None
                }
            },
            None => {
                proof {
                    assert(self.vacant());
                }
                None
            },
        }
    }

    /// The first populated slot right of slot `index`, or 16 if there is none.
    pub open spec fn next_slot(self, index: int) -> int
        decreases 16 - index,
    {
        if index >= 15 {
            16
        } else if !(self.slot(index + 1) is Empty) {
            index + 1
        } else {
            self.next_slot(index + 1)
        }
    }

    /// The last populated slot left of slot `index`, or -1 if there is none.
    pub open spec fn prev_slot(self, index: int) -> int
        decreases index,
    {
        if index <= 0 {
            -1
        } else if !(self.slot(index - 1) is Empty) {
            index - 1
        } else {
            self.prev_slot(index - 1)
        }
    }

    pub proof fn lemma_next_slot(self, index: int, i: int)
        requires
            0 <= index < i <= 16,
            i < 16 ==> !(self.slot(i) is Empty),
            forall|j: int| index < j < i ==> #[trigger] self.slot(j) is Empty,
        ensures
            self.next_slot(index) == i,
        decreases i - index,
    {
        if index + 1 < i {
            assert(self.slot(index + 1) is Empty);
            self.lemma_next_slot(index + 1, i);
        }
    }

    pub proof fn lemma_prev_slot(self, index: int, i: int)
        requires
            0 <= i < index <= 16,
            !(self.slot(i) is Empty),
            forall|j: int| i < j < index ==> #[trigger] self.slot(j) is Empty,
        ensures
            self.prev_slot(index) == i,
        decreases index - i,
    {
        if i < index - 1 {
            assert(self.slot(index - 1) is Empty);
            self.lemma_prev_slot(index - 1, i);
        }
    }

    pub proof fn lemma_next_slot_is(self, index: int)
        requires
            0 <= index < 16,
        ensures
            index < self.next_slot(index) <= 16,
            self.next_slot(index) < 16 ==> !(self.slot(self.next_slot(index)) is Empty),
            forall|j: int| index < j < self.next_slot(index) ==> #[trigger] self.slot(j) is Empty,
        decreases 16 - index,
    {
        if index < 15 && self.slot(index + 1) is Empty {
            self.lemma_next_slot_is(index + 1);
        }
    }

    pub proof fn lemma_prev_slot_is(self, index: int)
        requires
            0 <= index < 16,
        ensures
            -1 <= self.prev_slot(index) < index,
            self.prev_slot(index) >= 0 ==> !(self.slot(self.prev_slot(index)) is Empty),
            forall|j: int| self.prev_slot(index) < j < index ==> #[trigger] self.slot(j) is Empty,
        decreases index,
    {
        if index > 0 && self.slot(index - 1) is Empty {
            self.lemma_prev_slot_is(index - 1);
        }
    }

    /// Check if this node begins in an interval, that is if an interval start was in a preceding
    /// node and this node contains the end. If the first non-empty slot is an interval end it is
    /// returned, otherwise the node cannot have started in an interval.
    pub fn node_starts_in_interval(&self) -> (found: Option<&VmPageOrMarker>)
        requires
            self.wf(),
            !self.vacant(),
        ensures
            ({
                let first = if self.slot(0) is Empty {
                    self.next_slot(0)
                } else {
                    0
                };
                match found {
                    Some(slot) => slot.wf() && slot@ == self.slot(first) && slot@.is_end(),
                    None => !self.slot(first).is_end(),
                }
            }),
    {
        match self.first_populated(0) {
            Some(i) => {
                proof {
                    if i > 0 {
                        assert(self.slot(0) is Empty);
                        self.lemma_next_slot(0, i as int);
                    }
                }
                if self.pages[i].is_interval_end() {
                    Some(&self.pages[i])
                } else {
                    None
                }
            },
            None => {
                proof {
                    assert(self.vacant());
                }
                None
            },
        }
    }

    /// For every page or marker in the node call the passed in function.
    pub fn for_every_page<F: FnMut(&VmPageOrMarker, u64) -> Status>(
        &self,
        base: u64,
        func: F,
    ) -> (status: Status)
        requires
            self.wf(),
            base % 65536 == 0,
            base + 65536 <= u64::MAX,
            accepts(func, self.entries(base, base, (base + 65536) as u64)),
        ensures
            exists|statuses: Seq<Status>|
                #[trigger] walked(
                    func,
                    self.entries(base, base, (base + 65536) as u64),
                    statuses,
                ) && status == last_status(statuses),
    {
        self.for_every_page_in_range(base, base, Self::end_offset(base), func)
    }

    /// For every page or marker in the node in the range call the passed in function, as long as
    /// it answers `NEXT`. The range is assumed to be within the node's range. Returns the last
    /// answer.
    pub fn for_every_page_in_range<F: FnMut(&VmPageOrMarker, u64) -> Status>(
        &self,
        base: u64,
        start_offset: u64,
        end_offset: u64,
        func: F,
    ) -> (status: Status)
        requires
            self.wf(),
            base % 65536 == 0,
            base <= start_offset <= end_offset <= base + 65536 <= u64::MAX,
            accepts(func, self.entries(base, start_offset, end_offset)),
        ensures
            exists|statuses: Seq<Status>|
                #[trigger] walked(func, self.entries(base, start_offset, end_offset), statuses)
                    && status == last_status(statuses),
    {
        let mut call: F = func;
        let start: usize = ((start_offset - base) / page::PAGE_SIZE) as usize;
        let end: usize = ((end_offset - base) / page::PAGE_SIZE) as usize;
        let ghost first = base as int / 4096;
        let ghost slots = self.slots_at(first);
        let ghost entries = self.entries(base, start_offset, end_offset);
        let ghost mut statuses: Seq<Status> = Seq::empty();
        assert(first + start == start_offset as int / 4096);
        assert(first + end == end_offset as int / 4096);
        assert(entries.skip(0) =~= entries);
        let mut i: usize = start;
        while i < end
            invariant
                self.wf(),
                call == func,
                start <= i <= end <= 16,
                base + 65536 <= u64::MAX,
                base % 65536 == 0,
                first == base as int / 4096,
                slots == self.slots_at(first),
                entries == self.entries(base, start_offset, end_offset),
                accepts(func, entries),
                statuses.len() <= entries.len(),
                visits(slots, first + i, first + end) == entries.skip(statuses.len() as int),
                forall|j: int|
                    0 <= j < statuses.len() ==> answers(func, entries[j], #[trigger] statuses[j])
                        && statuses[j] == Status::NEXT,
            decreases end - i,
        {
            let ghost p = first + i;
            assert(at(slots, p) == self.slot(i as int));
            if !self.pages[i].is_empty() {
                let offset: u64 = base + (i as u64) * page::PAGE_SIZE;
                proof {
                    lemma_visits_step(slots, p, first + end, entries, statuses.len() as int);
                    assert(p * 4096 == offset);
                    assert(entries[statuses.len() as int].1 == offset);
                    assert forall|j: int| 0 <= j < statuses.len() implies answers(
                        func,
                        #[trigger] entries[j],
                        Status::NEXT,
                    ) by {
                        assert(statuses[j] == Status::NEXT);
                    }
                    assert(reached(func, entries, statuses.len() as int));
                }
                let status: Status = call(&self.pages[i], offset);
                proof {
                    assert(answers(func, entries[statuses.len() as int], status));
                    statuses = statuses.push(status);
                }
                if status != Status::NEXT {
                    assert(walked(func, entries, statuses));
                    return status;
                }
            }
            i += 1;
        }
        assert(entries.skip(statuses.len() as int).len() == 0);
        assert(walked(func, entries, statuses));
        Status::NEXT
    }

    /// For every page or marker in the node in the range call the passed in function with mutable
    /// access, as long as it answers `NEXT`. The range is assumed to be within the node's range.
    /// Returns the last answer.
    pub fn for_every_page_in_range_mut<F: FnMut(&mut VmPageOrMarker, u64) -> Status>(
        &mut self,
        base: u64,
        start_offset: u64,
        end_offset: u64,
        func: F,
    ) -> (status: Status)
        requires
            old(self).wf(),
            base % 65536 == 0,
            base <= start_offset <= end_offset <= base + 65536 <= u64::MAX,
            accepts_mut(func, old(self).entries(base, start_offset, end_offset)),
            forall|i: int, r: &mut VmPageOrMarker, answer: Status|
                0 <= i < old(self).entries(base, start_offset, end_offset).len() && r.wf() && r@
                    == old(self).entries(base, start_offset, end_offset)[i].0 && reached_mut(
                    func,
                    old(self).entries(base, start_offset, end_offset),
                    i,
                ) && #[trigger] call_ensures(
                    func,
                    (r, old(self).entries(base, start_offset, end_offset)[i].1),
                    answer,
                ) ==> final(r).wf(),
        ensures
            final(self).wf(),
            exists|afters: Seq<SlotContent>, statuses: Seq<Status>|
                {
                    &&& #[trigger] stops_right(
                        old(self).entries(base, start_offset, end_offset).len() as int,
                        statuses,
                    )
                    &&& afters.len() == statuses.len()
                    &&& forall|i: int| #[trigger]
                        called(statuses, i) ==> exists|r: &mut VmPageOrMarker|
                            {
                                &&& r.wf()
                                &&& r@ == old(self).entries(base, start_offset, end_offset)[i].0
                                &&& final(r)@ == afters[i]
                                &&& #[trigger] call_ensures(
                                    func,
                                    (r, old(self).entries(base, start_offset, end_offset)[i].1),
                                    statuses[i],
                                )
                            }
                    &&& status == last_status(statuses)
                    &&& final(self).slots_at(base as int / 4096) == #[trigger] replaced(
                        old(self).slots_at(base as int / 4096),
                        old(self).entries(base, start_offset, end_offset),
                        afters,
                    )
                },
    {
        let mut call: F = func;
        let start: usize = ((start_offset - base) / page::PAGE_SIZE) as usize;
        let end: usize = ((end_offset - base) / page::PAGE_SIZE) as usize;
        let ghost first = base as int / 4096;
        let ghost slots = self.slots_at(first);
        let ghost entries = self.entries(base, start_offset, end_offset);
        let ghost mut statuses: Seq<Status> = Seq::empty();
        let ghost mut afters: Seq<SlotContent> = Seq::empty();
        assert(first + start == start_offset as int / 4096);
        assert(first + end == end_offset as int / 4096);
        assert(entries.skip(0) =~= entries);
        let mut i: usize = start;
        while i < end
            invariant
                self.wf(),
                call == func,
                start <= i <= end <= 16,
                base + 65536 <= u64::MAX,
                base % 65536 == 0,
                first == base as int / 4096,
                slots == old(self).slots_at(first),
                entries == old(self).entries(base, start_offset, end_offset),
                accepts_mut(func, entries),
                forall|k: int, r: &mut VmPageOrMarker, answer: Status|
                    0 <= k < entries.len() && r.wf() && r@ == entries[k].0 && reached_mut(
                        func,
                        entries,
                        k,
                    ) && #[trigger] call_ensures(func, (r, entries[k].1), answer)
                        ==> final(r).wf(),
                statuses.len() <= entries.len(),
                afters.len() == statuses.len(),
                visits(slots, first + i, first + end) == entries.skip(statuses.len() as int),
                forall|j: int| i <= j < 16 ==> #[trigger] self.slot(j) == at(slots, first + j),
                self.slots_at(first) == replaced(slots, entries, afters),
                forall|j: int| #[trigger]
                    called(statuses, j) ==> (exists|r: &mut VmPageOrMarker|
                        {
                            &&& r.wf()
                            &&& r@ == entries[j].0
                            &&& final(r)@ == afters[j]
                            &&& #[trigger] call_ensures(func, (r, entries[j].1), statuses[j])
                        }),
                forall|j: int| 0 <= j < statuses.len() ==> #[trigger] statuses[j] == Status::NEXT,
            decreases end - i,
        {
            let ghost p = first + i;
            assert(at(slots, p) == self.slot(i as int));
            if !self.pages[i].is_empty() {
                let offset: u64 = base + (i as u64) * page::PAGE_SIZE;
                proof {
                    lemma_visits_step(slots, p, first + end, entries, statuses.len() as int);
                    assert(p * 4096 == offset);
                    assert(entries[statuses.len() as int].1 == offset);
                    assert forall|j: int| 0 <= j < statuses.len() implies answers_mut(
                        func,
                        #[trigger] entries[j],
                        Status::NEXT,
                    ) by {
                        assert(called(statuses, j));
                        assert(statuses[j] == Status::NEXT);
                    }
                    assert(reached_mut(func, entries, statuses.len() as int));
                }
                let ghost before = *self;
                let status: Status = call(&mut self.pages[i], offset);
                proof {
                    let after = self.slot(i as int);
                    lemma_replaced_push(slots, entries, afters, after);
                    assert forall|j: int| 0 <= j < 16 && j != i implies #[trigger] self.slot(j)
                        == before.slot(j) by {}
                    assert(self.slots_at(first) =~= put(before.slots_at(first), p, after));
                    let n = statuses.len() as int;
                    let next_statuses = statuses.push(status);
                    let next_afters = afters.push(after);
                    assert forall|j: int| #[trigger] called(next_statuses, j) implies exists|
                        r: &mut VmPageOrMarker,
                    |
                        {
                            &&& r.wf()
                            &&& r@ == entries[j].0
                            &&& final(r)@ == next_afters[j]
                            &&& #[trigger] call_ensures(func, (r, entries[j].1), next_statuses[j])
                        } by {
                        if j < n {
                            assert(called(statuses, j));
                            assert(next_afters[j] == afters[j]);
                            assert(next_statuses[j] == statuses[j]);
                        } else {
                            assert(next_afters[j] == after);
                            assert(next_statuses[j] == status);
                        }
                    }
                    statuses = next_statuses;
                    afters = next_afters;
                }
                if status != Status::NEXT {
                    assert(stops_right(entries.len() as int, statuses));
                    return status;
                }
            }
            i += 1;
        }
        assert(entries.skip(statuses.len() as int).len() == 0);
        assert(stops_right(entries.len() as int, statuses));
        assert(last_status(statuses) == Status::NEXT);
        Status::NEXT
    }

    /// For every page or marker in the node call the passed in function with a
    /// [`VmPageOrMarkerRef`].
    pub fn for_every_page_ref<F: FnMut(VmPageOrMarkerRef<'_>, u64) -> Status>(
        &mut self,
        base: u64,
        func: F,
    ) -> (status: Status)
        requires
            old(self).wf(),
            base % 65536 == 0,
            base + 65536 <= u64::MAX,
            accepts_ref(func, old(self).entries(base, base, (base + 65536) as u64)),
            forall|i: int, r: VmPageOrMarkerRef<'_>, answer: Status|
                0 <= i < old(self).entries(base, base, (base + 65536) as u64).len() && r.wf() && r@
                    == old(self).entries(base, base, (base + 65536) as u64)[i].0 && reached_ref(
                    func,
                    old(self).entries(base, base, (base + 65536) as u64),
                    i,
                ) && #[trigger] call_ensures(
                    func,
                    (r, old(self).entries(base, base, (base + 65536) as u64)[i].1),
                    answer,
                ) ==> final(r.slot).wf(),
        ensures
            final(self).wf(),
            exists|afters: Seq<SlotContent>, statuses: Seq<Status>|
                {
                    &&& #[trigger] stops_right(
                        old(self).entries(base, base, (base + 65536) as u64).len() as int,
                        statuses,
                    )
                    &&& afters.len() == statuses.len()
                    &&& forall|i: int| #[trigger]
                        called(statuses, i) ==> exists|r: VmPageOrMarkerRef<'_>|
                            {
                                &&& r.wf()
                                &&& r@ == old(self).entries(base, base, (base + 65536) as u64)[i].0
                                &&& final(r.slot)@ == afters[i]
                                &&& #[trigger] call_ensures(
                                    func,
                                    (r, old(self).entries(base, base, (base + 65536) as u64)[i].1),
                                    statuses[i],
                                )
                            }
                    &&& status == last_status(statuses)
                    &&& final(self).slots_at(base as int / 4096) == #[trigger] replaced(
                        old(self).slots_at(base as int / 4096),
                        old(self).entries(base, base, (base + 65536) as u64),
                        afters,
                    )
                },
    {
        let end: u64 = Self::end_offset(base);
        assert(end == (base + 65536) as u64);
        self.for_every_page_in_range_ref(base, base, end, func)
    }

    /// For every page or marker in the node in the range call the passed in function with a
    /// [`VmPageOrMarkerRef`], as long as it answers `NEXT`. The range is assumed to be within the
    /// node's range. Returns the last answer.
    pub fn for_every_page_in_range_ref<F: FnMut(VmPageOrMarkerRef<'_>, u64) -> Status>(
        &mut self,
        base: u64,
        start_offset: u64,
        end_offset: u64,
        func: F,
    ) -> (status: Status)
        requires
            old(self).wf(),
            base % 65536 == 0,
            base <= start_offset <= end_offset <= base + 65536 <= u64::MAX,
            accepts_ref(func, old(self).entries(base, start_offset, end_offset)),
            forall|i: int, r: VmPageOrMarkerRef<'_>, answer: Status|
                0 <= i < old(self).entries(base, start_offset, end_offset).len() && r.wf() && r@
                    == old(self).entries(base, start_offset, end_offset)[i].0 && reached_ref(
                    func,
                    old(self).entries(base, start_offset, end_offset),
                    i,
                ) && #[trigger] call_ensures(
                    func,
                    (r, old(self).entries(base, start_offset, end_offset)[i].1),
                    answer,
                ) ==> final(r.slot).wf(),
        ensures
            final(self).wf(),
            exists|afters: Seq<SlotContent>, statuses: Seq<Status>|
                {
                    &&& #[trigger] stops_right(
                        old(self).entries(base, start_offset, end_offset).len() as int,
                        statuses,
                    )
                    &&& afters.len() == statuses.len()
                    &&& forall|i: int| #[trigger]
                        called(statuses, i) ==> exists|r: VmPageOrMarkerRef<'_>|
                            {
                                &&& r.wf()
                                &&& r@ == old(self).entries(base, start_offset, end_offset)[i].0
                                &&& final(r.slot)@ == afters[i]
                                &&& #[trigger] call_ensures(
                                    func,
                                    (r, old(self).entries(base, start_offset, end_offset)[i].1),
                                    statuses[i],
                                )
                            }
                    &&& status == last_status(statuses)
                    &&& final(self).slots_at(base as int / 4096) == #[trigger] replaced(
                        old(self).slots_at(base as int / 4096),
                        old(self).entries(base, start_offset, end_offset),
                        afters,
                    )
                },
    {
        let mut call: F = func;
        let start: usize = ((start_offset - base) / page::PAGE_SIZE) as usize;
        let end: usize = ((end_offset - base) / page::PAGE_SIZE) as usize;
        let ghost first = base as int / 4096;
        let ghost slots = self.slots_at(first);
        let ghost entries = self.entries(base, start_offset, end_offset);
        let ghost mut statuses: Seq<Status> = Seq::empty();
        let ghost mut afters: Seq<SlotContent> = Seq::empty();
        assert(first + start == start_offset as int / 4096);
        assert(first + end == end_offset as int / 4096);
        assert(entries.skip(0) =~= entries);
        let mut i: usize = start;
        while i < end
            invariant
                self.wf(),
                call == func,
                start <= i <= end <= 16,
                base + 65536 <= u64::MAX,
                base % 65536 == 0,
                first == base as int / 4096,
                slots == old(self).slots_at(first),
                entries == old(self).entries(base, start_offset, end_offset),
                accepts_ref(func, entries),
                forall|k: int, r: VmPageOrMarkerRef<'_>, answer: Status|
                    0 <= k < entries.len() && r.wf() && r@ == entries[k].0 && reached_ref(
                        func,
                        entries,
                        k,
                    ) && #[trigger] call_ensures(func, (r, entries[k].1), answer)
                        ==> final(r.slot).wf(),
                statuses.len() <= entries.len(),
                afters.len() == statuses.len(),
                visits(slots, first + i, first + end) == entries.skip(statuses.len() as int),
                forall|j: int| i <= j < 16 ==> #[trigger] self.slot(j) == at(slots, first + j),
                self.slots_at(first) == replaced(slots, entries, afters),
                forall|j: int| #[trigger]
                    called(statuses, j) ==> (exists|r: VmPageOrMarkerRef<'_>|
                        {
                            &&& r.wf()
                            &&& r@ == entries[j].0
                            &&& final(r.slot)@ == afters[j]
                            &&& #[trigger] call_ensures(func, (r, entries[j].1), statuses[j])
                        }),
                forall|j: int| 0 <= j < statuses.len() ==> #[trigger] statuses[j] == Status::NEXT,
            decreases end - i,
        {
            let ghost p = first + i;
            assert(at(slots, p) == self.slot(i as int));
            if !self.pages[i].is_empty() {
                let offset: u64 = base + (i as u64) * page::PAGE_SIZE;
                proof {
                    lemma_visits_step(slots, p, first + end, entries, statuses.len() as int);
                    assert(p * 4096 == offset);
                    assert(entries[statuses.len() as int].1 == offset);
                    assert forall|j: int| 0 <= j < statuses.len() implies answers_ref(
                        func,
                        #[trigger] entries[j],
                        Status::NEXT,
                    ) by {
                        assert(called(statuses, j));
                        assert(statuses[j] == Status::NEXT);
                    }
                    assert(reached_ref(func, entries, statuses.len() as int));
                }
                let ghost before = *self;
                let status: Status = call(VmPageOrMarkerRef::new(&mut self.pages[i]), offset);
                proof {
                    let after = self.slot(i as int);
                    lemma_replaced_push(slots, entries, afters, after);
                    assert forall|j: int| 0 <= j < 16 && j != i implies #[trigger] self.slot(j)
                        == before.slot(j) by {}
                    assert(self.slots_at(first) =~= put(before.slots_at(first), p, after));
                    let n = statuses.len() as int;
                    let next_statuses = statuses.push(status);
                    let next_afters = afters.push(after);
                    assert forall|j: int| #[trigger] called(next_statuses, j) implies exists|
                        r: VmPageOrMarkerRef<'_>,
                    |
                        {
                            &&& r.wf()
                            &&& r@ == entries[j].0
                            &&& final(r.slot)@ == next_afters[j]
                            &&& #[trigger] call_ensures(func, (r, entries[j].1), next_statuses[j])
                        } by {
                        if j < n {
                            assert(called(statuses, j));
                            assert(next_afters[j] == afters[j]);
                            assert(next_statuses[j] == statuses[j]);
                        } else {
                            assert(next_afters[j] == after);
                            assert(next_statuses[j] == status);
                        }
                    }
                    statuses = next_statuses;
                    afters = next_afters;
                }
                if status != Status::NEXT {
                    assert(stops_right(entries.len() as int, statuses));
                    return status;
                }
            }
            i += 1;
        }
        assert(entries.skip(statuses.len() as int).len() == 0);
        assert(stops_right(entries.len() as int, statuses));
        assert(last_status(statuses) == Status::NEXT);
        Status::NEXT
    }

    /// Calls the passed in function on every page or marker in the range, together with the slot
    /// of `other` that lies as far from `other_start_offset` as the slot does from `start_offset`,
    /// and the offset of that slot.
    #[verifier::rlimit(40)]
    pub fn merge_range_onto<F: FnMut(&mut VmPageOrMarker, &mut VmPageOrMarker, u64)>(
        &mut self,
        base: u64,
        other_base: u64,
        migrate_fn: F,
        other: &mut VmPageListNode,
        start_offset: u64,
        end_offset: u64,
        other_start_offset: u64,
    )
        requires
            old(self).wf(),
            old(other).wf(),
            base % 65536 == 0,
            start_offset % 4096 == 0,
            base <= start_offset <= end_offset <= base + 65536 <= u64::MAX,
            other_base % 65536 == 0,
            other_base <= other_start_offset,
            other_start_offset + (end_offset - start_offset) <= other_base + 65536 <= u64::MAX,
            forall|i: int, r: &mut VmPageOrMarker, o: &mut VmPageOrMarker|
                0 <= i < old(self).entries(base, start_offset, end_offset).len() && r.wf() && o.wf()
                    && r@ == old(self).entries(base, start_offset, end_offset)[i].0 && o@ == at(
                    old(other).slots_at(other_base as int / 4096),
                    moved(
                        old(self).entries(base, start_offset, end_offset),
                        start_offset,
                        other_start_offset,
                    )[i].1 as int / 4096,
                ) ==> #[trigger] call_requires(
                    migrate_fn,
                    (
                        r,
                        o,
                        moved(
                            old(self).entries(base, start_offset, end_offset),
                            start_offset,
                            other_start_offset,
                        )[i].1,
                    ),
                ),
            forall|i: int, r: &mut VmPageOrMarker, o: &mut VmPageOrMarker|
                0 <= i < old(self).entries(base, start_offset, end_offset).len() && r.wf() && o.wf()
                    && r@ == old(self).entries(base, start_offset, end_offset)[i].0 && o@ == at(
                    old(other).slots_at(other_base as int / 4096),
                    moved(
                        old(self).entries(base, start_offset, end_offset),
                        start_offset,
                        other_start_offset,
                    )[i].1 as int / 4096,
                ) && #[trigger] call_ensures(
                    migrate_fn,
                    (
                        r,
                        o,
                        moved(
                            old(self).entries(base, start_offset, end_offset),
                            start_offset,
                            other_start_offset,
                        )[i].1,
                    ),
                    (),
                ) ==> final(r).wf() && final(o).wf(),
        ensures
            final(self).wf(),
            final(other).wf(),
            exists|afters: Seq<SlotContent>, other_afters: Seq<SlotContent>|
                {
                    &&& afters.len() == old(self).entries(base, start_offset, end_offset).len()
                    &&& other_afters.len() == afters.len()
                    &&& forall|i: int| #[trigger]
                        called(afters, i) ==> exists|
                            r: &mut VmPageOrMarker,
                            o: &mut VmPageOrMarker,
                        |
                            {
                                &&& r.wf() && o.wf()
                                &&& r@ == old(self).entries(base, start_offset, end_offset)[i].0
                                &&& o@ == at(
                                    old(other).slots_at(other_base as int / 4096),
                                    moved(
                                        old(self).entries(base, start_offset, end_offset),
                                        start_offset,
                                        other_start_offset,
                                    )[i].1 as int / 4096,
                                )
                                &&& final(r)@ == afters[i]
                                &&& final(o)@ == other_afters[i]
                                &&& #[trigger] call_ensures(
                                    migrate_fn,
                                    (
                                        r,
                                        o,
                                        moved(
                                            old(self).entries(base, start_offset, end_offset),
                                            start_offset,
                                            other_start_offset,
                                        )[i].1,
                                    ),
                                    (),
                                )
                            }
                    &&& final(self).slots_at(base as int / 4096) == #[trigger] replaced(
                        old(self).slots_at(base as int / 4096),
                        old(self).entries(base, start_offset, end_offset),
                        afters,
                    )
                    &&& final(other).slots_at(other_base as int / 4096) == #[trigger] replaced(
                        old(other).slots_at(other_base as int / 4096),
                        moved(
                            old(self).entries(base, start_offset, end_offset),
                            start_offset,
                            other_start_offset,
                        ),
                        other_afters,
                    )
                },
    {
        let mut call: F = migrate_fn;
        let start: usize = ((start_offset - base) / page::PAGE_SIZE) as usize;
        let end: usize = ((end_offset - base) / page::PAGE_SIZE) as usize;
        let ghost first = base as int / 4096;
        let ghost other_first = other_base as int / 4096;
        let ghost slots = self.slots_at(first);
        let ghost other_slots = other.slots_at(other_first);
        let ghost entries = self.entries(base, start_offset, end_offset);
        let ghost targets = moved(entries, start_offset, other_start_offset);
        let ghost shift = other_start_offset as int / 4096 - start_offset as int / 4096;
        let ghost mut afters: Seq<SlotContent> = Seq::empty();
        let ghost mut other_afters: Seq<SlotContent> = Seq::empty();
        assert(first + start == start_offset as int / 4096);
        assert(first + end == end_offset as int / 4096);
        assert(entries.skip(0) =~= entries);
        let mut i: usize = start;
        while i < end
            invariant
                self.wf(),
                other.wf(),
                call == migrate_fn,
                start <= i <= end <= 16,
                base % 65536 == 0,
                start_offset % 4096 == 0,
                base <= start_offset <= end_offset <= base + 65536 <= u64::MAX,
                other_base % 65536 == 0,
                other_base <= other_start_offset,
                other_start_offset + (end_offset - start_offset) <= other_base + 65536 <= u64::MAX,
                first == base as int / 4096,
                other_first == other_base as int / 4096,
                first + start == start_offset as int / 4096,
                first + end == end_offset as int / 4096,
                shift == other_start_offset as int / 4096 - start_offset as int / 4096,
                slots == old(self).slots_at(first),
                other_slots == old(other).slots_at(other_first),
                entries == old(self).entries(base, start_offset, end_offset),
                targets == moved(entries, start_offset, other_start_offset),
                forall|k: int, r: &mut VmPageOrMarker, o: &mut VmPageOrMarker|
                    0 <= k < entries.len() && r.wf() && o.wf() && r@ == entries[k].0 && o@ == at(
                        other_slots,
                        targets[k].1 as int / 4096,
                    ) ==> #[trigger] call_requires(migrate_fn, (r, o, targets[k].1)),
                forall|k: int, r: &mut VmPageOrMarker, o: &mut VmPageOrMarker|
                    0 <= k < entries.len() && r.wf() && o.wf() && r@ == entries[k].0 && o@ == at(
                        other_slots,
                        targets[k].1 as int / 4096,
                    ) && #[trigger] call_ensures(migrate_fn, (r, o, targets[k].1), ())
                        ==> final(r).wf() && final(o).wf(),
                afters.len() <= entries.len(),
                other_afters.len() == afters.len(),
                visits(slots, first + i, first + end) == entries.skip(afters.len() as int),
                forall|j: int| i <= j < 16 ==> #[trigger] self.slot(j) == at(slots, first + j),
                forall|p: int|
                    first + i + shift <= p < other_first + 16 && p >= other_first
                        ==> #[trigger] at(other.slots_at(other_first), p) == at(other_slots, p),
                self.slots_at(first) == replaced(slots, entries, afters),
                other.slots_at(other_first) == replaced(other_slots, targets, other_afters),
                forall|j: int| #[trigger]
                    called(afters, j) ==> exists|r: &mut VmPageOrMarker, o: &mut VmPageOrMarker|
                        {
                            &&& r.wf() && o.wf()
                            &&& r@ == entries[j].0
                            &&& o@ == at(other_slots, targets[j].1 as int / 4096)
                            &&& final(r)@ == afters[j]
                            &&& final(o)@ == other_afters[j]
                            &&& #[trigger] call_ensures(migrate_fn, (r, o, targets[j].1), ())
                        },
            decreases end - i,
        {
            let ghost p = first + i;
            assert(at(slots, p) == self.slot(i as int));
            if !self.pages[i].is_empty() {
                let offset: u64 = base + (i as u64) * page::PAGE_SIZE;
                let other_offset: u64 = offset - start_offset + other_start_offset;
                let other_index: usize = Self::node_index(other_offset);
                let ghost n = afters.len() as int;
                proof {
                    lemma_visits_step(slots, p, first + end, entries, n);
                    assert(p * 4096 == offset);
                    assert(entries[n].1 == offset);
                    assert(targets[n].1 == other_offset);
                    assert(other_offset as int / 4096 == p + shift);
                    assert(other_first <= p + shift < other_first + 16);
                    assert(other_index == p + shift - other_first);
                    assert(at(other.slots_at(other_first), p + shift) == at(other_slots, p + shift));
                    assert(other.slot(other_index as int) == at(other_slots, p + shift));
                }
                let ghost before = *self;
                let ghost other_before = *other;
                call(&mut self.pages[i], &mut other.pages[other_index], other_offset);
                proof {
                    let after = self.slot(i as int);
                    let other_after = other.slot(other_index as int);
                    lemma_replaced_push(slots, entries, afters, after);
                    lemma_replaced_push(other_slots, targets, other_afters, other_after);
                    assert forall|j: int| 0 <= j < 16 && j != i implies #[trigger] self.slot(j)
                        == before.slot(j) by {}
                    assert forall|j: int| 0 <= j < 16 && j != other_index
                        implies #[trigger] other.slot(j) == other_before.slot(j) by {}
                    assert(self.slots_at(first) =~= put(before.slots_at(first), p, after));
                    assert(other.slots_at(other_first) =~= put(
                        other_before.slots_at(other_first),
                        p + shift,
                        other_after,
                    ));
                    let next_afters = afters.push(after);
                    let next_others = other_afters.push(other_after);
                    assert forall|j: int| #[trigger] called(next_afters, j) implies exists|
                        r: &mut VmPageOrMarker,
                        o: &mut VmPageOrMarker,
                    |
                        {
                            &&& r.wf() && o.wf()
                            &&& r@ == entries[j].0
                            &&& o@ == at(other_slots, targets[j].1 as int / 4096)
                            &&& final(r)@ == next_afters[j]
                            &&& final(o)@ == next_others[j]
                            &&& #[trigger] call_ensures(migrate_fn, (r, o, targets[j].1), ())
                        } by {
                        if j < n {
                            assert(called(afters, j));
                            assert(next_afters[j] == afters[j]);
                            assert(next_others[j] == other_afters[j]);
                        } else {
                            assert(next_afters[j] == after);
                            assert(next_others[j] == other_after);
                        }
                    }
                    afters = next_afters;
                    other_afters = next_others;
                    assert forall|q: int|
                        p + 1 + shift <= q < other_first + 16 && q >= other_first implies #[trigger] at(
                        other.slots_at(other_first),
                        q,
                    ) == at(other_slots, q) by {
                        assert(at(other_before.slots_at(other_first), q) == at(other_slots, q));
                        assert(other.slot(q - other_first) == other_before.slot(q - other_first));
                    }
                }
            }
            i += 1;
        }
        assert(entries.skip(afters.len() as int).len() == 0);
    }

    /// Converts the supplied offset into the offset of the node that holds it.
    pub fn node_offset(offset: u64) -> (base: u64)
        ensures
            base == offset - offset % 65536,
            base % 65536 == 0,
            base <= offset,
    {
        assert(offset & !0xffffu64 == offset - offset % 65536) by (bit_vector);
        offset & !(Self::NODE_SPAN_BYTES - 1)
    }

    /// Converts the supplied offset into the index of its slot in the node that holds it.
    pub fn node_index(offset: u64) -> (index: usize)
        ensures
            index == (offset as int / 4096) % 16,
            index < 16,
    {
        assert(offset >> 12u32 == offset / 4096) by (bit_vector);
        ((offset >> page::SHIFT) % 16) as usize
    }
}

impl Default for VmPageListNode {
    fn default() -> (node: Self)
        ensures
            node.wf(),
            node.vacant(),
    {
        VmPageListNode::new()
    }
}

} // verus!
