//! The mathematical model of the physical memory manager: what its state is, and what each
//! operation does to it.

use vstd::arithmetic::power2::pow2;
use vstd::prelude::*;

use crate::free_memory::{Throttle, ShouldWaitState};
use crate::page::PAGE_SIZE;
use crate::pmm_arena::PmmArenaInfo;
use crate::status::Status;
use crate::vm_page::{VmPage, VmPagePtr, VmPageState};

verus! {

/// How many arenas a node can have.
pub const ARENA_COUNT: usize = 16;

/// Whether a freed page should be reused as late as possible.
#[derive(PartialEq, Eq, Structural, Clone, Copy, Debug)]
pub enum PmmOptDelayReuse {
    /// The page goes to the end of the free list that is allocated from next.
    Default,
    /// The page goes to the cold end of the free list, which maximizes the time before it is
    /// allocated again.
    Yes,
}

/// What kind of allocation has failed.
#[derive(PartialEq, Eq, Structural, Clone, Copy, Debug)]
pub enum AllocFailureType {
    NoFailure,
    Pmm,
    Heap,
    Handle,
    Other,
}

/// An allocation failure that is visible to users, with what helps to diagnose it.
#[derive(PartialEq, Eq, Structural, Clone, Copy, Debug)]
pub struct AllocFailure {
    pub failure_type: AllocFailureType,
    pub size: usize,
    pub free_count: u64,
}

impl AllocFailure {
    /// The record of no failure.
    pub open spec fn none() -> AllocFailure {
        AllocFailure { failure_type: AllocFailureType::NoFailure, size: 0, free_count: 0 }
    }
}

impl Default for AllocFailure {
    fn default() -> (failure: AllocFailure)
        ensures
            failure == AllocFailure::none(),
    {
        AllocFailure { failure_type: AllocFailureType::NoFailure, size: 0, free_count: 0 }
    }
}

/// What to do when a free page no longer holds the fill pattern.
#[derive(PartialEq, Eq, Structural, Clone, Copy, Debug)]
pub enum CheckFailAction {
    /// Report it and go on.
    Oops,
    /// Panic.
    Panic,
}

/// How free pages are filled and checked.
#[derive(PartialEq, Eq, Structural, Clone, Copy, Debug)]
pub struct PmmChecker {
    /// How many bytes of a page are filled.
    pub fill_size: usize,
    pub action: CheckFailAction,
    /// The pages that are allocated are checked for the pattern.
    pub armed: bool,
}

/// The state of a `PmmNode`.
#[verifier::ext_equal]
pub struct PmmState {
    pub arenas: Seq<PmmArenaInfo>,
    /// What is recorded about each page of the arenas.
    pub pages: Map<VmPagePtr, VmPage>,
    /// The free pages that are not on loan; allocations take them from the front.
    pub free: Seq<VmPagePtr>,
    /// The free pages on loan whose loan is not cancelled.
    pub free_loaned: Seq<VmPagePtr>,
    /// The pages to free once the hand-off is over.
    pub handoff_temporary: Seq<VmPagePtr>,
    /// The wired pages that are to become objects.
    pub handoff_vmo: Seq<VmPagePtr>,
    pub loaned_count: int,
    pub loan_cancelled_count: int,
    pub throttle: Throttle,
    /// An allocation has failed for want of memory.
    pub alloc_failed: bool,
    pub first_alloc_failure: AllocFailure,
    pub alloc_failed_count: i64,
    /// Freed pages get the fill pattern.
    pub free_fill_enabled: bool,
    /// Every free page has the fill pattern.
    pub all_free_pages_filled: bool,
    pub checker: PmmChecker,
    pub page_compression: Option<u64>,
}

/// What an allocation of one page returns.
pub open spec fn alloc_page_result(state: PmmState, can_wait: bool) -> Result<VmPagePtr, Status> {
    if can_wait && state.throttle.delays() {
        Err(Status::SHOULD_WAIT)
    } else if state.free.len() == 0 {
        Err(Status::NO_MEMORY)
    } else {
        Ok(state.free[0])
    }
}

/// What an allocation of one page leaves behind.
pub open spec fn alloc_page_state(state: PmmState, can_wait: bool) -> PmmState {
    if can_wait && state.throttle.delays() {
        state
    } else if state.free.len() == 0 {
        state.fail(AllocFailure { failure_type: AllocFailureType::Pmm, size: 1, free_count: 0 })
    } else {
        state.take_front(1)
    }
}

/// The next waiting thread is to be let through after an attempt to allocate gave `result`: always
/// where nothing ever waits, and otherwise where the attempt was made in a state that allows
/// allocations.
pub open spec fn lets_through(throttle: Throttle, result: Result<VmPagePtr, Status>) -> bool {
    match throttle.should_wait {
        ShouldWaitState::Never => true,
        ShouldWaitState::UntilReset => false,
        ShouldWaitState::OnceLevelTripped => result is Ok || result == Err::<VmPagePtr, Status>(
            Status::SHOULD_WAIT,
        ),
    }
}

/// What a thread that has passed the throttle leaves behind, once it has tried to allocate.
pub open spec fn after_passing(state: PmmState) -> PmmState {
    let after = alloc_page_state(state, true);
    if lets_through(after.throttle, alloc_page_result(state, true)) {
        PmmState { throttle: Throttle { may_allocate: true, ..after.throttle }, ..after }
    } else {
        after
    }
}

/// The arenas are in order of their addresses and do not overlap.
pub open spec fn arenas_ok(arenas: Seq<PmmArenaInfo>) -> bool {
    &&& arenas.len() <= ARENA_COUNT
    &&& forall|i: int| 0 <= i < arenas.len() ==> (#[trigger] arenas[i]).wf()
    &&& forall|i: int, j: int|
        0 <= i < j < arenas.len() ==> (#[trigger] arenas[i]).end() <= (#[trigger] arenas[j]).base
}

/// `page` is a page of arena `i`.
pub open spec fn in_arena(arenas: Seq<PmmArenaInfo>, i: int, page: VmPagePtr) -> bool {
    0 <= i < arenas.len() && arenas[i].has(page)
}

/// `page` is a page of some arena.
pub open spec fn in_arenas(arenas: Seq<PmmArenaInfo>, page: VmPagePtr) -> bool {
    exists|i: int| in_arena(arenas, i, page)
}

/// The number of bytes in the arenas.
pub open spec fn total_bytes(arenas: Seq<PmmArenaInfo>) -> int
    decreases arenas.len(),
{
    if arenas.len() == 0 {
        0
    } else {
        total_bytes(arenas.drop_last()) + arenas.last().size
    }
}

/// The page `i` pages behind `page`.
pub open spec fn nth_page(page: VmPagePtr, i: int) -> VmPagePtr {
    VmPagePtr { paddr: (page.paddr + i * 4096) as u64 }
}

/// The `count` consecutive pages from `page` on.
pub open spec fn page_run(page: VmPagePtr, count: int) -> Seq<VmPagePtr> {
    Seq::new(count as nat, |i: int| nth_page(page, i))
}

/// The records after `change` was made to each page in `list`.
pub open spec fn changed(
    pages: Map<VmPagePtr, VmPage>,
    list: Seq<VmPagePtr>,
    change: spec_fn(VmPage) -> VmPage,
) -> Map<VmPagePtr, VmPage> {
    Map::new(
        |p: VmPagePtr| pages.contains_key(p),
        |p: VmPagePtr|
            if list.contains(p) {
                change(pages[p])
            } else {
                pages[p]
            },
    )
}

/// Two lists put together: `back` behind `front`.
pub open spec fn put_back(
    list: Seq<VmPagePtr>,
    target: Seq<VmPagePtr>,
    delay_reuse: PmmOptDelayReuse,
) -> Seq<VmPagePtr> {
    if delay_reuse == PmmOptDelayReuse::Yes {
        target + list
    } else {
        list + target
    }
}

/// The pages on loan.
pub open spec fn loaned_pages(pages: Map<VmPagePtr, VmPage>) -> Set<VmPagePtr> {
    pages.dom().filter(|p: VmPagePtr| pages[p].loaned)
}

/// The pages whose loan is cancelled.
pub open spec fn cancelled_pages(pages: Map<VmPagePtr, VmPage>) -> Set<VmPagePtr> {
    pages.dom().filter(|p: VmPagePtr| pages[p].loan_cancelled)
}

/// A record that can occur.
pub open spec fn record_ok(record: VmPage) -> bool {
    &&& record.loan_cancelled ==> record.loaned
    &&& record.state == VmPageState::FREE ==> !record.loaned
    &&& record.state == VmPageState::FREE_LOANED ==> record.loaned
}

impl PmmState {
    pub open spec fn free_ok(self) -> bool {
        &&& self.free.no_duplicates()
        &&& forall|p: VmPagePtr| #[trigger]
            self.free.contains(p) ==> self.pages.contains_key(p) && self.pages[p].allocatable() && (
            self.all_free_pages_filled ==> self.pages[p].filled)
    }

    pub open spec fn free_loaned_ok(self) -> bool {
        &&& self.free_loaned.no_duplicates()
        &&& forall|p: VmPagePtr| #[trigger]
            self.free_loaned.contains(p) ==> self.pages.contains_key(p) && self.pages[p].state
                == VmPageState::FREE_LOANED && !self.pages[p].loan_cancelled && (
            self.all_free_pages_filled ==> self.pages[p].filled)
    }

    pub open spec fn handoff_ok(self) -> bool {
        &&& self.handoff_temporary.no_duplicates()
        &&& self.handoff_vmo.no_duplicates()
        &&& forall|p: VmPagePtr| #[trigger]
            self.handoff_temporary.contains(p) ==> self.pages.contains_key(p)
                && self.pages[p].state == VmPageState::ALLOC && !self.pages[p].loaned
        &&& forall|p: VmPagePtr| #[trigger]
            self.handoff_vmo.contains(p) ==> self.pages.contains_key(p) && self.pages[p].state
                == VmPageState::WIRED && !self.pages[p].loaned
    }

    /// What holds of every node: the arenas are in order, the records are those of the arenas'
    /// pages, the lists hold each page once and in the state that fits the list, and the counts
    /// are the numbers of the pages they count.
    pub open spec fn wf(self) -> bool {
        &&& arenas_ok(self.arenas)
        &&& self.pages.dom().finite()
        &&& forall|p: VmPagePtr| #[trigger]
            self.pages.contains_key(p) ==> in_arenas(self.arenas, p) && record_ok(self.pages[p])
        &&& forall|p: VmPagePtr| #[trigger]
            in_arenas(self.arenas, p) ==> self.pages.contains_key(p)
        &&& self.free_ok()
        &&& self.free_loaned_ok()
        &&& self.handoff_ok()
        &&& self.loaned_count == loaned_pages(self.pages).len()
        &&& self.loan_cancelled_count == cancelled_pages(self.pages).len()
        &&& self.all_free_pages_filled ==> self.free_fill_enabled
        &&& self.checker.armed == self.all_free_pages_filled
    }

    /// Every free page is on the list it belongs to: nothing is on its way there.
    pub open spec fn settled(self) -> bool {
        &&& forall|p: VmPagePtr|
            #![trigger self.pages[p]]
            self.pages.contains_key(p) && self.pages[p].state == VmPageState::FREE
                ==> self.free.contains(p)
        &&& forall|p: VmPagePtr|
            #![trigger self.pages[p]]
            self.pages.contains_key(p) && self.pages[p].state == VmPageState::FREE_LOANED
                && !self.pages[p].loan_cancelled ==> self.free_loaned.contains(p)
    }

    /// On neither of the lists that are filled before the hand-off.
    pub open spec fn handed_off(self, page: VmPagePtr) -> bool {
        !self.handoff_temporary.contains(page) && !self.handoff_vmo.contains(page)
    }

    /// The pages of `list` are in use, are not on loan, and their owner may let go of them.
    pub open spec fn can_free(self, list: Seq<VmPagePtr>) -> bool {
        &&& list.no_duplicates()
        &&& forall|p: VmPagePtr| #[trigger]
            list.contains(p) ==> self.pages.contains_key(p) && self.pages[p].releasable()
                && !self.pages[p].loaned && self.handed_off(p)
    }

    /// The pages of `list` are in use, are not on loan, and can be lent.
    pub open spec fn can_lend(self, list: Seq<VmPagePtr>) -> bool {
        &&& list.no_duplicates()
        &&& forall|p: VmPagePtr| #[trigger]
            list.contains(p) ==> {
                let record = self.pages[p];
                &&& self.pages.contains_key(p)
                &&& record.state != VmPageState::FREE
                &&& !record.loaned
                &&& self.handed_off(p)
                &&& record.state == VmPageState::OBJECT ==> record.pin_count == 0
                &&& record.state == VmPageState::ALLOC ==> record.owner is None
            }
    }

    /// The pages of `list` are on loan and held by `holder` on their way back.
    pub open spec fn held_by(self, list: Seq<VmPagePtr>, holder: u64) -> bool {
        &&& list.no_duplicates()
        &&& forall|p: VmPagePtr| #[trigger]
            list.contains(p) ==> self.pages.contains_key(p) && self.pages[p].loaned
                && self.pages[p].state == VmPageState::ALLOC && self.pages[p].owner == Some(holder)
    }

    /// The page with the address `address` is there to be allocated.
    pub open spec fn allocatable(self, page: VmPagePtr) -> bool {
        self.pages.contains_key(page) && self.pages[page].allocatable()
    }

    /// How many of the `count` pages from `page` on can be allocated before the first that cannot.
    pub open spec fn free_run_length(self, page: VmPagePtr, count: nat) -> nat
        decreases count,
    {
        if count == 0 || !self.allocatable(page) {
            0
        } else {
            1 + self.free_run_length(nth_page(page, 1), (count - 1) as nat)
        }
    }

    /// A run of `count` pages from `page` on, all within one arena and aligned, can be allocated.
    pub open spec fn contiguous_run(self, page: VmPagePtr, count: int, alignment_log2: nat) -> bool {
        exists|i: int| self.contiguous_in(i, page, count, alignment_log2)
    }

    /// The run lies in arena `i`.
    pub open spec fn contiguous_in(
        self,
        i: int,
        page: VmPagePtr,
        count: int,
        alignment_log2: nat,
    ) -> bool {
        &&& in_arena(self.arenas, i, page)
        &&& page.paddr + count * 4096 <= self.arenas[i].end()
        &&& page.paddr as int % (pow2(alignment_log2) as int) == 0
        &&& forall|j: int| 0 <= j < count ==> self.allocatable(#[trigger] nth_page(page, j))
    }

    pub open spec fn with_record(self, page: VmPagePtr, record: VmPage) -> PmmState {
        PmmState { pages: self.pages.insert(page, record), ..self }
    }

    /// The first `count` free pages are allocated.
    pub open spec fn take_front(self, count: int) -> PmmState {
        PmmState {
            pages: changed(self.pages, self.free.take(count), |r: VmPage| r.allocated()),
            free: self.free.skip(count),
            throttle: self.throttle.fell(self.free.len() - count),
            ..self
        }
    }

    /// A given free page is allocated.
    pub open spec fn take_page(self, page: VmPagePtr) -> PmmState {
        PmmState {
            pages: self.pages.insert(page, self.pages[page].allocated()),
            free: self.free.remove_value(page),
            throttle: self.throttle.fell(self.free.len() - 1),
            ..self
        }
    }

    /// The `count` pages from `page` on are allocated, one after the other.
    pub open spec fn take_run(self, page: VmPagePtr, count: nat) -> PmmState
        decreases count,
    {
        if count == 0 {
            self
        } else {
            self.take_run(page, (count - 1) as nat).take_page(nth_page(page, count - 1))
        }
    }

    /// The pages of `list` are freed.
    pub open spec fn give_back(
        self,
        list: Seq<VmPagePtr>,
        delay_reuse: PmmOptDelayReuse,
    ) -> PmmState {
        PmmState {
            pages: changed(self.pages, list, |r: VmPage| r.freed(self.free_fill_enabled)),
            free: put_back(list, self.free, delay_reuse),
            throttle: self.throttle.rose((self.free.len() + list.len()) as int),
            ..self
        }
    }

    /// An allocation failure is recorded: only the first is kept, and only the first raises the
    /// signal.
    pub open spec fn fail(self, failure: AllocFailure) -> PmmState {
        let counted = PmmState {
            alloc_failed_count: i64::wrapping_add(self.alloc_failed_count, 1),
            ..self
        };
        if self.alloc_failed {
            counted
        } else {
            PmmState {
                alloc_failed: true,
                first_alloc_failure: if failure.failure_type == AllocFailureType::Pmm {
                    failure
                } else {
                    AllocFailure { free_count: self.free.len() as u64, ..failure }
                },
                throttle: self.throttle.signalled(),
                ..counted
            }
        }
    }

    /// The pages of `list` go on loan.
    pub open spec fn lend(self, list: Seq<VmPagePtr>, delay_reuse: PmmOptDelayReuse) -> PmmState {
        PmmState {
            pages: changed(
                self.pages,
                list,
                |r: VmPage| r.lent().freed_loaned(self.free_fill_enabled),
            ),
            free_loaned: put_back(list, self.free_loaned, delay_reuse),
            loaned_count: self.loaned_count + list.len(),
            ..self
        }
    }

    /// The loan of `page` is cancelled.
    pub open spec fn cancel(self, page: VmPagePtr) -> PmmState {
        PmmState {
            pages: self.pages.insert(page, VmPage { loan_cancelled: true, ..self.pages[page] }),
            free_loaned: self.free_loaned.remove_value(page),
            loan_cancelled_count: self.loan_cancelled_count + 1,
            ..self
        }
    }

    /// The loan of `page` ends: the page is allocated to whoever lent it.
    pub open spec fn end(self, page: VmPagePtr) -> PmmState {
        PmmState {
            pages: self.pages.insert(
                page,
                VmPage { loaned: false, loan_cancelled: false, ..self.pages[page] }.allocated(),
            ),
            loaned_count: self.loaned_count - 1,
            loan_cancelled_count: self.loan_cancelled_count - 1,
            ..self
        }
    }

    /// The first loaned page that is free is borrowed; `record` is what its borrower makes of it.
    pub open spec fn borrow_front(self, record: VmPage) -> PmmState {
        PmmState {
            pages: self.pages.insert(self.free_loaned[0], record),
            free_loaned: self.free_loaned.skip(1),
            ..self
        }
    }

    /// The pages of `list` that can be borrowed again.
    pub open spec fn kept(self, list: Seq<VmPagePtr>) -> Seq<VmPagePtr> {
        list.filter(|p: VmPagePtr| !self.pages[p].loan_cancelled)
    }

    /// The pages of `list`, on loan, are free again; those whose loan is cancelled stay off the
    /// list.
    pub open spec fn give_back_loaned(self, list: Seq<VmPagePtr>) -> PmmState {
        PmmState {
            pages: changed(self.pages, list, |r: VmPage| r.freed_loaned(self.free_fill_enabled)),
            free_loaned: self.kept(list) + self.free_loaned,
            ..self
        }
    }

    /// The first `count` pages of `list` are held by `holder`; `records` is what is left of them
    /// once their owner has let go.
    pub open spec fn hold(
        self,
        list: Seq<VmPagePtr>,
        records: Seq<VmPage>,
        holder: u64,
        count: nat,
    ) -> PmmState
        decreases count,
    {
        if count == 0 {
            self
        } else {
            self.hold(list, records, holder, (count - 1) as nat).with_record(
                list[count - 1],
                records[count - 1].held(holder),
            )
        }
    }

    /// The hand-off is over.
    pub open spec fn end_handoff(self) -> PmmState {
        PmmState { handoff_temporary: Seq::empty(), ..self }.give_back(
            self.handoff_temporary,
            PmmOptDelayReuse::Default,
        )
    }

    /// A wired page is no longer wired.
    pub open spec fn unwire(self, page: VmPagePtr) -> PmmState {
        PmmState {
            pages: self.pages.insert(
                page,
                VmPage { state: VmPageState::ALLOC, ..self.pages[page] },
            ),
            handoff_vmo: self.handoff_vmo.remove_value(page),
            ..self
        }
    }

    /// New free pages come online.
    pub open spec fn bring_online(self, list: Seq<VmPagePtr>) -> PmmState {
        PmmState {
            free: self.free + list,
            throttle: Throttle { may_allocate: true, ..self.throttle },
            ..self
        }
    }

    /// All free pages get the fill pattern.
    pub open spec fn fill_all(self) -> PmmState {
        PmmState {
            pages: changed(
                self.pages,
                self.free + self.free_loaned,
                |r: VmPage| r.with_pattern(),
            ),
            all_free_pages_filled: true,
            checker: PmmChecker { armed: true, ..self.checker },
            ..self
        }
    }
}

/// A list without repetitions falls into a front and a back that share no page.
pub proof fn lemma_divide(list: Seq<VmPagePtr>, count: int)
    requires
        list.no_duplicates(),
        0 <= count <= list.len(),
    ensures
        list.take(count).no_duplicates(),
        list.skip(count).no_duplicates(),
        forall|p: VmPagePtr| #[trigger]
            list.take(count).contains(p) ==> list.contains(p) && !list.skip(count).contains(p),
        forall|p: VmPagePtr| #[trigger]
            list.skip(count).contains(p) ==> list.contains(p) && !list.take(count).contains(p),
        forall|p: VmPagePtr| #[trigger]
            list.contains(p) ==> list.take(count).contains(p) || list.skip(count).contains(p),
{
    let front = list.take(count);
    let back = list.skip(count);
    assert forall|p: VmPagePtr| #[trigger] front.contains(p) implies list.contains(p)
        && !back.contains(p) by {
        let i = choose|i: int| 0 <= i < front.len() && front[i] == p;
        assert(list[i] == p);
        if back.contains(p) {
            let j = choose|j: int| 0 <= j < back.len() && back[j] == p;
            assert(list[j + count] == p);
        }
    }
    assert forall|p: VmPagePtr| #[trigger] back.contains(p) implies list.contains(p)
        && !front.contains(p) by {
        let j = choose|j: int| 0 <= j < back.len() && back[j] == p;
        assert(list[j + count] == p);
    }
    assert forall|p: VmPagePtr| #[trigger] list.contains(p) implies front.contains(p)
        || back.contains(p) by {
        let i = choose|i: int| 0 <= i < list.len() && list[i] == p;
        if i < count {
            assert(front[i] == p);
        } else {
            assert(back[i - count] == p);
        }
    }
}

/// Two lists that share no page make one without repetitions.
pub proof fn lemma_unite(front: Seq<VmPagePtr>, back: Seq<VmPagePtr>)
    requires
        front.no_duplicates(),
        back.no_duplicates(),
        forall|p: VmPagePtr| #[trigger] front.contains(p) ==> !back.contains(p),
    ensures
        (front + back).no_duplicates(),
        forall|p: VmPagePtr| #[trigger]
            (front + back).contains(p) <==> front.contains(p) || back.contains(p),
{
    let all = front + back;
    assert forall|p: VmPagePtr| #[trigger] all.contains(p) <==> front.contains(p) || back.contains(
        p,
    ) by {
        if all.contains(p) {
            let i = choose|i: int| 0 <= i < all.len() && all[i] == p;
            if i < front.len() {
                assert(front[i] == p);
            } else {
                assert(back[i - front.len()] == p);
            }
        }
        if front.contains(p) {
            let i = choose|i: int| 0 <= i < front.len() && front[i] == p;
            assert(all[i] == p);
        }
        if back.contains(p) {
            let i = choose|i: int| 0 <= i < back.len() && back[i] == p;
            assert(all[i + front.len()] == p);
        }
    }
    assert forall|i: int, j: int| 0 <= i < all.len() && 0 <= j < all.len() && i != j implies all[i]
        != all[j] by {
        if i < front.len() && j >= front.len() {
            assert(front.contains(front[i]));
            assert(back.contains(back[j - front.len()]));
        }
        if j < front.len() && i >= front.len() {
            assert(front.contains(front[j]));
            assert(back.contains(back[i - front.len()]));
        }
    }
}

/// A finite set of pages has no more pages than there are page addresses below the last.
pub proof fn lemma_page_bound(pages: Set<VmPagePtr>)
    requires
        pages.finite(),
        forall|p: VmPagePtr| #[trigger] pages.contains(p) ==> p.paddr % PAGE_SIZE == 0
            && p.paddr + 4096 <= u64::MAX,
    ensures
        pages.len() <= 0xf_ffff_ffff_ffff,
{
    let frame = |p: VmPagePtr| (p.paddr / 4096) as int;
    let frames = pages.map(frame);
    let all = vstd::set_lib::set_int_range(0, 0xf_ffff_ffff_ffff);
    vstd::set_lib::lemma_int_range(0, 0xf_ffff_ffff_ffff);
    assert forall|p: VmPagePtr, q: VmPagePtr|
        pages.contains(p) && pages.contains(q) && #[trigger] frame(p) == #[trigger] frame(
            q,
        ) implies p == q by {
        assert(p.paddr == 4096 * (p.paddr / 4096));
        assert(q.paddr == 4096 * (q.paddr / 4096));
    }
    assert(frames.subset_of(all));
    vstd::set_lib::lemma_map_size(pages, frames, frame);
    vstd::set_lib::lemma_len_subset(frames, all);
}

} // verus!
