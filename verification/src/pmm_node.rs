//! The physical memory manager: the pages of the arenas, the free list, and the allocation of
//! pages from it.

use vstd::prelude::*;

use crate::free_memory::{FreeMemoryThrottle, Throttle, ShouldWaitState};
use crate::page::{round_down, PAGE_SIZE, SHIFT};
use crate::pmm_arena::{PmmArena, PmmArenaInfo};
use crate::pmm_model::{
    after_passing, alloc_page_result, alloc_page_state, arenas_ok, changed, in_arena, in_arenas,
    nth_page, page_run, record_ok, total_bytes, AllocFailure, AllocFailureType, CheckFailAction,
    PmmChecker, PmmOptDelayReuse, PmmState, ARENA_COUNT,
};
use crate::status::Status;
use crate::vm_page::{lemma_erase, VmPage, VmPageDoublyLinkedList, VmPagePtr, VmPageState};

verus! {

/// No restrictions on which arena to allocate from.
pub const ALLOC_FLAG_ANY: u32 = 0;

/// The caller is able to wait and retry the allocation, so it may be told `SHOULD_WAIT` rather
/// than `NO_MEMORY`.
pub const ALLOC_FLAG_CAN_WAIT: u32 = 1;

/// The allocation may be told to wait.
pub open spec fn can_wait(alloc_flags: u32) -> bool {
    alloc_flags & ALLOC_FLAG_CAN_WAIT != 0
}

/// The alignment of a run of pages for which this one is asked for: pages are aligned anyway.
pub open spec fn run_alignment(alignment_log2: u8) -> nat {
    if alignment_log2 < SHIFT {
        SHIFT as nat
    } else {
        alignment_log2 as nat
    }
}

/// The number that stands for page `page` of arena `arena`. Its lowest three bits are zero, and it
/// is never zero itself.
pub open spec fn encode_index(arena: int, page: int) -> int {
    ((page + 1) * 16 + arena) * 8
}

/// The arena that a page number speaks of.
pub open spec fn index_arena(index: u32) -> int {
    index as int / 8 % 16
}

/// The position in its arena of the page that a page number speaks of.
pub open spec fn index_page(index: u32) -> int {
    index as int / 128 - 1
}

/// `index` is the number of a page of the arenas.
pub open spec fn valid_index(arenas: Seq<PmmArenaInfo>, index: u32) -> bool {
    &&& index_arena(index) < arenas.len()
    &&& 0 <= index_page(index) < arenas[index_arena(index)].count()
}

/// The page with this number.
pub open spec fn indexed_page(arenas: Seq<PmmArenaInfo>, index: u32) -> VmPagePtr {
    arenas[index_arena(index)].page(index_page(index))
}

/// The arena that `page` belongs to.
pub open spec fn arena_of(arenas: Seq<PmmArenaInfo>, page: VmPagePtr) -> int {
    choose|i: int| in_arena(arenas, i, page)
}

/// The number of `page`, or zero where it belongs to no arena.
pub open spec fn page_index(arenas: Seq<PmmArenaInfo>, page: VmPagePtr) -> int {
    let i = arena_of(arenas, page);
    if in_arenas(arenas, page) {
        encode_index(i, arenas[i].index(page.paddr as int))
    } else {
        0
    }
}

/// The page that holds `address`.
pub open spec fn page_at(address: u64) -> VmPagePtr {
    VmPagePtr { paddr: (address - address % PAGE_SIZE) as u64 }
}

/// A page belongs to one arena only.
pub proof fn lemma_one_arena(arenas: Seq<PmmArenaInfo>, i: int, page: VmPagePtr)
    requires
        arenas_ok(arenas),
        in_arena(arenas, i, page),
    ensures
        in_arenas(arenas, page),
        arena_of(arenas, page) == i,
{
    let j = arena_of(arenas, page);
    assert(in_arena(arenas, j, page));
    if i < j {
        assert(arenas[i].end() <= arenas[j].base);
    }
    if j < i {
        assert(arenas[j].end() <= arenas[i].base);
    }
}

/// How the parts of a page number are taken out of its bits.
proof fn lemma_index_bits(index: u32)
    ensures
        (index >> PmmNode::INDEX_ZERO_BITS) & PmmNode::ARENA_MASK == index / 8 % 16,
        (index >> PmmNode::INDEX_ZERO_BITS) >> PmmNode::ARENA_BITS == index / 128,
{
    assert((index >> 3i32) & 15 == index / 8 % 16 && (index >> 3i32) >> 4i32 == index / 128)
        by (bit_vector);
}

/// How the bits of a page number are put together.
proof fn lemma_bits_index(upper: u32, lower: u32)
    requires
        lower < 16,
        (upper * 16 + lower) * 8 <= u32::MAX,
    ensures
        ((upper << PmmNode::ARENA_BITS) | lower) << PmmNode::INDEX_ZERO_BITS == (upper * 16 + lower)
            * 8,
{
    assert(((upper << 4i32) | lower) << 3i32 == (upper * 16 + lower) * 8) by (bit_vector)
        requires
            (upper * 16 + lower) * 8 <= 0xffff_ffff,
            lower < 16,
    ;
}

/// A page can be found again from its number.
pub proof fn lemma_index_round_trip(arenas: Seq<PmmArenaInfo>, page: VmPagePtr)
    requires
        arenas_ok(arenas),
        in_arenas(arenas, page),
    ensures
        0 < page_index(arenas, page) <= u32::MAX,
        page_index(arenas, page) % 8 == 0,
        valid_index(arenas, page_index(arenas, page) as u32),
        indexed_page(arenas, page_index(arenas, page) as u32) == page,
{
    let i = arena_of(arenas, page);
    assert(in_arena(arenas, i, page));
    assert(arenas[i].wf());
    arenas[i].lemma_page(page);
    let k = arenas[i].index(page.paddr as int);
    let index = encode_index(i, k);
    assert(index / 8 == (k + 1) * 16 + i);
    assert(index / 8 % 16 == i);
    assert(index / 128 == k + 1);
}

/// A number with no bits in its lowest places is the number of the page it leads to.
pub proof fn lemma_page_round_trip(arenas: Seq<PmmArenaInfo>, index: u32)
    requires
        arenas_ok(arenas),
        valid_index(arenas, index),
        index % 8 == 0,
    ensures
        in_arenas(arenas, indexed_page(arenas, index)),
        page_index(arenas, indexed_page(arenas, index)) == index,
{
    let i = index_arena(index);
    let k = index_page(index);
    let page = indexed_page(arenas, index);
    assert(arenas[i].wf());
    arenas[i].lemma_index(k);
    lemma_one_arena(arenas, i, page);
}

/// What one more changed page does to the records.
proof fn lemma_changed_step(
    pages: Map<VmPagePtr, VmPage>,
    list: Seq<VmPagePtr>,
    i: int,
    change: spec_fn(VmPage) -> VmPage,
)
    requires
        list.no_duplicates(),
        0 <= i < list.len(),
        pages.contains_key(list[i]),
    ensures
        changed(pages, list.take(i), change)[list[i]] == pages[list[i]],
        changed(pages, list.take(i + 1), change) == changed(pages, list.take(i), change).insert(
            list[i],
            change(pages[list[i]]),
        ),
{
    let before = list.take(i);
    let after = list.take(i + 1);
    assert(after =~= before.push(list[i]));
    assert(!before.contains(list[i]));
    assert forall|p: VmPagePtr| #[trigger] after.contains(p) <==> before.contains(p) || p
        == list[i] by {
        if before.contains(p) {
            let j = choose|j: int| 0 <= j < before.len() && before[j] == p;
            assert(after[j] == p);
        }
        assert(after[i] == list[i]);
    }
    assert(changed(pages, after, change) =~= changed(pages, before, change).insert(
        list[i],
        change(pages[list[i]]),
    ));
}

/// Arenas in order fill no more memory than lies below the end of the last.
proof fn lemma_total_bytes(arenas: Seq<PmmArenaInfo>)
    requires
        arenas_ok(arenas),
    ensures
        arenas.len() == 0 ==> total_bytes(arenas) == 0,
        arenas.len() > 0 ==> 0 <= total_bytes(arenas) <= arenas.last().end(),
    decreases arenas.len(),
{
    if arenas.len() > 0 {
        let rest = arenas.drop_last();
        assert forall|i: int, j: int| 0 <= i < j < rest.len() implies (#[trigger] rest[i]).end() <= (
        #[trigger] rest[j]).base by {
            assert(arenas[i].end() <= arenas[j].base);
        }
        assert forall|i: int| 0 <= i < rest.len() implies (#[trigger] rest[i]).wf() by {
            assert(arenas[i].wf());
        }
        lemma_total_bytes(rest);
        if rest.len() > 0 {
            let n = arenas.len() as int;
            assert(arenas[n - 2].end() <= arenas[n - 1].base);
        }
    }
}

/// An arena has finitely many pages.
proof fn lemma_arena_pages(info: PmmArenaInfo)
    requires
        info.wf(),
    ensures
        Set::new(|p: VmPagePtr| info.has(p)).finite(),
{
    let pages = Set::new(|p: VmPagePtr| info.has(p));
    let indices = vstd::set_lib::set_int_range(0, info.count());
    vstd::set_lib::lemma_int_range(0, info.count());
    let page = |i: int| info.page(i);
    assert(pages =~= indices.map(page)) by {
        assert forall|p: VmPagePtr| pages.contains(p) implies indices.map(page).contains(p) by {
            info.lemma_page(p);
            let i = info.index(p.paddr as int);
            assert(indices.contains(i) && page(i) == p);
        }
        assert forall|p: VmPagePtr| indices.map(page).contains(p) implies pages.contains(p) by {
            let i = choose|i: int| indices.contains(i) && page(i) == p;
            info.lemma_index(i);
        }
    }
    indices.lemma_map_finite(page);
}

/// Per-node collection of physical memory arenas and bookkeeping.
pub struct PmmNode {
    arenas: Vec<PmmArena>,
    arena_cumulative_size: u64,
    free_list: VmPageDoublyLinkedList,
    free_loaned_list: VmPageDoublyLinkedList,
    phys_handoff_temporary_list: VmPageDoublyLinkedList,
    phys_handoff_vmo_list: VmPageDoublyLinkedList,
    loaned_count: u64,
    loan_cancelled_count: u64,
    throttle: FreeMemoryThrottle,
    alloc_failed_no_mem: bool,
    first_alloc_failure: AllocFailure,
    alloc_failed_count: i64,
    free_fill_enabled: bool,
    all_free_pages_filled: bool,
    checker: PmmChecker,
    page_compression: Option<u64>,
}

impl View for PmmNode {
    type V = PmmState;

    closed spec fn view(&self) -> PmmState {
        PmmState {
            arenas: self.infos(),
            pages: self.records(),
            free: self.free_list@,
            free_loaned: self.free_loaned_list@,
            handoff_temporary: self.phys_handoff_temporary_list@,
            handoff_vmo: self.phys_handoff_vmo_list@,
            loaned_count: self.loaned_count as int,
            loan_cancelled_count: self.loan_cancelled_count as int,
            throttle: self.throttle@,
            alloc_failed: self.alloc_failed_no_mem,
            first_alloc_failure: self.first_alloc_failure,
            alloc_failed_count: self.alloc_failed_count,
            free_fill_enabled: self.free_fill_enabled,
            all_free_pages_filled: self.all_free_pages_filled,
            checker: self.checker,
            page_compression: self.page_compression,
        }
    }
}

impl PmmNode {
    closed spec fn infos(self) -> Seq<PmmArenaInfo> {
        Seq::new(self.arenas@.len(), |i: int| self.arenas@[i].spec_info())
    }

    closed spec fn records(self) -> Map<VmPagePtr, VmPage> {
        Map::new(
            |p: VmPagePtr| in_arenas(self.infos(), p),
            |p: VmPagePtr| self.arenas@[arena_of(self.infos(), p)].record_of(p),
        )
    }

    /// The arenas are in order.
    pub closed spec fn shape(self) -> bool {
        &&& arenas_ok(self.infos())
        &&& forall|i: int| 0 <= i < self.arenas@.len() ==> (#[trigger] self.arenas@[i]).wf()
        &&& self.arena_cumulative_size == total_bytes(self.infos())
    }

    pub open spec fn wf(self) -> bool {
        self.shape() && self@.wf()
    }

    /// The number of zero bits at the bottom of a page number, which clients can use. Above them
    /// lie the bits for the arena, and above those the bits for the page within the arena.
    pub const INDEX_ZERO_BITS: i32 = 3;

    const ARENA_BITS: i32 = 4;

    const ARENA_MASK: u32 = 15;

    /// A node without any memory.
    pub fn init() -> (node: PmmNode)
        ensures
            node.wf(),
            node@.settled(),
            node@.arenas.len() == 0,
            node@.free.len() == 0,
            node@.free_loaned.len() == 0,
            node@.handoff_temporary.len() == 0,
            node@.handoff_vmo.len() == 0,
            node@.throttle == Throttle::initial(),
            !node@.alloc_failed,
            node@.first_alloc_failure == AllocFailure::none(),
            node@.alloc_failed_count == 0,
            !node@.free_fill_enabled,
            !node@.all_free_pages_filled,
            node@.checker == (PmmChecker {
                fill_size: 0,
                action: CheckFailAction::Oops,
                armed: false,
            }),
            node@.page_compression is None,
    {
        let node = PmmNode {
            arenas: Vec::new(),
            arena_cumulative_size: 0,
            free_list: VmPageDoublyLinkedList::new(),
            free_loaned_list: VmPageDoublyLinkedList::new(),
            phys_handoff_temporary_list: VmPageDoublyLinkedList::new(),
            phys_handoff_vmo_list: VmPageDoublyLinkedList::new(),
            loaned_count: 0,
            loan_cancelled_count: 0,
            throttle: FreeMemoryThrottle::new(),
            alloc_failed_no_mem: false,
            first_alloc_failure: AllocFailure::default(),
            alloc_failed_count: 0,
            free_fill_enabled: false,
            all_free_pages_filled: false,
            checker: PmmChecker { fill_size: 0, action: CheckFailAction::Oops, armed: false },
            page_compression: None,
        };
        proof {
            assert(node@.pages.dom() =~= Set::empty());
            assert(crate::pmm_model::loaned_pages(node@.pages) =~= Set::empty());
            assert(crate::pmm_model::cancelled_pages(node@.pages) =~= Set::empty());
        }
        node
    }

    /// The position of the arena that `page` belongs to.
    fn find_arena(&self, page: VmPagePtr) -> (arena: Option<usize>)
        requires
            self.shape(),
        ensures
            match arena {
                Some(i) => in_arena(self@.arenas, i as int, page) && i < self.arenas@.len()
                    && arena_of(self@.arenas, page) == i && self@.pages.contains_key(page),
                None => !in_arenas(self@.arenas, page) && !self@.pages.contains_key(page),
            },
    {
        let mut i: usize = 0;
        while i < self.arenas.len()
            invariant
                self.shape(),
                i <= self.arenas@.len(),
                forall|j: int| 0 <= j < i ==> !#[trigger] in_arena(self@.arenas, j, page),
            decreases self.arenas@.len() - i,
        {
            if self.arenas[i].page_belongs_to_arena(page) {
                assert(in_arena(self@.arenas, i as int, page));
                proof {
                    lemma_one_arena(self@.arenas, i as int, page);
                }
                return Some(i);
            }
            assert(!in_arena(self@.arenas, i as int, page));
            i = i + 1;
        }
        assert(self@.arenas.len() == self.arenas@.len());
        assert(!in_arenas(self@.arenas, page));
        None
    }

    /// What is recorded about `page`.
    pub fn page(&self, page: VmPagePtr) -> (record: VmPage)
        requires
            self.shape(),
            self@.pages.contains_key(page),
        ensures
            record == self@.pages[page],
    {
        match self.find_arena(page) {
            Some(i) => self.arenas[i].record(page),
            None => VmPage::new(),
        }
    }

    /// Whether `page` is a page of this node.
    pub fn has_page(&self, page: VmPagePtr) -> (has: bool)
        requires
            self.shape(),
        ensures
            has == self@.pages.contains_key(page),
    {
        self.find_arena(page).is_some()
    }

    fn set_record(&mut self, page: VmPagePtr, record: VmPage)
        requires
            old(self).shape(),
            old(self)@.pages.contains_key(page),
        ensures
            final(self).shape(),
            final(self)@ == old(self)@.with_record(page, record),
    {
        if let Some(i) = self.find_arena(page) {
            let arena = &mut self.arenas[i];
            arena.set_record(page, record);
            proof {
                assert(self.infos() =~= old(self).infos());
                assert forall|p: VmPagePtr| in_arenas(self.infos(), p) implies #[trigger] self.records()[p]
                    == old(self).records().insert(page, record)[p] by {
                    let j = arena_of(self.infos(), p);
                    assert(in_arena(self.infos(), j, p));
                    self.infos()[j].lemma_page(p);
                    if j == i {
                        self.infos()[j].lemma_page(page);
                    }
                }
                assert(self.records() =~= old(self).records().insert(page, record));
            }
        }
    }

    /// The node is the same as before, but for the records of pages, which are as `pages` says.
    spec fn only_records(before: PmmState, pages: Map<VmPagePtr, VmPage>) -> PmmState {
        PmmState { pages, ..before }
    }

    /// Hands out every page of `list`.
    fn alloc_page_helper(&mut self, list: &VmPageDoublyLinkedList)
        requires
            old(self).shape(),
            list@.no_duplicates(),
            forall|p: VmPagePtr| #[trigger] list@.contains(p) ==> old(self)@.pages.contains_key(p),
        ensures
            final(self).shape(),
            final(self)@ == PmmNode::only_records(
                old(self)@,
                changed(old(self)@.pages, list@, |r: VmPage| r.allocated()),
            ),
    {
        let ghost before = self@;
        let ghost change = |r: VmPage| r.allocated();
        let mut i: usize = 0;
        assert(changed(before.pages, list@.take(0), change) =~= before.pages);
        while i < list.len()
            invariant
                self.shape(),
                i <= list@.len(),
                list@.no_duplicates(),
                forall|p: VmPagePtr| #[trigger] list@.contains(p) ==> before.pages.contains_key(p),
                change == |r: VmPage| r.allocated(),
                self@ == PmmNode::only_records(
                    before,
                    changed(before.pages, list@.take(i as int), change),
                ),
            decreases list@.len() - i,
        {
            let page = list.get(i);
            assert(list@.contains(page));
            proof {
                lemma_changed_step(before.pages, list@, i as int, change);
            }
            let record = self.page(page);
            self.set_record(page, VmPage { state: VmPageState::ALLOC, owner: None, ..record });
            i = i + 1;
        }
        assert(list@.take(i as int) =~= list@);
    }

    /// Marks every page of `list` free.
    fn free_page_helper(&mut self, list: &VmPageDoublyLinkedList)
        requires
            old(self).shape(),
            list@.no_duplicates(),
            forall|p: VmPagePtr| #[trigger] list@.contains(p) ==> old(self)@.pages.contains_key(p),
        ensures
            final(self).shape(),
            final(self)@ == PmmNode::only_records(
                old(self)@,
                changed(
                    old(self)@.pages,
                    list@,
                    |r: VmPage| r.freed(old(self)@.free_fill_enabled),
                ),
            ),
    {
        let ghost before = self@;
        let filled = self.free_fill_enabled;
        let ghost change = |r: VmPage| r.freed(before.free_fill_enabled);
        let mut i: usize = 0;
        assert(changed(before.pages, list@.take(0), change) =~= before.pages);
        while i < list.len()
            invariant
                self.shape(),
                i <= list@.len(),
                list@.no_duplicates(),
                filled == before.free_fill_enabled,
                forall|p: VmPagePtr| #[trigger] list@.contains(p) ==> before.pages.contains_key(p),
                change == |r: VmPage| r.freed(before.free_fill_enabled),
                self@ == PmmNode::only_records(
                    before,
                    changed(before.pages, list@.take(i as int), change),
                ),
            decreases list@.len() - i,
        {
            let page = list.get(i);
            assert(list@.contains(page));
            proof {
                lemma_changed_step(before.pages, list@, i as int, change);
            }
            let record = self.page(page);
            self.set_record(page, VmPage { state: VmPageState::FREE, filled, ..record });
            i = i + 1;
        }
        assert(list@.take(i as int) =~= list@);
    }

    /// Allocates a single physical page from this node.
    pub fn alloc_page(&mut self, alloc_flags: u32) -> (page: Result<VmPagePtr, Status>)
        requires
            old(self).wf(),
        ensures
            final(self).wf(),
            old(self)@.settled() ==> final(self)@.settled(),
            page == alloc_page_result(old(self)@, can_wait(alloc_flags)),
            final(self)@ == alloc_page_state(old(self)@, can_wait(alloc_flags)),
    {
        if (alloc_flags & ALLOC_FLAG_CAN_WAIT) != 0 && self.throttle.should_delay_allocation() {
            return Err(Status::SHOULD_WAIT);
        }
        let mut taken = VmPageDoublyLinkedList::new();
        let page = match self.free_list.pop_front() {
            Some(page) => page,
            None => {
                // Allocation failures from the regular free list are likely to become
                // user-visible.
                self.report_alloc_failure(
                    AllocFailure { failure_type: AllocFailureType::Pmm, size: 1, free_count: 0 },
                );
                return Err(Status::NO_MEMORY);
            },
        };
        taken.push_back(page);
        proof {
            let free = old(self)@.free;
            assert(free.contains(free[0]));
            assert(taken@ =~= free.take(1));
            assert(self.free_list@ =~= free.skip(1));
            crate::pmm_model::lemma_divide(free, 1);
            old(self)@.lemma_take_front(1);
        }
        self.alloc_page_helper(&taken);
        let left: u64 = self.free_list.len() as u64;
        self.throttle.count_fell(left);
        assert(self@ =~= old(self)@.take_front(1));
        Ok(page)
    }

    /// This method should be called when the node fails to allocate in a user-visible way and
    /// will trigger the response to running out of memory.
    pub fn report_alloc_failure(&mut self, failure: AllocFailure)
        requires
            old(self).wf(),
        ensures
            final(self).wf(),
            old(self)@.settled() ==> final(self)@.settled(),
            final(self)@ == old(self)@.fail(failure),
    {
        self.alloc_failed_count = self.alloc_failed_count.wrapping_add(1);
        if !self.alloc_failed_no_mem {
            self.alloc_failed_no_mem = true;
            let mut first = failure;
            // Record the free count only for other types: for this node's own failures it is
            // known exactly, since it decided that the allocation had to fail.
            if failure.failure_type != AllocFailureType::Pmm {
                first.free_count = self.free_list.len() as u64;
            }
            self.first_alloc_failure = first;
            self.throttle.signal_free_memory_change();
        }
        assert(self@ =~= old(self)@.fail(failure));
    }

    /// Allocates `count` physical pages, adding them to the tail of `list`.
    pub fn alloc_pages(
        &mut self,
        count: usize,
        alloc_flags: u32,
        list: &mut VmPageDoublyLinkedList,
    ) -> (result: Result<(), Status>)
        requires
            old(self).wf(),
        ensures
            final(self).wf(),
            old(self)@.settled() ==> final(self)@.settled(),
            alloc_pages_outcome(old(self)@, count as int, alloc_flags, result, final(self)@),
            result is Ok ==> final(list)@ == old(list)@ + old(self)@.free.take(count as int),
            result is Err ==> final(list)@ == old(list)@,
    {
        if count == 0 {
            assert(old(list)@ + old(self)@.free.take(0) =~= old(list)@);
            return Ok(());
        } else if count == 1 {
            match self.alloc_page(alloc_flags) {
                Ok(page) => {
                    list.push_back(page);
                    assert(list@ =~= old(list)@ + old(self)@.free.take(1));
                    return Ok(());
                },
                Err(status) => {
                    return Err(status);
                },
            }
        }
        let free_count: usize = self.free_list.len();
        if count > free_count {
            if (alloc_flags & ALLOC_FLAG_CAN_WAIT) != 0 && self.throttle.should_wait()
                != ShouldWaitState::Never {
                return Err(Status::SHOULD_WAIT);
            }
            self.report_alloc_failure(
                AllocFailure {
                    failure_type: AllocFailureType::Pmm,
                    size: count,
                    free_count: free_count as u64,
                },
            );
            return Err(Status::NO_MEMORY);
        }
        self.throttle.count_fell((free_count - count) as u64);
        if (alloc_flags & ALLOC_FLAG_CAN_WAIT) != 0 && self.throttle.should_delay_allocation() {
            self.throttle.count_rose(free_count as u64);
            return Err(Status::SHOULD_WAIT);
        }
        let mut taken = self.free_list.split_front(count);
        proof {
            crate::pmm_model::lemma_divide(old(self)@.free, count as int);
            old(self)@.lemma_take_front(count as int);
        }
        self.alloc_page_helper(&taken);
        assert(self@ =~= old(self)@.take_front(count as int));
        list.splice_back(&mut taken);
        Ok(())
    }

    /// How many pages from `page` on can be allocated, `count` at most.
    #[verifier::rlimit(40)]
    fn free_run_length(&self, page: VmPagePtr, count: usize) -> (length: usize)
        requires
            self.wf(),
        ensures
            length == self@.free_run_length(page, count as nat),
            length <= count,
            page.paddr + length * 4096 <= u64::MAX,
            forall|j: int| 0 <= j < length ==> self@.allocatable(#[trigger] nth_page(page, j)),
    {
        let mut length: usize = 0;
        let mut next = page;
        assert(nth_page(page, 0) == page);
        while length < count
            invariant
                self.wf(),
                length <= count,
                page.paddr + length * 4096 == next.paddr,
                self@.free_run_length(page, count as nat) == length + self@.free_run_length(
                    next,
                    (count - length) as nat,
                ),
                forall|j: int| 0 <= j < length ==> self@.allocatable(#[trigger] nth_page(page, j)),
            decreases count - length,
        {
            if !self.has_page(next) {
                return length;
            }
            let record = self.page(next);
            if !record.is_free() || record.is_loaned() {
                return length;
            }
            proof {
                let i = arena_of(self@.arenas, next);
                assert(in_arenas(self@.arenas, next));
                assert(in_arena(self@.arenas, i, next));
                assert(self@.arenas[i].wf());
                assert(next.paddr + 4096 <= self@.arenas[i].end());
                assert(nth_page(page, length as int) == next);
                assert(nth_page(next, 1).paddr == next.paddr + 4096);
            }
            next = VmPagePtr { paddr: next.paddr + PAGE_SIZE };
            length = length + 1;
        }
        length
    }

    /// Allocates the `count` pages from `page` on and adds them to the tail of `list`.
    fn take_run(&mut self, page: VmPagePtr, count: usize, list: &mut VmPageDoublyLinkedList)
        requires
            old(self).wf(),
            old(self)@.settled(),
            page.paddr + count * 4096 <= u64::MAX,
            forall|j: int| 0 <= j < count ==> old(self)@.allocatable(#[trigger] nth_page(page, j)),
        ensures
            final(self).wf(),
            final(self)@.settled(),
            final(self)@ == old(self)@.take_run(page, count as nat),
            final(self)@.can_free(page_run(page, count as int)),
            final(list)@ == old(list)@ + page_run(page, count as int),
    {
        let ghost before = self@;
        let ghost run = page_run(page, count as int);
        let ghost change = |r: VmPage| r.allocated();
        let mut taken: usize = 0;
        proof {
            assert(run.take(0) =~= Seq::empty());
            assert(changed(before.pages, run.take(0), change) =~= before.pages);
            assert(old(list)@ + run.take(0) =~= old(list)@);
            assert forall|i: int, j: int| 0 <= i < run.len() && 0 <= j < run.len() && i
                != j implies run[i] != run[j] by {
                assert(run[i].paddr == page.paddr + i * 4096);
                assert(run[j].paddr == page.paddr + j * 4096);
            }
        }
        while taken < count
            invariant
                self.wf(),
                self@.settled(),
                before.wf(),
                before.settled(),
                taken <= count,
                page.paddr + count * 4096 <= u64::MAX,
                run == page_run(page, count as int),
                run.no_duplicates(),
                change == |r: VmPage| r.allocated(),
                forall|j: int| 0 <= j < count ==> before.allocatable(#[trigger] nth_page(page, j)),
                self@ == before.take_run(page, taken as nat),
                self@.pages == changed(before.pages, run.take(taken as int), change),
                self@.handoff_temporary == before.handoff_temporary,
                self@.handoff_vmo == before.handoff_vmo,
                list@ == old(list)@ + run.take(taken as int),
            decreases count - taken,
        {
            let current = VmPagePtr { paddr: page.paddr + taken as u64 * PAGE_SIZE };
            assert(current == nth_page(page, taken as int));
            assert(run[taken as int] == current);
            proof {
                lemma_changed_step(before.pages, run, taken as int, change);
                assert(self@.pages[current] == before.pages[current]);
                assert(self@.free.contains(current));
                self@.lemma_take_page(current);
            }
            let ghost middle = self@;
            let record = self.page(current);
            self.free_list.erase(current);
            self.set_record(current, VmPage { state: VmPageState::ALLOC, owner: None, ..record });
            let left: u64 = self.free_list.len() as u64;
            proof {
                lemma_erase(middle.free, current);
            }
            self.throttle.count_fell(left);
            assert(self@ =~= middle.take_page(current));
            list.push_back(current);
            taken = taken + 1;
            assert(old(list)@ + run.take(taken as int) =~= (old(list)@ + run.take(
                taken - 1,
            )).push(current));
        }
        proof {
            assert(run.take(count as int) =~= run);
            assert forall|p: VmPagePtr| #[trigger] run.contains(p) implies self@.pages.contains_key(p)
                && self@.pages[p].releasable() && !self@.pages[p].loaned && self@.handed_off(p) by {
                let i = choose|i: int| 0 <= i < run.len() && run[i] == p;
                assert(before.allocatable(nth_page(page, i)));
            }
        }
    }

    /// Allocates physical pages in the specific address range.
    pub fn alloc_range(
        &mut self,
        address: u64,
        count: usize,
        list: &mut VmPageDoublyLinkedList,
    ) -> (result: Result<(), Status>)
        requires
            old(self).wf(),
            old(self)@.settled(),
            old(list)@.len() == 0,
        ensures
            final(self).wf(),
            final(self)@.settled(),
            ({
                let page = page_at(address);
                let length = old(self)@.free_run_length(page, count as nat);
                if length == count {
                    &&& result == Ok::<(), Status>(())
                    &&& final(self)@ == old(self)@.take_run(page, count as nat)
                    &&& final(list)@ == page_run(page, count as int)
                } else {
                    &&& result == Err::<(), Status>(Status::NOT_FOUND)
                    &&& final(self)@ == old(self)@.take_run(page, length).give_back(
                        page_run(page, length as int),
                        PmmOptDelayReuse::Default,
                    )
                    &&& final(list)@.len() == 0
                }
            }),
    {
        if count == 0 {
            assert(page_run(page_at(address), 0) =~= list@);
            return Ok(());
        }
        let page = VmPagePtr { paddr: round_down(address) };
        let length: usize = self.free_run_length(page, count);
        self.take_run(page, length, list);
        assert(list@ =~= page_run(page, length as int));
        if length < count {
            // The entire run could not be allocated, so free these pages. No need to request
            // delayed reuse, as they were allocated just now but never used.
            self.free_list(list, PmmOptDelayReuse::Default);
            return Err(Status::NOT_FOUND);
        }
        Ok(())
    }

    /// Frees every page on `list` back to this node.
    pub fn free_list(&mut self, list: &mut VmPageDoublyLinkedList, delay_reuse: PmmOptDelayReuse)
        requires
            old(self).wf(),
            old(self)@.can_free(old(list)@),
        ensures
            final(self).wf(),
            old(self)@.settled() ==> final(self)@.settled(),
            final(self)@ == old(self)@.give_back(old(list)@, delay_reuse),
            final(list)@.len() == 0,
    {
        proof {
            old(self)@.lemma_give_back(list@, delay_reuse);
        }
        self.free_page_helper(list);
        if delay_reuse == PmmOptDelayReuse::Yes {
            self.free_list.splice_back(list);
        } else {
            self.free_list.splice_front(list);
        }
        let count: u64 = self.free_list.len() as u64;
        self.throttle.count_rose(count);
        assert(self@ =~= old(self)@.give_back(old(list)@, delay_reuse));
    }

    /// Frees a single physical page back to this node.
    pub fn free_page(&mut self, page: VmPagePtr, delay_reuse: PmmOptDelayReuse)
        requires
            old(self).wf(),
            old(self)@.can_free(seq![page]),
        ensures
            final(self).wf(),
            old(self)@.settled() ==> final(self)@.settled(),
            final(self)@ == old(self)@.give_back(seq![page], delay_reuse),
    {
        let mut list = VmPageDoublyLinkedList::new();
        list.push_back(page);
        assert(list@ =~= seq![page]);
        self.free_list(&mut list, delay_reuse);
    }

    /// A run in an arena is a run of the node.
    proof fn lemma_run(&self, i: int, start: int, count: int, alignment_log2: nat)
        requires
            self.wf(),
            0 <= i < self.arenas@.len(),
            count > 0,
            0 <= start < self@.arenas[i].count(),
        ensures
            self.arenas@[i].run_at(start, count, alignment_log2) == self@.contiguous_in(
                i,
                self@.arenas[i].page(start),
                count,
                alignment_log2,
            ),
    {
        let info = self@.arenas[i];
        let arena = self.arenas@[i];
        assert(arena.wf());
        assert(info == arena.spec_info());
        info.lemma_index(start);
        let page = info.page(start);
        assert(in_arena(self@.arenas, i, page));
        if start + count <= info.count() {
            assert forall|j: int| 0 <= j < count implies self@.allocatable(
                #[trigger] nth_page(page, j),
            ) == arena.pages()[start + j].allocatable() by {
                info.lemma_index(start + j);
                let next = nth_page(page, j);
                assert(next == info.page(start + j));
                lemma_one_arena(self@.arenas, i, next);
                assert(self@.pages.contains_key(next));
            }
            if self@.contiguous_in(i, page, count, alignment_log2) {
                assert forall|k: int| start <= k < start + count implies (
                #[trigger] arena.pages()[k]).allocatable() by {
                    assert(self@.allocatable(nth_page(page, k - start)));
                }
            }
        }
    }

    /// Allocates a run of contiguous pages, aligned on the log2 byte boundary. Returns the base
    /// address of the run, which is the lowest there is, and appends its pages to the tail of
    /// `list`.
    pub fn alloc_contiguous(
        &mut self,
        count: usize,
        alloc_flags: u32,
        alignment_log2: u8,
        list: &mut VmPageDoublyLinkedList,
    ) -> (result: Result<u64, Status>)
        requires
            old(self).wf(),
            old(self)@.settled(),
            count > 0 ==> !can_wait(alloc_flags) && alignment_log2 < 64,
        ensures
            final(self).wf(),
            final(self)@.settled(),
            ({
                let log2 = run_alignment(alignment_log2);
                match result {
                    Ok(base) => {
                        let page = VmPagePtr { paddr: base };
                        &&& count > 0
                        &&& old(self)@.contiguous_run(page, count as int, log2)
                        &&& forall|lower: VmPagePtr|
                            lower.paddr < base ==> !#[trigger] old(self)@.contiguous_run(
                                lower,
                                count as int,
                                log2,
                            )
                        &&& final(self)@ == old(self)@.take_run(page, count as nat)
                        &&& final(list)@ == old(list)@ + page_run(page, count as int)
                    },
                    Err(status) => {
                        &&& status == if count == 0 {
                            Status::INVALID_ARGS
                        } else {
                            Status::NOT_FOUND
                        }
                        &&& count > 0 ==> forall|page: VmPagePtr|
                            !#[trigger] old(self)@.contiguous_run(page, count as int, log2)
                        &&& final(self)@ == old(self)@
                        &&& final(list)@ == old(list)@
                    },
                }
            }),
    {
        // Zero size contiguous allocations are refused because the physical address is owed on
        // success, and there is no sensible value to give.
        if count == 0 {
            return Err(Status::INVALID_ARGS);
        }
        let log2: u8 = if (alignment_log2 as u32) < SHIFT {
            SHIFT as u8
        } else {
            alignment_log2
        };
        let mut i: usize = 0;
        while i < self.arenas.len()
            invariant
                *self == *old(self),
                list@ == old(list)@,
                self.wf(),
                self@.settled(),
                count > 0,
                log2 < 64,
                log2 as nat == run_alignment(alignment_log2),
                i <= self.arenas@.len(),
                forall|k: int, page: VmPagePtr|
                    0 <= k < i ==> !#[trigger] self@.contiguous_in(
                        k,
                        page,
                        count as int,
                        log2 as nat,
                    ),
            decreases self.arenas@.len() - i,
        {
            let ghost info = self@.arenas[i as int];
            match self.arenas[i].find_free_contiguous(count, log2) {
                Some(page) => {
                    proof {
                        info.lemma_page(page);
                        let start = info.index(page.paddr as int);
                        self.lemma_run(i as int, start, count as int, log2 as nat);
                        assert(self@.contiguous_in(i as int, page, count as int, log2 as nat));
                        assert forall|lower: VmPagePtr| lower.paddr < page.paddr implies
                            !#[trigger] self@.contiguous_run(lower, count as int, log2 as nat) by {
                            if self@.contiguous_run(lower, count as int, log2 as nat) {
                                let k = choose|k: int|
                                    self@.contiguous_in(k, lower, count as int, log2 as nat);
                                assert(in_arena(self@.arenas, k, lower));
                                if k > i {
                                    assert(self@.arenas[i as int].end() <= self@.arenas[k].base);
                                }
                                assert(k == i);
                                info.lemma_page(lower);
                                let below = info.index(lower.paddr as int);
                                self.lemma_run(k, below, count as int, log2 as nat);
                                assert(below < start);
                            }
                        }
                        assert(nth_page(page, 0) == page);
                    }
                    self.take_run(page, count, list);
                    return Ok(page.paddr);
                },
                None => {
                    proof {
                        assert forall|k: int, page: VmPagePtr| 0 <= k < i + 1 implies
                            !#[trigger] self@.contiguous_in(k, page, count as int, log2 as nat) by {
                            if k == i && in_arena(self@.arenas, k, page) {
                                info.lemma_page(page);
                                self.lemma_run(
                                    k,
                                    info.index(page.paddr as int),
                                    count as int,
                                    log2 as nat,
                                );
                            }
                        }
                    }
                },
            }
            i = i + 1;
        }
        Err(Status::NOT_FOUND)
    }

    /// Brings an arena online, behind those that are there. Its pages are free, but on no list
    /// until they are added to it.
    pub fn add_arena(&mut self, info: PmmArenaInfo)
        requires
            old(self).wf(),
            info.wf(),
            old(self)@.arenas.len() < ARENA_COUNT,
            old(self)@.arenas.len() > 0 ==> old(self)@.arenas.last().end() <= info.base,
        ensures
            final(self).wf(),
            final(self)@.arenas == old(self)@.arenas.push(info),
            forall|p: VmPagePtr| #[trigger]
                final(self)@.pages.contains_key(p) <==> old(self)@.pages.contains_key(p)
                    || info.has(p),
            forall|p: VmPagePtr|
                #![trigger final(self)@.pages[p]]
                old(self)@.pages.contains_key(p) ==> final(self)@.pages[p] == old(self)@.pages[p],
            forall|p: VmPagePtr|
                #![trigger final(self)@.pages[p]]
                info.has(p) ==> final(self)@.pages[p] == VmPage::fresh(),
            final(self)@ == (PmmState {
                arenas: final(self)@.arenas,
                pages: final(self)@.pages,
                ..old(self)@
            }),
    {
        let ghost before = self@;
        let arena = PmmArena::new(info);
        proof {
            lemma_total_bytes(before.arenas);
            if before.arenas.len() == 0 {
                assert(self.arena_cumulative_size == 0);
            }
        }
        self.arenas.push(arena);
        self.arena_cumulative_size = self.arena_cumulative_size + info.size;
        proof {
            let n = before.arenas.len() as int;
            let after = self@;
            assert(after.arenas =~= before.arenas.push(info));
            assert(after.arenas.drop_last() =~= before.arenas);
            assert forall|i: int, j: int| 0 <= i < j < after.arenas.len() implies (
            #[trigger] after.arenas[i]).end() <= (#[trigger] after.arenas[j]).base by {
                if j == n && i < n - 1 {
                    assert(before.arenas[i].end() <= before.arenas[n - 1].base);
                }
            }
            assert(arenas_ok(after.arenas));
            assert forall|p: VmPagePtr| #[trigger] in_arenas(after.arenas, p) <==> in_arenas(
                before.arenas,
                p,
            ) || info.has(p) by {
                if in_arenas(before.arenas, p) {
                    let i = arena_of(before.arenas, p);
                    assert(in_arena(before.arenas, i, p));
                    assert(in_arena(after.arenas, i, p));
                }
                if info.has(p) {
                    assert(in_arena(after.arenas, n, p));
                }
                if in_arenas(after.arenas, p) {
                    let i = arena_of(after.arenas, p);
                    assert(in_arena(after.arenas, i, p));
                    if i < n {
                        assert(in_arena(before.arenas, i, p));
                    }
                }
            }
            assert forall|p: VmPagePtr|
                #![trigger after.pages[p]]
                before.pages.contains_key(p) implies after.pages[p] == before.pages[p] by {
                assert(in_arenas(before.arenas, p));
                let i = arena_of(before.arenas, p);
                assert(in_arena(before.arenas, i, p));
                assert(in_arena(after.arenas, i, p));
                lemma_one_arena(after.arenas, i, p);
            }
            assert forall|p: VmPagePtr|
                #![trigger after.pages[p]]
                info.has(p) implies after.pages[p] == VmPage::fresh() by {
                assert(in_arena(after.arenas, n, p));
                lemma_one_arena(after.arenas, n, p);
                info.lemma_page(p);
            }
            lemma_arena_pages(info);
            let fresh = Set::new(|p: VmPagePtr| info.has(p));
            assert(after.pages.dom() =~= before.pages.dom() + fresh);
            assert(crate::pmm_model::loaned_pages(after.pages)
                =~= crate::pmm_model::loaned_pages(before.pages)) by {
                assert forall|p: VmPagePtr| crate::pmm_model::loaned_pages(after.pages).contains(p)
                    <==> crate::pmm_model::loaned_pages(before.pages).contains(p) by {
                    if info.has(p) {
                        assert(after.pages[p] == VmPage::fresh());
                    }
                    if before.pages.contains_key(p) {
                        assert(after.pages[p] == before.pages[p]);
                    }
                }
            }
            assert(crate::pmm_model::cancelled_pages(after.pages)
                =~= crate::pmm_model::cancelled_pages(before.pages)) by {
                assert forall|p: VmPagePtr|
                    crate::pmm_model::cancelled_pages(after.pages).contains(p)
                        <==> crate::pmm_model::cancelled_pages(before.pages).contains(p) by {
                    if info.has(p) {
                        assert(after.pages[p] == VmPage::fresh());
                    }
                    if before.pages.contains_key(p) {
                        assert(after.pages[p] == before.pages[p]);
                    }
                }
            }
            assert forall|p: VmPagePtr| #[trigger] after.pages.contains_key(p) implies in_arenas(
                after.arenas,
                p,
            ) && record_ok(after.pages[p]) by {
                if before.pages.contains_key(p) {
                    assert(after.pages[p] == before.pages[p]);
                } else {
                    assert(after.pages[p] == VmPage::fresh());
                }
            }
            assert forall|p: VmPagePtr| before.pages.contains_key(p) implies #[trigger] after.pages[p]
                == before.pages[p] by {}
            assert(after.free_ok());
            assert(after.free_loaned_ok());
            assert(after.handoff_ok());
        }
    }

    /// The page with the number `index`, which came from `page_to_index`.
    pub fn index_to_page(&self, index: u32) -> (page: VmPagePtr)
        requires
            self.wf(),
            valid_index(self@.arenas, index),
        ensures
            page == indexed_page(self@.arenas, index),
            self@.pages.contains_key(page),
    {
        let arena_ix: usize = ((index >> Self::INDEX_ZERO_BITS) & Self::ARENA_MASK) as usize;
        let page_ix: u64 = ((index >> Self::INDEX_ZERO_BITS) >> Self::ARENA_BITS) as u64;
        proof {
            lemma_index_bits(index);
        }
        let page = self.arenas[arena_ix].get_page(page_ix - 1);
        assert(in_arena(self@.arenas, arena_ix as int, page));
        page
    }

    /// The number of `page`. Its lowest bits are zero, so that clients can store metadata there,
    /// and it is zero itself only where the page belongs to no arena.
    pub fn page_to_index(&self, page: VmPagePtr) -> (index: u32)
        requires
            self.wf(),
        ensures
            index == page_index(self@.arenas, page),
            self@.pages.contains_key(page) <==> index != 0,
    {
        match self.find_arena(page) {
            Some(arena_ix) => {
                let page_ix: u64 = self.arenas[arena_ix].get_index(page);
                let upper: u32 = page_ix as u32 + 1;
                let lower: u32 = arena_ix as u32;
                proof {
                    lemma_bits_index(upper, lower);
                }
                ((upper << Self::ARENA_BITS) | lower) << Self::INDEX_ZERO_BITS
            },
            None => 0,
        }
    }

    /// The address of the page with the number `index`.
    pub fn index_to_paddr(&self, index: u32) -> (paddr: u64)
        requires
            self.wf(),
            valid_index(self@.arenas, index),
        ensures
            paddr == indexed_page(self@.arenas, index).paddr,
    {
        let arena_ix: usize = ((index >> Self::INDEX_ZERO_BITS) & Self::ARENA_MASK) as usize;
        let page_ix: u64 = ((index >> Self::INDEX_ZERO_BITS) >> Self::ARENA_BITS) as u64;
        proof {
            lemma_index_bits(index);
        }
        proof {
            let info = self@.arenas[arena_ix as int];
            assert(info.wf());
            info.lemma_index(page_ix - 1);
        }
        self.arenas[arena_ix].base() + (page_ix - 1) * PAGE_SIZE
    }

    /// The page that holds `address`, if it belongs to any arena.
    pub fn paddr_to_page(&self, address: u64) -> (page: Option<VmPagePtr>)
        requires
            self.wf(),
        ensures
            page == if self@.pages.contains_key(page_at(address)) {
                Some(page_at(address))
            } else {
                None
            },
    {
        let mut i: usize = 0;
        while i < self.arenas.len()
            invariant
                self.wf(),
                i <= self.arenas@.len(),
                forall|j: int| 0 <= j < i ==> !#[trigger] in_arena(self@.arenas, j, page_at(address)),
            decreases self.arenas@.len() - i,
        {
            let ghost info = self@.arenas[i as int];
            assert(info.wf());
            if let Some(page) = self.arenas[i].find_specific(address) {
                proof {
                    info.lemma_index(info.index(address as int));
                    assert(page == page_at(address));
                    assert(in_arena(self@.arenas, i as int, page));
                }
                return Some(page);
            }
            i = i + 1;
        }
        None
    }

    /// Returns the number of active arenas.
    pub fn num_arenas(&self) -> (count: usize)
        ensures
            count == self@.arenas.len(),
    {
        self.arenas.len()
    }

    /// Describes up to `count` arenas, ordered by base address, starting with the arena at
    /// `offset`.
    pub fn get_arena_info(&self, offset: usize, count: usize) -> (infos: Result<
        Vec<PmmArenaInfo>,
        Status,
    >)
        ensures
            match infos {
                Ok(infos) => {
                    &&& count > 0
                    &&& offset < self@.arenas.len()
                    &&& infos@ == self@.arenas.subrange(
                        offset as int,
                        if offset + count <= self@.arenas.len() {
                            offset + count
                        } else {
                            self@.arenas.len() as int
                        },
                    )
                },
                Err(status) => status == Status::OUT_OF_RANGE && (count == 0 || offset
                    >= self@.arenas.len()),
            },
    {
        if count == 0 || offset >= self.arenas.len() {
            return Err(Status::OUT_OF_RANGE);
        }
        let available: usize = self.arenas.len() - offset;
        let filled: usize = if available < count {
            available
        } else {
            count
        };
        let mut infos: Vec<PmmArenaInfo> = Vec::new();
        let mut i: usize = 0;
        while i < filled
            invariant
                i <= filled,
                offset + filled <= self.arenas.len(),
                infos@ == self@.arenas.subrange(offset as int, offset + i),
            decreases filled - i,
        {
            infos.push(self.arenas[offset + i].info());
            i = i + 1;
            assert(infos@ =~= self@.arenas.subrange(offset as int, offset + i));
        }
        Ok(infos)
    }

    /// Describes exactly `count` arenas from the one at `offset` on, for a caller whose buffer
    /// holds `capacity` of them.
    pub fn get_arena_info_exact(&self, count: usize, offset: u64, capacity: usize) -> (infos: Result<
        Vec<PmmArenaInfo>,
        Status,
    >)
        ensures
            match infos {
                Ok(infos) => {
                    &&& 0 < count <= capacity
                    &&& offset + count <= self@.arenas.len()
                    &&& infos@ == self@.arenas.subrange(offset as int, offset + count)
                },
                Err(status) => if count == 0 || offset + count > self@.arenas.len() {
                    status == Status::OUT_OF_RANGE
                } else {
                    status == Status::BUFFER_TOO_SMALL && capacity < count
                },
            },
    {
        let num_arenas: usize = self.arenas.len();
        if count == 0 || offset >= num_arenas as u64 || count > num_arenas - offset as usize {
            return Err(Status::OUT_OF_RANGE);
        }
        if capacity < count {
            return Err(Status::BUFFER_TOO_SMALL);
        }
        self.get_arena_info(offset as usize, count)
    }

    /// Return amount of physical memory in this node, in bytes.
    pub fn count_total_bytes(&self) -> (bytes: u64)
        requires
            self.wf(),
        ensures
            bytes == total_bytes(self@.arenas),
    {
        self.arena_cumulative_size
    }

    /// Return count of unallocated physical pages in this node.
    pub fn count_free_pages(&self) -> (count: u64)
        ensures
            count == self@.free.len(),
    {
        self.free_list.len() as u64
    }

    /// The unallocated memory in megabytes, rounded down.
    pub fn free_megabytes(&self) -> (megabytes: u64)
        requires
            self.wf(),
        ensures
            megabytes == self@.free.len() * 4096 / 0x10_0000,
    {
        proof {
            self@.lemma_bounds();
        }
        self.count_free_pages() * PAGE_SIZE / 0x10_0000
    }

    /// Return count of unallocated loaned physical pages in this node.
    pub fn count_loaned_free_pages(&self) -> (count: u64)
        ensures
            count == self@.free_loaned.len(),
    {
        self.free_loaned_list.len() as u64
    }

    /// Return count of pages which are presently loaned with the loan cancelled.
    pub fn count_loan_cancelled_pages(&self) -> (count: u64)
        ensures
            count == self@.loan_cancelled_count,
    {
        self.loan_cancelled_count
    }

    /// Return count of loaned pages that are not free.
    pub fn count_loaned_not_free_pages(&self) -> (count: u64)
        requires
            self.wf(),
        ensures
            count == self@.loaned_count - self@.free_loaned.len(),
    {
        proof {
            self@.lemma_bounds();
        }
        self.loaned_count - self.free_loaned_list.len() as u64
    }

    /// Return count of loaned pages in this node.
    pub fn count_loaned_pages(&self) -> (count: u64)
        ensures
            count == self@.loaned_count,
    {
        self.loaned_count
    }

    /// Add new pages to the free queue. Used when bringing an arena online.
    pub fn add_free_pages(&mut self, list: &mut VmPageDoublyLinkedList)
        requires
            old(self).wf(),
            old(list)@.no_duplicates(),
            forall|p: VmPagePtr| #[trigger]
                old(list)@.contains(p) ==> old(self)@.allocatable(p) && !old(self)@.free.contains(p)
                    && (old(self)@.all_free_pages_filled ==> old(self)@.pages[p].filled),
            old(self)@.free.len() + old(list)@.len() > 0,
        ensures
            final(self).wf(),
            old(self)@.settled() ==> final(self)@.settled(),
            final(self)@ == old(self)@.bring_online(old(list)@),
            final(list)@.len() == 0,
    {
        proof {
            old(self)@.lemma_bring_online(list@);
        }
        self.free_list.splice_back(list);
        self.throttle.signal_may_allocate();
        assert(self@ =~= old(self)@.bring_online(old(list)@));
    }

    /// The owner of `page` changes what is recorded about it. Whether it is on loan is not for the
    /// owner to change.
    pub fn update_page(&mut self, page: VmPagePtr, record: VmPage)
        requires
            old(self).wf(),
            old(self)@.pages.contains_key(page),
            !old(self)@.free.contains(page),
            !old(self)@.free_loaned.contains(page),
            old(self)@.handed_off(page),
            record_ok(record),
            record.loaned == old(self)@.pages[page].loaned,
            record.loan_cancelled == old(self)@.pages[page].loan_cancelled,
        ensures
            final(self).wf(),
            old(self)@.settled() && record.state != VmPageState::FREE && (record.state
                == VmPageState::FREE_LOANED ==> record.loan_cancelled) ==> final(self)@.settled(),
            final(self)@ == old(self)@.with_record(page, record),
    {
        proof {
            old(self)@.lemma_with_record(page, record);
        }
        self.set_record(page, record);
    }

    /// Takes over the pages that are in use during the hand-off: those to free when it ends, and
    /// the wired ones that are to become objects.
    pub fn begin_handoff(
        &mut self,
        temporary: &mut VmPageDoublyLinkedList,
        vmo: &mut VmPageDoublyLinkedList,
    )
        requires
            old(self).wf(),
            old(self)@.handoff_temporary.len() == 0,
            old(self)@.handoff_vmo.len() == 0,
            old(temporary)@.no_duplicates(),
            old(vmo)@.no_duplicates(),
            forall|p: VmPagePtr| #[trigger]
                old(temporary)@.contains(p) ==> old(self)@.pages.contains_key(p)
                    && old(self)@.pages[p].state == VmPageState::ALLOC
                    && !old(self)@.pages[p].loaned,
            forall|p: VmPagePtr| #[trigger]
                old(vmo)@.contains(p) ==> old(self)@.pages.contains_key(p)
                    && old(self)@.pages[p].state == VmPageState::WIRED
                    && !old(self)@.pages[p].loaned,
        ensures
            final(self).wf(),
            old(self)@.settled() ==> final(self)@.settled(),
            final(self)@ == (PmmState {
                handoff_temporary: old(temporary)@,
                handoff_vmo: old(vmo)@,
                ..old(self)@
            }),
            final(temporary)@.len() == 0,
            final(vmo)@.len() == 0,
    {
        self.phys_handoff_temporary_list.splice_back(temporary);
        self.phys_handoff_vmo_list.splice_back(vmo);
        assert(self@.handoff_temporary =~= old(temporary)@);
        assert(self@.handoff_vmo =~= old(vmo)@);
    }

    /// Ends the hand-off by freeing temporary allocations.
    pub fn end_handoff(&mut self)
        requires
            old(self).wf(),
        ensures
            final(self).wf(),
            old(self)@.settled() ==> final(self)@.settled(),
            final(self)@ == old(self)@.end_handoff(),
    {
        let mut list = VmPageDoublyLinkedList::new();
        list.splice_back(&mut self.phys_handoff_temporary_list);
        proof {
            assert(list@ =~= old(self)@.handoff_temporary);
            assert(self@ =~= PmmState { handoff_temporary: Seq::empty(), ..old(self)@ });
        }
        self.free_list(&mut list, PmmOptDelayReuse::Default);
    }

    /// Unwires a page that was previously in the `WIRED` state.
    pub fn unwire_page(&mut self, page: VmPagePtr)
        requires
            old(self).wf(),
            old(self)@.pages.contains_key(page),
            old(self)@.pages[page].state == VmPageState::WIRED,
        ensures
            final(self).wf(),
            old(self)@.settled() ==> final(self)@.settled(),
            final(self)@ == old(self)@.unwire(page),
    {
        proof {
            old(self)@.lemma_unwire(page);
        }
        if self.phys_handoff_vmo_list.contains(page) {
            self.phys_handoff_vmo_list.erase(page);
        } else {
            proof {
                old(self)@.handoff_vmo.index_of_first_ensures(page);
            }
        }
        let record = self.page(page);
        self.set_record(page, VmPage { state: VmPageState::ALLOC, ..record });
        assert(self@ =~= old(self)@.unwire(page));
    }

    /// Begins filling pages with a pattern as they are freed, loaned pages too. Pages freed before
    /// remain unfilled. Returns whether the checker was enabled: it is only once.
    pub fn enable_free_page_filling(&mut self, fill_size: usize, action: CheckFailAction) -> (
        enabled: bool)
        requires
            old(self).wf(),
        ensures
            final(self).wf(),
            old(self)@.settled() ==> final(self)@.settled(),
            enabled == !old(self)@.free_fill_enabled,
            final(self)@ == if enabled {
                (PmmState {
                    free_fill_enabled: true,
                    checker: PmmChecker { fill_size, action, ..old(self)@.checker },
                    ..old(self)@
                })
            } else {
                old(self)@
            },
    {
        if self.free_fill_enabled {
            return false;
        }
        self.checker.fill_size = fill_size;
        self.checker.action = action;
        self.free_fill_enabled = true;
        true
    }

    /// Fill all free pages, non-loaned and loaned, with the pattern, and arm the checker. Does
    /// nothing unless filling is enabled. Returns the pages that are to be filled, the free ones
    /// before the free loaned ones.
    pub fn fill_free_pages_and_arm(&mut self) -> (filled: Vec<VmPagePtr>)
        requires
            old(self).wf(),
        ensures
            final(self).wf(),
            old(self)@.settled() ==> final(self)@.settled(),
            filled@ == if old(self)@.free_fill_enabled {
                old(self)@.free + old(self)@.free_loaned
            } else {
                Seq::empty()
            },
            final(self)@ == if old(self)@.free_fill_enabled {
                old(self)@.fill_all()
            } else {
                old(self)@
            },
    {
        if !self.free_fill_enabled {
            return Vec::new();
        }
        let ghost before = self@;
        let mut free = self.free_list.to_vec();
        let mut loaned = self.free_loaned_list.to_vec();
        proof {
            before.lemma_fill_all();
        }
        self.fill_helper(&free);
        self.fill_helper(&loaned);
        self.checker.armed = true;
        self.all_free_pages_filled = true;
        proof {
            crate::pmm_model::lemma_unite(before.free, before.free_loaned);
            assert(self@.pages =~= before.fill_all().pages);
            assert(self@ =~= before.fill_all());
        }
        free.append(&mut loaned);
        free
    }

    /// Fills every page of `list` with the pattern.
    fn fill_helper(&mut self, list: &Vec<VmPagePtr>)
        requires
            old(self).shape(),
            list@.no_duplicates(),
            forall|p: VmPagePtr| #[trigger] list@.contains(p) ==> old(self)@.pages.contains_key(p),
        ensures
            final(self).shape(),
            final(self)@ == PmmNode::only_records(
                old(self)@,
                changed(old(self)@.pages, list@, |r: VmPage| r.with_pattern()),
            ),
    {
        let ghost before = self@;
        let ghost change = |r: VmPage| r.with_pattern();
        let mut i: usize = 0;
        assert(changed(before.pages, list@.take(0), change) =~= before.pages);
        while i < list.len()
            invariant
                self.shape(),
                i <= list@.len(),
                list@.no_duplicates(),
                forall|p: VmPagePtr| #[trigger] list@.contains(p) ==> before.pages.contains_key(p),
                change == |r: VmPage| r.with_pattern(),
                self@ == PmmNode::only_records(
                    before,
                    changed(before.pages, list@.take(i as int), change),
                ),
            decreases list@.len() - i,
        {
            let page = list[i];
            assert(list@.contains(page));
            proof {
                lemma_changed_step(before.pages, list@, i as int, change);
            }
            let record = self.page(page);
            self.set_record(page, VmPage { filled: true, ..record });
            i = i + 1;
        }
        assert(list@.take(i as int) =~= list@);
    }

    /// Walks the free list, and then the free loaned list, and returns all pages, in that order, of
    /// which `intact` says that they no longer hold the pattern. Nothing is checked before the
    /// checker is armed.
    pub fn check_all_free_pages<F: Fn(VmPagePtr) -> bool>(&self, intact: F) -> (broken: Vec<
        VmPagePtr,
    >)
        requires
            self.wf(),
            self@.checker.armed ==> accepts_pages(intact, self@.free + self@.free_loaned),
        ensures
            !self@.checker.armed ==> broken@.len() == 0,
            self@.checker.armed ==> exists|answers: Seq<bool>|
                #[trigger] checked(intact, self@.free + self@.free_loaned, answers) && broken@
                    == broken_pages(self@.free + self@.free_loaned, answers),
    {
        let mut broken: Vec<VmPagePtr> = Vec::new();
        if !self.checker.armed {
            return broken;
        }
        let ghost list = self@.free + self@.free_loaned;
        let ghost mut answers: Seq<bool> = Seq::empty();
        let mut i: usize = 0;
        assert(list.take(0) =~= Seq::empty());
        while i < self.free_list.len()
            invariant
                i <= self@.free.len(),
                list == self@.free + self@.free_loaned,
                accepts_pages(intact, list),
                checked(intact, list.take(i as int), answers),
                broken@ == broken_pages(list.take(i as int), answers),
            decreases self@.free.len() - i,
        {
            let page = self.free_list.get(i);
            assert(page == list[i as int]);
            let answer: bool = intact(page);
            proof {
                lemma_checked_push(intact, list, answers, i as int, answer);
                answers = answers.push(answer);
            }
            if !answer {
                broken.push(page);
            }
            i = i + 1;
        }
        let mut k: usize = 0;
        while k < self.free_loaned_list.len()
            invariant
                k <= self@.free_loaned.len(),
                list == self@.free + self@.free_loaned,
                accepts_pages(intact, list),
                checked(intact, list.take(self@.free.len() + k), answers),
                broken@ == broken_pages(list.take(self@.free.len() + k), answers),
            decreases self@.free_loaned.len() - k,
        {
            let page = self.free_loaned_list.get(k);
            assert(page == list[self@.free.len() + k]);
            let answer: bool = intact(page);
            proof {
                lemma_checked_push(intact, list, answers, self@.free.len() + k, answer);
                answers = answers.push(answer);
            }
            if !answer {
                broken.push(page);
            }
            k = k + 1;
        }
        proof {
            assert(list.take(self@.free.len() + k) =~= list);
            assert(checked(intact, list, answers));
        }
        broken
    }

    /// How free pages are filled and checked.
    pub fn checker(&self) -> (checker: PmmChecker)
        ensures
            checker == self@.checker,
    {
        self.checker
    }

    /// Whether pages get the fill pattern when they are freed.
    pub fn is_free_fill_enabled(&self) -> (enabled: bool)
        ensures
            enabled == self@.free_fill_enabled,
    {
        self.free_fill_enabled
    }

    /// Configures the free memory bounds and sets a one-shot signal as well as a level where
    /// allocations should start being delayed.
    ///
    /// The event is raised once the number of free pages falls outside of the bounds, or the first
    /// time an allocation fails. If the number of free pages is already outside the requested
    /// bounds then this fails, and nothing is set up.
    ///
    /// `delay_allocations_pages` is the number of free pages below which allocations that can wait
    /// are delayed, or the largest number there is, to delay them from the start. Without an event
    /// the bounds and the level are set, and nothing is raised.
    pub fn set_free_memory_signal(
        &mut self,
        free_lower_bound: u64,
        free_upper_bound: u64,
        delay_allocations_pages: u64,
        event: Option<u64>,
    ) -> (set: bool)
        requires
            old(self).wf(),
            delay_allocations_pages <= free_lower_bound || delay_allocations_pages == u64::MAX,
        ensures
            final(self).wf(),
            old(self)@.settled() ==> final(self)@.settled(),
            set == (free_lower_bound <= old(self)@.free.len() <= free_upper_bound),
            final(self)@ == if set {
                (PmmState {
                    throttle: old(self)@.throttle.configured(
                        free_lower_bound,
                        free_upper_bound,
                        delay_allocations_pages,
                        event,
                    ),
                    ..old(self)@
                })
            } else {
                old(self)@
            },
    {
        let free_count: u64 = self.count_free_pages();
        if free_count < free_lower_bound || free_count > free_upper_bound {
            return false;
        }
        self.throttle.configure(free_lower_bound, free_upper_bound, delay_allocations_pages, event);
        true
    }

    /// Collects the events raised since they were last collected, oldest first.
    pub fn take_raised_events(&mut self) -> (raised: Vec<u64>)
        requires
            old(self).wf(),
        ensures
            final(self).wf(),
            old(self)@.settled() ==> final(self)@.settled(),
            raised@ == old(self)@.throttle.raised,
            final(self)@ == (PmmState {
                throttle: Throttle { raised: Seq::empty(), ..old(self)@.throttle },
                ..old(self)@
            }),
    {
        self.throttle.take_raised()
    }

    /// Sets the outcome of the draw that delays allocations at random.
    pub fn seed_random_should_wait(&mut self, delay: bool)
        requires
            old(self).wf(),
        ensures
            final(self).wf(),
            old(self)@.settled() ==> final(self)@.settled(),
            final(self)@ == (PmmState {
                throttle: Throttle { random_delay: delay, ..old(self)@.throttle },
                ..old(self)@
            }),
    {
        self.throttle.set_random_delay(delay);
    }

    /// Tells the node to stop returning `SHOULD_WAIT`.
    pub fn stop_returning_should_wait(&mut self)
        requires
            old(self).wf(),
        ensures
            final(self).wf(),
            old(self)@.settled() ==> final(self)@.settled(),
            final(self)@ == (PmmState { throttle: old(self)@.throttle.stopped(), ..old(self)@ }),
    {
        self.throttle.stop_returning_should_wait();
    }

    /// Returns whether an allocation has failed for want of memory.
    pub fn has_alloc_failed_no_mem(&self) -> (failed: bool)
        ensures
            failed == self@.alloc_failed,
    {
        self.alloc_failed_no_mem
    }

    /// Retrieves information from the first allocation failure.
    pub fn get_first_alloc_failure(&self) -> (failure: AllocFailure)
        ensures
            failure == self@.first_alloc_failure,
    {
        self.first_alloc_failure
    }

    /// Returns the number of failed allocations, of all `nodes` together.
    pub fn get_alloc_failed_count(nodes: &[&PmmNode]) -> (count: i64)
        ensures
            count == failed_count(nodes@),
    {
        let mut count: i64 = 0;
        let mut i: usize = 0;
        assert(nodes@.take(0) =~= Seq::empty());
        while i < nodes.len()
            invariant
                i <= nodes@.len(),
                count == failed_count(nodes@.take(i as int)),
            decreases nodes@.len() - i,
        {
            assert(nodes@.take(i + 1).drop_last() =~= nodes@.take(i as int));
            count = count.wrapping_add(nodes[i].alloc_failed_count);
            i = i + 1;
        }
        assert(nodes@.take(i as int) =~= nodes@);
        count
    }

    /// The page compression instance. Once it is there it does not change.
    pub fn get_page_compression(&self) -> (compression: Option<u64>)
        ensures
            compression == self@.page_compression,
    {
        self.page_compression
    }

    /// Set the page compression instance. Returns an error if one has already been set.
    pub fn set_page_compression(&mut self, compression: u64) -> (result: Result<(), Status>)
        requires
            old(self).wf(),
        ensures
            final(self).wf(),
            old(self)@.settled() ==> final(self)@.settled(),
            result == if old(self)@.page_compression is Some {
                Err::<(), Status>(Status::ALREADY_EXISTS)
            } else {
                Ok::<(), Status>(())
            },
            final(self)@ == if result is Ok {
                (PmmState { page_compression: Some(compression), ..old(self)@ })
            } else {
                old(self)@
            },
    {
        if self.page_compression.is_some() {
            return Err(Status::ALREADY_EXISTS);
        }
        self.page_compression = Some(compression);
        Ok(())
    }

    /// Tries to allocate, and lets the next waiting thread through where that makes sense.
    fn allocate_after_wait(&mut self) -> (result: Result<VmPagePtr, Status>)
        requires
            old(self).wf(),
        ensures
            final(self).wf(),
            old(self)@.settled() ==> final(self)@.settled(),
            result == alloc_page_result(old(self)@, true),
            final(self)@ == after_passing(old(self)@),
    {
        assert(1u32 & 1u32 != 0) by (bit_vector);
        let result = self.alloc_page(ALLOC_FLAG_CAN_WAIT);
        let should_signal = match self.throttle.should_wait() {
            ShouldWaitState::Never => true,
            ShouldWaitState::UntilReset => false,
            ShouldWaitState::OnceLevelTripped => match result {
                Ok(_) => true,
                Err(status) => status == Status::SHOULD_WAIT,
            },
        };
        if should_signal {
            self.throttle.signal_may_allocate();
        }
        result
    }

    /// Takes a thread that waits for the system to exit the low memory state, and then attempts to
    /// allocate, one step further.
    ///
    /// To prevent herding, only one thread passes the throttle at a time, and lets the next one
    /// through once it has allocated.
    ///
    /// If `suspendable`, the wait terminates early with `INTERRUPTED_RETRY` when the thread is
    /// suspended; otherwise suspension is ignored and the wait continues.
    pub fn wait_for_single_page_allocation(&mut self, event: WaitEvent, suspendable: bool) -> (step:
        WaitStep)
        requires
            old(self).wf(),
        ensures
            final(self).wf(),
            old(self)@.settled() ==> final(self)@.settled(),
            step == wait_step(old(self)@, event, suspendable),
            final(self)@ == wait_state(old(self)@, event, suspendable),
    {
        match event {
            WaitEvent::Begin => {
                // If nothing ever waits, skip the throttle entirely. That state is final.
                if self.throttle.should_wait() == ShouldWaitState::Never {
                    return WaitStep::Done(self.allocate_after_wait());
                }
            },
            WaitEvent::Woken => {},
            WaitEvent::Interrupted(status) => {
                if status != Status::INTERRUPTED_RETRY || suspendable {
                    return WaitStep::Done(Err(status));
                }
            },
        }
        if self.throttle.pass() {
            return WaitStep::Done(self.allocate_after_wait());
        }
        assert(self@.throttle =~= old(self)@.throttle);
        WaitStep::Wait { ignore_suspend: !suspendable }
    }

    /// Marks every page of `list` free to be borrowed. The list keeps those whose loan is not
    /// cancelled.
    fn free_loaned_page_helper(&mut self, list: &mut VmPageDoublyLinkedList)
        requires
            old(self).shape(),
            old(list)@.no_duplicates(),
            forall|p: VmPagePtr| #[trigger]
                old(list)@.contains(p) ==> old(self)@.pages.contains_key(p),
        ensures
            final(self).shape(),
            final(self)@ == PmmNode::only_records(
                old(self)@,
                changed(
                    old(self)@.pages,
                    old(list)@,
                    |r: VmPage| r.freed_loaned(old(self)@.free_fill_enabled),
                ),
            ),
            final(list)@ == old(self)@.kept(old(list)@),
    {
        let ghost before = self@;
        let ghost all = list@;
        let filled = self.free_fill_enabled;
        let ghost change = |r: VmPage| r.freed_loaned(before.free_fill_enabled);
        let ghost keep = |p: VmPagePtr| !before.pages[p].loan_cancelled;
        let mut kept = VmPageDoublyLinkedList::new();
        let mut i: usize = 0;
        proof {
            assert(changed(before.pages, all.take(0), change) =~= before.pages);
            assert(all.take(0) =~= Seq::empty());
            reveal(Seq::filter);
        }
        while i < list.len()
            invariant
                self.shape(),
                list@ == all,
                i <= all.len(),
                all.no_duplicates(),
                filled == before.free_fill_enabled,
                forall|p: VmPagePtr| #[trigger] all.contains(p) ==> before.pages.contains_key(p),
                change == |r: VmPage| r.freed_loaned(before.free_fill_enabled),
                keep == |p: VmPagePtr| !before.pages[p].loan_cancelled,
                kept@ == all.take(i as int).filter(keep),
                self@ == PmmNode::only_records(
                    before,
                    changed(before.pages, all.take(i as int), change),
                ),
            decreases all.len() - i,
        {
            let page = list.get(i);
            assert(all.contains(page));
            proof {
                lemma_changed_step(before.pages, all, i as int, change);
                reveal(Seq::filter);
                assert(all.take(i + 1).drop_last() =~= all.take(i as int));
                assert(all.take(i + 1).last() == page);
            }
            let record = self.page(page);
            self.set_record(
                page,
                VmPage { state: VmPageState::FREE_LOANED, owner: None, filled, ..record },
            );
            if !record.loan_cancelled {
                kept.push_back(page);
            }
            i = i + 1;
        }
        assert(all.take(i as int) =~= all);
        *list = kept;
    }

    /// Frees all pages in the given list and places them in the loaned state, available to be
    /// returned from `alloc_loaned_page`.
    pub fn begin_loan(&mut self, list: &mut VmPageDoublyLinkedList, delay_reuse: PmmOptDelayReuse)
        requires
            old(self).wf(),
            old(self)@.can_lend(old(list)@),
        ensures
            final(self).wf(),
            old(self)@.settled() ==> final(self)@.settled(),
            final(self)@ == old(self)@.lend(old(list)@, delay_reuse),
            final(list)@.len() == 0,
    {
        let ghost before = self@;
        let ghost all = list@;
        proof {
            before.lemma_lend(all, delay_reuse);
            before.lend(all, delay_reuse).lemma_bounds();
        }
        self.loan_helper(list);
        let ghost lent = self@;
        self.free_loaned_page_helper(list);
        proof {
            assert(self@.pages =~= before.lend(all, delay_reuse).pages);
            lent.lemma_all_kept(all);
            assert(list@ == all);
        }
        self.loaned_count = self.loaned_count + list.len() as u64;
        if delay_reuse == PmmOptDelayReuse::Yes {
            self.free_loaned_list.splice_back(list);
        } else {
            self.free_loaned_list.splice_front(list);
        }
        assert(self@ =~= before.lend(all, delay_reuse));
    }

    /// Marks every page of `list` as on loan.
    fn loan_helper(&mut self, list: &VmPageDoublyLinkedList)
        requires
            old(self).shape(),
            list@.no_duplicates(),
            forall|p: VmPagePtr| #[trigger] list@.contains(p) ==> old(self)@.pages.contains_key(p),
        ensures
            final(self).shape(),
            final(self)@ == PmmNode::only_records(
                old(self)@,
                changed(old(self)@.pages, list@, |r: VmPage| r.lent()),
            ),
    {
        let ghost before = self@;
        let ghost change = |r: VmPage| r.lent();
        let mut i: usize = 0;
        assert(changed(before.pages, list@.take(0), change) =~= before.pages);
        while i < list.len()
            invariant
                self.shape(),
                i <= list@.len(),
                list@.no_duplicates(),
                forall|p: VmPagePtr| #[trigger] list@.contains(p) ==> before.pages.contains_key(p),
                change == |r: VmPage| r.lent(),
                self@ == PmmNode::only_records(
                    before,
                    changed(before.pages, list@.take(i as int), change),
                ),
            decreases list@.len() - i,
        {
            let page = list.get(i);
            assert(list@.contains(page));
            proof {
                lemma_changed_step(before.pages, list@, i as int, change);
            }
            let record = self.page(page);
            self.set_record(page, VmPage { loaned: true, ..record });
            i = i + 1;
        }
        assert(list@.take(i as int) =~= list@);
    }

    /// Marks a page that had been previously provided to `begin_loan` as cancelled. This page may
    /// be in the `FREE_LOANED` state, or presently in use.
    ///
    /// This prevents the page from being reused for any new purpose until `end_loan`: if it is
    /// free it leaves the list of free loaned pages, and if it is in use it will not be added to
    /// it when later freed.
    pub fn cancel_loan(&mut self, page: VmPagePtr)
        requires
            old(self).wf(),
            old(self)@.pages.contains_key(page),
            old(self)@.pages[page].loaned,
            !old(self)@.pages[page].loan_cancelled,
            old(self)@.pages[page].state == VmPageState::FREE_LOANED
                ==> old(self)@.free_loaned.contains(page),
        ensures
            final(self).wf(),
            old(self)@.settled() ==> final(self)@.settled(),
            final(self)@ == old(self)@.cancel(page),
    {
        proof {
            old(self)@.lemma_cancel(page);
            old(self)@.cancel(page).lemma_bounds();
        }
        let record = self.page(page);
        self.set_record(page, VmPage { loan_cancelled: true, ..record });
        self.loan_cancelled_count = self.loan_cancelled_count + 1;
        if record.is_free_loaned() {
            self.free_loaned_list.erase(page);
        } else {
            proof {
                old(self)@.free_loaned.index_of_first_ensures(page);
            }
        }
        assert(self@ =~= old(self)@.cancel(page));
    }

    /// Allocates the page to the caller as a regular non-loaned page. It must be on loan, the loan
    /// must have been cancelled, and it must be in the `FREE_LOANED` state.
    pub fn end_loan(&mut self, page: VmPagePtr)
        requires
            old(self).wf(),
            old(self)@.pages.contains_key(page),
            old(self)@.pages[page].loaned,
            old(self)@.pages[page].loan_cancelled,
            old(self)@.pages[page].state == VmPageState::FREE_LOANED,
        ensures
            final(self).wf(),
            old(self)@.settled() ==> final(self)@.settled(),
            final(self)@ == old(self)@.end(page),
    {
        proof {
            old(self)@.lemma_end(page);
        }
        let record = self.page(page);
        self.set_record(
            page,
            VmPage {
                state: VmPageState::ALLOC,
                loaned: false,
                loan_cancelled: false,
                owner: None,
                ..record
            },
        );
        self.loan_cancelled_count = self.loan_cancelled_count - 1;
        self.loaned_count = self.loaned_count - 1;
        assert(self@ =~= old(self)@.end(page));
    }

    /// Allocates a single page from the loaned pages list. If there are no loaned pages available
    /// `NO_RESOURCES` is returned, as an absence of loaned pages does not constitute an out of
    /// memory scenario.
    ///
    /// `allocated` is handed the page and its record, and returns what it makes of the record: a
    /// page that belongs to an object.
    pub fn alloc_loaned_page<F: FnOnce(VmPagePtr, VmPage) -> VmPage>(&mut self, allocated: F) -> (
        page: Result<VmPagePtr, Status>)
        requires
            old(self).wf(),
            old(self)@.free_loaned.len() > 0 ==> {
                let front = old(self)@.free_loaned[0];
                let record = old(self)@.pages[front].allocated();
                &&& call_requires(allocated, (front, record))
                &&& forall|borrowed: VmPage| #[trigger]
                    call_ensures(allocated, (front, record), borrowed) ==> borrowed.in_object()
                        && borrowed.loaned && !borrowed.loan_cancelled
            },
        ensures
            final(self).wf(),
            old(self)@.settled() ==> final(self)@.settled(),
            if old(self)@.free_loaned.len() == 0 {
                &&& page == Err::<VmPagePtr, Status>(Status::NO_RESOURCES)
                &&& final(self)@ == old(self)@
            } else {
                let front = old(self)@.free_loaned[0];
                let record = old(self)@.pages[front].allocated();
                &&& page == Ok::<VmPagePtr, Status>(front)
                &&& exists|borrowed: VmPage| #[trigger]
                    call_ensures(allocated, (front, record), borrowed) && final(self)@
                        == old(self)@.borrow_front(borrowed)
            },
    {
        let page = match self.free_loaned_list.pop_front() {
            Some(page) => page,
            None => {
                return Err(Status::NO_RESOURCES);
            },
        };
        proof {
            assert(old(self)@.free_loaned.contains(page));
        }
        let record = self.page(page);
        let handed = VmPage { state: VmPageState::ALLOC, owner: None, ..record };
        assert(handed == old(self)@.pages[page].allocated());
        let borrowed = allocated(page, handed);
        proof {
            old(self)@.lemma_borrow_front(borrowed);
        }
        self.set_record(page, borrowed);
        proof {
            assert(self.free_loaned_list@ =~= old(self)@.free_loaned.skip(1));
            assert(self@ =~= old(self)@.borrow_front(borrowed));
        }
        Ok(page)
    }

    /// Begins freeing a loaned page by moving it into a holding object. The page must belong to an
    /// object; `release_page` is handed its record and returns what is left of it once the object
    /// has let go. The freeing must be completed by `finish_free_loaned_pages`.
    pub fn begin_free_loaned_page<F: FnOnce(VmPagePtr, VmPage) -> VmPage>(
        &mut self,
        page: VmPagePtr,
        release_page: F,
        flph: &mut FreeLoanedPagesHolder,
    )
        requires
            old(self).wf(),
            old(self)@.pages.contains_key(page),
            old(self)@.pages[page].loaned,
            old(self)@.pages[page].in_object(),
            !old(flph).used,
            old(self)@.held_by(old(flph).pages@, old(flph).id),
            call_requires(release_page, (page, old(self)@.pages[page])),
            forall|left: VmPage| #[trigger]
                call_ensures(release_page, (page, old(self)@.pages[page]), left) ==> left.same_loan(
                    old(self)@.pages[page],
                ),
        ensures
            final(self).wf(),
            old(self)@.settled() ==> final(self)@.settled(),
            exists|left: VmPage| #[trigger]
                call_ensures(release_page, (page, old(self)@.pages[page]), left) && final(self)@
                    == old(self)@.with_record(page, left.held(old(flph).id)),
            final(self)@.held_by(final(flph).pages@, final(flph).id),
            final(flph).pages@ == seq![page] + old(flph).pages@,
            final(flph).id == old(flph).id,
            final(flph).used == old(flph).used,
            final(flph).waiters@ == old(flph).waiters@,
    {
        let record = self.page(page);
        let left = release_page(page, record);
        proof {
            old(self)@.lemma_with_record(page, left.held(flph.id));
        }
        self.set_record(
            page,
            VmPage { state: VmPageState::ALLOC, owner: Some(flph.id), ..left },
        );
        flph.pages.push_front(page);
        proof {
            assert(!old(flph).pages@.contains(page));
            assert(seq![page].no_duplicates());
            crate::pmm_model::lemma_unite(seq![page], old(flph).pages@);
        }
    }

    /// Begins freeing multiple pages that were allocated by `alloc_loaned_page` by moving them, in
    /// their order, into a holding object.
    pub fn begin_free_loaned_array<F: FnMut(VmPagePtr, VmPage) -> VmPage>(
        &mut self,
        pages: &Vec<VmPagePtr>,
        release_page: F,
        flph: &mut FreeLoanedPagesHolder,
    )
        requires
            old(self).wf(),
            pages@.no_duplicates(),
            !old(flph).used,
            old(self)@.held_by(old(flph).pages@, old(flph).id),
            forall|i: int|
                0 <= i < pages@.len() ==> {
                    let page = #[trigger] pages@[i];
                    &&& old(self)@.pages.contains_key(page)
                    &&& old(self)@.pages[page].loaned
                    &&& old(self)@.pages[page].in_object()
                    &&& call_requires(release_page, (page, old(self)@.pages[page]))
                    &&& forall|left: VmPage| #[trigger]
                        call_ensures(release_page, (page, old(self)@.pages[page]), left)
                            ==> left.same_loan(old(self)@.pages[page])
                },
        ensures
            final(self).wf(),
            old(self)@.settled() ==> final(self)@.settled(),
            exists|left: Seq<VmPage>|
                released(release_page, old(self)@, pages@, left) && final(self)@ == #[trigger]
                    old(self)@.hold(pages@, left, old(flph).id, pages@.len()),
            final(self)@.held_by(final(flph).pages@, final(flph).id),
            final(flph).pages@ == pages@ + old(flph).pages@,
            final(flph).id == old(flph).id,
            final(flph).used == old(flph).used,
            final(flph).waiters@ == old(flph).waiters@,
    {
        let mut call: F = release_page;
        let ghost before = self@;
        let ghost holder = flph.id;
        let ghost earlier = flph.pages@;
        let ghost mut lefts: Seq<VmPage> = Seq::empty();
        let mut list = VmPageDoublyLinkedList::new();
        let mut i: usize = 0;
        assert(pages@.take(0) =~= Seq::empty());
        while i < pages.len()
            invariant
                call == release_page,
                self.wf(),
                before.settled() ==> self@.settled(),
                i <= pages@.len(),
                pages@.no_duplicates(),
                lefts.len() == i,
                list@ == pages@.take(i as int),
                *flph == *old(flph),
                holder == flph.id,
                earlier == flph.pages@,
                before.held_by(earlier, holder),
                self@.held_by(earlier, holder),
                self@ == before.hold(pages@, lefts, holder, i as nat),
                self@.handoff_temporary == before.handoff_temporary,
                self@.handoff_vmo == before.handoff_vmo,
                released(release_page, before, pages@.take(i as int), lefts),
                forall|k: int|
                    i <= k < pages@.len() ==> self@.pages.contains_key(#[trigger] pages@[k])
                        && self@.pages[pages@[k]] == before.pages[pages@[k]],
                forall|k: int|
                    0 <= k < i ==> self@.pages.contains_key(#[trigger] pages@[k])
                        && self@.pages[pages@[k]].loaned && self@.pages[pages@[k]].state
                        == VmPageState::ALLOC && self@.pages[pages@[k]].owner == Some(holder),
                forall|k: int|
                    0 <= k < pages@.len() ==> {
                        let page = #[trigger] pages@[k];
                        &&& before.pages.contains_key(page)
                        &&& before.pages[page].loaned
                        &&& before.pages[page].in_object()
                        &&& call_requires(release_page, (page, before.pages[page]))
                        &&& forall|left: VmPage| #[trigger]
                            call_ensures(release_page, (page, before.pages[page]), left)
                                ==> left.same_loan(before.pages[page])
                    },
            decreases pages@.len() - i,
        {
            let page = pages[i];
            let record = self.page(page);
            assert(record == before.pages[page]);
            let left = call(page, record);
            let ghost middle = self@;
            let ghost former = lefts;
            proof {
                middle.lemma_with_record(page, left.held(holder));
                lefts = lefts.push(left);
                assert(former.take(i as int) =~= lefts.take(i as int));
                before.lemma_hold_prefix(pages@, former, lefts, holder, i as nat);
            }
            self.set_record(
                page,
                VmPage { state: VmPageState::ALLOC, owner: Some(flph.id), ..left },
            );
            list.push_back(page);
            proof {
                assert(pages@.take(i + 1) =~= pages@.take(i as int).push(page));
                assert(!earlier.contains(page));
                assert forall|k: int| 0 <= k < i + 1 implies call_ensures(
                    release_page,
                    (#[trigger] pages@.take(i + 1)[k], before.pages[pages@.take(i + 1)[k]]),
                    lefts[k],
                ) by {
                    if k < i {
                        assert(pages@.take(i as int)[k] == pages@.take(i + 1)[k]);
                    }
                }
            }
            i = i + 1;
        }
        proof {
            assert(pages@.take(i as int) =~= pages@);
            assert forall|p: VmPagePtr| #[trigger] pages@.contains(p) implies !earlier.contains(
                p,
            ) by {
                let k = choose|k: int| 0 <= k < pages@.len() && pages@[k] == p;
            }
            crate::pmm_model::lemma_unite(pages@, earlier);
            assert forall|p: VmPagePtr| #[trigger] (pages@ + earlier).contains(p) implies
                self@.pages.contains_key(p) && self@.pages[p].loaned && self@.pages[p].state
                == VmPageState::ALLOC && self@.pages[p].owner == Some(holder) by {
                if pages@.contains(p) {
                    let k = choose|k: int| 0 <= k < pages@.len() && pages@[k] == p;
                }
            }
        }
        flph.pages.splice_front(&mut list);
    }

    /// Completes the freeing of any loaned pages in `flph`. After that `flph` must not be used
    /// again. Returns the waiters to wake, the last to come first.
    pub fn finish_free_loaned_pages(&mut self, flph: &mut FreeLoanedPagesHolder) -> (woken: Vec<
        FreeLoanedPagesHolderWaiter,
    >)
        requires
            old(self).wf(),
            old(flph).pages@.len() > 0 ==> !old(flph).used,
            old(self)@.held_by(old(flph).pages@, old(flph).id),
        ensures
            final(self).wf(),
            old(self)@.settled() ==> final(self)@.settled(),
            final(self)@ == old(self)@.give_back_loaned(old(flph).pages@),
            final(flph).id == old(flph).id,
            final(flph).pages@.len() == 0,
            if old(flph).pages@.len() > 0 {
                &&& final(flph).used
                &&& final(flph).waiters@.len() == 0
                &&& woken@ == old(flph).waiters@.reverse()
            } else {
                &&& *final(flph) == *old(flph)
                &&& woken@.len() == 0
            },
    {
        let ghost before = self@;
        let ghost all = flph.pages@;
        let mut woken: Vec<FreeLoanedPagesHolderWaiter> = Vec::new();
        proof {
            before.lemma_give_back_loaned(all, flph.id);
        }
        if flph.pages.is_empty() {
            proof {
                reveal(Seq::filter);
                assert(before.kept(all) + before.free_loaned =~= before.free_loaned);
                assert(self@.pages =~= before.give_back_loaned(all).pages);
                assert(self@ =~= before.give_back_loaned(all));
            }
            return woken;
        }
        flph.used = true;
        self.free_loaned_page_helper(&mut flph.pages);
        self.free_loaned_list.splice_front(&mut flph.pages);
        assert(self@ =~= before.give_back_loaned(all));
        // With the owners all cleared no more waiters can come along, so all the existing ones can
        // be woken up.
        let ghost waiters = flph.waiters@;
        while flph.waiters.len() > 0
            invariant
                self.wf(),
                before.settled() ==> self@.settled(),
                self@ == before.give_back_loaned(all),
                flph.id == old(flph).id,
                flph.used,
                flph.pages@.len() == 0,
                waiters == old(flph).waiters@,
                flph.waiters@.len() <= waiters.len(),
                flph.waiters@ == waiters.take(flph.waiters@.len() as int),
                woken@.len() == waiters.len() - flph.waiters@.len(),
                forall|k: int|
                    0 <= k < woken@.len() ==> #[trigger] woken@[k] == waiters[waiters.len() - 1
                        - k],
            decreases flph.waiters@.len(),
        {
            if let Some(waiter) = flph.waiters.pop() {
                woken.push(waiter);
            }
        }
        assert(woken@ =~= waiters.reverse());
        woken
    }

    /// Calls `with_page` on a loaned page that is either fully owned by the node or fully owned by
    /// an object. A page on its way back is neither: then nothing is called, and the holder to wait
    /// for before trying again is returned.
    pub fn with_loaned_page<F: FnOnce(VmPagePtr, VmPage)>(&self, page: VmPagePtr, with_page: F) -> (
        holder: Option<u64>)
        requires
            self.wf(),
            self@.pages.contains_key(page),
            self@.pages[page].loaned,
            self@.pages[page].state != VmPageState::ALLOC || self@.pages[page].owner is None
                ==> call_requires(with_page, (page, self@.pages[page])),
        ensures
            holder == if self@.pages[page].state == VmPageState::ALLOC {
                self@.pages[page].owner
            } else {
                None
            },
            holder is None ==> call_ensures(with_page, (page, self@.pages[page]), ()),
    {
        let record = self.page(page);
        if record.state != VmPageState::ALLOC || record.owner.is_none() {
            with_page(page, record);
            return None;
        }
        record.owner
    }
}

/// The failed allocations of `nodes`, added up.
pub open spec fn failed_count(nodes: Seq<&PmmNode>) -> i64
    decreases nodes.len(),
{
    if nodes.len() == 0 {
        0
    } else {
        i64::wrapping_add(failed_count(nodes.drop_last()), nodes.last()@.alloc_failed_count)
    }
}

/// `intact` can be asked of every page of `list`.
pub open spec fn accepts_pages<F: Fn(VmPagePtr) -> bool>(intact: F, list: Seq<VmPagePtr>) -> bool {
    forall|i: int| 0 <= i < list.len() ==> call_requires(intact, (#[trigger] list[i],))
}

/// `intact` was asked of every page of `list` and gave `answers`.
pub open spec fn checked<F: Fn(VmPagePtr) -> bool>(
    intact: F,
    list: Seq<VmPagePtr>,
    answers: Seq<bool>,
) -> bool {
    &&& answers.len() == list.len()
    &&& forall|i: int|
        0 <= i < list.len() ==> call_ensures(intact, (#[trigger] list[i],), answers[i])
}

/// The pages of `list` for which the answer is no, in order.
pub open spec fn broken_pages(list: Seq<VmPagePtr>, answers: Seq<bool>) -> Seq<VmPagePtr>
    decreases list.len(),
{
    if list.len() == 0 {
        Seq::empty()
    } else if answers.last() {
        broken_pages(list.drop_last(), answers.drop_last())
    } else {
        broken_pages(list.drop_last(), answers.drop_last()).push(list.last())
    }
}

/// One more page is checked.
proof fn lemma_checked_push<F: Fn(VmPagePtr) -> bool>(
    intact: F,
    list: Seq<VmPagePtr>,
    answers: Seq<bool>,
    i: int,
    answer: bool,
)
    requires
        0 <= i < list.len(),
        checked(intact, list.take(i), answers),
        call_ensures(intact, (list[i],), answer),
    ensures
        checked(intact, list.take(i + 1), answers.push(answer)),
        broken_pages(list.take(i + 1), answers.push(answer)) == if answer {
            broken_pages(list.take(i), answers)
        } else {
            broken_pages(list.take(i), answers).push(list[i])
        },
{
    assert(list.take(i + 1).drop_last() =~= list.take(i));
    assert(answers.push(answer).drop_last() =~= answers);
    assert(list.take(i + 1).last() == list[i]);
    assert forall|j: int| 0 <= j < i + 1 implies call_ensures(
        intact,
        (#[trigger] list.take(i + 1)[j],),
        answers.push(answer)[j],
    ) by {
        if j < i {
            assert(list.take(i)[j] == list[j]);
        }
    }
}

/// `left` is what `release` leaves of the records of `pages`.
pub open spec fn released<F: FnMut(VmPagePtr, VmPage) -> VmPage>(
    release: F,
    state: PmmState,
    pages: Seq<VmPagePtr>,
    left: Seq<VmPage>,
) -> bool {
    &&& left.len() == pages.len()
    &&& forall|i: int|
        0 <= i < pages.len() ==> call_ensures(
            release,
            (#[trigger] pages[i], state.pages[pages[i]]),
            left[i],
        )
}

/// A thread that waits for a loaned page to be back.
#[derive(PartialEq, Eq, Structural, Clone, Copy, Debug)]
pub struct FreeLoanedPagesHolderWaiter {
    /// The event that wakes it.
    pub event: u64,
}

/// Object for managing the freeing of loaned pages via a temporary holding object. It may be used
/// for a single call to `PmmNode::finish_free_loaned_pages`, after which it may not be passed to
/// any other method of the node.
pub struct FreeLoanedPagesHolder {
    /// Tells this holder from others.
    pub id: u64,
    /// The pages have been returned to the node.
    pub used: bool,
    /// The pages presently owned by this object, all of them in the `ALLOC` state with this object
    /// as their owner.
    pub pages: VmPageDoublyLinkedList,
    /// Who is to be notified once the pages have been freed.
    pub waiters: Vec<FreeLoanedPagesHolderWaiter>,
}

impl FreeLoanedPagesHolder {
    pub fn init(id: u64) -> (flph: FreeLoanedPagesHolder)
        ensures
            flph.id == id,
            !flph.used,
            flph.pages@.len() == 0,
            flph.waiters@.len() == 0,
    {
        FreeLoanedPagesHolder {
            id,
            used: false,
            pages: VmPageDoublyLinkedList::new(),
            waiters: Vec::new(),
        }
    }

    /// Registers a thread that waits for one of the pages.
    pub fn push_waiter(&mut self, waiter: FreeLoanedPagesHolderWaiter)
        requires
            old(self).pages@.len() > 0,
        ensures
            final(self).id == old(self).id,
            final(self).used == old(self).used,
            final(self).pages@ == old(self).pages@,
            final(self).waiters@ == old(self).waiters@.push(waiter),
    {
        self.waiters.push(waiter);
    }
}

/// What happens to a thread that waits for a page.
#[derive(PartialEq, Eq, Structural, Clone, Copy, Debug)]
pub enum WaitEvent {
    /// It starts to wait.
    Begin,
    /// It is woken because the throttle may be open.
    Woken,
    /// Its wait has ended otherwise: by its deadline, by its end or by its suspension.
    Interrupted(Status),
}

/// What a thread that waits for a page has to do.
#[derive(PartialEq, Eq, Clone, Copy, Debug)]
pub enum WaitStep {
    /// Wait for the throttle to open.
    Wait { ignore_suspend: bool },
    /// Return.
    Done(Result<VmPagePtr, Status>),
}

/// The wait is over whatever the throttle says.
pub open spec fn wait_is_over(event: WaitEvent, suspendable: bool) -> bool {
    match event {
        WaitEvent::Interrupted(status) => status != Status::INTERRUPTED_RETRY || suspendable,
        _ => false,
    }
}

/// The thread goes on to allocate.
pub open spec fn wait_goes_on(state: PmmState, event: WaitEvent) -> bool {
    state.throttle.may_allocate || (event is Begin && state.throttle.should_wait == ShouldWaitState::Never)
}

/// The state in which the thread allocates. Whoever passes the throttle closes it behind them.
pub open spec fn wait_passed(state: PmmState, event: WaitEvent) -> PmmState {
    if event is Begin && state.throttle.should_wait == ShouldWaitState::Never {
        state
    } else {
        PmmState { throttle: Throttle { may_allocate: false, ..state.throttle }, ..state }
    }
}

/// What a waiting thread has to do after `event`.
pub open spec fn wait_step(state: PmmState, event: WaitEvent, suspendable: bool) -> WaitStep {
    if wait_is_over(event, suspendable) {
        WaitStep::Done(Err(event->Interrupted_0))
    } else if wait_goes_on(state, event) {
        WaitStep::Done(alloc_page_result(wait_passed(state, event), true))
    } else {
        WaitStep::Wait { ignore_suspend: !suspendable }
    }
}

/// What a waiting thread leaves behind after `event`.
pub open spec fn wait_state(state: PmmState, event: WaitEvent, suspendable: bool) -> PmmState {
    if !wait_is_over(event, suspendable) && wait_goes_on(state, event) {
        after_passing(wait_passed(state, event))
    } else {
        state
    }
}

/// What an allocation of `count` pages comes to, and what it leaves behind.
pub open spec fn alloc_pages_outcome(
    before: PmmState,
    count: int,
    alloc_flags: u32,
    result: Result<(), Status>,
    after: PmmState,
) -> bool {
    let free_count = before.free.len();
    let shrunk = before.throttle.fell(free_count - count);
    if count == 1 && can_wait(alloc_flags) && before.throttle.delays() {
        result == Err::<(), Status>(Status::SHOULD_WAIT) && after == before
    } else if count > free_count {
        if count > 1 && can_wait(alloc_flags) && before.throttle.should_wait != ShouldWaitState::Never {
            result == Err::<(), Status>(Status::SHOULD_WAIT) && after == before
        } else {
            result == Err::<(), Status>(Status::NO_MEMORY) && after == before.fail(
                AllocFailure {
                    failure_type: AllocFailureType::Pmm,
                    size: count as usize,
                    free_count: free_count as u64,
                },
            )
        }
    } else if count > 1 && can_wait(alloc_flags) && shrunk.delays() {
        // The level is tripped by the attempt itself, and stays so.
        result == Err::<(), Status>(Status::SHOULD_WAIT) && after == (PmmState {
            throttle: shrunk.rose(free_count as int),
            ..before
        })
    } else if count == 0 {
        result == Ok::<(), Status>(()) && after == before
    } else {
        result == Ok::<(), Status>(()) && after == before.take_front(count)
    }
}

} // verus!
