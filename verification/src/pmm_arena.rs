//! A run of physical memory, with a record for each of its pages.

use vstd::arithmetic::power2::pow2;
use vstd::prelude::*;

use crate::page::PAGE_SIZE;
use crate::vm_page::{VmPage, VmPagePtr, VmPageState};

verus! {

/// How many pages an arena can have, so that a page's index still fits beside the other fields of
/// a page number.
pub const MAX_PAGES_PER_ARENA: u64 = 0x1ff_ffff;

/// Describes an arena to the outside.
#[derive(PartialEq, Eq, Structural, Clone, Copy, Debug)]
pub struct PmmArenaInfo {
    pub flags: u32,
    /// The address of the first byte.
    pub base: u64,
    /// The length in bytes.
    pub size: u64,
}

impl PmmArenaInfo {
    /// Whole pages, neither too many nor none, that end before the last address.
    pub open spec fn wf(self) -> bool {
        &&& self.base % PAGE_SIZE == 0
        &&& self.size % PAGE_SIZE == 0
        &&& 0 < self.size / PAGE_SIZE <= MAX_PAGES_PER_ARENA
        &&& self.base + self.size <= u64::MAX
    }

    pub open spec fn end(self) -> int {
        self.base + self.size
    }

    /// The number of pages.
    pub open spec fn count(self) -> int {
        self.size as int / 4096
    }

    pub open spec fn covers(self, address: int) -> bool {
        self.base <= address < self.end()
    }

    /// The page with this index.
    pub open spec fn page(self, index: int) -> VmPagePtr {
        VmPagePtr { paddr: (self.base + index * 4096) as u64 }
    }

    pub open spec fn has(self, page: VmPagePtr) -> bool {
        self.covers(page.paddr as int) && page.paddr % PAGE_SIZE == 0
    }

    /// The index of the page that holds this address.
    pub open spec fn index(self, address: int) -> int {
        (address - self.base) / 4096
    }

    /// Naming a page by its index and taking the index of its address undo each other.
    pub proof fn lemma_index(self, index: int)
        requires
            self.wf(),
            0 <= index < self.count(),
        ensures
            self.has(self.page(index)),
            self.page(index).paddr == self.base + index * 4096,
            self.index(self.page(index).paddr as int) == index,
    {
    }

    pub proof fn lemma_page(self, page: VmPagePtr)
        requires
            self.wf(),
            self.has(page),
        ensures
            0 <= self.index(page.paddr as int) < self.count(),
            self.page(self.index(page.paddr as int)) == page,
    {
    }
}

/// A run of `count` pages from index `start` that are all there to be allocated.
pub open spec fn free_run(pages: Seq<VmPage>, start: int, count: int) -> bool {
    &&& 0 <= start
    &&& start + count <= pages.len()
    &&& forall|i: int| start <= i < start + count ==> (#[trigger] pages[i]).allocatable()
}

pub struct PmmArena {
    info: PmmArenaInfo,
    pages: Vec<VmPage>,
}

impl PmmArena {
    pub closed spec fn spec_info(self) -> PmmArenaInfo {
        self.info
    }

    pub closed spec fn pages(self) -> Seq<VmPage> {
        self.pages@
    }

    pub open spec fn wf(self) -> bool {
        &&& self.spec_info().wf()
        &&& self.pages().len() == self.spec_info().count()
    }

    /// An aligned run of `count` allocatable pages starts at index `start`.
    pub open spec fn run_at(self, start: int, count: int, alignment_log2: nat) -> bool {
        &&& free_run(self.pages(), start, count)
        &&& (self.spec_info().base + start * 4096) % (pow2(alignment_log2) as int) == 0
    }

    /// The record of `page`.
    pub open spec fn record_of(self, page: VmPagePtr) -> VmPage {
        self.pages()[self.spec_info().index(page.paddr as int)]
    }

    /// An arena whose pages are all fresh.
    pub fn new(info: PmmArenaInfo) -> (arena: PmmArena)
        requires
            info.wf(),
        ensures
            arena.wf(),
            arena.spec_info() == info,
            forall|i: int| 0 <= i < info.count() ==> #[trigger] arena.pages()[i] == VmPage::fresh(),
    {
        let count: u64 = info.size / PAGE_SIZE;
        let mut pages: Vec<VmPage> = Vec::new();
        let mut i: u64 = 0;
        while i < count
            invariant
                i <= count,
                pages@.len() == i,
                forall|j: int| 0 <= j < i ==> #[trigger] pages@[j] == VmPage::fresh(),
            decreases count - i,
        {
            pages.push(VmPage::new());
            i = i + 1;
        }
        PmmArena { info, pages }
    }

    pub fn info(&self) -> (info: PmmArenaInfo)
        ensures
            info == self.spec_info(),
    {
        self.info
    }

    pub fn base(&self) -> (base: u64)
        ensures
            base == self.spec_info().base,
    {
        self.info.base
    }

    pub fn address_in_arena(&self, address: u64) -> (inside: bool)
        requires
            self.wf(),
        ensures
            inside == self.spec_info().covers(address as int),
    {
        self.info.base <= address && address - self.info.base < self.info.size
    }

    /// The page with this index.
    pub fn get_page(&self, index: u64) -> (page: VmPagePtr)
        requires
            self.wf(),
            index < self.spec_info().count(),
        ensures
            page == self.spec_info().page(index as int),
            self.spec_info().has(page),
    {
        proof {
            self.spec_info().lemma_index(index as int);
        }
        VmPagePtr { paddr: self.info.base + index * PAGE_SIZE }
    }

    pub fn page_belongs_to_arena(&self, page: VmPagePtr) -> (belongs: bool)
        requires
            self.wf(),
        ensures
            belongs == self.spec_info().has(page),
    {
        self.address_in_arena(page.paddr) && page.paddr % PAGE_SIZE == 0
    }

    pub fn get_index(&self, page: VmPagePtr) -> (index: u64)
        requires
            self.wf(),
            self.spec_info().has(page),
        ensures
            index == self.spec_info().index(page.paddr as int),
            index < self.spec_info().count(),
    {
        (page.paddr - self.info.base) / PAGE_SIZE
    }

    /// The page that holds `address`.
    pub fn find_specific(&self, address: u64) -> (page: Option<VmPagePtr>)
        requires
            self.wf(),
        ensures
            page is Some <==> self.spec_info().covers(address as int),
            page is Some ==> page->0 == self.spec_info().page(
                self.spec_info().index(address as int),
            ) && self.spec_info().has(page->0),
    {
        if !self.address_in_arena(address) {
            return None;
        }
        let index: u64 = (address - self.info.base) / PAGE_SIZE;
        Some(self.get_page(index))
    }

    pub fn record(&self, page: VmPagePtr) -> (record: VmPage)
        requires
            self.wf(),
            self.spec_info().has(page),
        ensures
            record == self.record_of(page),
    {
        let index: u64 = self.get_index(page);
        self.pages[index as usize]
    }

    pub fn set_record(&mut self, page: VmPagePtr, record: VmPage)
        requires
            old(self).wf(),
            old(self).spec_info().has(page),
        ensures
            final(self).wf(),
            final(self).spec_info() == old(self).spec_info(),
            final(self).pages() == old(self).pages().update(
                old(self).spec_info().index(page.paddr as int),
                record,
            ),
    {
        let index: u64 = self.get_index(page);
        self.pages.set(index as usize, record);
    }

    fn run_is_free(&self, start: usize, count: usize) -> (free: bool)
        requires
            self.wf(),
            start + count <= self.pages().len(),
        ensures
            free == free_run(self.pages(), start as int, count as int),
    {
        let mut i: usize = 0;
        while i < count
            invariant
                self.wf(),
                i <= count,
                start + count <= self.pages().len(),
                forall|j: int| start <= j < start + i ==> (#[trigger] self.pages()[j]).allocatable(),
            decreases count - i,
        {
            let page = self.pages[start + i];
            if page.state != VmPageState::FREE || page.loaned {
                assert(!self.pages()[start + i].allocatable());
                return false;
            }
            i = i + 1;
        }
        true
    }

    /// The first page of the lowest aligned run of `count` pages that can be allocated.
    pub fn find_free_contiguous(&self, count: usize, alignment_log2: u8) -> (page: Option<VmPagePtr>)
        requires
            self.wf(),
            count > 0,
            alignment_log2 < 64,
        ensures
            match page {
                Some(page) => {
                    let start = self.spec_info().index(page.paddr as int);
                    &&& self.spec_info().has(page)
                    &&& self.run_at(start, count as int, alignment_log2 as nat)
                    &&& forall|i: int|
                        0 <= i < start ==> !#[trigger] self.run_at(
                            i,
                            count as int,
                            alignment_log2 as nat,
                        )
                },
                None => forall|i: int|
                    !#[trigger] self.run_at(i, count as int, alignment_log2 as nat),
            },
    {
        if count > self.pages.len() {
            return None;
        }
        let last: usize = self.pages.len() - count;
        let alignment: u64 = 1u64 << alignment_log2;
        proof {
            vstd::bits::lemma_u64_pow2_no_overflow(alignment_log2 as nat);
            vstd::bits::lemma_u64_shl_is_mul(1, alignment_log2 as u64);
            vstd::arithmetic::power2::lemma_pow2_pos(alignment_log2 as nat);
        }
        let mut start: usize = 0;
        while start <= last
            invariant
                self.wf(),
                count > 0,
                start <= last + 1,
                last + count == self.pages().len(),
                alignment == pow2(alignment_log2 as nat),
                alignment > 0,
                forall|i: int|
                    0 <= i < start ==> !#[trigger] self.run_at(
                        i,
                        count as int,
                        alignment_log2 as nat,
                    ),
            decreases last + 1 - start,
        {
            let page = self.get_page(start as u64);
            if page.paddr % alignment == 0 && self.run_is_free(start, count) {
                proof {
                    self.spec_info().lemma_index(start as int);
                }
                assert(self.run_at(start as int, count as int, alignment_log2 as nat));
                return Some(page);
            }
            assert(!self.run_at(start as int, count as int, alignment_log2 as nat));
            start = start + 1;
        }
        None
    }
}

} // verus!
