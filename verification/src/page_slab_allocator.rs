//! A slab allocator for small allocations, which uses a page of the physical memory manager as its
//! slab.

use vstd::prelude::*;
use vstd::set_lib::{lemma_int_range, lemma_len_subset, lemma_map_size, set_int_range};

use crate::page::{round_down, PAGE_SIZE, SIZE};
use crate::pmm_model::{in_arena, in_arenas, PmmOptDelayReuse, PmmState};
use crate::pmm_node::{page_at, PmmNode};
use crate::slab::Slab;
use crate::slab_state::{
    entry_address, index_at, lemma_address, lemma_entry, lemma_per_slab, per_slab, size_ok,
    lemma_aligned, slabs_hold, SlabPage, SlabsState,
};
use crate::slab_table::SlabTable;
use crate::status::Status;
use crate::vm_page::{VmPageDoublyLinkedList, VmPagePtr, VmPageState};

verus! {

/// A slab could not be allocated.
#[derive(PartialEq, Eq, Structural, Clone, Copy, Debug)]
pub struct SlabAllocationError;

impl SlabAllocationError {
    /// Says what has happened.
    pub fn message(&self) -> (message: &'static str)
        ensures
            message@ == "failed to allocate slab"@,
    {
        "failed to allocate slab"
    }
}

impl From<SlabAllocationError> for Status {
    fn from(error: SlabAllocationError) -> (status: Status) {
        Status::NO_MEMORY
    }
}

impl vstd::std_specs::convert::FromSpecImpl<SlabAllocationError> for Status {
    open spec fn obeys_from_spec() -> bool {
        true
    }

    open spec fn from_spec(error: SlabAllocationError) -> Status {
        Status::NO_MEMORY
    }
}

/// `page` is in use as a slab.
pub open spec fn is_slab(pmm: PmmState, page: VmPagePtr) -> bool {
    &&& pmm.pages.contains_key(page)
    &&& pmm.pages[page].state == VmPageState::SLAB
    &&& !pmm.pages[page].loaned
}

/// All of `pages` are in use as slabs.
pub open spec fn owned(pages: Set<VmPagePtr>, pmm: PmmState) -> bool {
    forall|p: VmPagePtr| #[trigger] pages.contains(p) ==> is_slab(pmm, p)
}

/// What happened between `before` and `after` touches no slab but those in `pages`.
pub open spec fn spares(pages: Set<VmPagePtr>, before: PmmState, after: PmmState) -> bool {
    forall|p: VmPagePtr| #[trigger]
        is_slab(before, p) && !pages.contains(p) ==> is_slab(after, p) && after.pages[p]
            == before.pages[p]
}

/// The pages in `after` that are not in `before` were not in use as slabs.
pub open spec fn grown(before: Set<VmPagePtr>, after: Set<VmPagePtr>, pmm: PmmState) -> bool {
    forall|p: VmPagePtr| #[trigger]
        after.contains(p) && !before.contains(p) ==> !is_slab(pmm, p)
}

/// Where slabs come from and go to.
pub trait SlabProvider: Sized {
    /// What holds of the provider.
    spec fn wf(&self) -> bool;

    /// The slabs that are handed out, with the numbers they were given.
    spec fn slabs(&self) -> Map<VmPagePtr, u32>;

    /// All pages that the provider has allocated, for the slabs and for itself.
    spec fn pages(&self) -> Set<VmPagePtr>;

    /// Slabs are taken back under any number.
    spec fn ignores_ids() -> bool;

    /// What allocating a slab comes to: what it returns, and what becomes of the provider and of
    /// the physical memory manager.
    spec fn alloc_step(
        &self,
        pmm: PmmState,
        result: Result<SlabPage, SlabAllocationError>,
        after: &Self,
        pmm_after: PmmState,
    ) -> bool;

    /// What freeing a slab makes of the provider and of the physical memory manager.
    spec fn free_step(
        &self,
        pmm: PmmState,
        slab: SlabPage,
        after: &Self,
        pmm_after: PmmState,
    ) -> bool;

    /// The slabs are pages that the provider has allocated.
    proof fn lemma_pages(&self)
        requires
            self.wf(),
        ensures
            forall|p: VmPagePtr| #[trigger]
                self.slabs().contains_key(p) ==> self.pages().contains(p),
    ;

    fn alloc_slab(&mut self, pmm: &mut PmmNode) -> (slab: Result<SlabPage, SlabAllocationError>)
        requires
            old(self).wf(),
            old(pmm).wf(),
            owned(old(self).pages(), old(pmm)@),
        ensures
            final(self).wf(),
            final(pmm).wf(),
            old(pmm)@.settled() ==> final(pmm)@.settled(),
            final(pmm)@.arenas == old(pmm)@.arenas,
            owned(final(self).pages(), final(pmm)@),
            spares(old(self).pages(), old(pmm)@, final(pmm)@),
            grown(old(self).pages(), final(self).pages(), old(pmm)@),
            old(self).alloc_step(old(pmm)@, slab, final(self), final(pmm)@),
            match slab {
                Ok(slab) => {
                    &&& !old(self).slabs().contains_key(slab.page)
                    &&& final(self).slabs() == old(self).slabs().insert(slab.page, slab.id)
                },
                Err(_) => final(self).slabs() == old(self).slabs(),
            },
    ;

    fn free_slab(&mut self, pmm: &mut PmmNode, slab: SlabPage)
        requires
            old(self).wf(),
            old(pmm).wf(),
            owned(old(self).pages(), old(pmm)@),
            old(self).slabs().contains_key(slab.page),
            old(self).slabs()[slab.page] == slab.id || Self::ignores_ids(),
        ensures
            final(self).wf(),
            final(pmm).wf(),
            old(pmm)@.settled() ==> final(pmm)@.settled(),
            final(pmm)@.arenas == old(pmm)@.arenas,
            owned(final(self).pages(), final(pmm)@),
            spares(old(self).pages(), old(pmm)@, final(pmm)@),
            final(self).pages().subset_of(old(self).pages()),
            !final(self).pages().contains(slab.page),
            old(self).free_step(old(pmm)@, slab, final(self), final(pmm)@),
            final(self).slabs() == old(self).slabs().remove(slab.page),
    ;
}

/// A provider whose slabs have numbers by which they can be found.
pub trait IdToSlab<const ALLOC_SIZE: usize>: SlabProvider {
    /// All numbers are below this one.
    spec fn slab_limit() -> int;

    /// No two slabs have the same number.
    proof fn lemma_ids(&self)
        requires
            self.wf(),
        ensures
            0 <= Self::slab_limit(),
            forall|p: VmPagePtr| #[trigger]
                self.slabs().contains_key(p) ==> self.slabs()[p] < Self::slab_limit(),
            forall|p: VmPagePtr, q: VmPagePtr|
                #![trigger self.slabs()[p], self.slabs()[q]]
                self.slabs().contains_key(p) && self.slabs().contains_key(q) && self.slabs()[p]
                    == self.slabs()[q] ==> p == q,
    ;

    fn id_to_slab(&self, slab_id: u32) -> (page: VmPagePtr)
        requires
            self.wf(),
            exists|p: VmPagePtr| #[trigger]
                self.slabs().contains_key(p) && self.slabs()[p] == slab_id,
        ensures
            self.slabs().contains_key(page),
            self.slabs()[page] == slab_id,
    ;
}

/// Simple slab allocator that performs its allocations out of pages. This makes it only suitable
/// for small allocations, preferably ones that divide evenly into a page.
///
/// Free regions are tracked in a two level list, with each slab having an internal list of free
/// regions, and the allocator itself having a list of slabs that have at least one free region.
///
/// Slabs that become fully empty are returned, although allocations cannot be moved between slabs,
/// so fragmentation can still occur.
///
/// An allocation is known by its address. What is stored in it is its owner's, but for the first
/// word, which the allocator uses once the allocation is freed.
pub struct PageSlabAllocator<const ALLOC_SIZE: usize, A> {
    full_slabs: VmPageDoublyLinkedList,
    available_slabs: VmPageDoublyLinkedList,
    slabs: SlabTable,
    inner: A,
}

impl<const ALLOC_SIZE: usize, A> View for PageSlabAllocator<ALLOC_SIZE, A> {
    type V = SlabsState;

    closed spec fn view(&self) -> SlabsState {
        SlabsState {
            slabs: self.slabs@,
            full: self.full_slabs@,
            available: self.available_slabs@,
        }
    }
}

impl<const ALLOC_SIZE: usize, A: SlabProvider> PageSlabAllocator<ALLOC_SIZE, A> {
    /// The provider of the slabs.
    pub closed spec fn spec_provider(self) -> A {
        self.inner
    }

    /// The table of slabs is in order.
    pub closed spec fn table_ok(self) -> bool {
        &&& self.slabs.wf(per_slab(ALLOC_SIZE as int))
        &&& self.slabs.count() == self.full_slabs@.len() + self.available_slabs@.len()
    }

    /// The allocator's slabs are those that its provider has handed out.
    pub open spec fn wf(self) -> bool {
        &&& size_ok(ALLOC_SIZE as int)
        &&& self.table_ok()
        &&& self@.wf(ALLOC_SIZE as int)
        &&& self.spec_provider().wf()
        &&& self.spec_provider().slabs().dom() == self@.slabs.dom()
        &&& forall|p: VmPagePtr| #[trigger]
            self@.slabs.contains_key(p) ==> self@.slabs[p].id == self.spec_provider().slabs()[p]
    }

    /// All pages that the allocator has allocated.
    pub open spec fn pages(self) -> Set<VmPagePtr> {
        self.spec_provider().pages()
    }

    /// The allocation at `address` has been made and not been freed.
    pub open spec fn is_allocated(self, address: u64) -> bool {
        self@.is_allocated(address, ALLOC_SIZE as int)
    }

    /// The first word of the allocation at `address`.
    pub open spec fn word(self, address: u64) -> u64 {
        self@.word(address, ALLOC_SIZE as int)
    }

    /// The addresses of all allocations.
    pub open spec fn allocations(self) -> Set<int> {
        self@.allocations(ALLOC_SIZE as int)
    }

    /// Every allocation lies within one page, and no two of them overlap.
    pub proof fn lemma_no_overlap(self, first: u64, second: u64)
        requires
            self.wf(),
            self.is_allocated(first),
            self.is_allocated(second),
            first != second,
        ensures
            first as int % 4096 + ALLOC_SIZE <= 4096,
            first + ALLOC_SIZE <= second || second + ALLOC_SIZE <= first,
    {
        self@.lemma_no_overlap(first, second, ALLOC_SIZE as int);
    }

    /// What an allocation comes to: it is made from the first available slab, and where there is
    /// none, from one that the provider allocates.
    pub open spec fn alloc_outcome(
        self,
        pmm: PmmState,
        address: Result<u64, SlabAllocationError>,
        after: Self,
        pmm_after: PmmState,
    ) -> bool {
        let size = ALLOC_SIZE as int;
        if self@.available.len() > 0 {
            &&& address == Ok::<u64, SlabAllocationError>(self@.next_address(size))
            &&& after@ == self@.taken(size)
            &&& after.spec_provider() == self.spec_provider()
            &&& pmm_after == pmm
        } else {
            exists|slab: Result<SlabPage, SlabAllocationError>| #[trigger]
                self.spec_provider().alloc_step(pmm, slab, &after.spec_provider(), pmm_after) && (
                match slab {
                    Ok(slab) => {
                        &&& address == Ok::<u64, SlabAllocationError>(
                            self@.added(slab, size).next_address(size),
                        )
                        &&& after@ == self@.added(slab, size).taken(size)
                    },
                    Err(error) => {
                        &&& address == Err::<u64, SlabAllocationError>(error)
                        &&& after@ == self@
                    },
                })
        }
    }

    /// There are as many allocations as fit into the slabs.
    pub open spec fn slabs_are_full(self) -> bool {
        self.allocations().len() == self@.slab_count() * per_slab(ALLOC_SIZE as int)
    }

    /// Where the slabs that are there are full, allocating takes one more of the provider, and
    /// fails just when the provider does; where they are not, it succeeds without the provider. An
    /// allocation that is made is one more, and starts at a multiple of its size from the start of
    /// its page.
    pub proof fn lemma_slab_per_full_slabs(
        self,
        pmm: PmmState,
        address: Result<u64, SlabAllocationError>,
        after: Self,
        pmm_after: PmmState,
    )
        requires
            self.wf(),
            after.wf(),
            self.alloc_outcome(pmm, address, after, pmm_after),
            address is Ok ==> self.adds(address->Ok_0, after),
        ensures
            self.allocations().finite(),
            after.allocations().finite(),
            match address {
                Ok(a) => {
                    &&& after.allocations() == self.allocations().insert(a as int)
                    &&& after.allocations().len() == self.allocations().len() + 1
                    &&& after@.slab_count() == self@.slab_count() + if self.slabs_are_full() {
                        1int
                    } else {
                        0
                    }
                    &&& a as int % 4096 % ALLOC_SIZE as int == 0
                },
                Err(_) => after.allocations() == self.allocations() && self.slabs_are_full(),
            },
            if self.slabs_are_full() {
                exists|slab: Result<SlabPage, SlabAllocationError>| #[trigger]
                    self.spec_provider().alloc_step(pmm, slab, &after.spec_provider(), pmm_after)
                        && (slab is Err <==> address is Err)
            } else {
                after.spec_provider() == self.spec_provider() && pmm_after == pmm
            },
    {
        let size = ALLOC_SIZE as int;
        self@.lemma_allocation_count(size);
        after@.lemma_allocation_count(size);
        if address is Ok {
            let a = address->Ok_0;
            assert(after.is_allocated(a));
            assert forall|b: int| #[trigger] after.allocations().contains(b)
                == self.allocations().insert(a as int).contains(b) by {
                if 0 <= b <= u64::MAX && b != a {
                    assert(after.is_allocated(b as u64) == self.is_allocated(b as u64));
                }
            }
            assert(after.allocations() =~= self.allocations().insert(a as int));
            assert(!self.is_allocated(a));
            assert(!self.allocations().contains(a as int));
        }
    }

    /// What freeing an allocation comes to: its slab goes back to the provider with the last
    /// allocation in it.
    pub open spec fn free_outcome(
        self,
        pmm: PmmState,
        address: u64,
        after: Self,
        pmm_after: PmmState,
    ) -> bool {
        let page = page_at(address);
        &&& after@ == self@.given_back(address, ALLOC_SIZE as int)
        &&& if self@.is_last(address) {
            self.spec_provider().free_step(
                pmm,
                SlabPage { page, id: self@.slabs[page].id },
                &after.spec_provider(),
                pmm_after,
            )
        } else {
            after.spec_provider() == self.spec_provider() && pmm_after == pmm
        }
    }

    /// An allocator without any slab.
    pub fn new_with(inner: A) -> (allocator: Self)
        requires
            size_ok(ALLOC_SIZE as int),
            inner.wf(),
            inner.slabs().dom() == Set::<VmPagePtr>::empty(),
        ensures
            allocator.wf(),
            allocator.spec_provider() == inner,
            allocator@.full.len() == 0,
            allocator@.available.len() == 0,
    {
        let allocator = PageSlabAllocator {
            full_slabs: VmPageDoublyLinkedList::new(),
            available_slabs: VmPageDoublyLinkedList::new(),
            slabs: SlabTable::new(Ghost(per_slab(ALLOC_SIZE as int))),
            inner,
        };
        assert(allocator@.slabs.dom() =~= Set::empty());
        allocator
    }

    /// How many allocations a slab holds.
    pub fn allocs_per_slab() -> (count: usize)
        requires
            0 < ALLOC_SIZE <= 4096,
        ensures
            count == per_slab(ALLOC_SIZE as int),
    {
        SIZE / ALLOC_SIZE
    }

    /// The number of slabs it takes to store the specified number of allocations: they fit, and
    /// they would not fit into fewer.
    pub fn slabs_required(num_allocs: usize) -> (slabs: usize)
        requires
            0 < ALLOC_SIZE <= 4096,
        ensures
            slabs == (num_allocs + per_slab(ALLOC_SIZE as int) - 1) / per_slab(ALLOC_SIZE as int),
            slabs_hold(slabs as int, ALLOC_SIZE as int, num_allocs as int),
            forall|fewer: int|
                0 <= fewer < slabs ==> !#[trigger] slabs_hold(
                    fewer,
                    ALLOC_SIZE as int,
                    num_allocs as int,
                ),
    {
        let count: usize = Self::allocs_per_slab();
        let ghost c = count as int;
        proof {
            assert(1 <= 4096int / ALLOC_SIZE as int) by (nonlinear_arith)
                requires
                    0 < ALLOC_SIZE <= 4096,
            ;
        }
        if num_allocs == 0 {
            assert((c - 1) / c == 0) by (nonlinear_arith)
                requires
                    c >= 1,
            ;
            return 0;
        }
        let slabs: usize = (num_allocs - 1) / count;
        proof {
            let n = num_allocs - 1;
            vstd::arithmetic::div_mod::lemma_fundamental_div_mod(n, c);
            vstd::arithmetic::div_mod::lemma_div_plus_one(n, c);
            assert((n / c + 1) * c >= n + 1 && (n / c) * c < n + 1) by (nonlinear_arith)
                requires
                    n == c * (n / c) + n % c,
                    0 <= n % c < c,
            ;
            assert(slabs + 1 <= num_allocs) by (nonlinear_arith)
                requires
                    slabs == n / c,
                    n == num_allocs - 1,
                    c >= 1,
                    n >= 0,
            ;
            assert forall|fewer: int| 0 <= fewer < slabs + 1 implies !#[trigger] slabs_hold(
                fewer,
                ALLOC_SIZE as int,
                num_allocs as int,
            ) by {
                assert(fewer * c <= slabs * c) by (nonlinear_arith)
                    requires
                        fewer <= slabs,
                        c >= 1,
                ;
            }
        }
        slabs + 1
    }

    /// What the address of every allocation is a multiple of: the largest power of two that
    /// divides the size of an allocation.
    pub fn entry_align() -> (align: usize)
        requires
            4 <= ALLOC_SIZE <= 4096,
            ALLOC_SIZE % 4 == 0,
        ensures
            exists|k: nat| align == vstd::arithmetic::power2::pow2(k),
            ALLOC_SIZE as int % align as int == 0,
            ALLOC_SIZE as int / align as int % 2 == 1,
    {
        let mut align: usize = 1;
        let mut rest: usize = ALLOC_SIZE;
        let ghost mut k: nat = 0;
        proof {
            vstd::arithmetic::power2::lemma2_to64();
        }
        while rest % 2 == 0
            invariant
                0 < rest <= ALLOC_SIZE <= 4096,
                align * rest == ALLOC_SIZE,
                0 < align <= 4096,
                align == vstd::arithmetic::power2::pow2(k),
            decreases rest,
        {
            proof {
                assert((align * 2) * (rest as int / 2) == ALLOC_SIZE && align * 2 <= 4096)
                    by (nonlinear_arith)
                    requires
                        align * rest == ALLOC_SIZE,
                        rest % 2 == 0,
                        0 < rest,
                        0 < align,
                        ALLOC_SIZE <= 4096,
                ;
                vstd::arithmetic::power2::lemma_pow2_unfold(k + 1);
                k = k + 1;
            }
            align = align * 2;
            rest = rest / 2;
        }
        proof {
            let a = align as int;
            let r = rest as int;
            assert(ALLOC_SIZE == r * a) by (nonlinear_arith)
                requires
                    align * rest == ALLOC_SIZE,
                    a == align,
                    r == rest,
            ;
            vstd::arithmetic::div_mod::lemma_mod_multiples_basic(r, a);
            vstd::arithmetic::div_mod::lemma_div_by_multiple(r, a);
        }
        align
    }

    /// The number of slabs allocated.
    pub fn allocated_slabs(&self) -> (count: usize)
        requires
            self.wf(),
        ensures
            count == self@.full.len() + self@.available.len(),
    {
        self.slabs.len()
    }

    pub fn provider(&self) -> (provider: &A)
        ensures
            *provider == self.spec_provider(),
    {
        &self.inner
    }

    /// Adds a slab without allocations in front of the available ones.
    fn add_slab(&mut self, pmm: &mut PmmNode) -> (added: Result<(), SlabAllocationError>)
        requires
            old(self).wf(),
            old(pmm).wf(),
            owned(old(self).pages(), old(pmm)@),
        ensures
            final(pmm).wf(),
            old(pmm)@.settled() ==> final(pmm)@.settled(),
            final(pmm)@.arenas == old(pmm)@.arenas,
            owned(final(self).pages(), final(pmm)@),
            spares(old(self).pages(), old(pmm)@, final(pmm)@),
            grown(old(self).pages(), final(self).pages(), old(pmm)@),
            final(self).table_ok(),
            final(self).spec_provider().wf(),
            match added {
                Ok(()) => exists|slab: SlabPage|
                    {
                        &&& #[trigger] old(self).spec_provider().alloc_step(
                            old(pmm)@,
                            Ok(slab),
                            &final(self).spec_provider(),
                            final(pmm)@,
                        )
                        &&& !old(self)@.slabs.contains_key(slab.page)
                        &&& slab.page.paddr % 4096 == 0
                        &&& slab.page.paddr + 4096 <= u64::MAX
                        &&& final(self)@ == old(self)@.added(slab, ALLOC_SIZE as int)
                        &&& final(self).spec_provider().slabs()
                            == old(self).spec_provider().slabs().insert(slab.page, slab.id)
                    },
                Err(error) => final(self).wf() && final(self)@ == old(self)@
                    && old(self).spec_provider().alloc_step(
                    old(pmm)@,
                    Err(error),
                    &final(self).spec_provider(),
                    final(pmm)@,
                ),
            },
    {
        let entries: usize = Self::allocs_per_slab();
        proof {
            lemma_per_slab(ALLOC_SIZE as int);
            self.inner.lemma_pages();
        }
        match self.inner.alloc_slab(pmm) {
            Ok(slab) => {
                proof {
                    self.inner.lemma_pages();
                    assert(self.inner.slabs().contains_key(slab.page));
                    assert(is_slab(pmm@, slab.page));
                    assert(in_arenas(pmm@.arenas, slab.page));
                    let i = choose|i: int| in_arena(pmm@.arenas, i, slab.page);
                    assert(pmm@.arenas[i].wf());
                    if old(self)@.slabs.contains_key(slab.page) {
                        assert(old(self).spec_provider().slabs().dom().contains(slab.page));
                        assert(old(self).spec_provider().slabs().contains_key(slab.page));
                    }
                }
                self.slabs.insert(
                    Slab::new(slab.page, slab.id, entries),
                    Ghost(per_slab(ALLOC_SIZE as int)),
                );
                self.available_slabs.push_front(slab.page);
                assert(self@ =~= old(self)@.added(slab, ALLOC_SIZE as int));
                Ok(())
            },
            Err(error) => Err(error),
        }
    }

    /// Makes an allocation.
    pub fn allocate(&mut self, pmm: &mut PmmNode) -> (address: Result<u64, SlabAllocationError>)
        requires
            old(self).wf(),
            old(pmm).wf(),
            owned(old(self).pages(), old(pmm)@),
        ensures
            final(self).wf(),
            final(pmm).wf(),
            old(pmm)@.settled() ==> final(pmm)@.settled(),
            final(pmm)@.arenas == old(pmm)@.arenas,
            owned(final(self).pages(), final(pmm)@),
            spares(old(self).pages(), old(pmm)@, final(pmm)@),
            grown(old(self).pages(), final(self).pages(), old(pmm)@),
            old(self).alloc_outcome(old(pmm)@, address, *final(self), final(pmm)@),
            address is Ok ==> old(self).adds(address->Ok_0, *final(self)),
            address is Err ==> final(self)@ == old(self)@,
    {
        let entries: usize = Self::allocs_per_slab();
        let ghost size = ALLOC_SIZE as int;
        let ghost before = self@;
        let ghost mut fresh: Option<SlabPage> = None;
        proof {
            lemma_per_slab(size);
        }
        if self.available_slabs.is_empty() {
            match self.add_slab(pmm) {
                Ok(()) => {
                    proof {
                        let slab = choose|slab: SlabPage|
                            {
                                &&& #[trigger] old(self).spec_provider().alloc_step(
                                    old(pmm)@,
                                    Ok(slab),
                                    &self.spec_provider(),
                                    pmm@,
                                )
                                &&& !old(self)@.slabs.contains_key(slab.page)
                                &&& slab.page.paddr % 4096 == 0
                                &&& slab.page.paddr + 4096 <= u64::MAX
                                &&& self@ == old(self)@.added(slab, ALLOC_SIZE as int)
                                &&& self.spec_provider().slabs()
                                    == old(self).spec_provider().slabs().insert(slab.page, slab.id)
                            };
                        fresh = Some(slab);
                        before.lemma_added(slab, size);
                        assert(self@.available[0] == slab.page);
                    }
                },
                Err(error) => {
                    return Err(error);
                },
            }
        }
        let ghost middle = self@;
        proof {
            match fresh {
                Some(slab) => {
                    assert(middle == before.added(slab, size));
                },
                None => {},
            }
            assert forall|i: int| 1 <= i < middle.available.len() implies 0 < middle.slabs[
                #[trigger] middle.available[i]
            ].allocated() by {
                assert(middle.available.contains(middle.available[i]));
            }
            assert(middle.slabs_ok(size));
            middle.lemma_taken(size);
            assert(middle.available.contains(middle.available[0]));
        }
        let page = self.available_slabs.get(0);
        let index: u32 = self.slabs.take(page, entries);
        let full: bool = {
            let slab = self.slabs.get(page, Ghost(entries as int));
            slab.allocated() as usize == entries
        };
        if full {
            let _ = self.available_slabs.pop_front();
            self.full_slabs.push_front(page);
            assert(self.available_slabs@ =~= middle.available.skip(1));
        }
        proof {
            assert(self@ =~= middle.taken(size));
            assert(self@.slabs.dom() =~= middle.slabs.dom());
            assert forall|p: VmPagePtr| #[trigger] self@.slabs.contains_key(p) implies
                self@.slabs[p].id == self.spec_provider().slabs()[p] by {
                assert(middle.slabs.contains_key(p));
                match fresh {
                    Some(slab) => {
                        if p != slab.page {
                            assert(before.slabs.contains_key(p));
                        }
                    },
                    None => {},
                }
            }
            match fresh {
                Some(slab) => {
                    assert(self.spec_provider().slabs().dom() =~= self@.slabs.dom());
                },
                None => {},
            }
            assert(index as int * size <= 4096) by {
                middle.slabs[page].lemma_taken(per_slab(size));
                lemma_entry(page, index as int, size);
            }
        }
        let address: u64 = page.paddr + index as u64 * ALLOC_SIZE as u64;
        proof {
            assert(address == middle.next_address(size));
            if fresh is None {
                assert(before.available.len() > 0);
            } else {
                let slab = fresh->0;
                let r: Result<SlabPage, SlabAllocationError> = Ok(slab);
                assert(old(self).spec_provider().alloc_step(
                    old(pmm)@,
                    r,
                    &self.spec_provider(),
                    pmm@,
                ));
            }
        }
        Ok(address)
    }

    /// Between this state and `after` an allocation was made at `address`: there was none before,
    /// and the others, and what they hold, are as they were.
    pub open spec fn adds(self, address: u64, after: Self) -> bool {
        &&& !self.is_allocated(address)
        &&& after.is_allocated(address)
        &&& forall|a: u64| a != address ==> #[trigger] after.is_allocated(a) == self.is_allocated(a)
        &&& forall|a: u64|
            a != address && self.is_allocated(a) ==> #[trigger] after.word(a) == self.word(a)
        &&& forall|a: u64|
            a != address && self.is_allocated(a) ==> #[trigger] after@.slab_id(a) == self@.slab_id(
                a,
            )
    }

    /// Allocates an area of uninitialized memory and returns its address, or returns an error.
    pub fn allocate_bytes(&mut self, pmm: &mut PmmNode) -> (address: Result<
        u64,
        SlabAllocationError,
    >)
        requires
            old(self).wf(),
            old(pmm).wf(),
            owned(old(self).pages(), old(pmm)@),
        ensures
            final(self).wf(),
            final(pmm).wf(),
            old(pmm)@.settled() ==> final(pmm)@.settled(),
            final(pmm)@.arenas == old(pmm)@.arenas,
            owned(final(self).pages(), final(pmm)@),
            spares(old(self).pages(), old(pmm)@, final(pmm)@),
            grown(old(self).pages(), final(self).pages(), old(pmm)@),
            old(self).alloc_outcome(old(pmm)@, address, *final(self), final(pmm)@),
            address is Ok ==> old(self).adds(address->Ok_0, *final(self)),
            address is Err ==> final(self)@ == old(self)@,
    {
        self.allocate(pmm)
    }

    /// Allocates an area of uninitialized memory capable of holding a single object of type `T`,
    /// which must be compatible with the size and alignment of the allocations.
    pub fn allocate_object<T>(&mut self, pmm: &mut PmmNode) -> (address: Result<
        u64,
        SlabAllocationError,
    >)
        requires
            old(self).wf(),
            old(pmm).wf(),
            owned(old(self).pages(), old(pmm)@),
            vstd::layout::size_of::<T>() <= ALLOC_SIZE,
            ALLOC_SIZE as int % vstd::layout::align_of::<T>() as int == 0,
        ensures
            final(self).wf(),
            final(pmm).wf(),
            old(pmm)@.settled() ==> final(pmm)@.settled(),
            final(pmm)@.arenas == old(pmm)@.arenas,
            owned(final(self).pages(), final(pmm)@),
            spares(old(self).pages(), old(pmm)@, final(pmm)@),
            grown(old(self).pages(), final(self).pages(), old(pmm)@),
            old(self).alloc_outcome(old(pmm)@, address, *final(self), final(pmm)@),
            address is Ok ==> old(self).adds(address->Ok_0, *final(self)),
            address is Ok ==> address->Ok_0 as int % vstd::layout::align_of::<T>() as int == 0,
            address is Err ==> final(self)@ == old(self)@,
    {
        vstd::layout::layout_for_type_is_valid::<T>();
        let address = self.allocate(pmm);
        proof {
            if address is Ok {
                assert(self.is_allocated(address->Ok_0));
                lemma_aligned(
                    address->Ok_0 as int,
                    ALLOC_SIZE as int,
                    vstd::layout::align_of::<T>() as int,
                );
            }
        }
        address
    }

    /// Frees the allocation at `address`.
    pub fn free(&mut self, pmm: &mut PmmNode, address: u64)
        requires
            old(self).wf(),
            old(pmm).wf(),
            owned(old(self).pages(), old(pmm)@),
            old(self).is_allocated(address),
        ensures
            final(self).wf(),
            final(pmm).wf(),
            old(pmm)@.settled() ==> final(pmm)@.settled(),
            final(pmm)@.arenas == old(pmm)@.arenas,
            owned(final(self).pages(), final(pmm)@),
            spares(old(self).pages(), old(pmm)@, final(pmm)@),
            final(self).pages().subset_of(old(self).pages()),
            old(self).free_outcome(old(pmm)@, address, *final(self), final(pmm)@),
            final(self).adds(address, *old(self)),
    {
        let entries: usize = Self::allocs_per_slab();
        let ghost size = ALLOC_SIZE as int;
        let ghost before = self@;
        proof {
            lemma_per_slab(size);
            before.lemma_given_back(address, size);
            lemma_address(address, size);
        }
        let page = VmPagePtr { paddr: round_down(address) };
        let index: u32 = ((address % PAGE_SIZE) / ALLOC_SIZE as u64) as u32;
        let slab = self.slabs.get(page, Ghost(entries as int));
        let id: u32 = slab.id();
        let allocated: usize = slab.allocated() as usize;
        if allocated == 1 {
            // The slab has become empty and can be freed.
            let _ = self.slabs.remove(page, Ghost(entries as int));
            if entries == 1 {
                // It was full before, and is on the list of those.
                self.full_slabs.erase(page);
            } else {
                self.available_slabs.erase(page);
            }
            proof {
                crate::vm_page::lemma_erase(
                    if entries == 1 {
                        before.full
                    } else {
                        before.available
                    },
                    page,
                );
                assert(self.inner.slabs().dom().contains(page));
                assert(self.inner.slabs().contains_key(page));
            }
            self.inner.free_slab(pmm, SlabPage { page, id });
            proof {
                assert(self@ =~= before.given_back(address, size));
                assert(self.inner.slabs().dom() =~= self@.slabs.dom());
                assert forall|p: VmPagePtr| #[trigger] self@.slabs.contains_key(p) implies
                    self@.slabs[p].id == self.spec_provider().slabs()[p] by {
                    assert(before.slabs.contains_key(p));
                }
            }
            return ;
        }
        if allocated == entries {
            // The slab goes from full to having space available. It is placed at the back of the
            // list to encourage allocations to fill up a page.
            proof {
                assert(before.full.contains(page));
                crate::vm_page::lemma_erase(before.full, page);
            }
            self.full_slabs.erase(page);
            self.available_slabs.push_back(page);
        }
        self.slabs.give_back(page, index, entries);
        proof {
            assert(self@ =~= before.given_back(address, size));
            assert(self.inner.slabs().dom() =~= self@.slabs.dom());
            assert forall|p: VmPagePtr| #[trigger] self@.slabs.contains_key(p) implies
                self@.slabs[p].id == self.spec_provider().slabs()[p] by {
                assert(before.slabs.contains_key(p));
            }
        }
    }

    /// Deallocates the storage at `address`, which must have come from an earlier call to
    /// `allocate_object` or `allocate_bytes`.
    pub fn deallocate_bytes(&mut self, pmm: &mut PmmNode, address: u64)
        requires
            old(self).wf(),
            old(pmm).wf(),
            owned(old(self).pages(), old(pmm)@),
            old(self).is_allocated(address),
        ensures
            final(self).wf(),
            final(pmm).wf(),
            old(pmm)@.settled() ==> final(pmm)@.settled(),
            final(pmm)@.arenas == old(pmm)@.arenas,
            owned(final(self).pages(), final(pmm)@),
            spares(old(self).pages(), old(pmm)@, final(pmm)@),
            final(self).pages().subset_of(old(self).pages()),
            old(self).free_outcome(old(pmm)@, address, *final(self), final(pmm)@),
            final(self).adds(address, *old(self)),
    {
        self.free(pmm, address)
    }

    /// Typed convenience wrapper around `deallocate_bytes`.
    pub fn deallocate_object<T>(&mut self, pmm: &mut PmmNode, address: u64)
        requires
            old(self).wf(),
            old(pmm).wf(),
            owned(old(self).pages(), old(pmm)@),
            old(self).is_allocated(address),
        ensures
            final(self).wf(),
            final(pmm).wf(),
            old(pmm)@.settled() ==> final(pmm)@.settled(),
            final(pmm)@.arenas == old(pmm)@.arenas,
            owned(final(self).pages(), final(pmm)@),
            spares(old(self).pages(), old(pmm)@, final(pmm)@),
            final(self).pages().subset_of(old(self).pages()),
            old(self).free_outcome(old(pmm)@, address, *final(self), final(pmm)@),
            final(self).adds(address, *old(self)),
    {
        self.free(pmm, address)
    }

    /// Gives up the allocator and frees all of its slabs, whatever is allocated in them, past the
    /// provider.
    pub fn debug_free_all_slabs(self, pmm: &mut PmmNode)
        requires
            self.wf(),
            old(pmm).wf(),
            owned(self.pages(), old(pmm)@),
        ensures
            final(pmm).wf(),
            old(pmm)@.settled() ==> final(pmm)@.settled(),
            final(pmm)@ == old(pmm)@.give_back(self@.full, PmmOptDelayReuse::Default).give_back(
                self@.available,
                PmmOptDelayReuse::Default,
            ),
    {
        let ghost state = self@;
        let ghost before = pmm@;
        proof {
            self.inner.lemma_pages();
            assert forall|p: VmPagePtr| #[trigger] state.slabs.contains_key(p) implies is_slab(
                before,
                p,
            ) && before.handed_off(p) by {
                assert(self.inner.slabs().dom().contains(p));
                assert(self.inner.slabs().contains_key(p));
                assert(is_slab(before, p));
            }
            assert forall|p: VmPagePtr| #[trigger] state.full.contains(p) implies is_slab(before, p)
                && before.handed_off(p) by {
                assert(state.slabs.contains_key(p));
            }
            assert(before.can_free(state.full));
        }
        let mut this = self;
        pmm.free_list(&mut this.full_slabs, PmmOptDelayReuse::Default);
        proof {
            assert forall|p: VmPagePtr| #[trigger] state.available.contains(p) implies is_slab(
                pmm@,
                p,
            ) && pmm@.handed_off(p) by {
                assert(state.slabs.contains_key(p));
                assert(is_slab(before, p));
                assert(!state.full.contains(p));
            }
            assert(pmm@.can_free(state.available));
        }
        pmm.free_list(&mut this.available_slabs, PmmOptDelayReuse::Default);
    }

    /// Reads the first word of an allocation that is large enough for one.
    pub fn read(&self, address: u64) -> (word: u64)
        requires
            ALLOC_SIZE >= 8,
            self.wf(),
            self.is_allocated(address),
        ensures
            word == self.word(address),
    {
        proof {
            lemma_address(address, ALLOC_SIZE as int);
            lemma_per_slab(ALLOC_SIZE as int);
        }
        let page = VmPagePtr { paddr: round_down(address) };
        let index: u32 = ((address % PAGE_SIZE) / ALLOC_SIZE as u64) as u32;
        self.slabs.get(page, Ghost(per_slab(ALLOC_SIZE as int))).read(index)
    }

    /// Writes the first word of an allocation that is large enough for one.
    pub fn write(&mut self, address: u64, word: u64)
        requires
            ALLOC_SIZE >= 8,
            old(self).wf(),
            old(self).is_allocated(address),
        ensures
            final(self).wf(),
            final(self)@ == old(self)@.written(address, word, ALLOC_SIZE as int),
            final(self).spec_provider() == old(self).spec_provider(),
    {
        let entries: usize = Self::allocs_per_slab();
        let ghost before = self@;
        proof {
            lemma_per_slab(ALLOC_SIZE as int);
            before.lemma_written(address, word, ALLOC_SIZE as int);
            lemma_address(address, ALLOC_SIZE as int);
        }
        let page = VmPagePtr { paddr: round_down(address) };
        let index: u32 = ((address % PAGE_SIZE) / ALLOC_SIZE as u64) as u32;
        self.slabs.write(page, index, word, entries);
        proof {
            assert(self@ =~= before.written(address, word, ALLOC_SIZE as int));
            assert(self.inner.slabs().dom() =~= self@.slabs.dom());
            assert forall|p: VmPagePtr| #[trigger] self@.slabs.contains_key(p) implies
                self@.slabs[p].id == self.spec_provider().slabs()[p] by {
                assert(before.slabs.contains_key(p));
            }
        }
    }
}

/// The number of the `index`th allocation in the slab with the number `slab_id`.
pub open spec fn alloc_id(slab_id: int, index: int, alloc_size: int) -> int {
    slab_id * per_slab(alloc_size) + index
}

/// A number says which slab an allocation is in, and where.
pub proof fn lemma_alloc_id(slab_id: int, index: int, alloc_size: int, limit: int)
    requires
        size_ok(alloc_size),
        0 <= slab_id < limit,
        0 <= index < per_slab(alloc_size),
    ensures
        alloc_id(slab_id, index, alloc_size) / per_slab(alloc_size) == slab_id,
        alloc_id(slab_id, index, alloc_size) % per_slab(alloc_size) == index,
        0 <= alloc_id(slab_id, index, alloc_size) < limit * per_slab(alloc_size),
        0 <= slab_id * per_slab(alloc_size),
{
    lemma_per_slab(alloc_size);
    let entries = per_slab(alloc_size);
    vstd::arithmetic::div_mod::lemma_fundamental_div_mod_converse(
        alloc_id(slab_id, index, alloc_size),
        entries,
        slab_id,
        index,
    );
    assert(slab_id * entries + index < limit * entries && 0 <= slab_id * entries)
        by (nonlinear_arith)
        requires
            0 <= slab_id < limit,
            0 <= index < entries,
    ;
}

impl<const ALLOC_SIZE: usize, A: IdToSlab<ALLOC_SIZE>> PageSlabAllocator<ALLOC_SIZE, A> {
    /// The number of the allocation at `address`.
    pub open spec fn id_of(self, address: u64) -> int {
        alloc_id(
            self@.slab_id(address) as int,
            index_at(address, ALLOC_SIZE as int),
            ALLOC_SIZE as int,
        )
    }

    /// The numbers of all allocations fit in 32 bits.
    pub open spec fn ids_fit(self) -> bool {
        A::slab_limit() * per_slab(ALLOC_SIZE as int) <= 0x1_0000_0000
    }

    /// `slab_id` is the number of a slab.
    pub open spec fn has_slab(self, slab_id: int) -> bool {
        exists|p: VmPagePtr| #[trigger]
            self@.slabs.contains_key(p) && self@.slabs[p].id == slab_id
    }

    /// The numbers of allocations are in range, each leads back to its allocation, and no two
    /// allocations share one.
    pub proof fn lemma_ids(self, first: u64, second: u64)
        requires
            self.wf(),
            self.is_allocated(first),
            self.is_allocated(second),
        ensures
            0 <= self.id_of(first) < A::slab_limit() * per_slab(
                ALLOC_SIZE as int,
            ),
            self.id_of(first) / per_slab(ALLOC_SIZE as int) == self@.slab_id(first),
            self.id_of(first) % per_slab(ALLOC_SIZE as int) == index_at(first, ALLOC_SIZE as int),
            self.has_slab(self.id_of(first) / per_slab(ALLOC_SIZE as int)),
            self.id_of(first) == self.id_of(second) ==> first == second,
            forall|p: VmPagePtr| #[trigger]
                self@.slabs.contains_key(p) && self@.slabs[p].id == self@.slab_id(first) ==> p
                    == page_at(first),
    {
        let size = ALLOC_SIZE as int;
        let limit = A::slab_limit();
        self.spec_provider().lemma_ids();
        lemma_per_slab(size);
        lemma_address(first, size);
        lemma_address(second, size);
        let p = page_at(first);
        let q = page_at(second);
        assert(self.spec_provider().slabs().dom().contains(p));
        assert(self.spec_provider().slabs().contains_key(p));
        assert(self.spec_provider().slabs().dom().contains(q));
        assert(self.spec_provider().slabs().contains_key(q));
        lemma_alloc_id(self@.slab_id(first) as int, index_at(first, size), size, limit);
        lemma_alloc_id(self@.slab_id(second) as int, index_at(second, size), size, limit);
        assert(self@.slabs.contains_key(p) && self@.slabs[p].id == self@.slab_id(first));
        if self.id_of(first) == self.id_of(second) {
            assert(self.spec_provider().slabs()[p] == self.spec_provider().slabs()[q]);
            assert(p == q);
        }
        assert forall|r: VmPagePtr| #[trigger] self@.slabs.contains_key(r) && self@.slabs[r].id
            == self@.slab_id(first) implies r == p by {
            assert(self.spec_provider().slabs().dom().contains(r));
            assert(self.spec_provider().slabs().contains_key(r));
            assert(self.spec_provider().slabs()[p] == self.spec_provider().slabs()[r]);
        }
    }

    /// There are no more allocations than numbers for them.
    pub proof fn lemma_allocation_count(self)
        requires
            self.wf(),
        ensures
            self.allocations().finite(),
            self.allocations().len() <= A::slab_limit() * per_slab(ALLOC_SIZE as int),
    {
        let limit = A::slab_limit() * per_slab(ALLOC_SIZE as int);
        let all = self.allocations();
        let number = |a: int| self.id_of(a as u64);
        let numbers = all.map(number);
        lemma_int_range(0, u64::MAX + 1);
        lemma_len_subset(all, set_int_range(0, u64::MAX + 1));
        assert forall|a: int, b: int|
            all.contains(a) && all.contains(b) && #[trigger] number(a) == #[trigger] number(
                b,
            ) implies a == b by {
            self.lemma_ids(a as u64, b as u64);
        }
        lemma_map_size(all, numbers, number);
        if all.len() > 0 {
            let a = all.choose();
            assert(all.contains(a));
            self.lemma_ids(a as u64, a as u64);
            lemma_int_range(0, limit);
            assert forall|id: int| numbers.contains(id) implies #[trigger] set_int_range(
                0,
                limit,
            ).contains(id) by {
                let b = choose|b: int| all.contains(b) && number(b) == id;
                self.lemma_ids(b as u64, b as u64);
            }
            lemma_len_subset(numbers, set_int_range(0, limit));
        } else {
            self.spec_provider().lemma_ids();
            lemma_per_slab(ALLOC_SIZE as int);
            assert(0 <= limit) by (nonlinear_arith)
                requires
                    limit == A::slab_limit() * per_slab(ALLOC_SIZE as int),
                    0 <= A::slab_limit(),
                    0 <= per_slab(ALLOC_SIZE as int),
            ;
        }
    }

    /// An allocation can be found again from its number: whatever slab that number leads to, the
    /// address there is the allocation's.
    pub proof fn lemma_id_round_trip(self, address: u64, page: VmPagePtr)
        requires
            self.wf(),
            self.is_allocated(address),
            self@.slabs.contains_key(page),
            self@.slabs[page].id == self.id_of(address) / per_slab(ALLOC_SIZE as int),
        ensures
            entry_address(
                page,
                self.id_of(address) % per_slab(ALLOC_SIZE as int),
                ALLOC_SIZE as int,
            ) == address,
    {
        self.lemma_ids(address, address);
        lemma_address(address, ALLOC_SIZE as int);
    }

    /// The number of an allocation, in lieu of its address.
    pub fn alloc_to_id(&self, address: u64) -> (id: u32)
        requires
            self.wf(),
            self.ids_fit(),
            self.is_allocated(address),
        ensures
            id == self.id_of(address),
    {
        let entries: usize = Self::allocs_per_slab();
        proof {
            self.lemma_ids(address, address);
            lemma_address(address, ALLOC_SIZE as int);
            self.spec_provider().lemma_ids();
            assert(self.spec_provider().slabs().dom().contains(page_at(address)));
            assert(self.spec_provider().slabs().contains_key(page_at(address)));
            lemma_alloc_id(
                self@.slab_id(address) as int,
                index_at(address, ALLOC_SIZE as int),
                ALLOC_SIZE as int,
                A::slab_limit(),
            );
        }
        let page = VmPagePtr { paddr: round_down(address) };
        let slab_index: u32 = ((address % PAGE_SIZE) / ALLOC_SIZE as u64) as u32;
        let slab_id: u32 = self.slabs.get(page, Ghost(entries as int)).id();
        slab_id * entries as u32 + slab_index
    }

    /// The address of the allocation with this number.
    pub fn id_to_alloc(&self, id: u32) -> (address: u64)
        requires
            self.wf(),
            self.has_slab(id as int / per_slab(ALLOC_SIZE as int)),
        ensures
            exists|p: VmPagePtr| #[trigger]
                self@.slabs.contains_key(p) && self@.slabs[p].id == id as int / per_slab(
                    ALLOC_SIZE as int,
                ) && address == entry_address(
                    p,
                    id as int % per_slab(ALLOC_SIZE as int),
                    ALLOC_SIZE as int,
                ),
    {
        proof {
            lemma_per_slab(ALLOC_SIZE as int);
        }
        let entries: u32 = Self::allocs_per_slab() as u32;
        let slab_id: u32 = id / entries;
        let index: u32 = id % entries;
        proof {
            let p = choose|p: VmPagePtr| #[trigger]
                self@.slabs.contains_key(p) && self@.slabs[p].id == slab_id;
            assert(self.spec_provider().slabs().dom().contains(p));
            assert(self.spec_provider().slabs().contains_key(p));
        }
        let page = self.inner.id_to_slab(slab_id);
        proof {
            assert(self.spec_provider().slabs().dom().contains(page));
            assert(self@.slabs.contains_key(page));
            lemma_entry(page, index as int, ALLOC_SIZE as int);
        }
        page.paddr + index as u64 * ALLOC_SIZE as u64
    }
}

} // verus!
