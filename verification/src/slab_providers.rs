//! Where the slabs of a slab allocator come from.

use vstd::prelude::*;

use crate::page_slab_allocator::{
    grown, is_slab, owned, spares, IdToSlab, PageSlabAllocator, SlabAllocationError, SlabProvider,
};
use crate::pmm_model::{alloc_page_result, alloc_page_state, PmmOptDelayReuse, PmmState};
use crate::pmm_node::{PmmNode, ALLOC_FLAG_ANY};
use crate::slab_state::{entry_address, lemma_per_slab, per_slab, size_ok, SlabPage};
use crate::vm_page::{VmPage, VmPagePtr, VmPageState};

verus! {

/// Takes slabs directly from the physical memory manager. It gives them no numbers.
pub struct BaseSlabProvider {
    slabs: Ghost<Map<VmPagePtr, u32>>,
}

impl BaseSlabProvider {
    pub fn new() -> (provider: BaseSlabProvider)
        ensures
            provider.wf(),
            provider.slabs().dom() == Set::<VmPagePtr>::empty(),
            provider.pages() == Set::<VmPagePtr>::empty(),
    {
        let provider = BaseSlabProvider { slabs: Ghost(Map::empty()) };
        assert(provider.slabs().dom() =~= Set::empty());
        assert(provider.pages() =~= Set::empty());
        provider
    }
}

impl SlabProvider for BaseSlabProvider {
    open spec fn wf(&self) -> bool {
        true
    }

    closed spec fn slabs(&self) -> Map<VmPagePtr, u32> {
        self.slabs@
    }

    closed spec fn pages(&self) -> Set<VmPagePtr> {
        self.slabs@.dom()
    }

    open spec fn ignores_ids() -> bool {
        true
    }

    /// A page is allocated that cannot wait, and marked as a slab.
    open spec fn alloc_step(
        &self,
        pmm: PmmState,
        result: Result<SlabPage, SlabAllocationError>,
        after: &Self,
        pmm_after: PmmState,
    ) -> bool {
        let allocated = alloc_page_state(pmm, false);
        match result {
            Ok(slab) => {
                &&& alloc_page_result(pmm, false) == Ok::<VmPagePtr, crate::status::Status>(
                    slab.page,
                )
                &&& slab.id == 0
                &&& pmm_after == allocated.with_record(
                    slab.page,
                    allocated.pages[slab.page].slab(),
                )
                &&& after.slabs() == self.slabs().insert(slab.page, 0)
            },
            Err(_) => {
                &&& alloc_page_result(pmm, false) is Err
                &&& pmm_after == allocated
                &&& after.slabs() == self.slabs()
            },
        }
    }

    /// The page is freed.
    open spec fn free_step(
        &self,
        pmm: PmmState,
        slab: SlabPage,
        after: &Self,
        pmm_after: PmmState,
    ) -> bool {
        &&& pmm_after == pmm.give_back(seq![slab.page], PmmOptDelayReuse::Default)
        &&& after.slabs() == self.slabs().remove(slab.page)
    }

    proof fn lemma_pages(&self) {
    }

    fn alloc_slab(&mut self, pmm: &mut PmmNode) -> (slab: Result<SlabPage, SlabAllocationError>) {
        let ghost before = pmm@;
        assert(0u32 & 1u32 == 0) by (bit_vector);
        match pmm.alloc_page(ALLOC_FLAG_ANY) {
            Ok(page) => {
                let ghost allocated = pmm@;
                proof {
                    assert(before.free.contains(page));
                    crate::pmm_model::lemma_divide(before.free, 1);
                    assert(before.free.take(1)[0] == page);
                    assert(before.free.take(1).contains(page));
                    assert(allocated.pages[page] == before.pages[page].allocated());
                    assert forall|p: VmPagePtr| #[trigger] is_slab(before, p) implies is_slab(
                        allocated,
                        p,
                    ) && allocated.pages[p] == before.pages[p] && p != page by {
                        if before.free.take(1).contains(p) {
                            assert(before.free.contains(p));
                        }
                    }
                    allocated.lemma_with_record(page, allocated.pages[page].slab());
                }
                let record = pmm.page(page);
                pmm.update_page(page, VmPage { state: VmPageState::SLAB, ..record });
                self.slabs = Ghost(self.slabs@.insert(page, 0));
                proof {
                    assert(self.pages() =~= old(self).pages().insert(page));
                }
                Ok(SlabPage { page, id: 0 })
            },
            Err(_) => Err(SlabAllocationError),
        }
    }

    fn free_slab(&mut self, pmm: &mut PmmNode, slab: SlabPage) {
        let ghost before = pmm@;
        let page = slab.page;
        proof {
            assert(is_slab(before, page)) by {
                assert(self.pages().contains(page));
            }
            assert(seq![page].no_duplicates());
            assert forall|p: VmPagePtr| #[trigger] seq![page].contains(p) implies p == page by {}
            assert(seq![page][0] == page);
            assert(seq![page].contains(page));
        }
        pmm.free_page(page, PmmOptDelayReuse::Default);
        self.slabs = Ghost(self.slabs@.remove(page));
        proof {
            assert(self.pages() =~= old(self).pages().remove(page));
        }
    }
}

/// A provider that supports a fixed number of slabs, as determined by `MAX_ALLOCS`, and gives each
/// the lowest number that is not in use.
///
/// The caller must specify `SLABS_REQUIRED` even though it is a function of `MAX_ALLOCS` and
/// `ALLOC_SIZE`: it must be the number of slabs it takes for `MAX_ALLOCS` allocations, which must
/// fill them.
pub struct FixedIdSlabProvider<
    const ALLOC_SIZE: usize,
    const MAX_ALLOCS: usize,
    const SLABS_REQUIRED: usize,
    A,
> {
    slabs: Vec<Option<VmPagePtr>>,
    inner: A,
}

/// The slab with the number `i` is in `page`.
pub open spec fn numbered(slabs: Seq<Option<VmPagePtr>>, i: int, page: VmPagePtr) -> bool {
    0 <= i < slabs.len() && slabs[i] == Some(page)
}

/// The number of the slab in `page`.
pub open spec fn number_of(slabs: Seq<Option<VmPagePtr>>, page: VmPagePtr) -> int {
    choose|i: int| numbered(slabs, i, page)
}

/// `i` is the lowest number not in use, or the number of slabs if there is none.
pub open spec fn is_lowest_free(slabs: Seq<Option<VmPagePtr>>, i: int) -> bool {
    &&& 0 <= i <= slabs.len()
    &&& i < slabs.len() ==> slabs[i] is None
    &&& forall|j: int| 0 <= j < i ==> (#[trigger] slabs[j]) is Some
}

/// The number of slabs is the number it takes, and the allocations fill them.
pub open spec fn slabs_fit(alloc_size: int, max_allocs: int, slabs_required: int) -> bool {
    &&& size_ok(alloc_size)
    &&& slabs_required * per_slab(alloc_size) == max_allocs
    &&& max_allocs <= 0x1_0000_0000
    &&& 0 <= slabs_required
}

/// The numbers of the slabs fit in 32 bits.
proof fn lemma_slabs_fit(alloc_size: int, max_allocs: int, slabs_required: int)
    requires
        slabs_fit(alloc_size, max_allocs, slabs_required),
    ensures
        slabs_required <= 0x1_0000_0000,
{
    lemma_per_slab(alloc_size);
    assert(slabs_required <= max_allocs) by (nonlinear_arith)
        requires
            slabs_required * per_slab(alloc_size) == max_allocs,
            0 <= slabs_required,
            1 <= per_slab(alloc_size),
    ;
}

impl<
    const ALLOC_SIZE: usize,
    const MAX_ALLOCS: usize,
    const SLABS_REQUIRED: usize,
    A: SlabProvider,
> FixedIdSlabProvider<ALLOC_SIZE, MAX_ALLOCS, SLABS_REQUIRED, A> {
    /// Which slab has which number.
    pub closed spec fn table(self) -> Seq<Option<VmPagePtr>> {
        self.slabs@
    }

    /// Where the slabs themselves come from.
    pub closed spec fn spec_inner(self) -> A {
        self.inner
    }

    pub fn new_with(inner: A) -> (provider: Self)
        requires
            slabs_fit(ALLOC_SIZE as int, MAX_ALLOCS as int, SLABS_REQUIRED as int),
            A::ignores_ids(),
            inner.wf(),
            inner.slabs().dom() == Set::<VmPagePtr>::empty(),
        ensures
            provider.wf(),
            provider.slabs().dom() == Set::<VmPagePtr>::empty(),
            provider.pages() == inner.pages(),
            provider.spec_inner() == inner,
            forall|i: int|
                0 <= i < SLABS_REQUIRED ==> (#[trigger] provider.table()[i]) is None,
            provider.table().len() == SLABS_REQUIRED,
    {
        let mut slabs: Vec<Option<VmPagePtr>> = Vec::new();
        let mut i: usize = 0;
        while i < SLABS_REQUIRED
            invariant
                i <= SLABS_REQUIRED,
                slabs@.len() == i,
                forall|j: int| 0 <= j < i ==> (#[trigger] slabs@[j]) is None,
            decreases SLABS_REQUIRED - i,
        {
            slabs.push(None);
            i = i + 1;
        }
        let provider = FixedIdSlabProvider { slabs, inner };
        proof {
            assert(provider.slabs().dom() =~= Set::empty());
            assert forall|p: VmPagePtr| #[trigger] provider.inner.slabs().contains_key(p) implies exists|
                i: int,
            |
                numbered(provider.slabs@, i, p) by {
                assert(provider.inner.slabs().dom().contains(p));
            }
        }
        provider
    }
}

impl<const ALLOC_SIZE: usize, const MAX_ALLOCS: usize, const SLABS_REQUIRED: usize>
    FixedIdSlabProvider<ALLOC_SIZE, MAX_ALLOCS, SLABS_REQUIRED, BaseSlabProvider> {
    pub fn new() -> (provider: Self)
        requires
            slabs_fit(ALLOC_SIZE as int, MAX_ALLOCS as int, SLABS_REQUIRED as int),
        ensures
            provider.wf(),
            provider.slabs().dom() == Set::<VmPagePtr>::empty(),
            provider.pages() == Set::<VmPagePtr>::empty(),
            forall|i: int|
                0 <= i < SLABS_REQUIRED ==> (#[trigger] provider.table()[i]) is None,
            provider.table().len() == SLABS_REQUIRED,
    {
        FixedIdSlabProvider::new_with(BaseSlabProvider::new())
    }
}

impl<
    const ALLOC_SIZE: usize,
    const MAX_ALLOCS: usize,
    const SLABS_REQUIRED: usize,
    A: SlabProvider,
> SlabProvider for FixedIdSlabProvider<ALLOC_SIZE, MAX_ALLOCS, SLABS_REQUIRED, A> {
    closed spec fn wf(&self) -> bool {
        &&& slabs_fit(ALLOC_SIZE as int, MAX_ALLOCS as int, SLABS_REQUIRED as int)
        &&& A::ignores_ids()
        &&& self.inner.wf()
        &&& self.slabs@.len() == SLABS_REQUIRED
        &&& forall|i: int|
            0 <= i < self.slabs@.len() && (#[trigger] self.slabs@[i]) is Some
                ==> self.inner.slabs().contains_key(self.slabs@[i]->0)
        &&& forall|i: int, j: int|
            0 <= i < self.slabs@.len() && 0 <= j < self.slabs@.len() && (
            #[trigger] self.slabs@[i]) is Some && self.slabs@[i] == (#[trigger] self.slabs@[j])
                ==> i == j
        &&& forall|p: VmPagePtr| #[trigger]
            self.inner.slabs().contains_key(p) ==> exists|i: int| numbered(self.slabs@, i, p)
    }

    closed spec fn slabs(&self) -> Map<VmPagePtr, u32> {
        Map::new(
            |p: VmPagePtr| self.inner.slabs().contains_key(p),
            |p: VmPagePtr| number_of(self.slabs@, p) as u32,
        )
    }

    closed spec fn pages(&self) -> Set<VmPagePtr> {
        self.inner.pages()
    }

    open spec fn ignores_ids() -> bool {
        false
    }

    /// The slab gets the lowest number not in use. Where there is none, nothing is allocated.
    open spec fn alloc_step(
        &self,
        pmm: PmmState,
        result: Result<SlabPage, SlabAllocationError>,
        after: &Self,
        pmm_after: PmmState,
    ) -> bool {
        exists|i: int| #[trigger]
            is_lowest_free(self.table(), i) && if i == self.table().len() {
                &&& result == Err::<SlabPage, SlabAllocationError>(SlabAllocationError)
                &&& after.table() == self.table()
                &&& after.spec_inner() == self.spec_inner()
                &&& pmm_after == pmm
            } else {
                exists|slab: Result<SlabPage, SlabAllocationError>| #[trigger]
                    self.spec_inner().alloc_step(pmm, slab, &after.spec_inner(), pmm_after) && (
                    match slab {
                        Ok(slab) => {
                            &&& result == Ok::<SlabPage, SlabAllocationError>(
                                SlabPage { page: slab.page, id: i as u32 },
                            )
                            &&& after.table() == self.table().update(i, Some(slab.page))
                        },
                        Err(error) => {
                            &&& result == Err::<SlabPage, SlabAllocationError>(error)
                            &&& after.table() == self.table()
                        },
                    })
            }
    }

    /// The number is no longer in use.
    open spec fn free_step(
        &self,
        pmm: PmmState,
        slab: SlabPage,
        after: &Self,
        pmm_after: PmmState,
    ) -> bool {
        &&& after.table() == self.table().update(slab.id as int, None)
        &&& self.spec_inner().free_step(pmm, slab, &after.spec_inner(), pmm_after)
    }

    proof fn lemma_pages(&self) {
        self.inner.lemma_pages();
    }

    fn alloc_slab(&mut self, pmm: &mut PmmNode) -> (slab: Result<SlabPage, SlabAllocationError>) {
        // Find an unused number.
        let mut id: usize = 0;
        while id < self.slabs.len() && self.slabs[id].is_some()
            invariant
                *self == *old(self),
                self.wf(),
                id <= self.slabs@.len(),
                forall|j: int| 0 <= j < id ==> (#[trigger] self.slabs@[j]) is Some,
            decreases self.slabs@.len() - id,
        {
            id = id + 1;
        }
        assert(is_lowest_free(old(self).table(), id as int));
        if id == self.slabs.len() {
            return Err(SlabAllocationError);
        }
        proof {
            self.inner.lemma_pages();
        }
        match self.inner.alloc_slab(pmm) {
            Ok(slab) => {
                let ghost before = self.slabs@;
                self.slabs.set(id, Some(slab.page));
                proof {
                    let after = self.slabs@;
                    let page = slab.page;
                    let handed = old(self).inner.slabs();
                    assert(!handed.contains_key(page));
                    assert(numbered(after, id as int, page));
                    assert forall|p: VmPagePtr| #[trigger]
                        self.inner.slabs().contains_key(p) implies exists|i: int|
                        numbered(after, i, p) by {
                        if p != page {
                            assert(handed.contains_key(p));
                            let i = number_of(before, p);
                            assert(numbered(before, i, p));
                            assert(numbered(after, i, p));
                        }
                    }
                    assert(self.wf());
                    assert forall|p: VmPagePtr| self.inner.slabs().contains_key(p) implies
                        #[trigger] self.slabs()[p] == old(self).slabs().insert(page, id as u32)[p] by {
                        let i = number_of(after, p);
                        assert(numbered(after, i, p));
                        if p == page {
                            assert(after[i] == after[id as int]);
                        } else {
                            assert(handed.contains_key(p));
                            let k = number_of(before, p);
                            assert(numbered(before, k, p));
                            assert(after[k] == after[i]);
                        }
                    }
                    assert(self.slabs() =~= old(self).slabs().insert(page, id as u32));
                    let inner: Result<SlabPage, SlabAllocationError> = Ok(slab);
                    assert(old(self).spec_inner().alloc_step(
                        old(pmm)@,
                        inner,
                        &self.spec_inner(),
                        pmm@,
                    ));
                }
                Ok(SlabPage { page: slab.page, id: id as u32 })
            },
            Err(error) => {
                proof {
                    assert(self.slabs() =~= old(self).slabs());
                    let inner: Result<SlabPage, SlabAllocationError> = Err(error);
                    assert(old(self).spec_inner().alloc_step(
                        old(pmm)@,
                        inner,
                        &self.spec_inner(),
                        pmm@,
                    ));
                }
                Err(error)
            },
        }
    }

    fn free_slab(&mut self, pmm: &mut PmmNode, slab: SlabPage) {
        let ghost before = self.slabs@;
        proof {
            lemma_slabs_fit(ALLOC_SIZE as int, MAX_ALLOCS as int, SLABS_REQUIRED as int);
            assert(self.inner.slabs().contains_key(slab.page));
            let i = number_of(before, slab.page);
            assert(numbered(before, i, slab.page));
            assert(slab.id == i);
        }
        self.slabs.set(slab.id as usize, None);
        self.inner.free_slab(pmm, slab);
        proof {
            let after = self.slabs@;
            let page = slab.page;
            let id = slab.id as int;
            let handed = old(self).inner.slabs();
            assert forall|i: int| 0 <= i < after.len() && (#[trigger] after[i]) is Some implies
                self.inner.slabs().contains_key(after[i]->0) by {
                assert(before[i] == after[i]);
                assert(handed.contains_key(before[i]->0));
                assert(before[i] != before[id]);
            }
            assert forall|i: int, j: int|
                0 <= i < after.len() && 0 <= j < after.len() && (#[trigger] after[i]) is Some
                    && after[i] == (#[trigger] after[j]) implies i == j by {
                assert(before[i] == before[j]);
            }
            assert forall|p: VmPagePtr| #[trigger] self.inner.slabs().contains_key(p) implies exists|
                i: int,
            |
                numbered(after, i, p) by {
                assert(handed.contains_key(p));
                let i = number_of(before, p);
                assert(numbered(before, i, p));
                assert(numbered(after, i, p));
            }
            assert(self.wf());
            assert forall|p: VmPagePtr| self.inner.slabs().contains_key(p) implies
                #[trigger] self.slabs()[p] == old(self).slabs()[p] by {
                assert(handed.contains_key(p));
                let i = number_of(after, p);
                assert(numbered(after, i, p));
                let k = number_of(before, p);
                assert(numbered(before, k, p));
                assert(before[i] == before[k]);
            }
            assert(self.slabs() =~= old(self).slabs().remove(page));
        }
    }
}

impl<
    const ALLOC_SIZE: usize,
    const MAX_ALLOCS: usize,
    const SLABS_REQUIRED: usize,
    A: SlabProvider,
> IdToSlab<ALLOC_SIZE> for FixedIdSlabProvider<ALLOC_SIZE, MAX_ALLOCS, SLABS_REQUIRED, A> {
    open spec fn slab_limit() -> int {
        SLABS_REQUIRED as int
    }

    proof fn lemma_ids(&self) {
        lemma_slabs_fit(ALLOC_SIZE as int, MAX_ALLOCS as int, SLABS_REQUIRED as int);
        assert forall|p: VmPagePtr| #[trigger] self.slabs().contains_key(p) implies numbered(
            self.slabs@,
            self.slabs()[p] as int,
            p,
        ) by {
            assert(self.inner.slabs().contains_key(p));
            assert(numbered(self.slabs@, number_of(self.slabs@, p), p));
        }
        assert forall|p: VmPagePtr, q: VmPagePtr|
            #![trigger self.slabs()[p], self.slabs()[q]]
            self.slabs().contains_key(p) && self.slabs().contains_key(q) && self.slabs()[p]
                == self.slabs()[q] implies p == q by {
            assert(numbered(self.slabs@, self.slabs()[p] as int, p));
            assert(numbered(self.slabs@, self.slabs()[q] as int, q));
        }
    }

    fn id_to_slab(&self, slab_id: u32) -> (page: VmPagePtr) {
        proof {
            lemma_slabs_fit(ALLOC_SIZE as int, MAX_ALLOCS as int, SLABS_REQUIRED as int);
            let p = choose|p: VmPagePtr| #[trigger]
                self.slabs().contains_key(p) && self.slabs()[p] == slab_id;
            assert(self.inner.slabs().contains_key(p));
            assert(numbered(self.slabs@, number_of(self.slabs@, p), p));
        }
        match self.slabs[slab_id as usize] {
            Some(page) => page,
            None => VmPagePtr { paddr: 0 },
        }
    }
}

/// A slab allocator that guarantees that the numbers of all allocations are below `MAX_ALLOCS`.
///
/// Due to the static overhead per potential slab this can become quite large as `MAX_ALLOCS`
/// grows. In most cases `IdSlabAllocator` is preferable, as it allocates slab metadata dynamically.
pub type FixedIdSlabAllocator<
    const ALLOC_SIZE: usize,
    const MAX_ALLOCS: usize,
    const SLABS_REQUIRED: usize,
    A,
> = PageSlabAllocator<ALLOC_SIZE, FixedIdSlabProvider<ALLOC_SIZE, MAX_ALLOCS, SLABS_REQUIRED, A>>;

impl<const ALLOC_SIZE: usize, const MAX_ALLOCS: usize, const SLABS_REQUIRED: usize>
    PageSlabAllocator<
        ALLOC_SIZE,
        FixedIdSlabProvider<ALLOC_SIZE, MAX_ALLOCS, SLABS_REQUIRED, BaseSlabProvider>,
    > {
    pub fn new() -> (allocator: Self)
        requires
            slabs_fit(ALLOC_SIZE as int, MAX_ALLOCS as int, SLABS_REQUIRED as int),
        ensures
            allocator.wf(),
            allocator@.full.len() == 0,
            allocator@.available.len() == 0,
            allocator.pages() == Set::<VmPagePtr>::empty(),
            allocator.ids_fit(),
    {
        PageSlabAllocator::new_with(FixedIdSlabProvider::new())
    }
}

/// A provider that keeps the pages of its slabs in another slab allocator. The number of the
/// allocation that holds a slab's page is the number of the slab, which leads back to it.
pub struct IdSlabProvider<
    const ALLOC_SIZE: usize,
    const MAX_ALLOCS: usize,
    const SLABS_REQUIRED: usize,
    const SLAB_ID_SLABS_REQUIRED: usize,
    Slab,
    A,
> {
    base: A,
    /// Allocates the numbers of the slabs, and maps them to the slabs.
    slab_id_allocator: PageSlabAllocator<8, Slab>,
    /// Where the page of each slab is kept.
    slots: Ghost<Map<VmPagePtr, u64>>,
}

impl<
    const ALLOC_SIZE: usize,
    const MAX_ALLOCS: usize,
    const SLABS_REQUIRED: usize,
    const SLAB_ID_SLABS_REQUIRED: usize,
    Slab: IdToSlab<8>,
    A: SlabProvider,
> IdSlabProvider<ALLOC_SIZE, MAX_ALLOCS, SLABS_REQUIRED, SLAB_ID_SLABS_REQUIRED, Slab, A> {
    /// Where the slabs themselves come from.
    pub closed spec fn spec_base(self) -> A {
        self.base
    }

    pub closed spec fn spec_slab_id_allocator(self) -> PageSlabAllocator<8, Slab> {
        self.slab_id_allocator
    }

    /// Where the page of each slab is kept.
    pub closed spec fn spec_slots(self) -> Map<VmPagePtr, u64> {
        self.slots@
    }

    pub fn new_with(base: A, slab_id_allocator: PageSlabAllocator<8, Slab>) -> (provider: Self)
        requires
            slabs_fit(ALLOC_SIZE as int, MAX_ALLOCS as int, SLABS_REQUIRED as int),
            slabs_fit(8, SLABS_REQUIRED as int, SLAB_ID_SLABS_REQUIRED as int),
            slab_id_allocator.wf(),
            Slab::slab_limit() == SLAB_ID_SLABS_REQUIRED,
            A::ignores_ids(),
            base.wf(),
            base.slabs().dom() == Set::<VmPagePtr>::empty(),
            base.pages().disjoint(slab_id_allocator.pages()),
        ensures
            provider.wf(),
            provider.slabs().dom() == Set::<VmPagePtr>::empty(),
            provider.pages() == base.pages() + slab_id_allocator.pages(),
            provider.spec_base() == base,
            provider.spec_slab_id_allocator() == slab_id_allocator,
    {
        let provider = IdSlabProvider { base, slab_id_allocator, slots: Ghost(Map::empty()) };
        proof {
            assert(provider.slots@.dom() =~= provider.base.slabs().dom());
            assert(provider.slabs().dom() =~= Set::empty());
        }
        provider
    }

    pub fn slab_id_allocator(&self) -> (allocator: &PageSlabAllocator<8, Slab>)
        ensures
            *allocator == self.spec_slab_id_allocator(),
    {
        &self.slab_id_allocator
    }
}

/// A page is where `slots` says: its address is the first word of an allocation.
pub open spec fn kept_at<Slab: IdToSlab<8>>(
    allocator: PageSlabAllocator<8, Slab>,
    slots: Map<VmPagePtr, u64>,
    page: VmPagePtr,
) -> bool {
    allocator.is_allocated(slots[page]) && allocator.word(slots[page]) == page.paddr
}

impl<
    const ALLOC_SIZE: usize,
    const MAX_ALLOCS: usize,
    const SLABS_REQUIRED: usize,
    const SLAB_ID_SLABS_REQUIRED: usize,
    Slab: IdToSlab<8>,
    A: SlabProvider,
> SlabProvider for IdSlabProvider<
    ALLOC_SIZE,
    MAX_ALLOCS,
    SLABS_REQUIRED,
    SLAB_ID_SLABS_REQUIRED,
    Slab,
    A,
> {
    closed spec fn wf(&self) -> bool {
        &&& slabs_fit(ALLOC_SIZE as int, MAX_ALLOCS as int, SLABS_REQUIRED as int)
        &&& slabs_fit(8, SLABS_REQUIRED as int, SLAB_ID_SLABS_REQUIRED as int)
        &&& self.slab_id_allocator.wf()
        &&& Slab::slab_limit() == SLAB_ID_SLABS_REQUIRED
        &&& A::ignores_ids()
        &&& self.base.wf()
        &&& self.base.pages().disjoint(self.slab_id_allocator.pages())
        &&& self.slots@.dom() == self.base.slabs().dom()
        &&& forall|p: VmPagePtr| #[trigger]
            self.slots@.contains_key(p) ==> kept_at(self.slab_id_allocator, self.slots@, p)
    }

    closed spec fn slabs(&self) -> Map<VmPagePtr, u32> {
        Map::new(
            |p: VmPagePtr| self.slots@.contains_key(p),
            |p: VmPagePtr| self.slab_id_allocator.id_of(self.slots@[p]) as u32,
        )
    }

    closed spec fn pages(&self) -> Set<VmPagePtr> {
        self.base.pages() + self.slab_id_allocator.pages()
    }

    open spec fn ignores_ids() -> bool {
        false
    }

    /// A number is allocated first and then a slab. Where there is no slab the number is freed.
    open spec fn alloc_step(
        &self,
        pmm: PmmState,
        result: Result<SlabPage, SlabAllocationError>,
        after: &Self,
        pmm_after: PmmState,
    ) -> bool {
        exists|
            slot: Result<u64, SlabAllocationError>,
            allocator: PageSlabAllocator<8, Slab>,
            pmm_slot: PmmState,
        | #[trigger]
            self.spec_slab_id_allocator().alloc_outcome(pmm, slot, allocator, pmm_slot) && (
            match slot {
                Ok(slot) => exists|
                    slab: Result<SlabPage, SlabAllocationError>,
                    pmm_slab: PmmState,
                | #[trigger]
                    self.spec_base().alloc_step(pmm_slot, slab, &after.spec_base(), pmm_slab) && (
                    match slab {
                        Ok(slab) => {
                            &&& result == Ok::<SlabPage, SlabAllocationError>(
                                SlabPage { page: slab.page, id: allocator.id_of(slot) as u32 },
                            )
                            &&& after.spec_slab_id_allocator()@ == allocator@.written(
                                slot,
                                slab.page.paddr,
                                8,
                            )
                            &&& after.spec_slab_id_allocator().spec_provider()
                                == allocator.spec_provider()
                            &&& after.spec_slots() == self.spec_slots().insert(slab.page, slot)
                            &&& pmm_after == pmm_slab
                        },
                        Err(error) => {
                            &&& result == Err::<SlabPage, SlabAllocationError>(error)
                            &&& allocator.free_outcome(
                                pmm_slab,
                                slot,
                                after.spec_slab_id_allocator(),
                                pmm_after,
                            )
                            &&& after.spec_slots() == self.spec_slots()
                        },
                    }),
                Err(error) => {
                    &&& result == Err::<SlabPage, SlabAllocationError>(error)
                    &&& after.spec_slab_id_allocator() == allocator
                    &&& after.spec_base() == self.spec_base()
                    &&& after.spec_slots() == self.spec_slots()
                    &&& pmm_after == pmm_slot
                },
            })
    }

    /// The number is freed first and then the slab.
    open spec fn free_step(
        &self,
        pmm: PmmState,
        slab: SlabPage,
        after: &Self,
        pmm_after: PmmState,
    ) -> bool {
        exists|pmm_slot: PmmState| #[trigger]
            self.spec_slab_id_allocator().free_outcome(
                pmm,
                self.spec_slots()[slab.page],
                after.spec_slab_id_allocator(),
                pmm_slot,
            ) && self.spec_base().free_step(pmm_slot, slab, &after.spec_base(), pmm_after)
                && after.spec_slots() == self.spec_slots().remove(slab.page)
    }

    proof fn lemma_pages(&self) {
        self.base.lemma_pages();
        assert forall|p: VmPagePtr| #[trigger] self.slabs().contains_key(p) implies self.pages().contains(
            p,
        ) by {
            assert(self.slots@.dom().contains(p));
            assert(self.base.slabs().contains_key(p));
        }
    }

    fn alloc_slab(&mut self, pmm: &mut PmmNode) -> (slab: Result<SlabPage, SlabAllocationError>) {
        let ghost before = *self;
        let ghost pmm0 = pmm@;
        let ghost slots = self.slots@;
        proof {
            lemma_owned_parts(self.base.pages(), self.slab_id_allocator.pages(), pmm@);
        }
        // Allocate a new slot to store the slab from the number allocator.
        let slot: u64 = match self.slab_id_allocator.allocate_bytes(pmm) {
            Ok(slot) => slot,
            Err(error) => {
                proof {
                    let result: Result<u64, SlabAllocationError> = Err(error);
                    assert(before.spec_slab_id_allocator().alloc_outcome(
                        pmm0,
                        result,
                        self.spec_slab_id_allocator(),
                        pmm@,
                    ));
                    lemma_others_kept(
                        before.slab_id_allocator.pages(),
                        self.slab_id_allocator.pages(),
                        before.base.pages(),
                        pmm0,
                        pmm@,
                    );
                    assert(self.slabs() =~= before.slabs());
                }
                return Err(error);
            },
        };
        let ghost allocator1 = self.slab_id_allocator;
        let ghost pmm1 = pmm@;
        proof {
            assert(before.spec_slab_id_allocator().alloc_outcome(pmm0, Ok(slot), allocator1, pmm1));
            lemma_others_kept(
                before.slab_id_allocator.pages(),
                allocator1.pages(),
                before.base.pages(),
                pmm0,
                pmm1,
            );
            self.base.lemma_pages();
        }
        match self.base.alloc_slab(pmm) {
            Ok(slab) => {
                let ghost pmm2 = pmm@;
                proof {
                    lemma_others_kept(
                        before.base.pages(),
                        self.base.pages(),
                        allocator1.pages(),
                        pmm1,
                        pmm2,
                    );
                    lemma_ids_fit(allocator1, SLABS_REQUIRED as int, SLAB_ID_SLABS_REQUIRED as int);
                }
                self.slab_id_allocator.write(slot, slab.page.paddr);
                proof {
                    allocator1@.lemma_written(slot, slab.page.paddr, 8);
                    assert(self.slab_id_allocator.is_allocated(slot));
                }
                // The number of the slot is the number of the slab.
                let slab_id: u32 = self.slab_id_allocator.alloc_to_id(slot);
                self.slots = Ghost(slots.insert(slab.page, slot));
                proof {
                    let after = *self;
                    self.base.lemma_pages();
                    assert(!slots.contains_key(slab.page)) by {
                        if slots.contains_key(slab.page) {
                            assert(slots.dom().contains(slab.page));
                            assert(before.base.slabs().contains_key(slab.page));
                        }
                    }
                    assert(after.slots@.dom() =~= after.base.slabs().dom());
                    assert forall|p: VmPagePtr| #[trigger] after.slots@.contains_key(p) implies kept_at(
                        after.slab_id_allocator,
                        after.slots@,
                        p,
                    ) by {
                        if p != slab.page {
                            assert(slots.contains_key(p));
                            assert(kept_at(before.slab_id_allocator, slots, p));
                            assert(slots[p] != slot);
                            assert(allocator1.is_allocated(slots[p]));
                        }
                    }
                    assert(allocator1.id_of(slot) == after.slab_id_allocator.id_of(slot));
                    assert forall|p: VmPagePtr| after.slots@.contains_key(p) implies #[trigger] after.slabs()[p]
                        == before.slabs().insert(slab.page, slab_id)[p] by {
                        if p != slab.page {
                            assert(slots.contains_key(p));
                            assert(kept_at(before.slab_id_allocator, slots, p));
                            assert(slots[p] != slot);
                        }
                    }
                    assert(after.slabs() =~= before.slabs().insert(slab.page, slab_id));
                    let result: Result<SlabPage, SlabAllocationError> = Ok(slab);
                    assert(before.spec_base().alloc_step(pmm1, result, &after.spec_base(), pmm2));
                }
                Ok(SlabPage { page: slab.page, id: slab_id })
            },
            Err(error) => {
                let ghost pmm2 = pmm@;
                proof {
                    lemma_others_kept(
                        before.base.pages(),
                        self.base.pages(),
                        allocator1.pages(),
                        pmm1,
                        pmm2,
                    );
                }
                self.slab_id_allocator.deallocate_bytes(pmm, slot);
                proof {
                    let after = *self;
                    lemma_others_kept(
                        allocator1.pages(),
                        after.slab_id_allocator.pages(),
                        after.base.pages(),
                        pmm2,
                        pmm@,
                    );
                    assert forall|p: VmPagePtr| #[trigger] after.slots@.contains_key(p) implies kept_at(
                        after.slab_id_allocator,
                        after.slots@,
                        p,
                    ) && slots[p] != slot by {
                        assert(kept_at(before.slab_id_allocator, slots, p));
                        assert(slots[p] != slot);
                        assert(allocator1.is_allocated(slots[p]));
                    }
                    assert forall|p: VmPagePtr| after.slots@.contains_key(p) implies #[trigger] after.slabs()[p]
                        == before.slabs()[p] by {
                        assert(kept_at(before.slab_id_allocator, slots, p));
                        assert(slots[p] != slot);
                    }
                    assert(after.slabs() =~= before.slabs());
                    let result: Result<SlabPage, SlabAllocationError> = Err(error);
                    assert(before.spec_base().alloc_step(pmm1, result, &after.spec_base(), pmm2));
                }
                Err(error)
            },
        }
    }

    fn free_slab(&mut self, pmm: &mut PmmNode, slab: SlabPage) {
        let ghost before = *self;
        let ghost pmm0 = pmm@;
        let ghost slots = self.slots@;
        let ghost slot0 = slots[slab.page];
        proof {
            assert(slots.contains_key(slab.page));
            assert(kept_at(self.slab_id_allocator, slots, slab.page));
            lemma_ids_fit(self.slab_id_allocator, SLABS_REQUIRED as int, SLAB_ID_SLABS_REQUIRED as int);
            self.slab_id_allocator.lemma_ids(slot0, slot0);
            assert(slab.id == self.slab_id_allocator.id_of(slot0));
            lemma_owned_parts(self.base.pages(), self.slab_id_allocator.pages(), pmm@);
        }
        // Return the slot used to store the slab to the number allocator.
        let slot: u64 = self.slab_id_allocator.id_to_alloc(slab.id);
        proof {
            let page = choose|p: VmPagePtr| #[trigger]
                before.slab_id_allocator@.slabs.contains_key(p)
                    && before.slab_id_allocator@.slabs[p].id == slab.id as int / per_slab(8)
                    && slot == entry_address(p, slab.id as int % per_slab(8), 8);
            before.slab_id_allocator.lemma_id_round_trip(slot0, page);
            assert(slot == slot0);
        }
        self.slab_id_allocator.deallocate_bytes(pmm, slot);
        let ghost pmm1 = pmm@;
        proof {
            lemma_others_kept(
                before.slab_id_allocator.pages(),
                self.slab_id_allocator.pages(),
                before.base.pages(),
                pmm0,
                pmm1,
            );
            assert(slots.dom().contains(slab.page));
            assert(self.base.slabs().contains_key(slab.page));
        }
        self.base.free_slab(pmm, slab);
        self.slots = Ghost(slots.remove(slab.page));
        proof {
            let after = *self;
            lemma_others_kept(
                before.base.pages(),
                after.base.pages(),
                after.slab_id_allocator.pages(),
                pmm1,
                pmm@,
            );
            assert(before.spec_slab_id_allocator().free_outcome(
                pmm0,
                before.spec_slots()[slab.page],
                after.spec_slab_id_allocator(),
                pmm1,
            ));
            assert(after.slots@.dom() =~= after.base.slabs().dom());
            assert forall|p: VmPagePtr| #[trigger] after.slots@.contains_key(p) implies kept_at(
                after.slab_id_allocator,
                after.slots@,
                p,
            ) && slots[p] != slot by {
                assert(slots.contains_key(p));
                assert(kept_at(before.slab_id_allocator, slots, p));
                if slots[p] == slot {
                    assert(p.paddr == slab.page.paddr);
                }
            }
            assert forall|p: VmPagePtr| after.slots@.contains_key(p) implies #[trigger] after.slabs()[p]
                == before.slabs()[p] by {
                assert(slots.contains_key(p));
                assert(kept_at(before.slab_id_allocator, slots, p));
                assert(slots[p] != slot);
            }
            assert(after.slabs() =~= before.slabs().remove(slab.page));
            before.base.lemma_pages();
            assert(before.base.pages().contains(slab.page));
        }
    }
}

/// What is owned together is owned separately.
proof fn lemma_owned_parts(first: Set<VmPagePtr>, second: Set<VmPagePtr>, pmm: PmmState)
    requires
        owned(first + second, pmm),
    ensures
        owned(first, pmm),
        owned(second, pmm),
{
    assert forall|p: VmPagePtr| #[trigger] first.contains(p) implies is_slab(pmm, p) by {
        assert((first + second).contains(p));
    }
    assert forall|p: VmPagePtr| #[trigger] second.contains(p) implies is_slab(pmm, p) by {
        assert((first + second).contains(p));
    }
}

/// Pages that belong to someone else stay theirs.
proof fn lemma_others_kept(
    before: Set<VmPagePtr>,
    after: Set<VmPagePtr>,
    others: Set<VmPagePtr>,
    pmm: PmmState,
    pmm_after: PmmState,
)
    requires
        spares(before, pmm, pmm_after),
        grown(before, after, pmm) || after.subset_of(before),
        others.disjoint(before) || before.disjoint(others),
        owned(others, pmm),
    ensures
        owned(others, pmm_after),
        others.disjoint(after),
        after.disjoint(others),
{
    assert forall|p: VmPagePtr| #[trigger] others.contains(p) implies is_slab(pmm_after, p)
        && !after.contains(p) by {
        assert(is_slab(pmm, p));
        assert(!before.contains(p));
    }
}

/// The numbers of the slabs fit.
proof fn lemma_ids_fit<Slab: IdToSlab<8>>(
    allocator: PageSlabAllocator<8, Slab>,
    slabs_required: int,
    slab_id_slabs_required: int,
)
    requires
        slabs_fit(8, slabs_required, slab_id_slabs_required),
        Slab::slab_limit() == slab_id_slabs_required,
    ensures
        allocator.ids_fit(),
        Slab::slab_limit() * per_slab(8) == slabs_required,
{
}

impl<
    const ALLOC_SIZE: usize,
    const MAX_ALLOCS: usize,
    const SLABS_REQUIRED: usize,
    const SLAB_ID_SLABS_REQUIRED: usize,
    Slab: IdToSlab<8>,
    A: SlabProvider,
> IdToSlab<ALLOC_SIZE> for IdSlabProvider<
    ALLOC_SIZE,
    MAX_ALLOCS,
    SLABS_REQUIRED,
    SLAB_ID_SLABS_REQUIRED,
    Slab,
    A,
> {
    open spec fn slab_limit() -> int {
        SLABS_REQUIRED as int
    }

    proof fn lemma_ids(&self) {
        let allocator = self.slab_id_allocator;
        let slots = self.slots@;
        lemma_ids_fit(allocator, SLABS_REQUIRED as int, SLAB_ID_SLABS_REQUIRED as int);
        assert forall|p: VmPagePtr| #[trigger] self.slabs().contains_key(p) implies self.slabs()[p]
            < SLABS_REQUIRED && self.slabs()[p] == allocator.id_of(slots[p]) by {
            assert(slots.contains_key(p));
            assert(kept_at(allocator, slots, p));
            allocator.lemma_ids(slots[p], slots[p]);
        }
        assert forall|p: VmPagePtr, q: VmPagePtr|
            #![trigger self.slabs()[p], self.slabs()[q]]
            self.slabs().contains_key(p) && self.slabs().contains_key(q) && self.slabs()[p]
                == self.slabs()[q] implies p == q by {
            assert(slots.contains_key(p));
            assert(slots.contains_key(q));
            assert(kept_at(allocator, slots, p));
            assert(kept_at(allocator, slots, q));
            allocator.lemma_ids(slots[p], slots[q]);
            assert(slots[p] == slots[q]);
            assert(p.paddr == q.paddr);
        }
    }

    fn id_to_slab(&self, slab_id: u32) -> (page: VmPagePtr) {
        let ghost allocator = self.slab_id_allocator;
        let ghost slots = self.slots@;
        let ghost p = choose|p: VmPagePtr| #[trigger]
            self.slabs().contains_key(p) && self.slabs()[p] == slab_id;
        proof {
            assert(slots.contains_key(p));
            assert(kept_at(allocator, slots, p));
            lemma_ids_fit(allocator, SLABS_REQUIRED as int, SLAB_ID_SLABS_REQUIRED as int);
            allocator.lemma_ids(slots[p], slots[p]);
        }
        let slot: u64 = self.slab_id_allocator.id_to_alloc(slab_id);
        proof {
            let page = choose|q: VmPagePtr| #[trigger]
                allocator@.slabs.contains_key(q) && allocator@.slabs[q].id == slab_id as int
                    / per_slab(8) && slot == entry_address(q, slab_id as int % per_slab(8), 8);
            allocator.lemma_id_round_trip(slots[p], page);
            assert(slot == slots[p]);
        }
        VmPagePtr { paddr: self.slab_id_allocator.read(slot) }
    }
}

/// Slab allocator that can convert each allocation to and from a number, with the added guarantee
/// that all numbers are below `MAX_ALLOCS`. This implies that only up to `MAX_ALLOCS` can be
/// allocated at one time.
///
/// The page of each slab is stored in an allocation of another slab allocator, whose number is the
/// number of the slab. This minimizes the metadata: the other allocator grows by a slab only for
/// every so many slabs of this one.
pub type IdSlabAllocator<
    const ALLOC_SIZE: usize,
    const MAX_ALLOCS: usize,
    const SLABS_REQUIRED: usize,
    const SLAB_ID_SLABS_REQUIRED: usize,
    Slab,
    A,
> = PageSlabAllocator<
    ALLOC_SIZE,
    IdSlabProvider<ALLOC_SIZE, MAX_ALLOCS, SLABS_REQUIRED, SLAB_ID_SLABS_REQUIRED, Slab, A>,
>;

impl<
    const ALLOC_SIZE: usize,
    const MAX_ALLOCS: usize,
    const SLABS_REQUIRED: usize,
    const SLAB_ID_SLABS_REQUIRED: usize,
> PageSlabAllocator<
    ALLOC_SIZE,
    IdSlabProvider<
        ALLOC_SIZE,
        MAX_ALLOCS,
        SLABS_REQUIRED,
        SLAB_ID_SLABS_REQUIRED,
        FixedIdSlabProvider<8, SLABS_REQUIRED, SLAB_ID_SLABS_REQUIRED, BaseSlabProvider>,
        BaseSlabProvider,
    >,
> {
    pub fn new() -> (allocator: Self)
        requires
            slabs_fit(ALLOC_SIZE as int, MAX_ALLOCS as int, SLABS_REQUIRED as int),
            slabs_fit(8, SLABS_REQUIRED as int, SLAB_ID_SLABS_REQUIRED as int),
        ensures
            allocator.wf(),
            allocator@.full.len() == 0,
            allocator@.available.len() == 0,
            allocator.pages() == Set::<VmPagePtr>::empty(),
            allocator.ids_fit(),
    {
        let ids: PageSlabAllocator<
            8,
            FixedIdSlabProvider<8, SLABS_REQUIRED, SLAB_ID_SLABS_REQUIRED, BaseSlabProvider>,
        > = PageSlabAllocator::<
            8,
            FixedIdSlabProvider<8, SLABS_REQUIRED, SLAB_ID_SLABS_REQUIRED, BaseSlabProvider>,
        >::new();
        let provider = IdSlabProvider::new_with(BaseSlabProvider::new(), ids);
        assert(provider.pages() =~= Set::empty());
        PageSlabAllocator::new_with(provider)
    }
}

impl<
    const ALLOC_SIZE: usize,
    const MAX_ALLOCS: usize,
    const SLABS_REQUIRED: usize,
    const SLAB_ID_SLABS_REQUIRED: usize,
    Slab: IdToSlab<8>,
    A: SlabProvider,
> PageSlabAllocator<
    ALLOC_SIZE,
    IdSlabProvider<ALLOC_SIZE, MAX_ALLOCS, SLABS_REQUIRED, SLAB_ID_SLABS_REQUIRED, Slab, A>,
> {
    /// The number of slabs, those that hold the numbers of the others among them.
    pub open spec fn slab_count(self) -> nat {
        let ids = self.spec_provider().spec_slab_id_allocator();
        self@.full.len() + self@.available.len() + ids@.full.len() + ids@.available.len()
    }

    /// Total memory usage, in bytes, including any unused portions of slabs, not including the
    /// size of `self`.
    pub fn memory_usage(&self) -> (bytes: usize)
        requires
            self.wf(),
            self.slab_count() * 4096 <= usize::MAX,
        ensures
            bytes == self.slab_count() * 4096,
    {
        proof {
            self.spec_provider().lemma_parts();
        }
        (self.allocated_slabs() + self.provider().slab_id_allocator().allocated_slabs())
            * crate::page::SIZE
    }
}

impl<
    const ALLOC_SIZE: usize,
    const MAX_ALLOCS: usize,
    const SLABS_REQUIRED: usize,
    const SLAB_ID_SLABS_REQUIRED: usize,
    Slab: IdToSlab<8>,
    A: SlabProvider,
> IdSlabProvider<ALLOC_SIZE, MAX_ALLOCS, SLABS_REQUIRED, SLAB_ID_SLABS_REQUIRED, Slab, A> {
    /// The parts of a provider are in order.
    pub proof fn lemma_parts(self)
        requires
            self.wf(),
        ensures
            self.spec_slab_id_allocator().wf(),
            self.spec_base().wf(),
            slabs_fit(ALLOC_SIZE as int, MAX_ALLOCS as int, SLABS_REQUIRED as int),
    {
    }
}

/// An additional level of indirection for the allocation of numbers, which limits the growth of
/// metadata further.
pub type TwoLevelIdSlabAllocator<
    const ALLOC_SIZE: usize,
    const MAX_ALLOCS: usize,
    const SLABS_REQUIRED: usize,
    const LEVEL2_SLABS_REQUIRED: usize,
    const LEVEL2_SLAB_ID_SLABS_REQUIRED: usize,
    A,
> = PageSlabAllocator<
    ALLOC_SIZE,
    IdSlabProvider<
        ALLOC_SIZE,
        MAX_ALLOCS,
        SLABS_REQUIRED,
        LEVEL2_SLABS_REQUIRED,
        IdSlabProvider<
            8,
            SLABS_REQUIRED,
            LEVEL2_SLABS_REQUIRED,
            LEVEL2_SLAB_ID_SLABS_REQUIRED,
            FixedIdSlabProvider<
                8,
                LEVEL2_SLABS_REQUIRED,
                LEVEL2_SLAB_ID_SLABS_REQUIRED,
                BaseSlabProvider,
            >,
            BaseSlabProvider,
        >,
        A,
    >,
>;

/// The numbers of a fixed slab allocator are all below `MAX_ALLOCS`, and no two allocations share
/// one.
pub proof fn lemma_fixed_ids_below_max<
    const ALLOC_SIZE: usize,
    const MAX_ALLOCS: usize,
    const SLABS_REQUIRED: usize,
    A: SlabProvider,
>(
    allocator: FixedIdSlabAllocator<ALLOC_SIZE, MAX_ALLOCS, SLABS_REQUIRED, A>,
    first: u64,
    second: u64,
)
    requires
        allocator.wf(),
        allocator.is_allocated(first),
        allocator.is_allocated(second),
    ensures
        0 <= allocator.id_of(first) < MAX_ALLOCS,
        first != second ==> allocator.id_of(first) != allocator.id_of(second),
{
    allocator.lemma_ids(first, second);
    assert(allocator.spec_provider().wf());
}

/// No more than `MAX_ALLOCS` allocations of a fixed slab allocator are there at a time.
pub proof fn lemma_fixed_at_most_max<
    const ALLOC_SIZE: usize,
    const MAX_ALLOCS: usize,
    const SLABS_REQUIRED: usize,
    A: SlabProvider,
>(allocator: FixedIdSlabAllocator<ALLOC_SIZE, MAX_ALLOCS, SLABS_REQUIRED, A>)
    requires
        allocator.wf(),
    ensures
        allocator.allocations().finite(),
        allocator.allocations().len() <= MAX_ALLOCS,
{
    allocator.lemma_allocation_count();
    assert(allocator.spec_provider().wf());
}

/// The numbers of a slab allocator that stores its slabs' pages in another are all below
/// `MAX_ALLOCS`, and no two allocations share one.
pub proof fn lemma_ids_below_max<
    const ALLOC_SIZE: usize,
    const MAX_ALLOCS: usize,
    const SLABS_REQUIRED: usize,
    const SLAB_ID_SLABS_REQUIRED: usize,
    Slab: IdToSlab<8>,
    A: SlabProvider,
>(
    allocator: IdSlabAllocator<
        ALLOC_SIZE,
        MAX_ALLOCS,
        SLABS_REQUIRED,
        SLAB_ID_SLABS_REQUIRED,
        Slab,
        A,
    >,
    first: u64,
    second: u64,
)
    requires
        allocator.wf(),
        allocator.is_allocated(first),
        allocator.is_allocated(second),
    ensures
        0 <= allocator.id_of(first) < MAX_ALLOCS,
        first != second ==> allocator.id_of(first) != allocator.id_of(second),
{
    allocator.lemma_ids(first, second);
    allocator.spec_provider().lemma_parts();
}

/// No more than `MAX_ALLOCS` allocations of a slab allocator that stores its slabs' pages in another
/// are there at a time.
pub proof fn lemma_at_most_max<
    const ALLOC_SIZE: usize,
    const MAX_ALLOCS: usize,
    const SLABS_REQUIRED: usize,
    const SLAB_ID_SLABS_REQUIRED: usize,
    Slab: IdToSlab<8>,
    A: SlabProvider,
>(
    allocator: IdSlabAllocator<
        ALLOC_SIZE,
        MAX_ALLOCS,
        SLABS_REQUIRED,
        SLAB_ID_SLABS_REQUIRED,
        Slab,
        A,
    >,
)
    requires
        allocator.wf(),
    ensures
        allocator.allocations().finite(),
        allocator.allocations().len() <= MAX_ALLOCS,
{
    allocator.lemma_allocation_count();
    allocator.spec_provider().lemma_parts();
}

} // verus!
