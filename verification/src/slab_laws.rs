//! In which order slabs and their entries are used, and what the providers of slabs do.

use vstd::prelude::*;

use crate::page_slab_allocator::{IdToSlab, PageSlabAllocator, SlabAllocationError, SlabProvider};
use crate::pmm_laws::{lemma_allocating, lemma_freeing};
use crate::pmm_model::{alloc_page_state, lemma_unite, PmmOptDelayReuse, PmmState};
use crate::slab::SlabState;
use crate::slab_providers::{BaseSlabProvider, FixedIdSlabProvider, IdSlabProvider};
use crate::slab_state::{
    index_at, lemma_address, lemma_entry, lemma_per_slab, per_slab, size_ok, SlabPage, SlabsState,
};
use crate::vm_page::{VmPage, VmPagePtr, VmPageState};

verus! {

/// Entries of a slab that were never allocated are handed out from the start of the page on, one
/// after the other.
pub proof fn lemma_new_entries_in_order(slab: SlabState)
    requires
        slab.free.len() == 0,
        0 <= slab.peak < u32::MAX,
    ensures
        slab.next() == slab.peak,
        slab.taken().next() == slab.peak + 1,
        slab.taken() == (SlabState { peak: slab.peak + 1, ..slab }),
{
}

/// Of a new slab nothing was ever allocated, and nothing is stored in it.
pub proof fn lemma_new_slab(page: VmPagePtr, id: u32, entries: nat)
    ensures
        ({
            let slab = SlabState::fresh(page, id, entries as int);
            &&& slab.page == page
            &&& slab.id == id
            &&& slab.free.len() == 0
            &&& slab.peak == 0
            &&& slab.next() == 0
            &&& slab.words.len() == entries
            &&& forall|i: int| 0 <= i < entries ==> #[trigger] slab.words[i] == 0
        }),
{
}

/// The entry that was freed last is the next to be allocated, and the one after it is what would
/// have been next without it. Where any was freed, none that was never allocated is touched.
pub proof fn lemma_last_freed_first(slab: SlabState, index: u32)
    requires
        0 <= index < slab.words.len(),
    ensures
        ({
            let freed = slab.given_back(index);
            &&& freed.next() == index
            &&& freed.taken().next() == slab.next()
            &&& freed.taken().free == slab.free
            &&& freed.peak == slab.peak
            &&& freed.taken().peak == slab.peak
            &&& freed.page == slab.page && freed.id == slab.id
            &&& freed.words.len() == slab.words.len()
            &&& freed.words[index as int] == if slab.free.len() == 0 {
                0xffff_ffff
            } else {
                slab.free[0] as int
            }
            &&& forall|i: int|
                0 <= i < slab.words.len() && i != index ==> #[trigger] freed.words[i]
                    == slab.words[i]
        }),
{
    assert(slab.given_back(index).taken().free =~= slab.free);
}

/// A slab holds as many allocations as fit into a page, none of which is larger than asked for.
pub proof fn lemma_entries_fill_the_page(alloc_size: int)
    requires
        0 < alloc_size <= 4096,
    ensures
        per_slab(alloc_size) * alloc_size <= 4096,
        4096 < (per_slab(alloc_size) + 1) * alloc_size,
{
    vstd::arithmetic::div_mod::lemma_fundamental_div_mod(4096, alloc_size);
    let n = per_slab(alloc_size);
    assert(n * alloc_size <= 4096 && 4096 < (n + 1) * alloc_size) by (nonlinear_arith)
        requires
            4096 == alloc_size * n + 4096int % alloc_size,
            0 <= 4096int % alloc_size < alloc_size,
    ;
}

/// An allocation is made from the slab that is first in line: at the position that is next in it,
/// which no other allocation has. The slab leaves the line once it is full, and no other slab moves
/// or changes.
pub proof fn lemma_allocating_from_slabs(state: SlabsState, alloc_size: int)
    requires
        size_ok(alloc_size),
        state.wf(alloc_size),
        state.available.len() > 0,
    ensures
        ({
            let page = state.available[0];
            let slab = state.slabs[page];
            let after = state.taken(alloc_size);
            let address = state.next_address(alloc_size);
            let fills = slab.peak - slab.free.len() + 1 == 4096int / alloc_size;
            &&& page.paddr <= address
            &&& address + alloc_size <= page.paddr + 4096
            &&& address - page.paddr == slab.next() * alloc_size
            &&& after.slabs[page] == slab.taken()
            &&& forall|p: VmPagePtr|
                p != page && state.slabs.contains_key(p) ==> #[trigger] after.slabs[p]
                    == state.slabs[p]
            &&& after.slabs.dom() == state.slabs.dom()
            &&& fills ==> after.available.len() == state.available.len() - 1 && (forall|i: int|
                0 <= i < after.available.len() ==> #[trigger] after.available[i]
                    == state.available[i + 1])
            &&& fills ==> after.full == seq![page] + state.full
            &&& !fills ==> after.available == state.available && after.full == state.full
        }),
{
    let page = state.available[0];
    assert(state.available.contains(page));
    assert forall|i: int| 1 <= i < state.available.len() implies 0 < state.slabs[
        #[trigger] state.available[i]
    ].allocated() by {
        assert(state.available.contains(state.available[i]));
    }
    state.lemma_taken(alloc_size);
    lemma_per_slab(alloc_size);
    state.slabs[page].lemma_taken(per_slab(alloc_size));
    lemma_entry(page, state.slabs[page].next() as int, alloc_size);
}

/// A slab that is added is first in line, with nothing allocated in it. No other slab moves or
/// changes.
pub proof fn lemma_adding_a_slab(state: SlabsState, slab: SlabPage, alloc_size: int)
    requires
        size_ok(alloc_size),
        !state.slabs.contains_key(slab.page),
    ensures
        ({
            let after = state.added(slab, alloc_size);
            &&& after.available.len() == state.available.len() + 1
            &&& after.available[0] == slab.page
            &&& forall|i: int|
                1 <= i < after.available.len() ==> #[trigger] after.available[i]
                    == state.available[i - 1]
            &&& after.full == state.full
            &&& after.slabs.dom() == state.slabs.dom().insert(slab.page)
            &&& after.slabs[slab.page].page == slab.page
            &&& after.slabs[slab.page].id == slab.id
            &&& after.slabs[slab.page].peak == 0
            &&& after.slabs[slab.page].free.len() == 0
            &&& after.slabs[slab.page].words.len() == 4096int / alloc_size
            &&& forall|p: VmPagePtr|
                p != slab.page && state.slabs.contains_key(p) ==> #[trigger] after.slabs[p]
                    == state.slabs[p]
            &&& after.next_address(alloc_size) == slab.page.paddr
        }),
{
    lemma_per_slab(alloc_size);
    let after = state.added(slab, alloc_size);
    assert(after.slabs.dom() =~= state.slabs.dom().insert(slab.page));
    assert(0 * alloc_size == 0) by (nonlinear_arith);
}

/// When an allocation is freed its slab goes with it if that was the last one in it. A slab that was
/// full is last in line afterwards; any other keeps its place. No other slab moves or changes. The
/// position of the allocation is the next to be used in its slab.
pub proof fn lemma_freeing_to_slabs(
    state: SlabsState,
    address: u64,
    page: VmPagePtr,
    alloc_size: int,
)
    requires
        size_ok(alloc_size),
        state.wf(alloc_size),
        state.is_allocated(address, alloc_size),
        page.paddr % 4096 == 0,
        page.paddr <= address < page.paddr + 4096,
    ensures
        ({
            let slab = state.slabs[page];
            let after = state.given_back(address, alloc_size);
            let count = slab.peak - slab.free.len();
            let entries = 4096int / alloc_size;
            &&& state.slabs.contains_key(page)
            &&& 1 <= count <= entries
            &&& forall|p: VmPagePtr|
                p != page && state.slabs.contains_key(p) ==> after.slabs.contains_key(p)
                    && #[trigger] after.slabs[p] == state.slabs[p]
            &&& count == 1 ==> !after.slabs.contains_key(page)
            &&& count == 1 && entries == 1 ==> after.full == state.full.remove_value(page)
                && after.available == state.available
            &&& count == 1 && entries > 1 ==> after.full == state.full && after.available
                == state.available.remove_value(page)
            &&& count > 1 ==> after.slabs[page] == slab.given_back(
                ((address - page.paddr) / alloc_size) as u32,
            )
            &&& count > 1 ==> after.slabs.contains_key(page) && after.slabs[page].next()
                * alloc_size == address - page.paddr && after.slabs[page].peak == slab.peak
                && after.slabs[page].free.len() == slab.free.len() + 1 && after.slabs[page].id
                == slab.id
            &&& count > 1 && count == entries ==> after.full == state.full.remove_value(page)
                && after.available == state.available.push(page)
            &&& 1 < count < entries ==> after.full == state.full && after.available
                == state.available
        }),
{
    assert(crate::pmm_node::page_at(address) == page);
    lemma_address(address, alloc_size);
    lemma_per_slab(alloc_size);
    let index = index_at(address, alloc_size);
    lemma_entry(page, index, alloc_size);
    state.lemma_given_back(address, alloc_size);
    state.slabs[page].lemma_given_back(index as u32, per_slab(alloc_size));
    lemma_last_freed_first(state.slabs[page], index as u32);
}

/// An allocation is numbered by the number of its slab and its position there.
pub proof fn lemma_number_of_an_allocation<const ALLOC_SIZE: usize, A: IdToSlab<ALLOC_SIZE>>(
    allocator: PageSlabAllocator<ALLOC_SIZE, A>,
    address: u64,
    page: VmPagePtr,
)
    requires
        page.paddr % 4096 == 0,
        page.paddr <= address < page.paddr + 4096,
    ensures
        allocator.id_of(address) == allocator@.slabs[page].id * (4096int / ALLOC_SIZE as int) + (
        address - page.paddr) / ALLOC_SIZE as int,
{
    assert(crate::pmm_node::page_at(address) == page);
}

/// A slab without a number is the first free page of the node, marked as a slab; there is one just
/// when a page is free, however few are left. Nothing else of the node's pages changes.
pub proof fn lemma_plain_slab(
    provider: BaseSlabProvider,
    pmm: PmmState,
    result: Result<SlabPage, SlabAllocationError>,
    after: BaseSlabProvider,
    pmm_after: PmmState,
)
    requires
        pmm.wf(),
        provider.alloc_step(pmm, result, &after, pmm_after),
    ensures
        result is Ok <==> pmm.free.len() > 0,
        result matches Ok(slab) ==> {
            &&& slab.page == pmm.free[0]
            &&& slab.id == 0
            &&& pmm_after.free.len() == pmm.free.len() - 1
            &&& forall|i: int| 0 <= i < pmm_after.free.len() ==> #[trigger] pmm_after.free[i]
                == pmm.free[i + 1]
            &&& pmm_after.pages[slab.page] == (VmPage {
                state: VmPageState::SLAB,
                owner: None,
                ..pmm.pages[slab.page]
            })
            &&& forall|p: VmPagePtr|
                p != slab.page && pmm.pages.contains_key(p) ==> #[trigger] pmm_after.pages[p]
                    == pmm.pages[p]
            &&& after.slabs() == provider.slabs().insert(slab.page, 0)
            &&& pmm_after == (PmmState { pages: pmm_after.pages, ..pmm.take_front(1) })
        },
        result is Err ==> pmm_after.pages == pmm.pages && pmm_after.free == pmm.free
            && pmm_after == alloc_page_state(pmm, false) && pmm_after.alloc_failed && after.slabs()
            == provider.slabs(),
{
    if pmm.free.len() > 0 {
        lemma_allocating(pmm, 1);
        assert(pmm.free.contains(pmm.free[0]));
    }
}

/// A slab that is given up is a free page again, the next to be allocated.
pub proof fn lemma_plain_slab_freed(
    provider: BaseSlabProvider,
    pmm: PmmState,
    slab: SlabPage,
    after: BaseSlabProvider,
    pmm_after: PmmState,
)
    requires
        pmm.wf(),
        pmm.can_free(seq![slab.page]),
        provider.free_step(pmm, slab, &after, pmm_after),
    ensures
        pmm_after.free.len() == pmm.free.len() + 1,
        pmm_after.free[0] == slab.page,
        forall|i: int| 1 <= i < pmm_after.free.len() ==> #[trigger] pmm_after.free[i]
            == pmm.free[i - 1],
        pmm_after.pages[slab.page].state == VmPageState::FREE,
        pmm_after == pmm.give_back(seq![slab.page], PmmOptDelayReuse::Default),
        after.slabs() == provider.slabs().remove(slab.page),
{
    lemma_freeing(pmm, seq![slab.page], PmmOptDelayReuse::Default);
    let list = seq![slab.page];
    assert(pmm_after.pages[list[0]].state == VmPageState::FREE);
}

/// A slab with one of a fixed set of numbers gets the lowest that is not in use, and no other number
/// changes hands. Where all are in use there is no slab, and nothing is allocated.
pub proof fn lemma_lowest_number<
    const ALLOC_SIZE: usize,
    const MAX_ALLOCS: usize,
    const SLABS_REQUIRED: usize,
    A: SlabProvider,
>(
    provider: FixedIdSlabProvider<ALLOC_SIZE, MAX_ALLOCS, SLABS_REQUIRED, A>,
    pmm: PmmState,
    result: Result<SlabPage, SlabAllocationError>,
    after: FixedIdSlabProvider<ALLOC_SIZE, MAX_ALLOCS, SLABS_REQUIRED, A>,
    pmm_after: PmmState,
)
    requires
        provider.alloc_step(pmm, result, &after, pmm_after),
        provider.table().len() <= 0x1_0000_0000,
    ensures
        result matches Ok(slab) ==> {
            &&& slab.id < provider.table().len()
            &&& provider.table()[slab.id as int] is None
            &&& forall|j: int| 0 <= j < slab.id ==> (#[trigger] provider.table()[j]) is Some
            &&& after.table().len() == provider.table().len()
            &&& after.table()[slab.id as int] == Some(slab.page)
            &&& forall|j: int|
                0 <= j < provider.table().len() && j != slab.id ==> #[trigger] after.table()[j]
                    == provider.table()[j]
        },
        result is Err ==> after.table() == provider.table(),
        (forall|j: int| 0 <= j < provider.table().len() ==> (#[trigger] provider.table()[j]) is Some)
            ==> result is Err && pmm_after == pmm && after.spec_inner() == provider.spec_inner(),
        (exists|j: int| 0 <= j < provider.table().len() && (#[trigger] provider.table()[j]) is None)
            ==> exists|inner: Result<SlabPage, SlabAllocationError>| #[trigger]
            provider.spec_inner().alloc_step(pmm, inner, &after.spec_inner(), pmm_after) && (inner
                is Ok <==> result is Ok) && (result matches Ok(slab) ==> slab.page
                == inner->Ok_0.page),
{
}

/// A number whose slab is given up can be used again, and no other number changes hands.
pub proof fn lemma_number_freed<
    const ALLOC_SIZE: usize,
    const MAX_ALLOCS: usize,
    const SLABS_REQUIRED: usize,
    A: SlabProvider,
>(
    provider: FixedIdSlabProvider<ALLOC_SIZE, MAX_ALLOCS, SLABS_REQUIRED, A>,
    pmm: PmmState,
    slab: SlabPage,
    after: FixedIdSlabProvider<ALLOC_SIZE, MAX_ALLOCS, SLABS_REQUIRED, A>,
    pmm_after: PmmState,
)
    requires
        provider.free_step(pmm, slab, &after, pmm_after),
        slab.id < provider.table().len(),
    ensures
        after.table().len() == provider.table().len(),
        after.table()[slab.id as int] is None,
        forall|j: int|
            0 <= j < provider.table().len() && j != slab.id ==> #[trigger] after.table()[j]
                == provider.table()[j],
        provider.spec_inner().free_step(pmm, slab, &after.spec_inner(), pmm_after),
{
}

/// Where a number was there for a slab but no page, the number is given back: the same numbers are
/// in use as before, and for the same slabs. Where there was a page, its address is kept under the
/// number that the slab gets.
pub proof fn lemma_number_without_a_slab<
    const ALLOC_SIZE: usize,
    const MAX_ALLOCS: usize,
    const SLABS_REQUIRED: usize,
    const SLAB_ID_SLABS_REQUIRED: usize,
    Slab: IdToSlab<8>,
    A: SlabProvider,
>(
    provider: IdSlabProvider<
        ALLOC_SIZE,
        MAX_ALLOCS,
        SLABS_REQUIRED,
        SLAB_ID_SLABS_REQUIRED,
        Slab,
        A,
    >,
    pmm: PmmState,
    result: Result<SlabPage, SlabAllocationError>,
    after: IdSlabProvider<
        ALLOC_SIZE,
        MAX_ALLOCS,
        SLABS_REQUIRED,
        SLAB_ID_SLABS_REQUIRED,
        Slab,
        A,
    >,
    pmm_after: PmmState,
)
    requires
        provider.wf(),
        provider.alloc_step(pmm, result, &after, pmm_after),
        provider.spec_slab_id_allocator()@.available.len() > 0,
    ensures
        ({
            let numbers = provider.spec_slab_id_allocator();
            let slot = numbers@.next_address(8);
            &&& forall|a: u64|
                a != slot ==> #[trigger] after.spec_slab_id_allocator().is_allocated(a)
                    == numbers.is_allocated(a)
            &&& !numbers.is_allocated(slot)
            &&& result is Err ==> !after.spec_slab_id_allocator().is_allocated(slot)
                && after.spec_slots() == provider.spec_slots()
            &&& result matches Ok(slab) ==> {
                &&& after.spec_slab_id_allocator().is_allocated(slot)
                &&& after.spec_slab_id_allocator().word(slot) == slab.page.paddr
                &&& slab.id == after.spec_slab_id_allocator().id_of(slot) as u32
                &&& after.spec_slots() == provider.spec_slots().insert(slab.page, slot)
                &&& forall|a: u64|
                    numbers.is_allocated(a) ==> #[trigger] after.spec_slab_id_allocator().word(a)
                        == numbers.word(a)
            }
        }),
{
    provider.lemma_parts();
    let numbers = provider.spec_slab_id_allocator();
    let slot = numbers@.next_address(8);
    let taken = numbers@.taken(8);
    assert forall|i: int| 1 <= i < numbers@.available.len() implies 0 < numbers@.slabs[
        #[trigger] numbers@.available[i]
    ].allocated() by {
        assert(numbers@.available.contains(numbers@.available[i]));
    }
    numbers@.lemma_taken(8);
    taken.lemma_given_back(slot, 8);
    if result is Ok {
        taken.lemma_written(slot, result->Ok_0.page.paddr, 8);
    }
}

/// The same where all slabs of numbers are full, so that a new one was taken for it: that goes back
/// too. What is known of the provider of these slabs is that it gives pages that are not yet in use.
pub proof fn lemma_first_number_without_a_slab<
    const ALLOC_SIZE: usize,
    const MAX_ALLOCS: usize,
    const SLABS_REQUIRED: usize,
    const SLAB_ID_SLABS_REQUIRED: usize,
    Slab: IdToSlab<8>,
    A: SlabProvider,
>(
    provider: IdSlabProvider<
        ALLOC_SIZE,
        MAX_ALLOCS,
        SLABS_REQUIRED,
        SLAB_ID_SLABS_REQUIRED,
        Slab,
        A,
    >,
    pmm: PmmState,
    result: Result<SlabPage, SlabAllocationError>,
    after: IdSlabProvider<
        ALLOC_SIZE,
        MAX_ALLOCS,
        SLABS_REQUIRED,
        SLAB_ID_SLABS_REQUIRED,
        Slab,
        A,
    >,
    pmm_after: PmmState,
)
    requires
        provider.wf(),
        result is Err,
        provider.alloc_step(pmm, result, &after, pmm_after),
        provider.spec_slab_id_allocator()@.available.len() == 0,
        forall|slab: SlabPage, left: Slab, pmm_left: PmmState| #[trigger]
            provider.spec_slab_id_allocator().spec_provider().alloc_step(
                pmm,
                Ok(slab),
                &left,
                pmm_left,
            ) ==> usable(provider.spec_slab_id_allocator()@, slab),
    ensures
        forall|a: u64| #[trigger]
            after.spec_slab_id_allocator().is_allocated(a)
                == provider.spec_slab_id_allocator().is_allocated(a),
        after.spec_slab_id_allocator()@.slabs.dom()
            == provider.spec_slab_id_allocator()@.slabs.dom(),
        after.spec_slots() == provider.spec_slots(),
{
    provider.lemma_parts();
    let numbers = provider.spec_slab_id_allocator()@;
    assert forall|slab: SlabPage| #[trigger] usable(numbers, slab) implies {
        let with_slab = numbers.added(slab, 8);
        let end = with_slab.taken(8).given_back(with_slab.next_address(8), 8);
        &&& forall|a: u64| #[trigger] end.is_allocated(a, 8) == numbers.is_allocated(a, 8)
        &&& end.slabs.dom() == numbers.slabs.dom()
    } by {
        let with_slab = numbers.added(slab, 8);
        let slot = with_slab.next_address(8);
        let taken = with_slab.taken(8);
        let end = taken.given_back(slot, 8);
        numbers.lemma_added(slab, 8);
        lemma_per_slab(8);
        assert(with_slab.available =~= seq![slab.page]);
        with_slab.lemma_taken(8);
        taken.lemma_given_back(slot, 8);
        assert forall|a: u64| #[trigger] end.is_allocated(a, 8) == numbers.is_allocated(a, 8) by {
            if a != slot {
                assert(taken.is_allocated(a, 8) == with_slab.is_allocated(a, 8));
            }
            assert(with_slab.is_allocated(a, 8) == numbers.is_allocated(a, 8));
        }
        assert(taken.slabs[slab.page].allocated() == 1);
        assert(end.slabs.dom() =~= numbers.slabs.dom());
    }
}

/// A page that can be added as a slab.
pub open spec fn usable(state: SlabsState, slab: SlabPage) -> bool {
    !state.slabs.contains_key(slab.page) && slab.page.paddr % 4096 == 0 && slab.page.paddr + 4096
        <= u64::MAX
}

/// A slab that is given up gives its number back, and no other.
pub proof fn lemma_slab_and_number_freed<
    const ALLOC_SIZE: usize,
    const MAX_ALLOCS: usize,
    const SLABS_REQUIRED: usize,
    const SLAB_ID_SLABS_REQUIRED: usize,
    Slab: IdToSlab<8>,
    A: SlabProvider,
>(
    provider: IdSlabProvider<
        ALLOC_SIZE,
        MAX_ALLOCS,
        SLABS_REQUIRED,
        SLAB_ID_SLABS_REQUIRED,
        Slab,
        A,
    >,
    pmm: PmmState,
    slab: SlabPage,
    after: IdSlabProvider<
        ALLOC_SIZE,
        MAX_ALLOCS,
        SLABS_REQUIRED,
        SLAB_ID_SLABS_REQUIRED,
        Slab,
        A,
    >,
    pmm_after: PmmState,
)
    requires
        provider.wf(),
        provider.spec_slab_id_allocator().is_allocated(provider.spec_slots()[slab.page]),
        provider.free_step(pmm, slab, &after, pmm_after),
    ensures
        ({
            let numbers = provider.spec_slab_id_allocator();
            let slot = provider.spec_slots()[slab.page];
            &&& !after.spec_slab_id_allocator().is_allocated(slot)
            &&& forall|a: u64|
                a != slot ==> #[trigger] after.spec_slab_id_allocator().is_allocated(a)
                    == numbers.is_allocated(a)
            &&& forall|a: u64|
                a != slot && numbers.is_allocated(a)
                    ==> #[trigger] after.spec_slab_id_allocator().word(a) == numbers.word(a)
            &&& after.spec_slots() == provider.spec_slots().remove(slab.page)
        }),
{
    provider.lemma_parts();
    let numbers = provider.spec_slab_id_allocator();
    numbers@.lemma_given_back(provider.spec_slots()[slab.page], 8);
}

/// Freeing an allocation asks nothing of the provider of the slabs, and nothing of the node, unless
/// it was the last one in its slab: then the slab goes back, under its number.
pub proof fn lemma_when_a_slab_goes<const ALLOC_SIZE: usize, A: SlabProvider>(
    allocator: PageSlabAllocator<ALLOC_SIZE, A>,
    pmm: PmmState,
    address: u64,
    page: VmPagePtr,
    after: PageSlabAllocator<ALLOC_SIZE, A>,
    pmm_after: PmmState,
)
    requires
        allocator.free_outcome(pmm, address, after, pmm_after),
        page.paddr % 4096 == 0,
        page.paddr <= address < page.paddr + 4096,
    ensures
        ({
            let slab = allocator@.slabs[page];
            let count = slab.peak - slab.free.len();
            &&& count != 1 ==> after.spec_provider() == allocator.spec_provider() && pmm_after
                == pmm
            &&& count == 1 ==> allocator.spec_provider().free_step(
                pmm,
                SlabPage { page, id: slab.id },
                &after.spec_provider(),
                pmm_after,
            )
            &&& after@ == allocator@.given_back(address, ALLOC_SIZE as int)
        }),
{
    assert(crate::pmm_node::page_at(address) == page);
}

/// The memory that is used is that of all slabs, each counted once: those that hold allocations and
/// those that hold the numbers of the others.
pub proof fn lemma_every_slab_counts<
    const ALLOC_SIZE: usize,
    const MAX_ALLOCS: usize,
    const SLABS_REQUIRED: usize,
    const SLAB_ID_SLABS_REQUIRED: usize,
    Slab: IdToSlab<8>,
    A: SlabProvider,
>(
    allocator: PageSlabAllocator<
        ALLOC_SIZE,
        IdSlabProvider<ALLOC_SIZE, MAX_ALLOCS, SLABS_REQUIRED, SLAB_ID_SLABS_REQUIRED, Slab, A>,
    >,
)
    requires
        allocator.wf(),
    ensures
        ({
            let numbers = allocator.spec_provider().spec_slab_id_allocator();
            &&& allocator@.slabs.dom().finite()
            &&& numbers@.slabs.dom().finite()
            &&& allocator.slab_count() == allocator@.slabs.dom().len() + numbers@.slabs.dom().len()
        }),
{
    allocator.spec_provider().lemma_parts();
    lemma_number_of_slabs(allocator@, ALLOC_SIZE as int);
    lemma_number_of_slabs(allocator.spec_provider().spec_slab_id_allocator()@, 8);
}

/// Every slab is in one of the two lists.
proof fn lemma_number_of_slabs(state: SlabsState, alloc_size: int)
    requires
        state.wf(alloc_size),
    ensures
        state.slabs.dom().finite(),
        state.slabs.dom().len() == state.full.len() + state.available.len(),
{
    let all = state.full + state.available;
    lemma_unite(state.full, state.available);
    all.unique_seq_to_set();
    vstd::seq_lib::seq_to_set_is_finite(all);
    assert forall|p: VmPagePtr| #[trigger] state.slabs.dom().contains(p)
        <==> all.to_set().contains(p) by {
        assert(state.slabs.contains_key(p) <==> state.full.contains(p)
            || state.available.contains(p));
    }
    assert(state.slabs.dom() =~= all.to_set());
}

} // verus!
