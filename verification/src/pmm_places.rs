//! Where pages are: their addresses, their numbers, the runs they make, and what there is of them in
//! all.

use vstd::arithmetic::power2::pow2;
use vstd::prelude::*;

use crate::pmm_arena::{PmmArena, PmmArenaInfo};
use crate::pmm_model::{
    arenas_ok, in_arena, in_arenas, nth_page, page_run, total_bytes, PmmState,
};
use crate::pmm_node::{
    arena_of, broken_pages, checked, failed_count, indexed_page, lemma_index_round_trip,
    lemma_one_arena, page_at, page_index, released, run_alignment, valid_index, PmmNode,
};
use crate::vm_page::{VmPage, VmPagePtr, VmPageState};

verus! {

/// The page that holds an address starts at a page boundary, no more than a page before it.
pub proof fn lemma_page_at(address: u64)
    ensures
        page_at(address).paddr <= address,
        address - page_at(address).paddr < 4096,
        page_at(address).paddr % 4096 == 0,
{
}

/// The pages of a run follow each other without a gap.
pub proof fn lemma_run_addresses(page: VmPagePtr, count: int)
    requires
        0 <= count,
        page.paddr + count * 4096 <= u64::MAX,
    ensures
        page_run(page, count).len() == count,
        forall|i: int|
            0 <= i < count ==> (#[trigger] page_run(page, count)[i]).paddr == page.paddr + i * 4096,
        forall|i: int| 0 <= i <= count ==> (#[trigger] nth_page(page, i)).paddr == page.paddr + i * 4096,
{
}

/// The number of a page tells its arena, in the four bits above the lowest three, and its position
/// there, counted from one, in the bits above those.
pub proof fn lemma_page_number(arenas: Seq<PmmArenaInfo>, i: int, page: VmPagePtr)
    requires
        arenas_ok(arenas),
        0 <= i < arenas.len(),
        arenas[i].base <= page.paddr < arenas[i].base + arenas[i].size,
        page.paddr % 4096 == 0,
    ensures
        page_index(arenas, page) == ((page.paddr - arenas[i].base) / 4096 + 1) * 128 + i * 8,
        0 < page_index(arenas, page) <= u32::MAX,
        valid_index(arenas, page_index(arenas, page) as u32),
        indexed_page(arenas, page_index(arenas, page) as u32) == page,
{
    assert(in_arena(arenas, i, page));
    lemma_one_arena(arenas, i, page);
    lemma_index_round_trip(arenas, page);
}

/// What is in no arena, or is no page, has no number.
pub proof fn lemma_no_page_number(arenas: Seq<PmmArenaInfo>, page: VmPagePtr)
    requires
        forall|i: int|
            0 <= i < arenas.len() ==> !((#[trigger] arenas[i]).base <= page.paddr < arenas[i].base
                + arenas[i].size && page.paddr % 4096 == 0),
    ensures
        page_index(arenas, page) == 0,
{
    if in_arenas(arenas, page) {
        let i = arena_of(arenas, page);
        assert(in_arena(arenas, i, page));
        assert(arenas[i].has(page));
    }
}

/// A number leads to the page that it was made from, and only numbers of pages lead anywhere.
pub proof fn lemma_numbered_page(arenas: Seq<PmmArenaInfo>, index: u32)
    requires
        arenas_ok(arenas),
    ensures
        ({
            let i = index as int / 8 % 16;
            let k = index as int / 128 - 1;
            &&& valid_index(arenas, index) <==> i < arenas.len() && 0 <= k && k * 4096
                < arenas[i].size
            &&& valid_index(arenas, index) ==> indexed_page(arenas, index).paddr == arenas[i].base
                + k * 4096
        }),
{
    let i = index as int / 8 % 16;
    if i < arenas.len() {
        assert(arenas[i].wf());
    }
}

/// The alignment of a run is the one that is asked for, or that of a page if that is larger.
pub proof fn lemma_run_alignment(alignment_log2: u8)
    ensures
        run_alignment(alignment_log2) >= 12,
        run_alignment(alignment_log2) >= alignment_log2,
        run_alignment(alignment_log2) == 12 || run_alignment(alignment_log2) == alignment_log2,
{
}

/// A page can be allocated if it is a page of the node, free, and not on loan.
pub proof fn lemma_allocatable(state: PmmState, page: VmPagePtr)
    ensures
        state.allocatable(page) <==> state.pages.contains_key(page) && state.pages[page].state
            == VmPageState::FREE && !state.pages[page].loaned,
{
}

/// A run can be allocated if it starts at an aligned page, lies in one arena from start to end, and
/// every one of its pages is free and not on loan.
pub proof fn lemma_contiguous(state: PmmState, page: VmPagePtr, count: int, alignment_log2: nat)
    requires
        state.wf(),
        count > 0,
    ensures
        state.contiguous_run(page, count, alignment_log2) <==> {
            &&& page.paddr as int % (pow2(alignment_log2) as int) == 0
            &&& page.paddr % 4096 == 0
            &&& exists|i: int|
                0 <= i < state.arenas.len() && (#[trigger] state.arenas[i]).base <= page.paddr
                    && page.paddr + count * 4096 <= state.arenas[i].base + state.arenas[i].size
            &&& forall|p: VmPagePtr|
                page.paddr <= p.paddr < page.paddr + count * 4096 && p.paddr % 4096 == 0 ==> (
                #[trigger] state.pages[p]).state == VmPageState::FREE && !state.pages[p].loaned
        },
{
    if state.contiguous_run(page, count, alignment_log2) {
        let i = choose|i: int| state.contiguous_in(i, page, count, alignment_log2);
        assert(state.arenas[i].wf());
        assert(state.arenas[i].base <= page.paddr);
        assert forall|p: VmPagePtr|
            page.paddr <= p.paddr < page.paddr + count * 4096 && p.paddr % 4096 == 0 implies (
        #[trigger] state.pages[p]).state == VmPageState::FREE && !state.pages[p].loaned by {
            let j = (p.paddr - page.paddr) / 4096;
            assert(p.paddr == page.paddr + j * 4096);
            assert(nth_page(page, j) == p);
            assert(state.allocatable(nth_page(page, j)));
        }
    }
    if {
        &&& page.paddr as int % (pow2(alignment_log2) as int) == 0
        &&& page.paddr % 4096 == 0
        &&& exists|i: int|
            0 <= i < state.arenas.len() && (#[trigger] state.arenas[i]).base <= page.paddr
                && page.paddr + count * 4096 <= state.arenas[i].base + state.arenas[i].size
        &&& forall|p: VmPagePtr|
            page.paddr <= p.paddr < page.paddr + count * 4096 && p.paddr % 4096 == 0 ==> (
            #[trigger] state.pages[p]).state == VmPageState::FREE && !state.pages[p].loaned
    } {
        let i = choose|i: int|
            0 <= i < state.arenas.len() && (#[trigger] state.arenas[i]).base <= page.paddr
                && page.paddr + count * 4096 <= state.arenas[i].base + state.arenas[i].size;
        assert(state.arenas[i].wf());
        assert forall|j: int| 0 <= j < count implies state.allocatable(
            #[trigger] nth_page(page, j),
        ) by {
            let p = nth_page(page, j);
            assert(p.paddr == page.paddr + j * 4096);
            assert(state.arenas[i].has(p));
            assert(in_arena(state.arenas, i, p));
            assert(in_arenas(state.arenas, p));
            assert(state.pages.contains_key(p));
            assert(state.pages[p].state == VmPageState::FREE);
        }
        assert(state.contiguous_in(i, page, count, alignment_log2));
    }
}

/// As many pages of a run can be allocated as are free and not on loan before the first that is not,
/// or that is no page of the node.
pub proof fn lemma_free_run(state: PmmState, page: VmPagePtr, count: nat)
    requires
        state.wf(),
    ensures
        ({
            let length = state.free_run_length(page, count);
            &&& length <= count
            &&& page.paddr + length * 4096 <= u64::MAX
            &&& forall|p: VmPagePtr|
                page.paddr <= p.paddr < page.paddr + length * 4096 && (p.paddr - page.paddr) % 4096
                    == 0 ==> state.pages.contains_key(p) && (#[trigger] state.pages[p]).state
                    == VmPageState::FREE && !state.pages[p].loaned
            &&& length < count ==> {
                let p = VmPagePtr { paddr: (page.paddr + length * 4096) as u64 };
                !(state.pages.contains_key(p) && state.pages[p].state == VmPageState::FREE
                    && !state.pages[p].loaned)
            }
        }),
    decreases count,
{
    let length = state.free_run_length(page, count);
    if length > 0 {
        let next = nth_page(page, 1);
        let rest = (count - 1) as nat;
        assert(in_arenas(state.arenas, page));
        let i = arena_of(state.arenas, page);
        assert(in_arena(state.arenas, i, page));
        assert(state.arenas[i].wf());
        assert(next.paddr == page.paddr + 4096);
        lemma_free_run(state, next, rest);
    }
}

/// The bytes of the arenas add up.
pub proof fn lemma_total_bytes(arenas: Seq<PmmArenaInfo>, info: PmmArenaInfo)
    ensures
        total_bytes(Seq::<PmmArenaInfo>::empty()) == 0,
        total_bytes(arenas.push(info)) == total_bytes(arenas) + info.size,
{
    assert(arenas.push(info).drop_last() =~= arenas);
}

/// The failed allocations of the nodes add up, as far as the count goes.
pub proof fn lemma_failed_count(nodes: Seq<&PmmNode>, node: &PmmNode)
    ensures
        ({
            let sum = failed_count(nodes) + node@.alloc_failed_count;
            &&& failed_count(Seq::<&PmmNode>::empty()) == 0
            &&& i64::MIN <= sum <= i64::MAX ==> failed_count(nodes.push(node)) == sum
            &&& sum > i64::MAX ==> failed_count(nodes.push(node)) == sum - 0x1_0000_0000_0000_0000
            &&& sum < i64::MIN ==> failed_count(nodes.push(node)) == sum + 0x1_0000_0000_0000_0000
        }),
{
    assert(nodes.push(node).drop_last() =~= nodes);
}

/// The pages that are reported are those for which the answer is no, each once and in their order.
pub proof fn lemma_broken_pages(list: Seq<VmPagePtr>, answers: Seq<bool>)
    requires
        list.len() == answers.len(),
        list.no_duplicates(),
    ensures
        ({
            let broken = broken_pages(list, answers);
            &&& broken.len() <= list.len()
            &&& forall|i: int|
                0 <= i < list.len() ==> (broken.contains(#[trigger] list[i]) <==> !answers[i])
            &&& forall|k: int| 0 <= k < broken.len() ==> list.contains(#[trigger] broken[k])
            &&& forall|j: int, k: int|
                0 <= j < k < broken.len() ==> list.index_of(#[trigger] broken[j]) < list.index_of(
                    #[trigger] broken[k],
                )
        }),
    decreases list.len(),
{
    if list.len() > 0 {
        let rest = list.drop_last();
        let before = broken_pages(rest, answers.drop_last());
        let broken = broken_pages(list, answers);
        let n = rest.len() as int;
        lemma_broken_pages(rest, answers.drop_last());
        assert forall|k: int| 0 <= k < before.len() implies list.contains(#[trigger] before[k])
            && list.index_of(before[k]) == rest.index_of(before[k]) && list.index_of(before[k])
            < n by {
            let i = rest.index_of(before[k]);
            assert(rest.contains(before[k]));
            assert(rest[i] == before[k]);
            assert(list[i] == before[k]);
        }
        assert(list[n] == list.last());
        assert(list.index_of(list.last()) == n);
        assert forall|k: int| 0 <= k < broken.len() implies list.contains(#[trigger] broken[k]) by {
            if k < before.len() {
                assert(broken[k] == before[k]);
            }
        }
        assert forall|j: int, k: int| 0 <= j < k < broken.len() implies list.index_of(
            #[trigger] broken[j],
        ) < list.index_of(#[trigger] broken[k]) by {
            assert(broken[j] == before[j]);
            if k < before.len() {
                assert(broken[k] == before[k]);
            }
        }
        assert forall|i: int| 0 <= i < list.len() implies (broken.contains(#[trigger] list[i])
            <==> !answers[i]) by {
            if i < n {
                assert(rest[i] == list[i]);
                if broken.contains(list[i]) {
                    let k = choose|k: int| 0 <= k < broken.len() && broken[k] == list[i];
                    assert(k < before.len());
                    assert(before[k] == list[i]);
                }
                if before.contains(list[i]) {
                    let k = choose|k: int| 0 <= k < before.len() && before[k] == list[i];
                    assert(broken[k] == list[i]);
                }
            } else {
                if broken.contains(list[i]) && answers[i] {
                    let k = choose|k: int| 0 <= k < before.len() && before[k] == list[i];
                    assert(list.index_of(before[k]) < n);
                }
                if !answers[i] {
                    assert(broken[before.len() as int] == list[i]);
                }
            }
        }
    }
}

/// A page that has come online is free, on loan to nobody, nobody's, not pinned, and does not hold
/// the fill pattern.
pub proof fn lemma_fresh_page()
    ensures
        VmPage::fresh() == (VmPage {
            state: VmPageState::FREE,
            loaned: false,
            loan_cancelled: false,
            owner: None,
            object: None,
            pin_count: 0,
            filled: false,
        }),
{
}

/// A run of pages of an arena can be allocated if it lies in the arena, its first page is aligned,
/// and all of its pages are free and not on loan.
pub proof fn lemma_run_in_an_arena(arena: PmmArena, start: int, count: int, alignment_log2: nat)
    ensures
        arena.run_at(start, count, alignment_log2) <==> {
            &&& 0 <= start
            &&& start + count <= arena.pages().len()
            &&& (arena.spec_info().base + start * 4096) % (pow2(alignment_log2) as int) == 0
            &&& forall|i: int|
                start <= i < start + count ==> (#[trigger] arena.pages()[i]).state
                    == VmPageState::FREE && !arena.pages()[i].loaned
        },
{
    if arena.run_at(start, count, alignment_log2) {
        assert forall|i: int| start <= i < start + count implies (
        #[trigger] arena.pages()[i]).state == VmPageState::FREE && !arena.pages()[i].loaned by {
            assert(arena.pages()[i].allocatable());
        }
    }
}

/// The record of a page is the one at its distance, in pages, from the start of its arena.
pub proof fn lemma_record_in_an_arena(arena: PmmArena, page: VmPagePtr, index: int)
    requires
        page.paddr == arena.spec_info().base + index * 4096,
    ensures
        arena.record_of(page) == arena.pages()[index],
{
}

/// Every page of a list was checked, and the answers are those that were given.
pub proof fn lemma_every_page_is_checked<F: Fn(VmPagePtr) -> bool>(
    intact: F,
    list: Seq<VmPagePtr>,
    answers: Seq<bool>,
    i: int,
)
    requires
        checked(intact, list, answers),
        0 <= i < list.len(),
    ensures
        answers.len() == list.len(),
        call_ensures(intact, (list[i],), answers[i]),
{
    assert(call_ensures(intact, (list[i],), answers[i]));
}

/// What is left of the records of pages is what was made of each of them as it was.
pub proof fn lemma_every_page_is_released<F: FnMut(VmPagePtr, VmPage) -> VmPage>(
    release: F,
    state: PmmState,
    pages: Seq<VmPagePtr>,
    left: Seq<VmPage>,
    i: int,
)
    requires
        released(release, state, pages, left),
        0 <= i < pages.len(),
    ensures
        left.len() == pages.len(),
        call_ensures(release, (pages[i], state.pages[pages[i]]), left[i]),
{
    assert(call_ensures(release, (pages[i], state.pages[pages[i]]), left[i]));
}

} // verus!
