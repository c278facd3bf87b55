//! What the operations of the physical memory manager promise together.

use vstd::prelude::*;

use crate::free_memory::{ShouldWaitState, Throttle};
use crate::pmm_model::{
    alloc_page_result, alloc_page_state, in_arenas, lemma_divide, nth_page, page_run, AllocFailure,
    AllocFailureType, PmmOptDelayReuse, PmmState,
};
use crate::pmm_node::{
    alloc_pages_outcome, can_wait, wait_state, wait_step, WaitEvent, WaitStep,
};
use crate::status::Status;
use crate::vm_page::{lemma_erase, VmPage, VmPagePtr, VmPageState};

verus! {

/// The pages that are handed out are pages of the node that were free and are not on loan, and
/// where the checker is armed they all hold the fill pattern.
pub proof fn lemma_allocated_pages_were_free(state: PmmState, count: int, i: int)
    requires
        state.wf(),
        0 <= i < count <= state.free.len(),
    ensures
        in_arenas(state.arenas, state.free.take(count)[i]),
        state.allocatable(state.free.take(count)[i]),
        !state.pages[state.free.take(count)[i]].loan_cancelled,
        state.checker.armed ==> state.pages[state.free.take(count)[i]].filled,
        state.take_front(count).pages[state.free.take(count)[i]].state == VmPageState::ALLOC,
        !state.take_front(count).free.contains(state.free.take(count)[i]),
{
    let page = state.free.take(count)[i];
    assert(state.free[i] == page);
    assert(state.free.contains(page));
    assert(state.pages.contains_key(page));
    lemma_divide(state.free, count);
    assert(state.free.take(count).contains(page));
}

/// Freeing what was just allocated makes the free list what it was, and the records too, but for
/// the fill pattern, which is written again.
pub proof fn lemma_free_undoes_alloc(state: PmmState, count: int)
    requires
        state.wf(),
        0 <= count <= state.free.len(),
        forall|i: int|
            0 <= i < count ==> state.pages[#[trigger] state.free[i]].owner is None
                && state.pages[state.free[i]].filled == state.free_fill_enabled,
    ensures
        ({
            let after = state.take_front(count).give_back(
                state.free.take(count),
                PmmOptDelayReuse::Default,
            );
            &&& state.take_front(count).can_free(state.free.take(count))
            &&& after.free == state.free
            &&& after.pages == state.pages
        }),
{
    let taken = state.free.take(count);
    let middle = state.take_front(count);
    let after = middle.give_back(taken, PmmOptDelayReuse::Default);
    lemma_divide(state.free, count);
    assert(after.free =~= state.free);
    assert forall|p: VmPagePtr| #[trigger] taken.contains(p) implies state.pages[p].owner is None
        && state.pages[p].filled == state.free_fill_enabled by {
        let i = choose|i: int| 0 <= i < taken.len() && taken[i] == p;
        assert(state.free[i] == p);
    }
    assert forall|p: VmPagePtr| #[trigger] state.pages.contains_key(p) implies after.pages[p]
        == state.pages[p] by {
        if taken.contains(p) {
            assert(state.free.contains(p));
        }
    }
    assert(after.pages =~= state.pages);
}

/// A page freed in the ordinary way is the next to be allocated; one whose reuse is delayed is
/// allocated only after all the pages that were free before it.
pub proof fn lemma_reuse(state: PmmState, page: VmPagePtr, count: int)
    requires
        state.wf(),
        state.can_free(seq![page]),
        0 <= count <= state.free.len(),
    ensures
        alloc_page_result(state.give_back(seq![page], PmmOptDelayReuse::Default), false) == Ok::<
            VmPagePtr,
            Status,
        >(page),
        !state.give_back(seq![page], PmmOptDelayReuse::Yes).free.take(count).contains(page),
        state.give_back(seq![page], PmmOptDelayReuse::Yes).free.last() == page,
{
    assert(seq![page][0] == page);
    assert(seq![page].contains(page));
    let delayed = state.give_back(seq![page], PmmOptDelayReuse::Yes).free;
    if delayed.take(count).contains(page) {
        let i = choose|i: int| 0 <= i < count && delayed.take(count)[i] == page;
        assert(state.free[i] == page);
        assert(state.free.contains(page));
    }
}

/// A request that cannot wait is never told to, nor is any request once the node was told to stop
/// it.
pub proof fn lemma_who_waits(
    state: PmmState,
    count: int,
    alloc_flags: u32,
    result: Result<(), Status>,
    after: PmmState,
)
    requires
        !can_wait(alloc_flags) || state.throttle.should_wait == ShouldWaitState::Never,
        alloc_pages_outcome(state, count, alloc_flags, result, after),
    ensures
        result != Err::<(), Status>(Status::SHOULD_WAIT),
        alloc_page_result(state, can_wait(alloc_flags)) != Err::<VmPagePtr, Status>(
            Status::SHOULD_WAIT,
        ),
        result is Ok <==> count <= state.free.len(),
{
}

/// Once nothing ever waits, no thread blocks, and each thread that was waiting lets the next one
/// through, whether it got a page or not.
pub proof fn lemma_stopping_wakes_everyone(state: PmmState, suspendable: bool)
    requires
        state.throttle.should_wait == ShouldWaitState::Never,
    ensures
        wait_step(state, WaitEvent::Begin, suspendable) is Done,
        wait_state(state, WaitEvent::Begin, suspendable).throttle.may_allocate,
        state.throttle.may_allocate ==> wait_step(state, WaitEvent::Woken, suspendable) is Done
            && wait_state(state, WaitEvent::Woken, suspendable).throttle.may_allocate
            && wait_state(state, WaitEvent::Woken, suspendable).throttle.should_wait
            == ShouldWaitState::Never,
{
}

/// While allocations are delayed a waiting thread gets no page and wakes nobody: it blocks, or it
/// is told to wait again.
pub proof fn lemma_low_memory_blocks(state: PmmState, event: WaitEvent, suspendable: bool)
    requires
        state.throttle.should_wait == ShouldWaitState::UntilReset,
        !(event is Interrupted),
    ensures
        wait_step(state, event, suspendable) == (if state.throttle.may_allocate {
            WaitStep::Done(Err(Status::SHOULD_WAIT))
        } else {
            WaitStep::Wait { ignore_suspend: !suspendable }
        }),
        !wait_state(state, event, suspendable).throttle.may_allocate,
        wait_state(state, event, suspendable).free == state.free,
{
}

/// Only the first allocation failure is kept and only the first raises the signal; all are
/// counted.
pub proof fn lemma_first_failure_is_kept(
    state: PmmState,
    first: AllocFailure,
    second: AllocFailure,
)
    requires
        !state.alloc_failed,
    ensures
        ({
            let once = state.fail(first);
            let twice = once.fail(second);
            &&& once.alloc_failed
            &&& once.first_alloc_failure.failure_type == first.failure_type
            &&& once.first_alloc_failure.size == first.size
            &&& once.throttle == state.throttle.signalled()
            &&& twice.first_alloc_failure == once.first_alloc_failure
            &&& twice.throttle == once.throttle
            &&& twice.free == state.free
            &&& twice.pages == state.pages
        }),
{
}

/// A page whose loan is cancelled is not lent again, neither at once nor when whoever borrowed it
/// gives it back.
pub proof fn lemma_cancelled_page_stays_off(
    state: PmmState,
    page: VmPagePtr,
    list: Seq<VmPagePtr>,
    holder: u64,
)
    requires
        state.wf(),
        state.pages.contains_key(page),
        state.pages[page].loan_cancelled,
        state.held_by(list, holder),
    ensures
        !state.free_loaned.contains(page),
        !state.give_back_loaned(list).free_loaned.contains(page),
        !state.free.contains(page),
{
    state.lemma_give_back_loaned(list, holder);
    let after = state.give_back_loaned(list);
    assert(after.pages[page].loan_cancelled);
}

/// Lending a page, calling it back and ending the loan leaves the page allocated to its owner, and
/// the loans of other pages as they were.
pub proof fn lemma_loan_cycle(state: PmmState, page: VmPagePtr, delay_reuse: PmmOptDelayReuse)
    requires
        state.wf(),
        state.can_lend(seq![page]),
    ensures
        ({
            let lent = state.lend(seq![page], delay_reuse);
            let cancelled = lent.cancel(page);
            let ended = cancelled.end(page);
            &&& lent.pages[page].loaned && lent.pages[page].state == VmPageState::FREE_LOANED
            &&& lent.free_loaned.contains(page)
            &&& cancelled.free_loaned == state.free_loaned
            &&& ended.free_loaned == state.free_loaned
            &&& ended.loaned_count == state.loaned_count
            &&& ended.loan_cancelled_count == state.loan_cancelled_count
            &&& ended.pages[page] == (VmPage {
                loan_cancelled: false,
                filled: state.free_fill_enabled,
                ..state.pages[page].allocated()
            })
            &&& forall|p: VmPagePtr|
                p != page && state.pages.contains_key(p) ==> #[trigger] ended.pages[p]
                    == state.pages[p]
        }),
{
    let lent = state.lend(seq![page], delay_reuse);
    assert(seq![page][0] == page);
    assert(seq![page].contains(page));
    state.lemma_lend(seq![page], delay_reuse);
    assert(!state.free_loaned.contains(page)) by {
        if state.free_loaned.contains(page) {
            assert(state.pages[page].state == VmPageState::FREE_LOANED);
        }
    }
    lent.free_loaned.index_of_first_ensures(page);
    if delay_reuse == PmmOptDelayReuse::Yes {
        assert(lent.free_loaned[state.free_loaned.len() as int] == page);
        assert forall|i: int| 0 <= i < state.free_loaned.len() implies state.free_loaned[i]
            != page by {
            assert(state.free_loaned.contains(state.free_loaned[i]));
        }
    } else {
        assert(lent.free_loaned[0] == page);
    }
    assert(lent.free_loaned.remove_value(page) =~= state.free_loaned);
    assert forall|p: VmPagePtr| p != page implies !(#[trigger] seq![page].contains(p)) by {}
}

/// The pages of a run are taken out of the free list, and no others.
pub proof fn lemma_take_run(state: PmmState, page: VmPagePtr, count: nat)
    requires
        state.wf(),
        state.settled(),
        page.paddr + count * 4096 <= u64::MAX,
        forall|j: int| 0 <= j < count ==> state.allocatable(#[trigger] nth_page(page, j)),
    ensures
        state.take_run(page, count).wf(),
        state.take_run(page, count).settled(),
        state.take_run(page, count).free.len() == state.free.len() - count,
        forall|p: VmPagePtr| #[trigger]
            state.take_run(page, count).free.contains(p) <==> state.free.contains(p) && !page_run(
                page,
                count as int,
            ).contains(p),
        forall|p: VmPagePtr| #[trigger]
            state.take_run(page, count).pages[p] == (if page_run(page, count as int).contains(p) {
                state.pages[p].allocated()
            } else {
                state.pages[p]
            }),
        state.take_run(page, count).pages.dom() == state.pages.dom(),
        state.take_run(page, count).handoff_temporary == state.handoff_temporary,
        state.take_run(page, count).handoff_vmo == state.handoff_vmo,
    decreases count,
{
    let run = page_run(page, count as int);
    if count > 0 {
        let shorter = page_run(page, count - 1);
        let last = nth_page(page, count - 1);
        lemma_take_run(state, page, (count - 1) as nat);
        let before = state.take_run(page, (count - 1) as nat);
        assert(!shorter.contains(last)) by {
            if shorter.contains(last) {
                let i = choose|i: int| 0 <= i < shorter.len() && shorter[i] == last;
                assert(nth_page(page, i).paddr == page.paddr + i * 4096);
                assert(last.paddr == page.paddr + (count - 1) * 4096);
            }
        }
        assert forall|p: VmPagePtr| #[trigger] run.contains(p) <==> shorter.contains(p) || p
            == last by {
            if run.contains(p) {
                let i = choose|i: int| 0 <= i < run.len() && run[i] == p;
                if i < count - 1 {
                    assert(shorter[i] == p);
                }
            }
            if shorter.contains(p) {
                let i = choose|i: int| 0 <= i < shorter.len() && shorter[i] == p;
                assert(run[i] == p);
            }
            assert(run[count - 1] == last);
        }
        assert(state.allocatable(last));
        assert(before.pages[last] == state.pages[last]);
        assert(before.free.contains(last));
        before.lemma_take_page(last);
        lemma_erase(before.free, last);
        assert(state.take_run(page, count).pages.dom() =~= state.pages.dom());
    } else {
        assert(run =~= Seq::empty());
    }
}

/// An address range that cannot be allocated in full leaves the same pages free.
pub proof fn lemma_failed_range_frees_all(state: PmmState, page: VmPagePtr, count: nat)
    requires
        state.wf(),
        state.settled(),
        page.paddr + count * 4096 <= u64::MAX,
        forall|j: int| 0 <= j < count ==> state.allocatable(#[trigger] nth_page(page, j)),
    ensures
        ({
            let after = state.take_run(page, count).give_back(
                page_run(page, count as int),
                PmmOptDelayReuse::Default,
            );
            &&& after.free.len() == state.free.len()
            &&& forall|p: VmPagePtr| #[trigger]
                after.free.contains(p) <==> state.free.contains(p)
            &&& forall|p: VmPagePtr|
                state.pages.contains_key(p) ==> (#[trigger] after.pages[p]).state
                    == state.pages[p].state
        }),
{
    let run = page_run(page, count as int);
    lemma_take_run(state, page, count);
    let middle = state.take_run(page, count);
    let after = middle.give_back(run, PmmOptDelayReuse::Default);
    assert forall|p: VmPagePtr| #[trigger] run.contains(p) implies state.free.contains(p)
        && state.pages.contains_key(p) && state.pages[p].state == VmPageState::FREE by {
        let i = choose|i: int| 0 <= i < run.len() && run[i] == p;
        assert(state.allocatable(nth_page(page, i)));
        assert(state.pages[p].state == VmPageState::FREE);
    }
    assert forall|p: VmPagePtr| #[trigger] after.free.contains(p) <==> state.free.contains(p) by {
        if after.free.contains(p) {
            let i = choose|i: int| 0 <= i < after.free.len() && after.free[i] == p;
            if i < run.len() {
                assert(run[i] == p);
            } else {
                assert(middle.free[i - run.len()] == p);
                assert(middle.free.contains(p));
            }
        }
        if state.free.contains(p) {
            if run.contains(p) {
                let i = choose|i: int| 0 <= i < run.len() && run[i] == p;
                assert(after.free[i] == p);
            } else {
                assert(middle.free.contains(p));
                let i = choose|i: int| 0 <= i < middle.free.len() && middle.free[i] == p;
                assert(after.free[i + run.len()] == p);
            }
        }
    }
}

/// A page is on at most one of the node's lists, and on each list at most once.
pub proof fn lemma_one_list(state: PmmState, page: VmPagePtr)
    requires
        state.wf(),
    ensures
        state.free.contains(page) ==> !state.free_loaned.contains(page) && state.handed_off(page),
        state.free_loaned.contains(page) ==> state.handed_off(page),
        !(state.handoff_temporary.contains(page) && state.handoff_vmo.contains(page)),
        state.free.no_duplicates(),
        state.free_loaned.no_duplicates(),
        state.handoff_temporary.no_duplicates(),
        state.handoff_vmo.no_duplicates(),
{
}

/// To allocate any number of pages is to hand out that many from the front of the free list, which
/// keeps its order, and to change the records of no other page. If that leaves fewer pages than
/// the level, allocations that can wait are delayed unless they never are; if it leaves fewer than
/// the lower bound, an event that was set has been raised.
pub proof fn lemma_allocating(state: PmmState, count: int)
    requires
        state.wf(),
        0 < count <= state.free.len(),
    ensures
        ({
            let after = state.take_front(count);
            let left = state.free.len() - count;
            &&& after.free.len() == left
            &&& forall|i: int| 0 <= i < left ==> #[trigger] after.free[i] == state.free[count + i]
            &&& forall|i: int|
                0 <= i < count ==> after.pages[#[trigger] state.free[i]] == (VmPage {
                    state: VmPageState::ALLOC,
                    owner: None,
                    ..state.pages[state.free[i]]
                })
            &&& forall|p: VmPagePtr|
                state.pages.contains_key(p) && (forall|i: int|
                    0 <= i < count ==> #[trigger] state.free[i] != p)
                    ==> #[trigger] after.pages[p] == state.pages[p]
            &&& after.pages.dom() == state.pages.dom()
            &&& left < state.throttle.level && state.throttle.should_wait != ShouldWaitState::Never
                ==> after.throttle.should_wait == ShouldWaitState::UntilReset
            &&& left < state.throttle.level && state.throttle.should_wait
                == ShouldWaitState::OnceLevelTripped ==> !after.throttle.may_allocate
            &&& state.throttle.level <= left || state.throttle.should_wait
                != ShouldWaitState::OnceLevelTripped ==> after.throttle.should_wait
                == state.throttle.should_wait && after.throttle.may_allocate
                == state.throttle.may_allocate
            &&& left < state.throttle.lower && state.throttle.signal is Some
                ==> after.throttle.signal is None && after.throttle.raised
                == state.throttle.raised.push(state.throttle.signal->0)
            &&& state.throttle.lower <= left || state.throttle.signal is None
                ==> after.throttle.signal == state.throttle.signal && after.throttle.raised
                == state.throttle.raised
            &&& after == (PmmState {
                pages: after.pages,
                free: after.free,
                throttle: Throttle {
                    should_wait: after.throttle.should_wait,
                    may_allocate: after.throttle.may_allocate,
                    signal: after.throttle.signal,
                    raised: after.throttle.raised,
                    ..state.throttle
                },
                ..state
            })
        }),
{
    let after = state.take_front(count);
    let taken = state.free.take(count);
    assert forall|i: int| 0 <= i < count implies after.pages[#[trigger] state.free[i]] == (VmPage {
        state: VmPageState::ALLOC,
        owner: None,
        ..state.pages[state.free[i]]
    }) by {
        assert(taken[i] == state.free[i]);
        assert(taken.contains(state.free[i]));
        assert(state.free.contains(state.free[i]));
    }
    assert forall|p: VmPagePtr|
        state.pages.contains_key(p) && (forall|i: int|
            0 <= i < count ==> #[trigger] state.free[i] != p) implies #[trigger] after.pages[p]
        == state.pages[p] by {
        if taken.contains(p) {
            let i = choose|i: int| 0 <= i < taken.len() && taken[i] == p;
            assert(state.free[i] == p);
        }
    }
    assert(after.pages.dom() =~= state.pages.dom());
}

/// To allocate a run of pages, by address or contiguous, is to take just these pages from the free
/// list, which keeps the order of the others. If that leaves fewer pages than the level,
/// allocations that can wait are delayed unless they never are; if it leaves fewer than the lower
/// bound, an event that was set has been raised.
pub proof fn lemma_allocating_a_run(state: PmmState, page: VmPagePtr, count: nat)
    requires
        state.wf(),
        state.settled(),
        count > 0,
        page.paddr + count * 4096 <= u64::MAX,
        forall|j: int| 0 <= j < count ==> state.allocatable(#[trigger] nth_page(page, j)),
    ensures
        ({
            let after = state.take_run(page, count);
            let left = state.free.len() - count;
            &&& after.free.len() == left
            &&& forall|p: VmPagePtr| #[trigger]
                after.free.contains(p) <==> state.free.contains(p) && !(page.paddr <= p.paddr
                    < page.paddr + count * 4096 && (p.paddr - page.paddr) % 4096 == 0)
            &&& forall|i: int, j: int|
                0 <= i < j < left ==> state.free.index_of(#[trigger] after.free[i])
                    < state.free.index_of(#[trigger] after.free[j])
            &&& forall|p: VmPagePtr|
                state.pages.contains_key(p) && page.paddr <= p.paddr < page.paddr + count * 4096
                    && (p.paddr - page.paddr) % 4096 == 0 ==> #[trigger] after.pages[p] == (VmPage {
                    state: VmPageState::ALLOC,
                    owner: None,
                    ..state.pages[p]
                })
            &&& forall|p: VmPagePtr|
                state.pages.contains_key(p) && !(page.paddr <= p.paddr < page.paddr + count * 4096
                    && (p.paddr - page.paddr) % 4096 == 0) ==> #[trigger] after.pages[p]
                    == state.pages[p]
            &&& left < state.throttle.level && state.throttle.should_wait != ShouldWaitState::Never
                ==> after.throttle.should_wait == ShouldWaitState::UntilReset
            &&& left < state.throttle.level && state.throttle.should_wait
                == ShouldWaitState::OnceLevelTripped ==> !after.throttle.may_allocate
            &&& state.throttle.level <= left || state.throttle.should_wait
                != ShouldWaitState::OnceLevelTripped ==> after.throttle.should_wait
                == state.throttle.should_wait && after.throttle.may_allocate
                == state.throttle.may_allocate
            &&& left < state.throttle.lower && state.throttle.signal is Some
                ==> after.throttle.signal is None && after.throttle.raised
                == state.throttle.raised.push(state.throttle.signal->0)
            &&& state.throttle.lower <= left || state.throttle.signal is None
                ==> after.throttle.signal == state.throttle.signal && after.throttle.raised
                == state.throttle.raised
            &&& after == (PmmState {
                pages: after.pages,
                free: after.free,
                throttle: Throttle {
                    should_wait: after.throttle.should_wait,
                    may_allocate: after.throttle.may_allocate,
                    signal: after.throttle.signal,
                    raised: after.throttle.raised,
                    ..state.throttle
                },
                ..state
            })
        }),
{
    lemma_take_run(state, page, count);
    lemma_run_keeps_order(state, page, count);
    lemma_run_throttle(state, page, count);
    let after = state.take_run(page, count);
    let run = page_run(page, count as int);
    assert forall|p: VmPagePtr| #[trigger] run.contains(p) <==> page.paddr <= p.paddr < page.paddr
        + count * 4096 && (p.paddr - page.paddr) % 4096 == 0 by {
        if run.contains(p) {
            let i = choose|i: int| 0 <= i < run.len() && run[i] == p;
            assert(p == nth_page(page, i));
            assert(p.paddr == page.paddr + i * 4096);
        }
        if page.paddr <= p.paddr < page.paddr + count * 4096 && (p.paddr - page.paddr) % 4096
            == 0 {
            let i = (p.paddr - page.paddr) / 4096;
            assert(p.paddr == page.paddr + i * 4096);
            assert(nth_page(page, i) == p);
            assert(run[i] == p);
        }
    }
}

/// A run of one or more pages is noticed by its end alone.
proof fn lemma_run_throttle(state: PmmState, page: VmPagePtr, count: nat)
    requires
        state.wf(),
        state.settled(),
        count > 0,
        page.paddr + count * 4096 <= u64::MAX,
        forall|j: int| 0 <= j < count ==> state.allocatable(#[trigger] nth_page(page, j)),
    ensures
        state.take_run(page, count) == (PmmState {
            pages: state.take_run(page, count).pages,
            free: state.take_run(page, count).free,
            throttle: state.throttle.fell(state.free.len() - count),
            ..state
        }),
    decreases count,
{
    let before = state.take_run(page, (count - 1) as nat);
    lemma_take_run(state, page, (count - 1) as nat);
    lemma_take_run(state, page, count);
    if count > 1 {
        lemma_run_throttle(state, page, (count - 1) as nat);
        state.throttle.lemma_falling_in_steps(
            state.free.len() - (count - 1),
            state.free.len() - count,
        );
    }
    assert(state.take_run(page, count) =~= PmmState {
        pages: state.take_run(page, count).pages,
        free: state.take_run(page, count).free,
        throttle: state.throttle.fell(state.free.len() - count),
        ..state
    });
}

/// What is left free keeps its order.
proof fn lemma_run_keeps_order(state: PmmState, page: VmPagePtr, count: nat)
    requires
        state.wf(),
        state.settled(),
        page.paddr + count * 4096 <= u64::MAX,
        forall|j: int| 0 <= j < count ==> state.allocatable(#[trigger] nth_page(page, j)),
    ensures
        forall|i: int, j: int|
            0 <= i < j < state.take_run(page, count).free.len() ==> state.free.index_of(
                #[trigger] state.take_run(page, count).free[i],
            ) < state.free.index_of(#[trigger] state.take_run(page, count).free[j]),
    decreases count,
{
    let after = state.take_run(page, count).free;
    if count == 0 {
        assert forall|i: int, j: int| 0 <= i < j < after.len() implies state.free.index_of(
            #[trigger] after[i],
        ) < state.free.index_of(#[trigger] after[j]) by {
            assert(state.free.index_of(after[i]) == i);
            assert(state.free.index_of(after[j]) == j);
        }
    } else {
        let before = state.take_run(page, (count - 1) as nat).free;
        let last = nth_page(page, count - 1);
        lemma_take_run(state, page, (count - 1) as nat);
        lemma_run_keeps_order(state, page, (count - 1) as nat);
        before.index_of_first_ensures(last);
        assert forall|i: int, j: int| 0 <= i < j < after.len() implies state.free.index_of(
            #[trigger] after[i],
        ) < state.free.index_of(#[trigger] after[j]) by {
            match before.index_of_first(last) {
                Some(k) => {
                    assert(after[i] == before[if i < k { i } else { i + 1 }]);
                    assert(after[j] == before[if j < k { j } else { j + 1 }]);
                },
                None => {},
            }
        }
    }
}

/// Pages freed with delayed reuse come after all that were free before, in their order; pages freed
/// otherwise come before them. Their records say that they are free, and that they hold the fill
/// pattern where that is written; the records of other pages do not change. If there are more free
/// pages than the upper bound afterwards, an event that was set has been raised. Freeing wakes
/// nobody and delays nobody.
pub proof fn lemma_freeing(state: PmmState, list: Seq<VmPagePtr>, delay_reuse: PmmOptDelayReuse)
    requires
        state.wf(),
        state.can_free(list),
    ensures
        ({
            let after = state.give_back(list, delay_reuse);
            let total = state.free.len() + list.len();
            &&& after.free.len() == total
            &&& delay_reuse == PmmOptDelayReuse::Yes ==> (forall|i: int|
                0 <= i < state.free.len() ==> #[trigger] after.free[i] == state.free[i])
                && (forall|i: int|
                state.free.len() <= i < total ==> #[trigger] after.free[i] == list[i
                    - state.free.len()])
            &&& delay_reuse == PmmOptDelayReuse::Default ==> (forall|i: int|
                0 <= i < list.len() ==> #[trigger] after.free[i] == list[i]) && (forall|i: int|
                list.len() <= i < total ==> #[trigger] after.free[i] == state.free[i
                    - list.len()])
            &&& forall|i: int|
                0 <= i < list.len() ==> after.pages[#[trigger] list[i]] == (VmPage {
                    state: VmPageState::FREE,
                    filled: state.free_fill_enabled,
                    ..state.pages[list[i]]
                })
            &&& forall|p: VmPagePtr|
                state.pages.contains_key(p) && (forall|i: int|
                    0 <= i < list.len() ==> #[trigger] list[i] != p) ==> #[trigger] after.pages[p]
                    == state.pages[p]
            &&& after.pages.dom() == state.pages.dom()
            &&& total > state.throttle.upper && state.throttle.signal is Some
                ==> after.throttle.signal is None && after.throttle.raised
                == state.throttle.raised.push(state.throttle.signal->0)
            &&& total <= state.throttle.upper || state.throttle.signal is None
                ==> after.throttle.signal == state.throttle.signal && after.throttle.raised
                == state.throttle.raised
            &&& after == (PmmState {
                pages: after.pages,
                free: after.free,
                throttle: Throttle {
                    signal: after.throttle.signal,
                    raised: after.throttle.raised,
                    ..state.throttle
                },
                ..state
            })
        }),
{
    let after = state.give_back(list, delay_reuse);
    assert forall|i: int| 0 <= i < list.len() implies after.pages[#[trigger] list[i]] == (VmPage {
        state: VmPageState::FREE,
        filled: state.free_fill_enabled,
        ..state.pages[list[i]]
    }) by {
        assert(list.contains(list[i]));
    }
    assert forall|p: VmPagePtr|
        state.pages.contains_key(p) && (forall|i: int|
            0 <= i < list.len() ==> #[trigger] list[i] != p) implies #[trigger] after.pages[p]
        == state.pages[p] by {
        if list.contains(p) {
            let i = choose|i: int| 0 <= i < list.len() && list[i] == p;
            assert(list[i] == p);
        }
    }
    assert(after.pages.dom() =~= state.pages.dom());
}

/// After a list was freed with delayed reuse, the next allocations give the pages that were free
/// before, in their order, and only then those of the list; without the delay it is the other way
/// round.
pub proof fn lemma_reuse_in_order(state: PmmState, list: Seq<VmPagePtr>, done: int)
    requires
        state.wf(),
        state.can_free(list),
        0 <= done < state.free.len() + list.len(),
    ensures
        alloc_page_result(
            state.give_back(list, PmmOptDelayReuse::Yes).take_front(done),
            false,
        ) == Ok::<VmPagePtr, Status>(
            if done < state.free.len() {
                state.free[done]
            } else {
                list[done - state.free.len()]
            },
        ),
        alloc_page_result(
            state.give_back(list, PmmOptDelayReuse::Default).take_front(done),
            false,
        ) == Ok::<VmPagePtr, Status>(
            if done < list.len() {
                list[done]
            } else {
                state.free[done - list.len()]
            },
        ),
{
}

/// A failure is counted. The first one is kept, with the number of free pages as it was unless the
/// caller has noted it, and raises an event that is set; a later one leaves both alone.
pub proof fn lemma_failing(state: PmmState, failure: AllocFailure)
    requires
        state.wf(),
        state.free.len() <= u64::MAX,
    ensures
        ({
            let after = state.fail(failure);
            let first = !state.alloc_failed;
            &&& after.alloc_failed
            &&& state.alloc_failed_count < i64::MAX ==> after.alloc_failed_count
                == state.alloc_failed_count + 1
            &&& state.alloc_failed_count == i64::MAX ==> after.alloc_failed_count == i64::MIN
            &&& !first ==> after.first_alloc_failure == state.first_alloc_failure
            &&& first ==> after.first_alloc_failure.failure_type == failure.failure_type
                && after.first_alloc_failure.size == failure.size
            &&& first && failure.failure_type == AllocFailureType::Pmm
                ==> after.first_alloc_failure.free_count == failure.free_count
            &&& first && failure.failure_type != AllocFailureType::Pmm
                ==> after.first_alloc_failure.free_count == state.free.len()
            &&& first && state.throttle.signal is Some ==> after.throttle.signal is None
                && after.throttle.raised == state.throttle.raised.push(state.throttle.signal->0)
            &&& !first || state.throttle.signal is None ==> after.throttle.signal
                == state.throttle.signal && after.throttle.raised == state.throttle.raised
            &&& after == (PmmState {
                alloc_failed: true,
                first_alloc_failure: after.first_alloc_failure,
                alloc_failed_count: after.alloc_failed_count,
                throttle: Throttle {
                    signal: after.throttle.signal,
                    raised: after.throttle.raised,
                    ..state.throttle
                },
                ..state
            })
        }),
{
}

/// An allocation of one page gives the page at the front of the free list. It is told to wait where
/// it can and allocations are delayed, and fails for want of memory only where nothing is free;
/// both hand out nothing.
pub proof fn lemma_allocating_one(state: PmmState, can_wait: bool)
    requires
        state.wf(),
    ensures
        ({
            let result = alloc_page_result(state, can_wait);
            let after = alloc_page_state(state, can_wait);
            let delayed = can_wait && (state.throttle.should_wait == ShouldWaitState::UntilReset
                || state.throttle.should_wait == ShouldWaitState::OnceLevelTripped
                && state.throttle.random_delay);
            &&& delayed ==> result == Err::<VmPagePtr, Status>(Status::SHOULD_WAIT) && after
                == state
            &&& !delayed && state.free.len() == 0 ==> {
                &&& result == Err::<VmPagePtr, Status>(Status::NO_MEMORY)
                &&& after == state.fail(
                    AllocFailure {
                        failure_type: AllocFailureType::Pmm,
                        size: 1,
                        free_count: 0,
                    },
                )
                &&& after.alloc_failed
                &&& after.free == state.free
                &&& after.pages == state.pages
                &&& !state.alloc_failed ==> after.first_alloc_failure == (AllocFailure {
                    failure_type: AllocFailureType::Pmm,
                    size: 1,
                    free_count: 0,
                })
            }
            &&& !delayed && state.free.len() > 0 ==> {
                &&& result == Ok::<VmPagePtr, Status>(state.free[0])
                &&& after.free == state.free.skip(1)
                &&& after.pages[state.free[0]].state == VmPageState::ALLOC
                &&& after == state.take_front(1)
            }
        }),
{
    if state.free.len() > 0 {
        lemma_allocating(state, 1);
    }
}

/// An allocation of more than one page gives all of them or none. Where it can wait it is told to
/// if there are not enough pages, or if it would leave fewer than the level: the level is tripped
/// by the attempt, and the pages stay free. Where it cannot wait only a want of pages stops it.
pub proof fn lemma_allocating_many(
    state: PmmState,
    count: int,
    alloc_flags: u32,
    result: Result<(), Status>,
    after: PmmState,
)
    requires
        state.wf(),
        1 < count <= usize::MAX,
        alloc_pages_outcome(state, count, alloc_flags, result, after),
    ensures
        ({
            let left = state.free.len() - count;
            let waits = can_wait(alloc_flags) && state.throttle.should_wait
                != ShouldWaitState::Never;
            &&& result is Ok ==> left >= 0 && after == state.take_front(count)
            &&& result is Err ==> after.free == state.free && after.pages == state.pages
            &&& left < 0 && waits ==> result == Err::<(), Status>(Status::SHOULD_WAIT) && after
                == state
            &&& left < 0 && !waits ==> result == Err::<(), Status>(Status::NO_MEMORY)
                && after == state.fail(
                AllocFailure {
                    failure_type: AllocFailureType::Pmm,
                    size: count as usize,
                    free_count: state.free.len() as u64,
                },
            )
            &&& left >= 0 && !waits ==> result is Ok
            &&& left >= 0 && waits ==> (result == Err::<(), Status>(Status::SHOULD_WAIT) <==> (left
                < state.throttle.level || state.throttle.should_wait == ShouldWaitState::UntilReset
                || state.throttle.random_delay))
            &&& left >= 0 && waits && result is Err ==> {
                &&& left < state.throttle.level ==> after.throttle.should_wait
                    == ShouldWaitState::UntilReset
                &&& state.throttle.level <= left ==> after.throttle.should_wait
                    == state.throttle.should_wait
                &&& (left < state.throttle.lower || state.free.len() > state.throttle.upper)
                    && state.throttle.signal is Some ==> after.throttle.signal is None
                    && after.throttle.raised == state.throttle.raised.push(
                    state.throttle.signal->0,
                )
                &&& state.throttle.lower <= left && state.free.len() <= state.throttle.upper
                    ==> after.throttle.signal == state.throttle.signal && after.throttle.raised
                    == state.throttle.raised
            }
            &&& result is Err ==> result == Err::<(), Status>(Status::SHOULD_WAIT) || result
                == Err::<(), Status>(Status::NO_MEMORY)
            &&& result == Err::<(), Status>(Status::SHOULD_WAIT) ==> after == (PmmState {
                throttle: Throttle {
                    should_wait: after.throttle.should_wait,
                    may_allocate: after.throttle.may_allocate,
                    signal: after.throttle.signal,
                    raised: after.throttle.raised,
                    ..state.throttle
                },
                ..state
            })
            &&& left >= 0 && result is Err ==> after.throttle.may_allocate == (
            state.throttle.may_allocate && !(left < state.throttle.level
                && state.throttle.should_wait == ShouldWaitState::OnceLevelTripped))
        }),
{
}

/// An allocation of a single page as a list is the allocation of a page, and an allocation of none
/// succeeds and changes nothing.
pub proof fn lemma_allocating_few(
    state: PmmState,
    count: int,
    alloc_flags: u32,
    result: Result<(), Status>,
    after: PmmState,
)
    requires
        state.wf(),
        0 <= count <= 1,
        alloc_pages_outcome(state, count, alloc_flags, result, after),
    ensures
        count == 0 ==> result == Ok::<(), Status>(()) && after == state,
        count == 1 ==> after == alloc_page_state(state, can_wait(alloc_flags)),
        count == 1 ==> (match alloc_page_result(state, can_wait(alloc_flags)) {
            Ok(_) => result == Ok::<(), Status>(()),
            Err(status) => result == Err::<(), Status>(status),
        }),
{
}

/// What cannot wait is what does not say that it can.
pub proof fn lemma_can_wait_flag(alloc_flags: u32)
    ensures
        can_wait(alloc_flags) <==> alloc_flags % 2 == 1,
{
    assert((alloc_flags & 1 != 0) == (alloc_flags % 2 == 1)) by (bit_vector);
}

/// A thread that waits is done when its wait was ended, by anything but a suspension that does not
/// concern it. Otherwise it passes if the way is open, or at its start if nothing ever waits; it
/// closes the way behind it, tries to allocate, and opens the way again for the next one unless
/// allocations are delayed, or memory has run out while it is watched.
pub proof fn lemma_waiting(state: PmmState, event: WaitEvent, suspendable: bool)
    requires
        state.wf(),
    ensures
        ({
            let step = wait_step(state, event, suspendable);
            let after = wait_state(state, event, suspendable);
            let never = state.throttle.should_wait == ShouldWaitState::Never;
            let tripped = state.throttle.should_wait == ShouldWaitState::UntilReset;
            let ended = event matches WaitEvent::Interrupted(status) && (status
                != Status::INTERRUPTED_RETRY || suspendable);
            let passes = !ended && (state.throttle.may_allocate || event is Begin && never);
            let delayed = tripped || !never && state.throttle.random_delay;
            &&& ended ==> step == WaitStep::Done(Err(event->Interrupted_0)) && after == state
            &&& !ended && !passes ==> step == (WaitStep::Wait { ignore_suspend: !suspendable })
                && after == state
            &&& passes && delayed ==> step == WaitStep::Done(Err(Status::SHOULD_WAIT))
                && after.free == state.free && after.pages == state.pages
                && after.throttle.may_allocate == !tripped
            &&& passes && !delayed && state.free.len() == 0 ==> step == WaitStep::Done(
                Err(Status::NO_MEMORY),
            ) && after.alloc_failed && after.free == state.free && after.throttle.may_allocate
                == never
            &&& passes && !delayed && state.free.len() > 0 ==> step == WaitStep::Done(
                Ok(state.free[0]),
            ) && after.free == state.free.skip(1) && after.pages[state.free[0]].state
                == VmPageState::ALLOC && after.throttle.may_allocate
                == !(after.throttle.should_wait == ShouldWaitState::UntilReset)
            &&& passes ==> after == (PmmState {
                throttle: Throttle {
                    may_allocate: after.throttle.may_allocate,
                    ..alloc_page_state(state, true).throttle
                },
                ..alloc_page_state(state, true)
            })
        }),
{
    if state.free.len() > 0 {
        let open = PmmState {
            throttle: Throttle { may_allocate: false, ..state.throttle },
            ..state
        };
        lemma_allocating(state, 1);
        lemma_allocating(open, 1);
    }
}

/// Pages that go on loan are free to be borrowed, after all that were so before if their reuse is
/// delayed and before them if not. Their records say so and that they hold the fill pattern where
/// that is written; they are counted; nothing else changes.
pub proof fn lemma_lending(state: PmmState, list: Seq<VmPagePtr>, delay_reuse: PmmOptDelayReuse)
    requires
        state.wf(),
        state.can_lend(list),
    ensures
        ({
            let after = state.lend(list, delay_reuse);
            let before = state.free_loaned.len();
            let total = before + list.len();
            &&& after.free_loaned.len() == total
            &&& delay_reuse == PmmOptDelayReuse::Yes ==> (forall|i: int|
                0 <= i < before ==> #[trigger] after.free_loaned[i] == state.free_loaned[i])
                && (forall|i: int|
                before <= i < total ==> #[trigger] after.free_loaned[i] == list[i - before])
            &&& delay_reuse == PmmOptDelayReuse::Default ==> (forall|i: int|
                0 <= i < list.len() ==> #[trigger] after.free_loaned[i] == list[i]) && (forall|
                i: int,
            |
                list.len() <= i < total ==> #[trigger] after.free_loaned[i] == state.free_loaned[i
                    - list.len()])
            &&& forall|i: int|
                0 <= i < list.len() ==> after.pages[#[trigger] list[i]] == (VmPage {
                    state: VmPageState::FREE_LOANED,
                    loaned: true,
                    owner: None,
                    filled: state.free_fill_enabled,
                    ..state.pages[list[i]]
                })
            &&& forall|p: VmPagePtr|
                state.pages.contains_key(p) && (forall|i: int|
                    0 <= i < list.len() ==> #[trigger] list[i] != p) ==> #[trigger] after.pages[p]
                    == state.pages[p]
            &&& after.pages.dom() == state.pages.dom()
            &&& after == (PmmState {
                pages: after.pages,
                free_loaned: after.free_loaned,
                loaned_count: state.loaned_count + list.len(),
                ..state
            })
        }),
{
    let after = state.lend(list, delay_reuse);
    assert forall|i: int| 0 <= i < list.len() implies after.pages[#[trigger] list[i]] == (VmPage {
        state: VmPageState::FREE_LOANED,
        loaned: true,
        owner: None,
        filled: state.free_fill_enabled,
        ..state.pages[list[i]]
    }) by {
        assert(list.contains(list[i]));
    }
    assert forall|p: VmPagePtr|
        state.pages.contains_key(p) && (forall|i: int|
            0 <= i < list.len() ==> #[trigger] list[i] != p) implies #[trigger] after.pages[p]
        == state.pages[p] by {
        if list.contains(p) {
            let i = choose|i: int| 0 <= i < list.len() && list[i] == p;
            assert(list[i] == p);
        }
    }
    assert(after.pages.dom() =~= state.pages.dom());
}

/// A page whose loan is cancelled leaves the list of pages to borrow, which keeps its order; it is
/// counted, and its record says so. Nothing else changes.
pub proof fn lemma_cancelling(state: PmmState, page: VmPagePtr, k: int)
    requires
        state.wf(),
        state.pages.contains_key(page),
        state.pages[page].loaned,
        !state.pages[page].loan_cancelled,
        0 <= k < state.free_loaned.len() && state.free_loaned[k] == page || k
            == state.free_loaned.len() && !state.free_loaned.contains(page),
    ensures
        ({
            let after = state.cancel(page);
            &&& k < state.free_loaned.len() ==> after.free_loaned.len() == state.free_loaned.len()
                - 1
            &&& forall|i: int| 0 <= i < k ==> #[trigger] after.free_loaned[i]
                == state.free_loaned[i]
            &&& forall|i: int|
                k <= i < after.free_loaned.len() ==> #[trigger] after.free_loaned[i]
                    == state.free_loaned[i + 1]
            &&& k == state.free_loaned.len() ==> after.free_loaned == state.free_loaned
            &&& after.pages[page] == (VmPage { loan_cancelled: true, ..state.pages[page] })
            &&& forall|p: VmPagePtr|
                p != page && state.pages.contains_key(p) ==> #[trigger] after.pages[p]
                    == state.pages[p]
            &&& after.pages.dom() == state.pages.dom()
            &&& after == (PmmState {
                pages: after.pages,
                free_loaned: after.free_loaned,
                loan_cancelled_count: state.loan_cancelled_count + 1,
                ..state
            })
        }),
{
    let after = state.cancel(page);
    state.free_loaned.index_of_first_ensures(page);
    if k < state.free_loaned.len() {
        assert(state.free_loaned.contains(page));
        assert(state.free_loaned.index_of_first(page) == Some(k));
    }
    assert(after.pages.dom() =~= state.pages.dom());
}

/// A page whose loan ends is allocated, to nobody in particular yet, and is no longer counted.
/// Nothing else changes.
pub proof fn lemma_ending_a_loan(state: PmmState, page: VmPagePtr)
    requires
        state.wf(),
        state.pages.contains_key(page),
        state.pages[page].loan_cancelled,
    ensures
        ({
            let after = state.end(page);
            &&& after.pages[page] == (VmPage {
                state: VmPageState::ALLOC,
                loaned: false,
                loan_cancelled: false,
                owner: None,
                ..state.pages[page]
            })
            &&& forall|p: VmPagePtr|
                p != page && state.pages.contains_key(p) ==> #[trigger] after.pages[p]
                    == state.pages[p]
            &&& after.pages.dom() == state.pages.dom()
            &&& after == (PmmState {
                pages: after.pages,
                loaned_count: state.loaned_count - 1,
                loan_cancelled_count: state.loan_cancelled_count - 1,
                ..state
            })
        }),
{
    assert(state.end(page).pages.dom() =~= state.pages.dom());
}

/// To borrow is to take the page at the front of the list of pages to borrow, which keeps its
/// order. Its record is what the borrower makes of it. Nothing else changes.
pub proof fn lemma_borrowing(state: PmmState, record: VmPage)
    requires
        state.wf(),
        state.free_loaned.len() > 0,
    ensures
        ({
            let after = state.borrow_front(record);
            &&& after.free_loaned.len() == state.free_loaned.len() - 1
            &&& forall|i: int|
                0 <= i < after.free_loaned.len() ==> #[trigger] after.free_loaned[i]
                    == state.free_loaned[i + 1]
            &&& after.pages[state.free_loaned[0]] == record
            &&& forall|p: VmPagePtr|
                p != state.free_loaned[0] && state.pages.contains_key(p)
                    ==> #[trigger] after.pages[p] == state.pages[p]
            &&& after == (PmmState {
                pages: after.pages,
                free_loaned: after.free_loaned,
                ..state
            })
        }),
{
}

/// Loaned pages that come back can be borrowed again, before all others and in their order, but for
/// those whose loan was cancelled meanwhile. Their records say that they are free and nobody's, and
/// that they hold the fill pattern where that is written. Nothing else changes.
pub proof fn lemma_coming_back(state: PmmState, list: Seq<VmPagePtr>)
    requires
        state.wf(),
        list.no_duplicates(),
        forall|p: VmPagePtr| #[trigger] list.contains(p) ==> state.pages.contains_key(p),
    ensures
        ({
            let after = state.give_back_loaned(list);
            let back = after.free_loaned.len() - state.free_loaned.len();
            &&& 0 <= back <= list.len()
            &&& forall|i: int|
                back <= i < after.free_loaned.len() ==> #[trigger] after.free_loaned[i]
                    == state.free_loaned[i - back]
            &&& forall|i: int|
                0 <= i < back ==> list.contains(#[trigger] after.free_loaned[i])
                    && !state.pages[after.free_loaned[i]].loan_cancelled
            &&& forall|i: int, j: int|
                0 <= i < j < back ==> list.index_of(#[trigger] after.free_loaned[i])
                    < list.index_of(#[trigger] after.free_loaned[j])
            &&& forall|i: int|
                0 <= i < list.len() && !state.pages[#[trigger] list[i]].loan_cancelled
                    ==> exists|k: int| 0 <= k < back && after.free_loaned[k] == list[i]
            &&& forall|i: int|
                0 <= i < list.len() ==> after.pages[#[trigger] list[i]] == (VmPage {
                    state: VmPageState::FREE_LOANED,
                    owner: None,
                    filled: state.free_fill_enabled,
                    ..state.pages[list[i]]
                })
            &&& forall|p: VmPagePtr|
                state.pages.contains_key(p) && (forall|i: int|
                    0 <= i < list.len() ==> #[trigger] list[i] != p) ==> #[trigger] after.pages[p]
                    == state.pages[p]
            &&& after == (PmmState {
                pages: after.pages,
                free_loaned: after.free_loaned,
                ..state
            })
        }),
{
    let after = state.give_back_loaned(list);
    let keep = |p: VmPagePtr| !state.pages[p].loan_cancelled;
    let kept = state.kept(list);
    assert(kept == list.filter(keep));
    lemma_filter_order(list, keep);
    assert(after.free_loaned == kept + state.free_loaned);
    assert forall|i: int| 0 <= i < list.len() && !state.pages[#[trigger] list[i]].loan_cancelled
        implies exists|k: int| 0 <= k < kept.len() && after.free_loaned[k] == list[i] by {
        assert(keep(list[i]));
        assert(kept.contains(list[i]));
        let k = choose|k: int| 0 <= k < kept.len() && kept[k] == list[i];
        assert(after.free_loaned[k] == list[i]);
    }
    assert forall|i: int| 0 <= i < list.len() implies after.pages[#[trigger] list[i]] == (VmPage {
        state: VmPageState::FREE_LOANED,
        owner: None,
        filled: state.free_fill_enabled,
        ..state.pages[list[i]]
    }) by {
        assert(list.contains(list[i]));
    }
    assert forall|p: VmPagePtr|
        state.pages.contains_key(p) && (forall|i: int|
            0 <= i < list.len() ==> #[trigger] list[i] != p) implies #[trigger] after.pages[p]
        == state.pages[p] by {
        if list.contains(p) {
            let i = choose|i: int| 0 <= i < list.len() && list[i] == p;
            assert(list[i] == p);
        }
    }
}

/// A filtered list has the elements that pass the filter, in their order.
proof fn lemma_filter_order(list: Seq<VmPagePtr>, keep: spec_fn(VmPagePtr) -> bool)
    requires
        list.no_duplicates(),
    ensures
        list.filter(keep).len() <= list.len(),
        forall|i: int|
            0 <= i < list.filter(keep).len() ==> list.contains(#[trigger] list.filter(keep)[i])
                && keep(list.filter(keep)[i]),
        forall|i: int|
            0 <= i < list.len() && keep(#[trigger] list[i]) ==> list.filter(keep).contains(list[i]),
        forall|i: int, j: int|
            0 <= i < j < list.filter(keep).len() ==> list.index_of(
                #[trigger] list.filter(keep)[i],
            ) < list.index_of(#[trigger] list.filter(keep)[j]),
    decreases list.len(),
{
    reveal(Seq::filter);
    if list.len() > 0 {
        let rest = list.drop_last();
        let last = list.last();
        lemma_filter_order(rest, keep);
        let old = rest.filter(keep);
        let new = list.filter(keep);
        assert(new == if keep(last) {
            old.push(last)
        } else {
            old
        });
        assert forall|i: int| 0 <= i < old.len() implies list.contains(#[trigger] old[i])
            && list.index_of(old[i]) == rest.index_of(old[i]) && list.index_of(old[i])
            < list.len() - 1 by {
            let k = rest.index_of(old[i]);
            assert(rest.contains(old[i]));
            assert(rest[k] == old[i]);
            assert(list[k] == old[i]);
        }
        assert(list[list.len() - 1] == last);
        assert(list.index_of(last) == list.len() - 1);
        assert forall|i: int| 0 <= i < new.len() implies list.contains(#[trigger] new[i]) && keep(
            new[i],
        ) by {
            if i < old.len() {
                assert(new[i] == old[i]);
            }
        }
        assert forall|i: int, j: int| 0 <= i < j < new.len() implies list.index_of(
            #[trigger] new[i],
        ) < list.index_of(#[trigger] new[j]) by {
            assert(new[i] == old[i]);
            if j < old.len() {
                assert(new[j] == old[j]);
            }
        }
        assert forall|i: int| 0 <= i < list.len() && keep(#[trigger] list[i]) implies new.contains(
            list[i],
        ) by {
            if i < rest.len() {
                assert(rest[i] == list[i]);
                let k = choose|k: int| 0 <= k < old.len() && old[k] == list[i];
                assert(new[k] == list[i]);
            } else {
                assert(new[old.len() as int] == last);
            }
        }
    }
}

/// Pages on their way back belong to their holder; what else is recorded of them is what their
/// owner has left. Nothing else changes.
pub proof fn lemma_holding(
    state: PmmState,
    list: Seq<VmPagePtr>,
    records: Seq<VmPage>,
    holder: u64,
    count: nat,
)
    requires
        list.no_duplicates(),
        count <= list.len(),
        count <= records.len(),
    ensures
        ({
            let after = state.hold(list, records, holder, count);
            &&& forall|i: int|
                0 <= i < count ==> after.pages[#[trigger] list[i]] == (VmPage {
                    state: VmPageState::ALLOC,
                    owner: Some(holder),
                    ..records[i]
                })
            &&& forall|p: VmPagePtr|
                (forall|i: int| 0 <= i < count ==> #[trigger] list[i] != p)
                    ==> #[trigger] after.pages[p] == state.pages[p]
            &&& after == (PmmState { pages: after.pages, ..state })
        }),
    decreases count,
{
    if count > 0 {
        lemma_holding(state, list, records, holder, (count - 1) as nat);
        let before = state.hold(list, records, holder, (count - 1) as nat);
        let after = state.hold(list, records, holder, count);
        assert forall|i: int| 0 <= i < count implies after.pages[#[trigger] list[i]] == (VmPage {
            state: VmPageState::ALLOC,
            owner: Some(holder),
            ..records[i]
        }) by {
            if i < count - 1 {
                assert(list[i] != list[count - 1]);
            }
        }
        assert forall|p: VmPagePtr|
            (forall|i: int| 0 <= i < count ==> #[trigger] list[i] != p) implies #[trigger] after.pages[p]
            == state.pages[p] by {
            assert(list[count - 1] != p);
            assert(before.pages[p] == state.pages[p]);
        }
    }
}

/// The end of the hand-off frees the temporary pages as the owner of a list frees it, and leaves
/// nothing to free a second time.
pub proof fn lemma_ending_the_handoff(state: PmmState)
    ensures
        ({
            let after = state.end_handoff();
            let n = state.handoff_temporary.len();
            &&& after.handoff_temporary.len() == 0
            &&& after.free.len() == n + state.free.len()
            &&& forall|i: int| 0 <= i < n ==> #[trigger] after.free[i]
                == state.handoff_temporary[i]
            &&& forall|i: int|
                n <= i < after.free.len() ==> #[trigger] after.free[i] == state.free[i - n]
            &&& forall|i: int|
                0 <= i < n && state.pages.contains_key(#[trigger] state.handoff_temporary[i])
                    ==> after.pages[state.handoff_temporary[i]].state == VmPageState::FREE
            &&& after.handoff_vmo == state.handoff_vmo
            &&& after.free_loaned == state.free_loaned
            &&& after.end_handoff().free == after.free
            &&& after == (PmmState {
                handoff_temporary: after.handoff_temporary,
                ..state.give_back(state.handoff_temporary, PmmOptDelayReuse::Default)
            })
        }),
{
    let after = state.end_handoff();
    assert forall|i: int|
        0 <= i < state.handoff_temporary.len() && state.pages.contains_key(
            #[trigger] state.handoff_temporary[i],
        ) implies after.pages[state.handoff_temporary[i]].state == VmPageState::FREE by {
        assert(state.handoff_temporary.contains(state.handoff_temporary[i]));
    }
    assert(after.end_handoff().free =~= after.free);
}

/// A page that is no longer wired is allocated, and is not among those to become objects. Nothing
/// else changes.
pub proof fn lemma_unwiring(state: PmmState, page: VmPagePtr)
    requires
        state.wf(),
        state.pages.contains_key(page),
        state.pages[page].state == VmPageState::WIRED,
    ensures
        ({
            let after = state.unwire(page);
            &&& after.pages[page] == (VmPage { state: VmPageState::ALLOC, ..state.pages[page] })
            &&& forall|p: VmPagePtr|
                p != page && state.pages.contains_key(p) ==> #[trigger] after.pages[p]
                    == state.pages[p]
            &&& after.handoff_vmo == state.handoff_vmo.remove_value(page)
            &&& forall|p: VmPagePtr| #[trigger]
                after.handoff_vmo.contains(p) <==> state.handoff_vmo.contains(p) && p != page
            &&& after == (PmmState {
                pages: after.pages,
                handoff_vmo: after.handoff_vmo,
                ..state
            })
        }),
{
    state.handoff_vmo.index_of_first_ensures(page);
    if state.handoff_vmo.contains(page) {
        lemma_erase(state.handoff_vmo, page);
    }
}

/// Pages that come online are allocated after all that were free before, and open the way for a
/// thread that waits. Nothing else changes.
pub proof fn lemma_coming_online(state: PmmState, list: Seq<VmPagePtr>)
    ensures
        ({
            let after = state.bring_online(list);
            &&& after.free.len() == state.free.len() + list.len()
            &&& forall|i: int| 0 <= i < state.free.len() ==> #[trigger] after.free[i]
                == state.free[i]
            &&& forall|i: int|
                state.free.len() <= i < after.free.len() ==> #[trigger] after.free[i] == list[i
                    - state.free.len()]
            &&& after == (PmmState {
                free: after.free,
                throttle: Throttle { may_allocate: true, ..state.throttle },
                ..state
            })
        }),
{
}

/// Filling gives the pattern to every page that is free, on loan or not, and to no other, and
/// begins to check the pages that are allocated.
pub proof fn lemma_filling(state: PmmState)
    requires
        state.wf(),
    ensures
        ({
            let after = state.fill_all();
            &&& forall|p: VmPagePtr|
                state.free.contains(p) || state.free_loaned.contains(p)
                    ==> #[trigger] after.pages[p] == (VmPage { filled: true, ..state.pages[p] })
            &&& forall|p: VmPagePtr|
                state.pages.contains_key(p) && !state.free.contains(p)
                    && !state.free_loaned.contains(p) ==> #[trigger] after.pages[p]
                    == state.pages[p]
            &&& after.all_free_pages_filled
            &&& after.checker.armed
            &&& after.checker.fill_size == state.checker.fill_size
            &&& after.checker.action == state.checker.action
            &&& after == (PmmState {
                pages: after.pages,
                all_free_pages_filled: true,
                checker: after.checker,
                ..state
            })
        }),
{
    lemma_one_list_each(state);
}

/// No page is both free and on loan.
proof fn lemma_one_list_each(state: PmmState)
    requires
        state.wf(),
    ensures
        forall|p: VmPagePtr| #[trigger]
            (state.free + state.free_loaned).contains(p) <==> state.free.contains(p)
                || state.free_loaned.contains(p),
{
    crate::pmm_model::lemma_unite(state.free, state.free_loaned);
}

/// A new record of a page replaces the old one, and changes nothing else.
pub proof fn lemma_updating(state: PmmState, page: VmPagePtr, record: VmPage)
    requires
        state.pages.contains_key(page),
    ensures
        ({
            let after = state.with_record(page, record);
            &&& after.pages[page] == record
            &&& forall|p: VmPagePtr|
                p != page && state.pages.contains_key(p) ==> #[trigger] after.pages[p]
                    == state.pages[p]
            &&& after.pages.dom() == state.pages.dom()
            &&& after == (PmmState { pages: after.pages, ..state })
        }),
{
    assert(state.with_record(page, record).pages.dom() =~= state.pages.dom());
}

} // verus!
