//! Tests of the node that owns the physical pages.

use kernel_vm::page::{PAGE_SIZE, SIZE};
use kernel_vm::pmm_arena::PmmArenaInfo;
use kernel_vm::pmm_model::{AllocFailure, AllocFailureType, CheckFailAction, PmmOptDelayReuse};
use kernel_vm::pmm_node::{
    FreeLoanedPagesHolder, FreeLoanedPagesHolderWaiter, PmmNode, WaitEvent, WaitStep,
    ALLOC_FLAG_ANY, ALLOC_FLAG_CAN_WAIT,
};
use kernel_vm::status::Status;
use kernel_vm::vm_page::{VmPage, VmPageDoublyLinkedList, VmPagePtr, VmPageState};

/// A node with a small number of pages, filled and checked, and with a free memory event.
struct ManagedPmmNode {
    node: PmmNode,
    signaled: bool,
}

impl ManagedPmmNode {
    const NUM_PAGES: usize = 64;
    const DEFAULT_MEM_EVENT_LOWER_BOUND: u64 = 32;
    const DEFAULT_SHOULD_WAIT_LEVEL: u64 = 16;
    /// Number of pages to alloc from the default config to put the node in a low mem state.
    const DEFAULT_LOW_MEM_ALLOC: usize = 49;
    /// Number of pages to alloc from the default config to trip the event.
    const DEFAULT_MEM_EVENT_ALLOC: usize = 33;
    const BASE: u64 = 0x8000_0000;
    const EVENT: u64 = 7;

    fn new() -> ManagedPmmNode {
        let mut node = PmmNode::init();
        node.add_arena(PmmArenaInfo {
            flags: 0,
            base: Self::BASE,
            size: Self::NUM_PAGES as u64 * PAGE_SIZE,
        });
        let mut list = VmPageDoublyLinkedList::new();
        for i in 0..Self::NUM_PAGES as u64 {
            list.push_back(VmPagePtr::new(Self::BASE + i * PAGE_SIZE));
        }
        node.add_free_pages(&mut list);
        assert!(node.enable_free_page_filling(SIZE, CheckFailAction::Panic));
        node.fill_free_pages_and_arm();
        let mut managed = ManagedPmmNode { node, signaled: false };
        assert!(managed.reset_default_mem_event());
        managed
    }

    fn is_event_signaled(&mut self) -> bool {
        if !self.node.take_raised_events().is_empty() {
            self.signaled = true;
        }
        self.signaled
    }

    fn unsignal_event(&mut self) {
        let _ = self.is_event_signaled();
        self.signaled = false;
    }

    fn reset_default_mem_event(&mut self) -> bool {
        self.set_free_memory_signal(
            Self::DEFAULT_MEM_EVENT_LOWER_BOUND,
            u64::MAX,
            Self::DEFAULT_SHOULD_WAIT_LEVEL,
        )
    }

    fn set_free_memory_signal(&mut self, lower: u64, upper: u64, delay_pages: u64) -> bool {
        self.node.set_free_memory_signal(lower, upper, delay_pages, Some(Self::EVENT))
    }

    fn alloc_loaned_pages(&mut self, count: usize) -> Result<Vec<VmPagePtr>, Status> {
        let mut pages = Vec::new();
        for _ in 0..count {
            let result = self.node.alloc_loaned_page(|_page, record| VmPage {
                state: VmPageState::OBJECT,
                object: Some(1),
                ..record
            });
            match result {
                Ok(page) => pages.push(page),
                Err(status) => {
                    for page in pages {
                        self.free_loaned_page(page);
                    }
                    return Err(status);
                }
            }
        }
        Ok(pages)
    }

    fn free_loaned_page(&mut self, page: VmPagePtr) {
        let mut flph = FreeLoanedPagesHolder::init(1);
        self.node.begin_free_loaned_page(
            page,
            |_page, record| VmPage { object: None, ..record },
            &mut flph,
        );
        let _ = self.node.finish_free_loaned_pages(&mut flph);
    }

    /// Waits for a page until `status` ends the wait.
    fn wait_until(&mut self, status: Status, suspendable: bool) -> Result<VmPagePtr, Status> {
        match self.node.wait_for_single_page_allocation(WaitEvent::Begin, suspendable) {
            WaitStep::Done(result) => result,
            WaitStep::Wait { ignore_suspend } => {
                assert_eq!(ignore_suspend, !suspendable);
                match self
                    .node
                    .wait_for_single_page_allocation(WaitEvent::Interrupted(status), suspendable)
                {
                    WaitStep::Done(result) => result,
                    WaitStep::Wait { .. } => panic!("the wait goes on"),
                }
            }
        }
    }
}

/// Tests simple creation and destruction.
#[test]
fn smoke() {
    let _pmm = PmmNode::init();
}

/// Allocates more than one page and frees them.
#[test]
fn node_multi_alloc() {
    let mut node = ManagedPmmNode::new();
    let alloc_count = ManagedPmmNode::NUM_PAGES / 2;
    let mut list = VmPageDoublyLinkedList::new();

    let status = node.node.alloc_pages(alloc_count, 0, &mut list);
    assert_eq!(status, Ok(()));
    assert_eq!(alloc_count, list.len());

    let status = node.node.alloc_pages(alloc_count, 0, &mut list);
    assert_eq!(status, Ok(()));
    assert_eq!(2 * alloc_count, list.len());

    node.node.free_list(&mut list, PmmOptDelayReuse::Default);
    assert_eq!(node.node.count_free_pages(), ManagedPmmNode::NUM_PAGES as u64);
}

/// Allocates one page from the bulk allocation api.
#[test]
fn node_singleton_list() {
    let mut node = ManagedPmmNode::new();
    let mut list = VmPageDoublyLinkedList::new();

    let status = node.node.alloc_pages(1, 0, &mut list);
    assert_eq!(status, Ok(()));
    assert_eq!(1, list.len());

    node.node.free_list(&mut list, PmmOptDelayReuse::Default);
}

/// Loans pages, borrows, cancels, reclaims, and ends the loan.
#[test]
fn node_loan_borrow_cancel_reclaim_end() {
    let mut node = ManagedPmmNode::new();
    let mut list = VmPageDoublyLinkedList::new();

    const LOAN_COUNT: usize = ManagedPmmNode::NUM_PAGES * 3 / 4;
    const NOT_LOAN_COUNT: usize = ManagedPmmNode::NUM_PAGES - LOAN_COUNT;

    let status = node.node.alloc_pages(LOAN_COUNT, 0, &mut list);
    assert_eq!(status, Ok(()));
    assert_eq!(LOAN_COUNT, list.len());

    let lent = list.to_vec();
    for page in &lent {
        assert!(!node.node.page(*page).is_loaned());
        assert!(!node.node.page(*page).is_loan_cancelled());
    }
    node.node.begin_loan(&mut list, PmmOptDelayReuse::Default);
    for page in &lent {
        assert!(node.node.page(*page).is_loaned());
        assert!(!node.node.page(*page).is_loan_cancelled());
    }

    assert_eq!(LOAN_COUNT as u64, node.node.count_loaned_pages());
    assert_eq!(NOT_LOAN_COUNT as u64, node.node.count_free_pages());
    assert_eq!(LOAN_COUNT as u64, node.node.count_loaned_free_pages());
    assert_eq!(0, node.node.count_loan_cancelled_pages());
    assert_eq!(0, node.node.count_loaned_not_free_pages());

    assert_eq!(0, list.len());
    let loaned_pages = node.alloc_loaned_pages(LOAN_COUNT).unwrap();

    for page in &loaned_pages {
        assert!(lent.contains(page));
    }

    for page in &loaned_pages {
        assert!(node.node.page(*page).is_loaned());
        assert!(!node.node.page(*page).is_loan_cancelled());
        node.node.cancel_loan(*page);
        assert!(node.node.page(*page).is_loaned());
        assert!(node.node.page(*page).is_loan_cancelled());
    }

    assert_eq!(LOAN_COUNT as u64, node.node.count_loaned_pages());
    assert_eq!(NOT_LOAN_COUNT as u64, node.node.count_free_pages());
    assert_eq!(0, node.node.count_loaned_free_pages());
    assert_eq!(LOAN_COUNT as u64, node.node.count_loan_cancelled_pages());
    assert_eq!(LOAN_COUNT as u64, node.node.count_loaned_not_free_pages());

    for page in &loaned_pages {
        node.free_loaned_page(*page);
    }

    assert_eq!(LOAN_COUNT as u64, node.node.count_loaned_pages());
    assert_eq!(NOT_LOAN_COUNT as u64, node.node.count_free_pages());
    assert_eq!(0, node.node.count_loaned_free_pages());
    assert_eq!(LOAN_COUNT as u64, node.node.count_loan_cancelled_pages());
    assert_eq!(LOAN_COUNT as u64, node.node.count_loaned_not_free_pages());

    assert_eq!(0, list.len());
    let status = node.alloc_loaned_pages(NOT_LOAN_COUNT + 1);
    assert_eq!(status, Err(Status::NO_RESOURCES));

    assert_eq!(0, list.len());
    let status = node.node.alloc_pages(NOT_LOAN_COUNT, ALLOC_FLAG_ANY, &mut list);
    assert_eq!(status, Ok(()));

    for page in list.to_vec() {
        assert!(!node.node.page(page).is_loaned());
        assert!(!lent.contains(&page));
    }

    node.node.free_list(&mut list, PmmOptDelayReuse::Default);

    assert_eq!(0, list.len());
    for j in 0..LOAN_COUNT {
        let page = loaned_pages[j];
        assert_eq!(lent[j].paddr(), page.paddr());
        node.node.end_loan(page);
        assert!(!node.node.page(page).is_loaned());
        assert!(!node.node.page(page).is_loan_cancelled());
        list.push_back(page);
    }

    node.node.free_list(&mut list, PmmOptDelayReuse::Default);

    assert_eq!(0, node.node.count_loaned_pages());
    assert_eq!(ManagedPmmNode::NUM_PAGES as u64, node.node.count_free_pages());
    assert_eq!(0, node.node.count_loaned_free_pages());
    assert_eq!(0, node.node.count_loan_cancelled_pages());
    assert_eq!(0, node.node.count_loaned_not_free_pages());

    assert_eq!(0, list.len());
    let status = node.node.alloc_pages(ManagedPmmNode::NUM_PAGES, 0, &mut list);
    assert_eq!(status, Ok(()));
    assert_eq!(ManagedPmmNode::NUM_PAGES, list.len());

    for page in list.to_vec() {
        assert!(!node.node.page(page).is_loaned());
        assert!(!node.node.page(page).is_loan_cancelled());
    }

    node.node.free_list(&mut list, PmmOptDelayReuse::Default);

    assert_eq!(0, node.node.count_loaned_pages());
    assert_eq!(ManagedPmmNode::NUM_PAGES as u64, node.node.count_free_pages());
    assert_eq!(0, node.node.count_loaned_free_pages());
    assert_eq!(0, node.node.count_loan_cancelled_pages());
    assert_eq!(0, node.node.count_loaned_not_free_pages());
}

/// Allocates too many pages and makes sure it fails nicely.
#[test]
fn node_oversized_alloc() {
    let mut node = ManagedPmmNode::new();
    let mut list = VmPageDoublyLinkedList::new();

    let status = node.node.alloc_pages(ManagedPmmNode::NUM_PAGES + 1, 0, &mut list);
    assert_eq!(status, Err(Status::NO_MEMORY));
    assert!(list.is_empty());
}

/// Check that free memory events work correctly.
#[test]
fn node_free_mem_event() {
    let mut node = ManagedPmmNode::new();

    let free_count = node.node.count_free_pages();
    assert!(free_count > 0);

    // Setting an event range that does not include the current free count should be invalid.
    // The level below which allocations are delayed stays out of the way.
    assert!(!node.set_free_memory_signal(free_count + 1, u64::MAX, 0));
    assert!(!node.set_free_memory_signal(0, free_count - 1, 0));

    // The range can be inclusive of the current free count.
    assert!(node.set_free_memory_signal(free_count, u64::MAX, 0));
    assert!(node.set_free_memory_signal(0, free_count, 0));

    // Reset back to the default event.
    assert!(node.reset_default_mem_event());

    // Should never have triggered the event up to this point.
    assert!(!node.is_event_signaled());

    // Allocate all but 1 of the pages to trigger the event.
    let mut list = VmPageDoublyLinkedList::new();

    for _i in 1..ManagedPmmNode::DEFAULT_MEM_EVENT_ALLOC {
        let page = node.node.alloc_page(0).unwrap();
        list.push_back(page);
    }
    // Should not have triggered the event yet.
    assert!(!node.is_event_signaled());

    // Allocate the last page, this should put us over the limit and set the event.
    {
        let page = node.node.alloc_page(0).unwrap();
        list.push_back(page);
    }
    assert!(node.is_event_signaled());
    node.unsignal_event();

    // Events are one-shot, and so putting a page back and allocating it again should not
    // re-trigger the event.
    let popped = list.pop_front().unwrap();
    node.node.free_page(popped, PmmOptDelayReuse::Default);
    {
        let page = node.node.alloc_page(0).unwrap();
        list.push_back(page);
    }
    assert!(!node.is_event_signaled());

    // Set a new free range that should trip as we return the pages back.
    assert!(node.set_free_memory_signal(0, (ManagedPmmNode::NUM_PAGES - 1) as u64, 0));

    // Take one page off the list as our final page.
    let page = list.pop_front().unwrap();

    // Return the rest of the list.
    node.node.free_list(&mut list, PmmOptDelayReuse::Default);
    // Event should not have tripped yet.
    assert!(!node.is_event_signaled());

    // Return the last page, should trip.
    node.node.free_page(page, PmmOptDelayReuse::Default);
    assert!(node.is_event_signaled());
}

/// Checks sync allocation failure when the node crosses a threshold.
#[test]
fn node_low_mem_alloc_failure() {
    let mut node = ManagedPmmNode::new();
    let mut list = VmPageDoublyLinkedList::new();

    // Put the node in an oom state and make sure allocation fails.
    let status = node.node.alloc_pages(ManagedPmmNode::DEFAULT_LOW_MEM_ALLOC, 0, &mut list);
    assert_eq!(status, Ok(()));
    // Should also have been signaled.
    assert!(node.is_event_signaled());

    let result = node.node.alloc_page(ALLOC_FLAG_CAN_WAIT);
    assert_eq!(result, Err(Status::SHOULD_WAIT));

    // Waiting for an allocation should block.
    assert_eq!(node.wait_until(Status::TIMED_OUT, true), Err(Status::TIMED_OUT));

    // Free the list.
    node.node.free_list(&mut list, PmmOptDelayReuse::Default);

    // Allocations will still be delayed until we reset the trigger.
    let result = node.node.alloc_page(ALLOC_FLAG_CAN_WAIT);
    assert_eq!(result, Err(Status::SHOULD_WAIT));

    assert!(node.reset_default_mem_event());

    // Allocations should work again.
    {
        let alloc_page = node.wait_until(Status::TIMED_OUT, true);
        assert_ne!(alloc_page, Err(Status::TIMED_OUT));
        if let Ok(page) = alloc_page {
            node.node.free_page(page, PmmOptDelayReuse::Default);
        }
    }

    // Reset the signal.
    node.unsignal_event();
    // Set a threshold such that a single allocation should trip into the low mem state.
    assert!(node.set_free_memory_signal(
        ManagedPmmNode::NUM_PAGES as u64,
        u64::MAX,
        ManagedPmmNode::NUM_PAGES as u64
    ));

    // Signal should not yet be set, and allocations should not be delayed.
    assert!(!node.is_event_signaled());
    {
        let alloc_page = node.wait_until(Status::TIMED_OUT, true);
        assert_ne!(alloc_page, Err(Status::TIMED_OUT));
        if let Ok(page) = alloc_page {
            node.node.free_page(page, PmmOptDelayReuse::Default);
        }
    }

    // Allocate a single page and validate that allocations are now delayed.
    assert_eq!(node.node.alloc_pages(1, 0, &mut list), Ok(()));
    let result = node.node.alloc_page(ALLOC_FLAG_CAN_WAIT);
    assert_eq!(result, Err(Status::SHOULD_WAIT));
    assert_eq!(node.wait_until(Status::TIMED_OUT, true), Err(Status::TIMED_OUT));

    node.node.free_list(&mut list, PmmOptDelayReuse::Default);
}

/// Test reporting allocation failures and latching the first failure.
#[test]
fn node_alloc_failure_reporting() {
    let mut node = ManagedPmmNode::new();

    // Initially, no allocation failure should be recorded.
    assert!(!node.node.has_alloc_failed_no_mem());
    let initial_failure = node.node.get_first_alloc_failure();
    assert_eq!(initial_failure.failure_type, AllocFailureType::NoFailure);
    assert_eq!(0, initial_failure.size);

    // Report a first allocation failure.
    let failure1 =
        AllocFailure { failure_type: AllocFailureType::Heap, size: 1024, free_count: 10 };
    node.node.report_alloc_failure(failure1);

    assert!(node.node.has_alloc_failed_no_mem());
    let recorded_failure = node.node.get_first_alloc_failure();
    assert_eq!(recorded_failure.failure_type, AllocFailureType::Heap);
    assert_eq!(1024, recorded_failure.size);
    assert_eq!(ManagedPmmNode::NUM_PAGES as u64, recorded_failure.free_count);

    // Report a second allocation failure with different parameters.
    let failure2 = AllocFailure { failure_type: AllocFailureType::Pmm, size: 4096, free_count: 5 };
    node.node.report_alloc_failure(failure2);

    // The node should still retain the first recorded failure.
    let latched_failure = node.node.get_first_alloc_failure();
    assert_eq!(latched_failure.failure_type, AllocFailureType::Heap);
    assert_eq!(1024, latched_failure.size);
    assert_eq!(ManagedPmmNode::NUM_PAGES as u64, latched_failure.free_count);
}

/// Test that deliberately putting into a no alloc state (and back out) works.
#[test]
fn node_explicit_should_wait() {
    let mut node = ManagedPmmNode::new();

    // Place the node directly into a state that forbids allocations.
    assert!(node.set_free_memory_signal(0, ManagedPmmNode::NUM_PAGES as u64, u64::MAX));

    // Allocations that can wait should be blocked.
    let result = node.node.alloc_page(ALLOC_FLAG_CAN_WAIT);
    assert_eq!(result, Err(Status::SHOULD_WAIT));
    assert_eq!(node.wait_until(Status::TIMED_OUT, true), Err(Status::TIMED_OUT));

    // A regular allocation should work.
    let page = node.node.alloc_page(0).unwrap();
    node.node.free_page(page, PmmOptDelayReuse::Default);

    // Changing the delayed threshold should re-enable allocations.
    assert!(node.reset_default_mem_event());

    {
        let alloc_page = node.wait_until(Status::TIMED_OUT, true);
        assert_ne!(alloc_page, Err(Status::TIMED_OUT));
        if let Ok(page) = alloc_page {
            node.node.free_page(page, PmmOptDelayReuse::Default);
        }
    }
}

/// Verifies that waiting for a page does not block once nothing is to wait any more.
#[test]
fn node_stop_returning_should_wait() {
    let mut node = ManagedPmmNode::new();

    // Allocate all pages to ensure allocation fails with NO_MEMORY later.
    let mut list = VmPageDoublyLinkedList::new();
    let status = node.node.alloc_pages(ManagedPmmNode::NUM_PAGES, 0, &mut list);
    assert_eq!(status, Ok(()));

    // Place the node directly into a state that forbids allocations.
    assert!(node.set_free_memory_signal(0, ManagedPmmNode::NUM_PAGES as u64, u64::MAX));

    // A thread waits.
    assert_eq!(
        node.node.wait_for_single_page_allocation(WaitEvent::Begin, true),
        WaitStep::Wait { ignore_suspend: false }
    );

    // Stop returning should wait. This should wake up the thread.
    node.node.stop_returning_should_wait();

    // The thread failed with NO_MEMORY, and did not time out.
    assert_eq!(
        node.node.wait_for_single_page_allocation(WaitEvent::Woken, true),
        WaitStep::Done(Err(Status::NO_MEMORY))
    );

    // Second call: since nothing is to wait any more, it should not wait.
    assert_eq!(node.wait_until(Status::TIMED_OUT, true), Err(Status::NO_MEMORY));

    // Clean up.
    node.node.free_list(&mut list, PmmOptDelayReuse::Default);
}

/// Verifies that all threads that wait for a page are woken up.
#[test]
fn node_stop_returning_should_wait_concurrent() {
    let mut node = ManagedPmmNode::new();

    // Allocate all pages to ensure allocation fails with NO_MEMORY later.
    let mut list = VmPageDoublyLinkedList::new();
    let status = node.node.alloc_pages(ManagedPmmNode::NUM_PAGES, 0, &mut list);
    assert_eq!(status, Ok(()));

    // Place the node directly into a state that forbids allocations.
    assert!(node.set_free_memory_signal(0, ManagedPmmNode::NUM_PAGES as u64, u64::MAX));

    const NUM_WAITERS: usize = 3;
    for _ in 0..NUM_WAITERS {
        assert_eq!(
            node.node.wait_for_single_page_allocation(WaitEvent::Begin, true),
            WaitStep::Wait { ignore_suspend: false }
        );
    }

    // Stop returning should wait.
    node.node.stop_returning_should_wait();

    // All threads fail with NO_MEMORY, and none times out.
    let mut no_memory_count = 0;
    for _ in 0..NUM_WAITERS {
        let step = node.node.wait_for_single_page_allocation(WaitEvent::Woken, true);
        if step == WaitStep::Done(Err(Status::NO_MEMORY)) {
            no_memory_count += 1;
        }
    }
    assert_eq!(no_memory_count, NUM_WAITERS);

    // Clean up.
    node.node.free_list(&mut list, PmmOptDelayReuse::Default);
}

/// A node without free pages that delays allocations, and its pages.
fn exhausted_node() -> (ManagedPmmNode, VmPageDoublyLinkedList) {
    let mut node = ManagedPmmNode::new();
    let mut list = VmPageDoublyLinkedList::new();
    assert_eq!(node.node.alloc_pages(ManagedPmmNode::NUM_PAGES, 0, &mut list), Ok(()));
    assert!(node.set_free_memory_signal(0, ManagedPmmNode::NUM_PAGES as u64, u64::MAX));
    (node, list)
}

/// Verifies that a suspendable wait is interrupted by suspension.
#[test]
fn node_suspendable_wait() {
    let (mut node, mut list) = exhausted_node();

    // A thread that waits in a suspendable state is suspended, and exits at once.
    assert_eq!(
        node.wait_until(Status::INTERRUPTED_RETRY, true),
        Err(Status::INTERRUPTED_RETRY)
    );

    node.node.free_list(&mut list, PmmOptDelayReuse::Default);
}

/// Verifies that a wait that is not suspendable ignores suspend signals.
#[test]
fn node_non_suspendable_wait() {
    let (mut node, mut list) = exhausted_node();

    assert_eq!(
        node.node.wait_for_single_page_allocation(WaitEvent::Begin, false),
        WaitStep::Wait { ignore_suspend: true }
    );

    // Suspend the thread (which should be ignored by the wait loop).
    assert_eq!(
        node.node.wait_for_single_page_allocation(
            WaitEvent::Interrupted(Status::INTERRUPTED_RETRY),
            false
        ),
        WaitStep::Wait { ignore_suspend: true }
    );

    // It should wait out the full timeout.
    assert_eq!(
        node.node
            .wait_for_single_page_allocation(WaitEvent::Interrupted(Status::TIMED_OUT), false),
        WaitStep::Done(Err(Status::TIMED_OUT))
    );

    node.node.free_list(&mut list, PmmOptDelayReuse::Default);
}

/// Verifies that a wait is interrupted when the thread is killed.
#[test]
fn node_killed_wait() {
    let (mut node, mut list) = exhausted_node();

    assert_eq!(
        node.wait_until(Status::INTERNAL_INTR_KILLED, true),
        Err(Status::INTERNAL_INTR_KILLED)
    );

    node.node.free_list(&mut list, PmmOptDelayReuse::Default);
}

/// Verifies that a wait that is not suspendable is interrupted when killed.
#[test]
fn node_suspend_then_killed_wait() {
    let (mut node, mut list) = exhausted_node();

    assert_eq!(
        node.node.wait_for_single_page_allocation(WaitEvent::Begin, false),
        WaitStep::Wait { ignore_suspend: true }
    );

    // Suspend the thread (which should be ignored).
    assert_eq!(
        node.node.wait_for_single_page_allocation(
            WaitEvent::Interrupted(Status::INTERRUPTED_RETRY),
            false
        ),
        WaitStep::Wait { ignore_suspend: true }
    );

    // Now kill the thread.
    assert_eq!(
        node.node.wait_for_single_page_allocation(
            WaitEvent::Interrupted(Status::INTERNAL_INTR_KILLED),
            false
        ),
        WaitStep::Done(Err(Status::INTERNAL_INTR_KILLED))
    );

    node.node.free_list(&mut list, PmmOptDelayReuse::Default);
}

/// Verifies that an allocation appends to an existing list without looking at the pages in it.
#[test]
fn alloc_append() {
    let mut node = ManagedPmmNode::new();
    let mut list = VmPageDoublyLinkedList::new();

    // Allocate a single page into the list first.
    assert_eq!(node.node.alloc_pages(1, 0, &mut list), Ok(()));

    // Overwrite the page.
    let front = list.get(0);
    let record = node.node.page(front);
    assert!(record.filled);
    node.node.update_page(front, VmPage { filled: false, ..record });

    // Now append more pages to the list.
    assert_eq!(node.node.alloc_pages(ManagedPmmNode::NUM_PAGES / 2, 0, &mut list), Ok(()));
    assert_eq!(list.len(), ManagedPmmNode::NUM_PAGES / 2 + 1);
    assert_eq!(list.get(0), front);
    assert!(!node.node.page(front).filled);

    node.node.free_list(&mut list, PmmOptDelayReuse::Default);
}

/// Verifies `with_loaned_page` waiting and non-waiting behavior.
#[test]
fn node_with_loaned_page() {
    let mut node = ManagedPmmNode::new();
    let mut list = VmPageDoublyLinkedList::new();
    assert_eq!(node.node.alloc_pages(1, 0, &mut list), Ok(()));
    node.node.begin_loan(&mut list, PmmOptDelayReuse::Default);

    let page = node.alloc_loaned_pages(1).unwrap()[0];

    // Page is in OBJECT state (not ALLOC); `with_loaned_page` should run immediately.
    let mut called_object = false;
    let holder = node.node.with_loaned_page(page, |_page, record| {
        assert_eq!(record.state, VmPageState::OBJECT);
        called_object = true;
    });
    assert_eq!(holder, None);
    assert!(called_object);

    // Begin freeing the loaned page into a holder.
    // The page is now in ALLOC state, owned by `flph`.
    let mut flph = FreeLoanedPagesHolder::init(12);
    node.node.begin_free_loaned_page(
        page,
        |_page, record| VmPage { object: None, ..record },
        &mut flph,
    );

    // A thread that calls `with_loaned_page` must wait for the holder.
    let mut completed = false;
    let holder = node.node.with_loaned_page(page, |_page, _record| completed = true);
    assert_eq!(holder, Some(12));
    assert!(!completed);
    flph.push_waiter(FreeLoanedPagesHolderWaiter { event: 99 });

    // Finish freeing loaned pages, which wakes up the waiter.
    let woken = node.node.finish_free_loaned_pages(&mut flph);
    assert_eq!(woken, vec![FreeLoanedPagesHolderWaiter { event: 99 }]);

    let mut seen_free_loaned = false;
    let holder = node.node.with_loaned_page(page, |_page, record| {
        completed = true;
        seen_free_loaned = record.is_free_loaned();
    });
    assert_eq!(holder, None);
    assert!(completed);
    assert!(seen_free_loaned);

    // Cancel the loan so the page can no longer be borrowed.
    node.node.cancel_loan(page);

    // A page in ALLOC state without an owner is not held by anyone, so `with_loaned_page` should
    // run immediately.
    let record = node.node.page(page);
    node.node.update_page(page, VmPage { state: VmPageState::ALLOC, owner: None, ..record });
    let mut called_without_owner = false;
    let holder = node.node.with_loaned_page(page, |_page, record| {
        assert_eq!(record.state, VmPageState::ALLOC);
        called_without_owner = true;
    });
    assert_eq!(holder, None);
    assert!(called_without_owner);

    // Restore FREE_LOANED state to end the loan and return the page to the node.
    node.node.update_page(page, VmPage { state: VmPageState::FREE_LOANED, ..record });
    node.node.end_loan(page);
    node.node.free_page(page, PmmOptDelayReuse::Default);
    assert_eq!(node.node.count_free_pages(), ManagedPmmNode::NUM_PAGES as u64);
}
