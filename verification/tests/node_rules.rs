//! What holds of the node as a whole, on concrete values.

use kernel_vm::free_memory::is_delayed_by;
use kernel_vm::page::{round_down, PAGE_SIZE};
use kernel_vm::pmm_arena::PmmArenaInfo;
use kernel_vm::pmm_model::{
    AllocFailure, AllocFailureType, CheckFailAction, PmmChecker, PmmOptDelayReuse,
};
use kernel_vm::pmm_node::{
    FreeLoanedPagesHolder, FreeLoanedPagesHolderWaiter, PmmNode, WaitEvent, WaitStep,
    ALLOC_FLAG_ANY, ALLOC_FLAG_CAN_WAIT,
};
use kernel_vm::status::Status;
use kernel_vm::vm_page::{VmPage, VmPageDoublyLinkedList, VmPagePtr, VmPageState};

const BASE: u64 = 0x10_0000;

fn nth(i: u64) -> VmPagePtr {
    VmPagePtr::new(BASE + i * PAGE_SIZE)
}

fn node_with_pages(count: u64) -> PmmNode {
    let mut node = PmmNode::init();
    node.add_arena(PmmArenaInfo { flags: 0, base: BASE, size: count * PAGE_SIZE });
    let mut list = VmPageDoublyLinkedList::new();
    for i in 0..count {
        list.push_back(nth(i));
    }
    node.add_free_pages(&mut list);
    node
}

#[test]
fn allocated_pages_were_free() {
    let mut node = node_with_pages(4);
    assert!(node.enable_free_page_filling(4096, CheckFailAction::Panic));
    assert!(!node.enable_free_page_filling(4096, CheckFailAction::Oops));
    assert!(node.is_free_fill_enabled());
    assert_eq!(node.checker().action, CheckFailAction::Panic);
    assert!(!node.page(nth(0)).filled);
    node.fill_free_pages_and_arm();
    assert!(node.checker().armed);
    let mut list = VmPageDoublyLinkedList::new();
    assert_eq!(node.alloc_pages(3, ALLOC_FLAG_ANY, &mut list), Ok(()));
    assert_eq!(list.to_vec(), vec![nth(0), nth(1), nth(2)]);
    for page in list.to_vec() {
        let record = node.page(page);
        assert_eq!(record.state, VmPageState::ALLOC);
        assert!(record.filled);
        assert!(!record.loaned);
    }
    assert_eq!(node.count_free_pages(), 1);
}

#[test]
fn freeing_undoes_allocating() {
    let mut node = node_with_pages(5);
    let mut list = VmPageDoublyLinkedList::new();
    assert_eq!(node.alloc_pages(3, 0, &mut list), Ok(()));
    node.free_list(&mut list, PmmOptDelayReuse::Default);
    assert!(list.is_empty());
    let mut again = VmPageDoublyLinkedList::new();
    assert_eq!(node.alloc_pages(5, 0, &mut again), Ok(()));
    assert_eq!(again.to_vec(), vec![nth(0), nth(1), nth(2), nth(3), nth(4)]);
}

#[test]
fn reuse_is_immediate_or_delayed() {
    let mut node = node_with_pages(3);
    let page = node.alloc_page(0).unwrap();
    node.free_page(page, PmmOptDelayReuse::Default);
    assert_eq!(node.alloc_page(0), Ok(page));
    node.free_page(page, PmmOptDelayReuse::Yes);
    assert_eq!(node.alloc_page(0), Ok(nth(1)));
    assert_eq!(node.alloc_page(0), Ok(nth(2)));
    assert_eq!(node.alloc_page(0), Ok(page));
    assert_eq!(node.alloc_page(0), Err(Status::NO_MEMORY));
}

#[test]
fn allocating_nothing() {
    let mut node = node_with_pages(1);
    let mut list = VmPageDoublyLinkedList::new();
    assert_eq!(node.alloc_pages(0, 0, &mut list), Ok(()));
    assert!(list.is_empty());
    assert_eq!(node.alloc_range(BASE, 0, &mut list), Ok(()));
    assert_eq!(node.alloc_contiguous(0, 0, 12, &mut list), Err(Status::INVALID_ARGS));
    // Nothing else is looked at then.
    assert_eq!(
        node.alloc_contiguous(0, ALLOC_FLAG_CAN_WAIT, 200, &mut list),
        Err(Status::INVALID_ARGS)
    );
    assert_eq!(node.count_free_pages(), 1);
}

#[test]
fn who_is_told_to_wait() {
    let mut node = node_with_pages(8);
    let mut list = VmPageDoublyLinkedList::new();
    // More than there is: whoever can wait is told to, and nothing has failed.
    assert_eq!(node.alloc_pages(9, ALLOC_FLAG_CAN_WAIT, &mut list), Err(Status::SHOULD_WAIT));
    assert!(!node.has_alloc_failed_no_mem());
    assert_eq!(node.alloc_pages(9, 0, &mut list), Err(Status::NO_MEMORY));
    assert!(node.has_alloc_failed_no_mem());
    let failure = node.get_first_alloc_failure();
    assert_eq!(failure.failure_type, AllocFailureType::Pmm);
    assert_eq!((failure.size, failure.free_count), (9, 8));
    // An attempt that would cross the level trips it.
    assert!(node.set_free_memory_signal(4, u64::MAX, 4, Some(1)));
    assert_eq!(node.alloc_pages(5, ALLOC_FLAG_CAN_WAIT, &mut list), Err(Status::SHOULD_WAIT));
    assert!(list.is_empty());
    assert_eq!(node.alloc_page(ALLOC_FLAG_CAN_WAIT), Err(Status::SHOULD_WAIT));
    assert_eq!(node.alloc_pages(2, ALLOC_FLAG_CAN_WAIT, &mut list), Err(Status::SHOULD_WAIT));
    assert_eq!(node.alloc_pages(2, 0, &mut list), Ok(()));
    // Nobody is told to wait any more.
    node.stop_returning_should_wait();
    assert_eq!(node.alloc_pages(2, ALLOC_FLAG_CAN_WAIT, &mut list), Ok(()));
    assert_eq!(node.alloc_pages(5, ALLOC_FLAG_CAN_WAIT, &mut list), Err(Status::NO_MEMORY));
    // Nor does a new configuration change that.
    assert!(node.set_free_memory_signal(0, u64::MAX, u64::MAX, Some(1)));
    assert!(node.alloc_page(ALLOC_FLAG_CAN_WAIT).is_ok());
}

#[test]
fn a_new_node_checks_nothing() {
    let node = PmmNode::init();
    assert_eq!(
        node.checker(),
        PmmChecker { fill_size: 0, action: CheckFailAction::Oops, armed: false }
    );
    assert!(!node.is_free_fill_enabled());
    assert_eq!(node.count_free_pages(), 0);
}

#[test]
fn one_draw_in_ten_delays() {
    assert!(is_delayed_by(0, 0x7fff_ffff));
    assert!(is_delayed_by(0x7fff_ffff / 10 - 1, 0x7fff_ffff));
    assert!(!is_delayed_by(0x7fff_ffff / 10, 0x7fff_ffff));
    assert!(!is_delayed_by(0, 9));
}

#[test]
fn random_delays() {
    let mut node = node_with_pages(2);
    node.seed_random_should_wait(true);
    assert_eq!(node.alloc_page(ALLOC_FLAG_CAN_WAIT), Err(Status::SHOULD_WAIT));
    assert!(node.alloc_page(0).is_ok());
    node.seed_random_should_wait(false);
    assert!(node.alloc_page(ALLOC_FLAG_CAN_WAIT).is_ok());
}

#[test]
fn waiting_threads_pass_one_by_one() {
    let mut node = node_with_pages(4);
    // Whoever gets a page lets the next one through.
    assert_eq!(
        node.wait_for_single_page_allocation(WaitEvent::Begin, true),
        WaitStep::Done(Ok(nth(0)))
    );
    assert_eq!(
        node.wait_for_single_page_allocation(WaitEvent::Begin, false),
        WaitStep::Done(Ok(nth(1)))
    );
    // While allocations are delayed nobody passes.
    assert!(node.set_free_memory_signal(0, u64::MAX, u64::MAX, Some(1)));
    assert_eq!(
        node.wait_for_single_page_allocation(WaitEvent::Begin, true),
        WaitStep::Wait { ignore_suspend: false }
    );
    assert_eq!(
        node.wait_for_single_page_allocation(WaitEvent::Woken, false),
        WaitStep::Wait { ignore_suspend: true }
    );
    assert!(node.set_free_memory_signal(0, u64::MAX, 0, Some(1)));
    assert_eq!(
        node.wait_for_single_page_allocation(WaitEvent::Woken, true),
        WaitStep::Done(Ok(nth(2)))
    );
}

#[test]
fn first_failure_is_kept() {
    let mut node = node_with_pages(1);
    assert!(node.set_free_memory_signal(0, u64::MAX, 0, Some(5)));
    let first = AllocFailure { failure_type: AllocFailureType::Handle, size: 3, free_count: 0 };
    let second = AllocFailure { failure_type: AllocFailureType::Other, size: 4, free_count: 0 };
    node.report_alloc_failure(first);
    assert_eq!(node.take_raised_events(), vec![5]);
    node.report_alloc_failure(second);
    assert_eq!(node.take_raised_events(), Vec::<u64>::new());
    assert_eq!(node.get_first_alloc_failure(), AllocFailure { free_count: 1, ..first });
    assert_eq!(PmmNode::get_alloc_failed_count(&[&node]), 2);
}

#[test]
fn failures_of_all_nodes_are_counted() {
    let mut one = node_with_pages(1);
    let mut two = node_with_pages(1);
    assert_eq!(PmmNode::get_alloc_failed_count(&[&one, &two]), 0);
    let failure = AllocFailure { failure_type: AllocFailureType::Heap, size: 1, free_count: 0 };
    one.report_alloc_failure(failure);
    two.report_alloc_failure(failure);
    two.report_alloc_failure(failure);
    assert_eq!(PmmNode::get_alloc_failed_count(&[&one, &two]), 3);
    assert_eq!(PmmNode::get_alloc_failed_count(&[]), 0);
}

#[test]
fn bounds_without_an_event() {
    let mut node = node_with_pages(4);
    assert!(node.set_free_memory_signal(2, u64::MAX, 2, Some(7)));
    // The event that was set before is gone, but the level is watched.
    assert!(node.set_free_memory_signal(3, u64::MAX, 3, None));
    assert!(node.alloc_page(0).is_ok());
    assert!(node.alloc_page(ALLOC_FLAG_CAN_WAIT).is_ok());
    assert_eq!(node.alloc_page(ALLOC_FLAG_CAN_WAIT), Err(Status::SHOULD_WAIT));
    assert_eq!(node.take_raised_events(), Vec::<u64>::new());
}

#[test]
fn ranges_are_allocated_in_full_or_not_at_all() {
    let mut node = node_with_pages(6);
    let mut list = VmPageDoublyLinkedList::new();
    assert_eq!(node.alloc_range(BASE + 2 * PAGE_SIZE + 5, 3, &mut list), Ok(()));
    assert_eq!(list.to_vec(), vec![nth(2), nth(3), nth(4)]);
    let mut other = VmPageDoublyLinkedList::new();
    // The pages from the first one on are free only up to those just taken.
    assert_eq!(node.alloc_range(BASE, 3, &mut other), Err(Status::NOT_FOUND));
    assert!(other.is_empty());
    assert_eq!(node.count_free_pages(), 3);
    for page in [nth(0), nth(1), nth(5)] {
        assert_eq!(node.page(page).state, VmPageState::FREE);
    }
    // Beyond the arena there is nothing.
    assert_eq!(node.alloc_range(BASE + 5 * PAGE_SIZE, 2, &mut other), Err(Status::NOT_FOUND));
    assert_eq!(node.alloc_range(0, 1, &mut other), Err(Status::NOT_FOUND));
    node.free_list(&mut list, PmmOptDelayReuse::Default);
    assert_eq!(node.alloc_range(BASE, 6, &mut other), Ok(()));
    assert_eq!(node.count_free_pages(), 0);
}

#[test]
fn contiguous_runs_are_aligned() {
    // The base is aligned to 2^20.
    let mut node = node_with_pages(16);
    let mut list = VmPageDoublyLinkedList::new();
    let first = node.alloc_page(0).unwrap();
    assert_eq!(first, nth(0));
    assert_eq!(node.alloc_contiguous(2, 0, 0, &mut list), Ok(BASE + PAGE_SIZE));
    assert_eq!(list.to_vec(), vec![nth(1), nth(2)]);
    assert_eq!(node.alloc_contiguous(4, 0, 14, &mut list), Ok(BASE + 4 * PAGE_SIZE));
    assert_eq!(list.len(), 6);
    assert_eq!(node.alloc_contiguous(9, 0, 12, &mut list), Err(Status::NOT_FOUND));
    assert_eq!(node.alloc_contiguous(8, 0, 12, &mut list), Ok(BASE + 8 * PAGE_SIZE));
    assert_eq!(node.alloc_contiguous(1, 0, 20, &mut list), Err(Status::NOT_FOUND));
    assert_eq!(node.count_free_pages(), 1);
}

#[test]
fn loans_come_back() {
    let mut node = node_with_pages(3);
    let mut list = VmPageDoublyLinkedList::new();
    assert_eq!(node.alloc_pages(2, 0, &mut list), Ok(()));
    node.begin_loan(&mut list, PmmOptDelayReuse::Default);
    assert_eq!(node.count_loaned_free_pages(), 2);
    assert_eq!(node.count_loaned_pages(), 2);

    // A page called back while it is not in use is not lent again.
    node.cancel_loan(nth(0));
    let borrow = |_page: VmPagePtr, record: VmPage| VmPage {
        state: VmPageState::OBJECT,
        object: Some(3),
        ..record
    };
    assert_eq!(node.alloc_loaned_page(borrow), Ok(nth(1)));
    assert_eq!(node.alloc_loaned_page(borrow), Err(Status::NO_RESOURCES));
    assert_eq!(node.count_loaned_not_free_pages(), 2);

    // Nor is one called back while it is in use, once it is returned.
    node.cancel_loan(nth(1));
    let mut flph = FreeLoanedPagesHolder::init(8);
    node.begin_free_loaned_array(
        &vec![nth(1)],
        |_page: VmPagePtr, record: VmPage| VmPage { object: None, ..record },
        &mut flph,
    );
    assert_eq!(node.page(nth(1)).owner, Some(8));
    flph.push_waiter(FreeLoanedPagesHolderWaiter { event: 1 });
    flph.push_waiter(FreeLoanedPagesHolderWaiter { event: 2 });
    let woken = node.finish_free_loaned_pages(&mut flph);
    assert_eq!(
        woken,
        vec![FreeLoanedPagesHolderWaiter { event: 2 }, FreeLoanedPagesHolderWaiter { event: 1 }]
    );
    assert!(flph.used);
    assert_eq!(node.count_loaned_free_pages(), 0);
    assert_eq!(node.count_loan_cancelled_pages(), 2);

    node.end_loan(nth(0));
    node.end_loan(nth(1));
    assert_eq!(node.count_loaned_pages(), 0);
    assert_eq!(node.count_loan_cancelled_pages(), 0);
    for page in [nth(0), nth(1)] {
        assert_eq!(node.page(page).state, VmPageState::ALLOC);
        node.free_page(page, PmmOptDelayReuse::Default);
    }
    assert_eq!(node.count_free_pages(), 3);

    // An empty holder frees nothing.
    let mut empty = FreeLoanedPagesHolder::init(9);
    assert!(node.finish_free_loaned_pages(&mut empty).is_empty());
    assert!(!empty.used);
}

#[test]
fn page_numbers() {
    let mut node = PmmNode::init();
    node.add_arena(PmmArenaInfo { flags: 0, base: BASE, size: 4 * PAGE_SIZE });
    node.add_arena(PmmArenaInfo { flags: 1, base: 2 * BASE, size: 2 * PAGE_SIZE });
    assert_eq!(node.num_arenas(), 2);
    assert_eq!(node.count_total_bytes(), 6 * PAGE_SIZE);
    // The first page has the number after zero, with the arena and three free bits below it.
    assert_eq!(node.page_to_index(nth(0)), 128);
    assert_eq!(node.page_to_index(nth(3)), 4 * 128);
    let second = VmPagePtr::new(2 * BASE + PAGE_SIZE);
    assert_eq!(node.page_to_index(second), 2 * 128 + 8);
    assert_eq!(node.page_to_index(nth(4)), 0);
    for page in [nth(0), nth(1), nth(3), second] {
        let index = node.page_to_index(page);
        assert_eq!(index % (1 << PmmNode::INDEX_ZERO_BITS), 0);
        assert_eq!(node.index_to_page(index), page);
        assert_eq!(node.index_to_paddr(index), page.paddr());
    }
    assert_eq!(node.paddr_to_page(2 * BASE + PAGE_SIZE + 17), Some(second));
    assert_eq!(node.paddr_to_page(BASE - 1), None);
    assert!(node.has_page(second));
    assert!(!node.has_page(nth(4)));
}

#[test]
fn arena_descriptions() {
    let mut node = PmmNode::init();
    let first = PmmArenaInfo { flags: 0, base: BASE, size: PAGE_SIZE };
    let second = PmmArenaInfo { flags: 1, base: 2 * BASE, size: 2 * PAGE_SIZE };
    node.add_arena(first);
    node.add_arena(second);
    assert_eq!(node.get_arena_info(0, 5), Ok(vec![first, second]));
    assert_eq!(node.get_arena_info(1, 1), Ok(vec![second]));
    assert_eq!(node.get_arena_info(2, 1), Err(Status::OUT_OF_RANGE));
    assert_eq!(node.get_arena_info(0, 0), Err(Status::OUT_OF_RANGE));
    assert_eq!(node.get_arena_info_exact(2, 0, 2), Ok(vec![first, second]));
    assert_eq!(node.get_arena_info_exact(2, 1, 2), Err(Status::OUT_OF_RANGE));
    assert_eq!(node.get_arena_info_exact(1, u64::MAX, 2), Err(Status::OUT_OF_RANGE));
    assert_eq!(node.get_arena_info_exact(2, 0, 1), Err(Status::BUFFER_TOO_SMALL));
}

#[test]
fn free_memory_in_megabytes() {
    let node = node_with_pages(600);
    assert_eq!(node.count_free_pages(), 600);
    assert_eq!(node.free_megabytes(), 2);
}

#[test]
fn checking_free_pages() {
    let mut node = node_with_pages(4);
    // Nothing is checked before the checker is armed.
    assert_eq!(node.check_all_free_pages(|_page| false), Vec::new());
    assert_eq!(node.fill_free_pages_and_arm(), Vec::new());
    assert!(!node.checker().armed);
    assert!(node.enable_free_page_filling(64, CheckFailAction::Oops));
    assert_eq!(node.fill_free_pages_and_arm(), vec![nth(0), nth(1), nth(2), nth(3)]);
    assert_eq!(node.check_all_free_pages(|_page| true), Vec::new());
    assert_eq!(node.check_all_free_pages(|page| page != nth(2)), vec![nth(2)]);
    // Pages that are on loan and not in use are checked after the others, and every broken page is
    // found.
    let page = node.alloc_page(0).unwrap();
    let mut list = VmPageDoublyLinkedList::new();
    list.push_back(page);
    node.begin_loan(&mut list, PmmOptDelayReuse::Yes);
    assert_eq!(
        node.check_all_free_pages(|p| p != page && p != nth(1) && p != nth(3)),
        vec![nth(1), nth(3), page]
    );
    assert_eq!(node.check_all_free_pages(|p| p != page), vec![page]);
    assert_eq!(node.fill_free_pages_and_arm(), vec![nth(1), nth(2), nth(3), page]);
    assert_eq!(node.checker().fill_size, 64);
}

#[test]
fn handing_off_pages() {
    let mut node = node_with_pages(4);
    let mut temporary = VmPageDoublyLinkedList::new();
    let mut vmo = VmPageDoublyLinkedList::new();
    let a = node.alloc_page(0).unwrap();
    let b = node.alloc_page(0).unwrap();
    let record = node.page(b);
    node.update_page(b, VmPage { state: VmPageState::WIRED, ..record });
    temporary.push_back(a);
    vmo.push_back(b);
    node.begin_handoff(&mut temporary, &mut vmo);
    assert!(temporary.is_empty() && vmo.is_empty());
    node.unwire_page(b);
    assert_eq!(node.page(b).state, VmPageState::ALLOC);
    node.end_handoff();
    assert_eq!(node.page(a).state, VmPageState::FREE);
    assert_eq!(node.count_free_pages(), 3);
}

#[test]
fn compression_is_set_once() {
    let mut node = PmmNode::init();
    assert_eq!(node.get_page_compression(), None);
    assert_eq!(node.set_page_compression(6), Ok(()));
    assert_eq!(node.set_page_compression(7), Err(Status::ALREADY_EXISTS));
    assert_eq!(node.get_page_compression(), Some(6));
}

#[test]
fn rounding_addresses() {
    assert_eq!(round_down(0), 0);
    assert_eq!(round_down(4095), 0);
    assert_eq!(round_down(4096), 4096);
    assert_eq!(round_down(u64::MAX), u64::MAX - 4095);
}
