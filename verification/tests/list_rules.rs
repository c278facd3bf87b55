//! What holds of page lists as a whole, on concrete values.

use kernel_vm::batch_inserter::BatchInserter;
use kernel_vm::page::PAGE_SIZE;
use kernel_vm::page_or_marker::{ReferenceValue, VmPageOrMarker, ZeroRangeDirtyState};
use kernel_vm::pmm_arena::PmmArenaInfo;
use kernel_vm::pmm_node::PmmNode;
use kernel_vm::status::Status;
use kernel_vm::vm_page::{VmPageDoublyLinkedList, VmPagePtr};
use kernel_vm::vm_page_list::{IntervalHandling, VmPageList};

fn put(list: &mut VmPageList, page: u64, content: VmPageOrMarker) -> bool {
    let offset = page * PAGE_SIZE;
    match list.lookup_or_allocate(offset, IntervalHandling::SplitInterval).0 {
        Some(slot) => {
            *slot = content;
            true
        }
        None => false,
    }
}

/// What is in the slots of a list, as the numbers of the pages and a letter for each content.
fn contents(list: &VmPageList) -> Vec<(u64, char)> {
    let mut found = Vec::new();
    let result = list.for_every_page(|slot, offset| {
        let letter = if slot.is_marker() {
            'm'
        } else if slot.is_reference() {
            'r'
        } else if slot.is_interval_start() {
            '['
        } else if slot.is_interval_end() {
            ']'
        } else if slot.is_interval_slot() {
            'o'
        } else {
            '?'
        };
        found.push((offset / PAGE_SIZE, letter));
        Status::NEXT
    });
    assert_eq!(result, Ok(()));
    found
}

fn add_interval(list: &mut VmPageList, first: u64, last: u64) -> Result<(), Status> {
    list.add_zero_interval(
        first * PAGE_SIZE,
        (last + 1) * PAGE_SIZE,
        ZeroRangeDirtyState::Untracked,
    )
}

#[test]
fn a_read_gives_back_what_was_written() {
    let mut list = VmPageList::new();
    assert!(put(&mut list, 3, VmPageOrMarker::marker_with_share_count(2)));
    assert!(put(&mut list, 20, VmPageOrMarker::from_reference(ReferenceValue::new(64))));
    assert_eq!(list.lookup(3 * PAGE_SIZE).unwrap().marker_share_count(), 2);
    assert_eq!(list.lookup(20 * PAGE_SIZE).unwrap().reference().value(), 64);
    assert!(put(&mut list, 3, VmPageOrMarker::parent_content()));
    assert!(list.lookup(3 * PAGE_SIZE).unwrap().is_parent_content());
    assert_eq!(list.lookup(20 * PAGE_SIZE).unwrap().reference().value(), 64);
}

#[test]
fn removing_undoes_filling() {
    let mut list = VmPageList::new();
    assert!(put(&mut list, 3, VmPageOrMarker::marker()));
    let before = contents(&list);
    assert!(put(&mut list, 40, VmPageOrMarker::marker()));
    assert!(list.remove_content(40 * PAGE_SIZE).is_marker());
    assert_eq!(contents(&list), before);
    // The node has gone with the content.
    assert!(list.lookup(40 * PAGE_SIZE).is_none());
    assert!(list.remove_content(3 * PAGE_SIZE).is_marker());
    assert!(list.is_empty());
}

#[test]
fn intervals_are_maximal() {
    let mut list = VmPageList::new();
    assert_eq!(add_interval(&mut list, 2, 4), Ok(()));
    assert_eq!(add_interval(&mut list, 7, 7), Ok(()));
    assert_eq!(contents(&list), vec![(2, '['), (4, ']'), (7, 'o')]);
    // The new interval joins both neighbours.
    assert_eq!(add_interval(&mut list, 5, 6), Ok(()));
    assert_eq!(contents(&list), vec![(2, '['), (7, ']')]);
    for page in 0..10 {
        assert_eq!(
            list.is_offset_in_zero_interval(page * PAGE_SIZE),
            (2..=7).contains(&page)
        );
    }
    // One with another state does not.
    assert_eq!(
        list.add_zero_interval(8 * PAGE_SIZE, 10 * PAGE_SIZE, ZeroRangeDirtyState::Dirty),
        Ok(())
    );
    assert_eq!(contents(&list), vec![(2, '['), (7, ']'), (8, '['), (9, ']')]);
}

#[test]
fn returning_a_slot_undoes_the_split() {
    let mut list = VmPageList::new();
    assert_eq!(add_interval(&mut list, 0, 40), Ok(()));
    for page in [0, 7, 16, 40] {
        let offset = page * PAGE_SIZE;
        let (slot, in_interval) =
            list.lookup_or_allocate(offset, IntervalHandling::SplitInterval);
        assert!(slot.unwrap().is_interval_slot());
        assert!(in_interval);
        list.return_interval_slot(offset);
        assert_eq!(contents(&list), vec![(0, '['), (40, ']')]);
    }
}

#[test]
fn populating_is_splitting_page_by_page() {
    let mut all = VmPageList::new();
    let mut single = VmPageList::new();
    for list in [&mut all, &mut single] {
        assert_eq!(add_interval(list, 1, 40), Ok(()));
    }
    assert_eq!(all.populate_slots_in_interval(5 * PAGE_SIZE, 9 * PAGE_SIZE), Ok(()));
    for page in 5..9 {
        let (slot, _) =
            single.lookup_or_allocate(page * PAGE_SIZE, IntervalHandling::SplitInterval);
        assert!(slot.is_some());
    }
    assert_eq!(contents(&all), contents(&single));
    assert_eq!(
        contents(&all),
        vec![(1, '['), (4, ']'), (5, 'o'), (6, 'o'), (7, 'o'), (8, 'o'), (9, '['), (40, ']')]
    );
}

#[test]
fn splitting_leaves_three_parts() {
    let mut list = VmPageList::new();
    assert_eq!(
        list.add_zero_interval(PAGE_SIZE, 6 * PAGE_SIZE, ZeroRangeDirtyState::Dirty),
        Ok(())
    );
    list.lookup_mut(PAGE_SIZE).unwrap().set_zero_interval_awaiting_clean_length(4 * PAGE_SIZE);
    let awaiting = |list: &VmPageList, page: u64| {
        list.lookup(page * PAGE_SIZE).unwrap().zero_interval_awaiting_clean_length() / PAGE_SIZE
    };
    let (slot, in_interval) = list.lookup_or_allocate_check_for_interval(3 * PAGE_SIZE, false);
    assert!(slot.is_none() && in_interval);
    let (slot, in_interval) = list.lookup_or_allocate_check_for_interval(3 * PAGE_SIZE, true);
    assert!(slot.unwrap().is_interval_slot());
    assert!(in_interval);
    assert_eq!(contents(&list), vec![(1, '['), (2, ']'), (3, 'o'), (4, '['), (5, ']')]);
    assert_eq!((awaiting(&list, 1), awaiting(&list, 3), awaiting(&list, 4)), (4, 0, 0));
    // At the start of an interval what is awaiting clean moves on.
    let (slot, _) = list.lookup_or_allocate_check_for_interval(PAGE_SIZE, true);
    assert!(slot.is_some());
    assert_eq!(contents(&list), vec![(1, 'o'), (2, 'o'), (3, 'o'), (4, '['), (5, ']')]);
    assert_eq!((awaiting(&list, 1), awaiting(&list, 2)), (1, 3));
    let (slot, in_interval) = list.lookup_or_allocate_check_for_interval(9 * PAGE_SIZE, true);
    assert!(slot.unwrap().is_empty());
    assert!(!in_interval);
}

#[test]
fn slots_at_the_end_of_the_list_are_returned() {
    let mut list = VmPageList::new();
    let end = VmPageList::MAX_SIZE;
    let first = end - 3 * PAGE_SIZE;
    let awaiting = 0x7f_ffff * PAGE_SIZE;
    assert_eq!(list.add_zero_interval(first, end, ZeroRangeDirtyState::Dirty), Ok(()));
    list.lookup_mut(first).unwrap().set_zero_interval_awaiting_clean_length(awaiting);
    assert_eq!(list.populate_slots_in_interval(first, first + PAGE_SIZE), Ok(()));
    assert_eq!(
        list.lookup(first).unwrap().zero_interval_awaiting_clean_length(),
        PAGE_SIZE
    );
    list.return_interval_slot(first);
    assert_eq!(list.lookup(first).unwrap().zero_interval_awaiting_clean_length(), awaiting);
    assert!(list.lookup(first).unwrap().is_interval_start());
}

#[test]
fn nodes_are_counted() {
    // The interval takes the nodes of its start and of its end, and the slot a third one.
    let mut list = VmPageList::with_node_limit(3);
    assert_eq!(add_interval(&mut list, 0, 47), Ok(()));
    assert_eq!(list.populate_slots_in_interval(20 * PAGE_SIZE, 21 * PAGE_SIZE), Ok(()));
    assert!(!put(&mut list, 100, VmPageOrMarker::marker()));
    // Returned, it leaves its node empty, and there is room again.
    list.return_interval_slot(20 * PAGE_SIZE);
    assert!(put(&mut list, 100, VmPageOrMarker::marker()));
    assert!(list.remove_content(100 * PAGE_SIZE).is_marker());
    // Two intervals that are joined give up the nodes that they met in.
    let mut list = VmPageList::with_node_limit(3);
    assert_eq!(add_interval(&mut list, 0, 17), Ok(()));
    assert_eq!(add_interval(&mut list, 20, 40), Ok(()));
    assert!(!put(&mut list, 100, VmPageOrMarker::marker()));
    assert_eq!(add_interval(&mut list, 18, 19), Ok(()));
    assert!(put(&mut list, 100, VmPageOrMarker::marker()));
}

#[test]
fn removing_pages_removes_empty_nodes() {
    let new_list = || {
        let mut list = VmPageList::with_node_limit(4);
        // Two nodes that hold nothing, one on either side of one that holds a marker.
        for page in [0, 32] {
            let (slot, _) =
                list.lookup_or_allocate(page * PAGE_SIZE, IntervalHandling::NoIntervals);
            assert!(slot.unwrap().is_empty());
        }
        assert!(put(&mut list, 16, VmPageOrMarker::marker()));
        assert!(put(&mut list, 48, VmPageOrMarker::marker()));
        assert!(!put(&mut list, 100, VmPageOrMarker::marker()));
        list
    };
    // How many more nodes there is room for.
    let room = |list: &mut VmPageList| {
        let mut count = 0;
        while put(list, 1000 + 16 * count, VmPageOrMarker::marker()) {
            count += 1;
        }
        count
    };
    // All nodes in the range that hold nothing go, whatever they held before.
    let mut list = new_list();
    let result = list.remove_pages(0, 48 * PAGE_SIZE, |slot, _offset| {
        *slot = VmPageOrMarker::empty();
        Status::NEXT
    });
    assert_eq!(result, Ok(()));
    assert_eq!(contents(&list), vec![(48, 'm')]);
    assert_eq!(room(&mut list), 3);
    // Where the walk is stopped, the nodes behind it are not looked at.
    let mut list = new_list();
    let result = list.remove_pages(0, 64 * PAGE_SIZE, |_slot, _offset| Status::STOP);
    assert_eq!(result, Ok(()));
    assert_eq!(contents(&list), vec![(16, 'm'), (48, 'm')]);
    assert_eq!(room(&mut list), 1);
    // The others leave the nodes alone.
    let mut list = new_list();
    let result = list.for_every_page_mut(|slot, _offset| {
        *slot = VmPageOrMarker::empty();
        Status::NEXT
    });
    assert_eq!(result, Ok(()));
    assert_eq!(room(&mut list), 0);
}

#[test]
fn walks_stop_at_the_first_other_answer() {
    let mut list = VmPageList::new();
    for page in [1, 2, 30] {
        assert!(put(&mut list, page, VmPageOrMarker::marker()));
    }
    let mut calls = 0;
    assert_eq!(
        list.for_every_page_mut(|_slot, _offset| {
            calls += 1;
            Status::STOP
        }),
        Ok(())
    );
    assert_eq!(
        list.for_every_page_ref(|_slot, _offset| {
            calls += 1;
            Status::BAD_STATE
        }),
        Err(Status::BAD_STATE)
    );
    assert_eq!(calls, 2);
    // After a page has stopped the walk the gap behind it is not reported, nor is the page behind a
    // gap that has.
    let mut seen = Vec::new();
    let mut gaps = Vec::new();
    let result = list.for_every_page_and_gap_in_range(
        PAGE_SIZE,
        40 * PAGE_SIZE,
        |_slot, offset| {
            seen.push(offset / PAGE_SIZE);
            if offset == 2 * PAGE_SIZE {
                Status::STOP
            } else {
                Status::NEXT
            }
        },
        |start, end| {
            gaps.push((start / PAGE_SIZE, end / PAGE_SIZE));
            Status::NEXT
        },
    );
    assert_eq!(result, Ok(()));
    assert_eq!((seen, gaps), (vec![1, 2], vec![]));
    let mut seen = Vec::new();
    let result = list.for_every_page_and_gap_in_range(
        0,
        40 * PAGE_SIZE,
        |_slot, offset| {
            seen.push(offset);
            Status::NEXT
        },
        |_start, _end| Status::BAD_STATE,
    );
    assert_eq!(result, Err(Status::BAD_STATE));
    assert!(seen.is_empty());
}

#[test]
fn lengths_can_be_set_before_populating() {
    let mut list = VmPageList::new();
    assert_eq!(
        list.add_zero_interval(0, 8 * PAGE_SIZE, ZeroRangeDirtyState::Dirty),
        Ok(())
    );
    list.lookup_mut(0).unwrap().set_zero_interval_awaiting_clean_length(5 * PAGE_SIZE);
    assert_eq!(list.populate_slots_in_interval(0, 3 * PAGE_SIZE), Ok(()));
    for (page, awaiting) in [(0, 1), (1, 1), (2, 1), (3, 2)] {
        assert_eq!(
            list.lookup(page * PAGE_SIZE).unwrap().zero_interval_awaiting_clean_length(),
            awaiting * PAGE_SIZE
        );
    }
}

#[test]
fn interval_handling() {
    let mut list = VmPageList::new();
    assert_eq!(add_interval(&mut list, 1, 5), Ok(()));
    let (slot, in_interval) =
        list.lookup_or_allocate(3 * PAGE_SIZE, IntervalHandling::CheckForInterval);
    assert!(slot.is_none());
    assert!(in_interval);
    let (slot, in_interval) =
        list.lookup_or_allocate(8 * PAGE_SIZE, IntervalHandling::NoIntervals);
    assert!(slot.unwrap().is_empty());
    assert!(!in_interval);
    list.return_empty_slot(8 * PAGE_SIZE);
    assert_eq!(contents(&list), vec![(1, '['), (5, ']')]);
}

#[test]
fn without_memory_nothing_changes() {
    // No node at all.
    let mut list = VmPageList::with_node_limit(0);
    assert!(!put(&mut list, 0, VmPageOrMarker::marker()));
    assert_eq!(add_interval(&mut list, 0, 1), Err(Status::NO_MEMORY));
    assert!(list.is_empty());

    // The interval needs a node at either end.
    let mut list = VmPageList::with_node_limit(1);
    assert_eq!(add_interval(&mut list, 1, 40), Err(Status::NO_MEMORY));
    assert!(list.is_empty());

    // Splitting it needs a third one.
    let mut list = VmPageList::with_node_limit(2);
    assert_eq!(add_interval(&mut list, 1, 40), Ok(()));
    assert!(!put(&mut list, 20, VmPageOrMarker::marker()));
    assert_eq!(
        list.populate_slots_in_interval(5 * PAGE_SIZE, 30 * PAGE_SIZE),
        Err(Status::NO_MEMORY)
    );
    assert_eq!(contents(&list), vec![(1, '['), (40, ']')]);

    // An inserter is refused too.
    let mut list = VmPageList::with_node_limit(1);
    {
        let mut inserter = BatchInserter::new(&mut list);
        *inserter.lookup_or_allocate(0).unwrap() = VmPageOrMarker::marker();
        assert!(inserter.lookup_or_allocate(16 * PAGE_SIZE).is_none());
    }
    assert_eq!(contents(&list), vec![(0, 'm')]);
}

#[test]
fn a_walk_stops_when_told_to() {
    let mut list = VmPageList::new();
    for page in [1, 2, 30] {
        assert!(put(&mut list, page, VmPageOrMarker::marker()));
    }
    let mut seen = Vec::new();
    let result = list.for_every_page(|_slot, offset| {
        seen.push(offset / PAGE_SIZE);
        if offset == 2 * PAGE_SIZE {
            Status::STOP
        } else {
            Status::NEXT
        }
    });
    assert_eq!(result, Ok(()));
    assert_eq!(seen, vec![1, 2]);
    let result = list.for_every_page(|_slot, _offset| Status::BAD_STATE);
    assert_eq!(result, Err(Status::BAD_STATE));
}

#[test]
fn pages_and_references_change_places() {
    let mut pmm = PmmNode::init();
    pmm.add_arena(PmmArenaInfo { flags: 0, base: 0x10_0000, size: 2 * PAGE_SIZE });
    let mut free = VmPageDoublyLinkedList::new();
    free.push_back(VmPagePtr::new(0x10_0000));
    free.push_back(VmPagePtr::new(0x10_1000));
    pmm.add_free_pages(&mut free);
    let page = pmm.alloc_page(0).unwrap();
    let other = pmm.alloc_page(0).unwrap();

    let mut slot = VmPageOrMarker::from_page(&pmm, page);
    assert!(slot.is_page());
    assert_eq!(slot.page(&pmm), page);
    assert_eq!(slot.page_as_paddr(&pmm), 0x10_0000);
    assert_eq!(slot.swap_page_for_reference(&pmm, ReferenceValue::new(8)), page);
    assert_eq!(slot.reference().value(), 8);
    assert_eq!(slot.swap_reference_for_page(&pmm, other).value(), 8);
    assert_eq!(slot.page(&pmm), other);
    assert_eq!(slot.release_page(&pmm), other);
    assert!(slot.is_empty());
}

#[test]
fn equal_contents_are_equal_slots() {
    let mut first = VmPageOrMarker::marker_with_share_count(3);
    let mut second = VmPageOrMarker::marker();
    second.set_marker_share_count(3);
    assert_eq!(first.release(), second.release());

    let mut first = VmPageOrMarker::from_reference(ReferenceValue::new(0x40));
    let mut second = VmPageOrMarker::from_reference(ReferenceValue::new(0x48));
    assert_ne!(first.release(), second.release());
}
