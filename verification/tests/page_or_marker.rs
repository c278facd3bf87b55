//! Tests of slots and of the nodes that hold them.

use kernel_vm::page_list_node::VmPageListNode;
use kernel_vm::page_or_marker::{
    ReferenceValue, SentinelType, VmPageOrMarker, VmPageOrMarkerRef, ZeroRange,
    ZeroRangeDirtyState,
};
use kernel_vm::status::Status;

/// Tests empty state creation and predicate checks.
#[test]
fn test_page_or_marker_empty() {
    let pm = VmPageOrMarker::empty();
    assert!(pm.is_empty());
    assert!(!pm.is_page());
    assert!(!pm.is_reference());
    assert!(!pm.is_page_or_ref());
}

/// Tests release behavior on an empty VmPageOrMarker.
#[test]
fn test_page_or_marker_release() {
    let mut pm = VmPageOrMarker::empty();
    let raw = pm.release();
    assert_eq!(raw, VmPageOrMarker::PAGE_TYPE);
    assert!(pm.is_empty());
}

/// Tests swapping two empty VmPageOrMarker instances.
#[test]
fn test_page_or_marker_swap() {
    let mut pm1 = VmPageOrMarker::empty();
    let pm2 = VmPageOrMarker::empty();
    let prev = pm1.swap(pm2);
    assert!(prev.is_empty());
    assert!(pm1.is_empty());
}

/// Tests reference value creation, alignment mask, and getter properties.
#[test]
fn test_reference_value() {
    assert_eq!(ReferenceValue::ALIGN_BITS, 3);
    assert_eq!(ReferenceValue::ALIGN_MASK, 0b111);

    let ref_zero = ReferenceValue::new(0x0);
    assert_eq!(ref_zero.value(), 0x0);

    let ref_aligned = ReferenceValue::new(0x1000);
    assert_eq!(ref_aligned.value(), 0x1000);

    let ref_max = ReferenceValue::new(0xFFFFFFF8);
    assert_eq!(ref_max.value(), 0xFFFFFFF8);
}

/// References are told apart by their values alone.
#[test]
fn references_with_the_same_value_are_equal() {
    assert_eq!(ReferenceValue::new(0x1000), ReferenceValue::new(0x1000));
    assert_ne!(ReferenceValue::new(0x1000), ReferenceValue::new(0x1008));
}

/// Tests reference packing in VmPageOrMarker, predicates, and release behavior.
#[test]
fn test_page_or_marker_reference() {
    let ref_val = ReferenceValue::new(0x1000); // 8-byte aligned
    let mut pm = VmPageOrMarker::from_reference(ref_val);
    assert!(pm.is_reference());
    assert!(!pm.is_page());
    assert!(!pm.is_empty());
    assert!(pm.is_page_or_ref());

    assert!(pm.reference() == ref_val);
    assert_eq!(pm.reference().value(), ref_val.value());

    let released_ref = pm.release_reference();
    assert!(released_ref == ref_val);
    assert!(pm.is_empty());
}

/// Tests swapping references and swap_reference_for_reference method.
#[test]
fn test_page_or_marker_reference_swap() {
    let ref_val1 = ReferenceValue::new(0x1000);
    let ref_val2 = ReferenceValue::new(0x2000);
    let mut pm1 = VmPageOrMarker::from_reference(ref_val1);
    let pm2 = VmPageOrMarker::from_reference(ref_val2);

    // Test general swap of two reference instances
    let mut old = pm1.swap(pm2);
    assert!(old.reference() == ref_val1);
    assert!(pm1.reference() == ref_val2);

    // Test swap_reference_for_reference method directly
    let ref_val3 = ReferenceValue::new(0x3000);
    let old_ref = pm1.swap_reference_for_reference(ref_val3);
    assert!(old_ref == ref_val2);
    assert!(pm1.reference() == ref_val3);

    let _ = old.release_reference();
    let _ = pm1.release_reference();
}

/// Tests marker state creation and share count modifications.
#[test]
fn test_page_or_marker_marker() {
    let mut pm = VmPageOrMarker::marker();
    assert!(pm.is_marker());
    assert!(!pm.is_page());
    assert!(!pm.is_reference());
    assert!(!pm.is_parent_content());
    assert_eq!(pm.marker_share_count(), 0);

    pm.increment_marker_share_count();
    assert_eq!(pm.marker_share_count(), 1);

    pm.increment_marker_share_count();
    assert_eq!(pm.marker_share_count(), 2);

    pm.decrement_marker_share_count();
    assert_eq!(pm.marker_share_count(), 1);

    pm.set_marker_share_count(100);
    assert_eq!(pm.marker_share_count(), 100);

    let pm_shared = VmPageOrMarker::marker_with_share_count(5);
    assert!(pm_shared.is_marker());
    assert_eq!(pm_shared.marker_share_count(), 5);
}

/// Tests parent content state properties.
#[test]
fn test_page_or_marker_parent_content() {
    let pm = VmPageOrMarker::parent_content();
    assert!(pm.is_parent_content());
    assert!(!pm.is_page());
    assert!(!pm.is_reference());
    assert!(!pm.is_marker());
}

/// Tests ZeroRange basic value initialization and boundary limits.
#[test]
fn test_zero_range_basic() {
    let zr = ZeroRange::new(0);
    assert_eq!(zr.value(), 0);
    assert_eq!(zr.dirty_state(), ZeroRangeDirtyState::Untracked);
    assert_eq!(zr.awaiting_clean_length(), 0);

    let zr2 = ZeroRange::new(0x80); // 128 (aligned to 7 bits)
    assert_eq!(zr2.value(), 0x80);
}

/// Tests ZeroRange dirty state transitions.
#[test]
fn test_zero_range_dirty_state() {
    let mut zr = ZeroRange::new(0);
    assert_eq!(zr.dirty_state(), ZeroRangeDirtyState::Untracked);

    zr.set_dirty_state(ZeroRangeDirtyState::Dirty);
    assert_eq!(zr.dirty_state(), ZeroRangeDirtyState::Dirty);

    zr.set_dirty_state(ZeroRangeDirtyState::Untracked);
    assert_eq!(zr.dirty_state(), ZeroRangeDirtyState::Untracked);
}

/// Tests ZeroRange awaiting clean length encoding.
#[test]
fn test_zero_range_awaiting_clean_length() {
    let mut zr = ZeroRange::new(0);
    // Can only set length if state is Dirty.
    zr.set_dirty_state(ZeroRangeDirtyState::Dirty);
    assert_eq!(zr.awaiting_clean_length(), 0);

    // awaiting_clean_length is page aligned (4096).
    zr.set_awaiting_clean_length(4096);
    assert_eq!(zr.awaiting_clean_length(), 4096);

    zr.set_awaiting_clean_length(8192);
    assert_eq!(zr.awaiting_clean_length(), 8192);

    zr.set_awaiting_clean_length(0);
    assert_eq!(zr.awaiting_clean_length(), 0);
}

/// Tests interval creation, properties, sentinel transitions, and dirty states.
#[test]
fn test_page_or_marker_interval() {
    let mut pm =
        VmPageOrMarker::zero_interval(SentinelType::Slot, ZeroRangeDirtyState::Untracked);
    assert!(pm.is_interval());
    assert!(pm.is_interval_zero());
    assert!(pm.is_interval_slot());
    assert!(!pm.is_interval_start());
    assert!(!pm.is_interval_end());
    assert!(pm.is_zero_interval_untracked());
    assert!(!pm.is_zero_interval_clean());
    assert!(!pm.is_zero_interval_dirty());

    pm.change_interval_sentinel(SentinelType::Start);
    assert!(pm.is_interval_start());
    assert!(!pm.is_interval_slot());

    let mut pm_dirty =
        VmPageOrMarker::zero_interval(SentinelType::Start, ZeroRangeDirtyState::Dirty);
    assert!(pm_dirty.is_zero_interval_dirty());
    assert_eq!(pm_dirty.zero_interval_awaiting_clean_length(), 0);

    pm_dirty.set_zero_interval_awaiting_clean_length(8192);
    assert_eq!(pm_dirty.zero_interval_awaiting_clean_length(), 8192);
}

/// Tests VmPageOrMarkerRef deref, mutations, and swap_content.
#[test]
fn test_page_or_marker_ref() {
    let mut marker = VmPageOrMarker::marker();
    {
        let mut marker_ref = VmPageOrMarkerRef::new(&mut marker);
        assert!(marker_ref.is_marker());
        marker_ref.increment_marker_share_count();
        assert_eq!(marker_ref.marker_share_count(), 1);
        marker_ref.decrement_marker_share_count();
        assert_eq!(marker_ref.marker_share_count(), 0);
    }

    let mut slot = VmPageOrMarker::from_reference(ReferenceValue::new(0x1000));
    {
        let mut slot_ref = VmPageOrMarkerRef::new(&mut slot);
        let prev_ref = slot_ref.swap_reference_for_reference(ReferenceValue::new(0x2000));
        assert_eq!(prev_ref.value(), 0x1000);
        assert_eq!(slot_ref.reference().value(), 0x2000);

        let mut prev = slot_ref.swap_content(VmPageOrMarker::marker());
        assert!(prev.is_reference());
        assert!(slot_ref.is_marker());
        let _ = prev.release_reference();
    }

    let mut dirty_zero =
        VmPageOrMarker::zero_interval(SentinelType::Start, ZeroRangeDirtyState::Dirty);
    {
        let mut dirty_ref = VmPageOrMarkerRef::new(&mut dirty_zero);
        dirty_ref.set_zero_interval_awaiting_clean_length(8192);
        assert_eq!(dirty_ref.zero_interval_awaiting_clean_length(), 8192);
    }
}

/// Tests VmPageListNode layout size, offset/index math, and slot lookups.
#[test]
fn test_node_basic() {
    let mut node = VmPageListNode::new();
    assert_eq!(std::mem::size_of::<VmPageListNode>(), 64);
    assert_eq!(VmPageListNode::PAGE_FAN_OUT, 16);
    assert_eq!(VmPageListNode::NODE_SPAN_BYTES, 65536);
    assert!(node.is_empty());
    assert!(node.has_no_page_or_ref());
    assert!(node.has_no_page_ref_or_marker());
    assert!(node.has_no_interval_sentinel());

    assert_eq!(VmPageListNode::node_offset(4096), 0);
    assert_eq!(VmPageListNode::node_offset(65536), 65536);
    assert_eq!(VmPageListNode::node_index(4096), 1);
    assert_eq!(VmPageListNode::end_offset(0), 65536);

    *node.lookup_mut(3) = VmPageOrMarker::marker();
    assert!(!node.is_empty());
    assert!(node.has_no_page_or_ref());
    assert!(!node.has_no_page_ref_or_marker());
    assert!(node.has_no_interval_sentinel());
    assert!(node.lookup(3).is_marker());
    *node.lookup_mut(3) = VmPageOrMarker::empty();
    assert!(node.is_empty());
}

/// Tests in-node interval queries.
#[test]
fn test_node_interval_queries() {
    let mut node = VmPageListNode::new();
    *node.lookup_mut(3) =
        VmPageOrMarker::zero_interval(SentinelType::End, ZeroRangeDirtyState::Untracked);
    assert!(node.node_starts_in_interval().is_some());
    // slot 1 (before end)
    assert!(node.is_offset_in_interval(0, 4096).is_some());
    // slot 4 (after end)
    assert!(node.is_offset_in_interval(0, 16384).is_none());

    *node.lookup_mut(3) = VmPageOrMarker::empty();
}

/// Tests in-node range iteration and merge_range_onto helper.
#[test]
fn test_node_range_helpers() {
    let mut node1 = VmPageListNode::new();
    let mut node2 = VmPageListNode::new();
    *node1.lookup_mut(1) = VmPageOrMarker::marker();

    let mut visited_offset = 0;
    let mut count = 0;
    let _ = node1.for_every_page(0, |_slot, offset| {
        visited_offset = offset;
        count += 1;
        Status::NEXT
    });
    assert_eq!(count, 1);
    assert_eq!(visited_offset, 4096);

    let mut ref_count = 0;
    let mut ref_offset = 0;
    let mut is_marker = false;
    let mut share_count = 0;
    let _ = node1.for_every_page_ref(0, |mut slot_ref, offset| {
        ref_offset = offset;
        is_marker = slot_ref.is_marker();
        slot_ref.increment_marker_share_count();
        share_count = slot_ref.marker_share_count();
        ref_count += 1;
        Status::NEXT
    });
    assert_eq!(ref_count, 1);
    assert_eq!(ref_offset, 4096);
    assert!(is_marker);
    assert_eq!(share_count, 1);
    assert_eq!(node1.lookup(1).marker_share_count(), 1);

    node1.merge_range_onto(
        0,
        65536,
        |src, dst, _off| *dst = src.swap(VmPageOrMarker::empty()),
        &mut node2,
        0,
        65536,
        65536,
    );
    assert!(node1.is_empty());
    assert!(node2.lookup(1).is_marker());
    *node2.lookup_mut(1) = VmPageOrMarker::empty();
}
