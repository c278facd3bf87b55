//! Tests of the slab allocators.

use kernel_vm::page::PAGE_SIZE;
use kernel_vm::page_slab_allocator::{PageSlabAllocator, SlabAllocationError};
use kernel_vm::pmm_arena::PmmArenaInfo;
use kernel_vm::pmm_node::PmmNode;
use kernel_vm::slab_providers::{
    BaseSlabProvider, FixedIdSlabAllocator, FixedIdSlabProvider, IdSlabAllocator, IdSlabProvider,
    TwoLevelIdSlabAllocator,
};
use kernel_vm::status::Status;
use kernel_vm::vm_page::{VmPageDoublyLinkedList, VmPagePtr, VmPageState};

const BASE: u64 = 0x4000_0000;

fn node_with_pages(count: u64) -> PmmNode {
    let mut node = PmmNode::init();
    node.add_arena(PmmArenaInfo { flags: 0, base: BASE, size: count * PAGE_SIZE });
    let mut list = VmPageDoublyLinkedList::new();
    for i in 0..count {
        list.push_back(VmPagePtr::new(BASE + i * PAGE_SIZE));
    }
    node.add_free_pages(&mut list);
    node
}

/// 64 allocations fit into a slab.
type Plain = PageSlabAllocator<64, BaseSlabProvider>;

/// Two slabs of 64 allocations.
type Fixed = FixedIdSlabAllocator<64, 128, 2, BaseSlabProvider>;

/// 512 slabs of 64 allocations, whose pages fit into one slab.
type Ids = IdSlabAllocator<64, 32768, 512, 1, FixedIdSlabProvider<8, 512, 1, BaseSlabProvider>, BaseSlabProvider>;

/// The numbers of slabs come from an allocator of the kind above.
type TwoLevels = TwoLevelIdSlabAllocator<64, 16777216, 262144, 512, 1, BaseSlabProvider>;

#[test]
fn slab_geometry() {
    assert_eq!(Plain::allocs_per_slab(), 64);
    assert_eq!(Plain::slabs_required(0), 0);
    assert_eq!(Plain::slabs_required(1), 1);
    assert_eq!(Plain::slabs_required(64), 1);
    assert_eq!(Plain::slabs_required(65), 2);
    assert_eq!(Plain::entry_align(), 64);
    assert_eq!(PageSlabAllocator::<48, BaseSlabProvider>::entry_align(), 16);
    assert_eq!(PageSlabAllocator::<3000, BaseSlabProvider>::entry_align(), 8);
    assert_eq!(PageSlabAllocator::<48, BaseSlabProvider>::allocs_per_slab(), 85);
    assert_eq!(PageSlabAllocator::<4, BaseSlabProvider>::allocs_per_slab(), 1024);
    assert_eq!(PageSlabAllocator::<2048, BaseSlabProvider>::allocs_per_slab(), 2);
    // Sizes of which a page holds only one, and ones that are no multiple of a word.
    assert_eq!(PageSlabAllocator::<3000, BaseSlabProvider>::allocs_per_slab(), 1);
    assert_eq!(PageSlabAllocator::<3000, BaseSlabProvider>::slabs_required(5), 5);
    assert_eq!(PageSlabAllocator::<3, BaseSlabProvider>::allocs_per_slab(), 1365);
    assert_eq!(PageSlabAllocator::<3, BaseSlabProvider>::slabs_required(1366), 2);
    assert_eq!(
        PageSlabAllocator::<1, BaseSlabProvider>::slabs_required(usize::MAX),
        usize::MAX / 4096 + 1
    );
    assert_eq!(PageSlabAllocator::<4096, BaseSlabProvider>::slabs_required(usize::MAX), usize::MAX);
}

#[test]
fn slabs_of_a_single_allocation() {
    let mut pmm = node_with_pages(3);
    let mut slabs = PageSlabAllocator::<3000, BaseSlabProvider>::new_with(BaseSlabProvider::new());
    let a = slabs.allocate_bytes(&mut pmm).unwrap();
    let b = slabs.allocate_bytes(&mut pmm).unwrap();
    let c = slabs.allocate_bytes(&mut pmm).unwrap();
    assert_eq!((a, b, c), (BASE, BASE + PAGE_SIZE, BASE + 2 * PAGE_SIZE));
    assert_eq!(slabs.allocated_slabs(), 3);
    assert_eq!(slabs.allocate_bytes(&mut pmm), Err(SlabAllocationError));
    slabs.write(a, 1);
    slabs.write(c, 3);
    // Every slab is full, and goes back with its allocation.
    slabs.deallocate_bytes(&mut pmm, b);
    assert_eq!(slabs.allocated_slabs(), 2);
    assert_eq!(pmm.count_free_pages(), 1);
    assert_eq!((slabs.read(a), slabs.read(c)), (1, 3));
    assert_eq!(slabs.allocate_bytes(&mut pmm), Ok(b));
    for address in [c, a, b] {
        slabs.deallocate_bytes(&mut pmm, address);
    }
    assert_eq!(slabs.allocated_slabs(), 0);
    assert_eq!(pmm.count_free_pages(), 3);
    let mut largest =
        PageSlabAllocator::<4092, BaseSlabProvider>::new_with(BaseSlabProvider::new());
    assert!(largest.allocate_bytes(&mut pmm).is_ok());
    largest.debug_free_all_slabs(&mut pmm);
}

#[test]
fn slab_objects_are_aligned() {
    let mut pmm = node_with_pages(1);
    let mut slabs = PageSlabAllocator::<24, BaseSlabProvider>::new_with(BaseSlabProvider::new());
    for i in 0..170 {
        let address = slabs.allocate_object::<u64>(&mut pmm).unwrap();
        assert_eq!(address, BASE + i * 24);
        assert_eq!(address % std::mem::align_of::<u64>() as u64, 0);
    }
    slabs.debug_free_all_slabs(&mut pmm);
}

#[test]
fn slab_is_added_once_all_are_full() {
    let mut pmm = node_with_pages(2);
    let mut slabs = PageSlabAllocator::<1024, BaseSlabProvider>::new_with(BaseSlabProvider::new());
    for k in 0..8 {
        let slabs_before = slabs.allocated_slabs();
        let address = slabs.allocate(&mut pmm).unwrap();
        assert_eq!(slabs.allocated_slabs() == slabs_before + 1, k == 4 * slabs_before);
        assert_eq!(address % PAGE_SIZE % 1024, 0);
    }
    // All are full, and the provider has nothing left.
    assert_eq!(slabs.allocate(&mut pmm), Err(SlabAllocationError));
    assert_eq!(slabs.allocated_slabs(), 2);
    slabs.free(&mut pmm, BASE + 1024);
    assert_eq!(slabs.allocate(&mut pmm), Ok(BASE + 1024));
    slabs.debug_free_all_slabs(&mut pmm);
}

#[test]
fn slab_allocations_fill_a_page() {
    let mut pmm = node_with_pages(4);
    let mut slabs = Plain::new_with(BaseSlabProvider::new());
    assert_eq!(slabs.allocated_slabs(), 0);

    let mut addresses = Vec::new();
    for i in 0..64 {
        let address = slabs.allocate_bytes(&mut pmm).unwrap();
        assert_eq!(address, BASE + i * 64);
        addresses.push(address);
    }
    assert_eq!(slabs.allocated_slabs(), 1);
    assert_eq!(pmm.count_free_pages(), 3);
    assert_eq!(pmm.page(VmPagePtr::new(BASE)).state, VmPageState::SLAB);

    // The slab is full, so the next allocation takes another page.
    let extra = slabs.allocate_bytes(&mut pmm).unwrap();
    assert_eq!(extra, BASE + PAGE_SIZE);
    assert_eq!(slabs.allocated_slabs(), 2);

    // With its last allocation a slab goes back.
    slabs.deallocate_bytes(&mut pmm, extra);
    assert_eq!(slabs.allocated_slabs(), 1);
    assert_eq!(pmm.count_free_pages(), 3);
    assert_eq!(pmm.page(VmPagePtr::new(BASE + PAGE_SIZE)).state, VmPageState::FREE);

    for address in addresses {
        slabs.deallocate_bytes(&mut pmm, address);
    }
    assert_eq!(slabs.allocated_slabs(), 0);
    assert_eq!(pmm.count_free_pages(), 4);
}

#[test]
fn slab_freed_entries_are_reused_last_in_first_out() {
    let mut pmm = node_with_pages(1);
    let mut slabs = Plain::new_with(BaseSlabProvider::new());
    let a = slabs.allocate_object::<u64>(&mut pmm).unwrap();
    let b = slabs.allocate_object::<u64>(&mut pmm).unwrap();
    let c = slabs.allocate_object::<u64>(&mut pmm).unwrap();
    slabs.write(c, 0x1234);

    slabs.deallocate_object::<u64>(&mut pmm, a);
    slabs.deallocate_object::<u64>(&mut pmm, b);
    // What the others hold stays as it is.
    assert_eq!(slabs.read(c), 0x1234);
    assert_eq!(slabs.allocate_object::<u64>(&mut pmm), Ok(b));
    assert_eq!(slabs.allocate_object::<u64>(&mut pmm), Ok(a));
    assert_eq!(slabs.allocate_object::<u64>(&mut pmm), Ok(BASE + 3 * 64));
    assert_eq!(slabs.read(c), 0x1234);
    slabs.debug_free_all_slabs(&mut pmm);
    assert_eq!(pmm.count_free_pages(), 1);
}

#[test]
fn slab_that_was_full_goes_to_the_back() {
    let mut pmm = node_with_pages(3);
    let mut slabs = PageSlabAllocator::<2048, BaseSlabProvider>::new_with(BaseSlabProvider::new());
    let a = slabs.allocate_bytes(&mut pmm).unwrap();
    let b = slabs.allocate_bytes(&mut pmm).unwrap();
    let c = slabs.allocate_bytes(&mut pmm).unwrap();
    assert_eq!((a, b, c), (BASE, BASE + 2048, BASE + PAGE_SIZE));
    // The first slab has room again, but the second, which came before it, is filled up first.
    slabs.deallocate_bytes(&mut pmm, b);
    let d = slabs.allocate_bytes(&mut pmm).unwrap();
    assert_eq!(d, BASE + PAGE_SIZE + 2048);
    let e = slabs.allocate_bytes(&mut pmm).unwrap();
    assert_eq!(e, b);
    for address in [a, e, c, d] {
        slabs.deallocate_bytes(&mut pmm, address);
    }
    assert_eq!(pmm.count_free_pages(), 3);
}

#[test]
fn slab_allocation_fails_without_pages() {
    let mut pmm = node_with_pages(1);
    let mut slabs = PageSlabAllocator::<2048, BaseSlabProvider>::new_with(BaseSlabProvider::new());
    let a = slabs.allocate_bytes(&mut pmm).unwrap();
    let b = slabs.allocate_bytes(&mut pmm).unwrap();
    let error = slabs.allocate_bytes(&mut pmm).unwrap_err();
    assert_eq!(error, SlabAllocationError);
    assert_eq!(error.message(), "failed to allocate slab");
    assert_eq!(Status::from(error), Status::NO_MEMORY);
    assert!(pmm.has_alloc_failed_no_mem());
    slabs.deallocate_bytes(&mut pmm, a);
    slabs.deallocate_bytes(&mut pmm, b);
    assert_eq!(pmm.count_free_pages(), 1);
}

#[test]
fn slab_fixed_ids() {
    let mut pmm = node_with_pages(8);
    let mut slabs = Fixed::new();
    let mut addresses = Vec::new();
    for i in 0..128 {
        let address = slabs.allocate_bytes(&mut pmm).unwrap();
        let id = slabs.alloc_to_id(address);
        assert_eq!(id, i);
        assert_eq!(slabs.id_to_alloc(id), address);
        addresses.push(address);
    }
    // There are no more numbers, and no page is allocated.
    assert_eq!(slabs.allocate_bytes(&mut pmm), Err(SlabAllocationError));
    assert_eq!(pmm.count_free_pages(), 6);

    // The first slab goes, and its number is given to the next.
    for address in &addresses[0..64] {
        slabs.deallocate_bytes(&mut pmm, *address);
    }
    assert_eq!(slabs.allocated_slabs(), 1);
    let address = slabs.allocate_bytes(&mut pmm).unwrap();
    assert_eq!(slabs.alloc_to_id(address), 0);
    assert_eq!(slabs.alloc_to_id(addresses[64]), 64);
    slabs.debug_free_all_slabs(&mut pmm);
    assert_eq!(pmm.count_free_pages(), 8);
}

#[test]
fn slab_ids_through_another_allocator() {
    let mut pmm = node_with_pages(8);
    let mut slabs = Ids::new();
    assert_eq!(slabs.memory_usage(), 0);
    let mut addresses = Vec::new();
    for i in 0..130 {
        let address = slabs.allocate_bytes(&mut pmm).unwrap();
        assert_eq!(slabs.alloc_to_id(address), i);
        addresses.push(address);
    }
    // Three slabs, and one that holds their pages.
    assert_eq!(slabs.allocated_slabs(), 3);
    assert_eq!(slabs.memory_usage(), 4 * 4096);
    assert_eq!(pmm.count_free_pages(), 4);
    for (i, address) in addresses.iter().enumerate() {
        assert_eq!(slabs.id_to_alloc(i as u32), *address);
    }
    // The number of a slab that has gone is used again.
    for address in &addresses[64..128] {
        slabs.deallocate_bytes(&mut pmm, *address);
    }
    assert_eq!(slabs.memory_usage(), 3 * 4096);
    let mut next = Vec::new();
    for _ in 0..63 {
        next.push(slabs.allocate_bytes(&mut pmm).unwrap());
    }
    assert_eq!(slabs.alloc_to_id(next[61]), 2 * 64 + 63);
    assert_eq!(slabs.alloc_to_id(next[62]), 64);
    for address in addresses[0..64].iter().chain(&addresses[128..130]).chain(&next) {
        slabs.deallocate_bytes(&mut pmm, *address);
    }
    assert_eq!(slabs.memory_usage(), 0);
    assert_eq!(pmm.count_free_pages(), 8);
}

#[test]
fn slab_ids_fail_without_a_page_for_the_slab() {
    // The number takes the only page, and is given up again.
    let mut pmm = node_with_pages(1);
    let mut slabs = Ids::new();
    assert_eq!(slabs.allocate_bytes(&mut pmm), Err(SlabAllocationError));
    assert_eq!(slabs.memory_usage(), 0);
    assert_eq!(pmm.count_free_pages(), 1);
}

#[test]
fn slab_ids_on_two_levels() {
    let mut pmm = node_with_pages(8);
    let ids = PageSlabAllocator::<
        8,
        IdSlabProvider<
            8,
            262144,
            512,
            1,
            FixedIdSlabProvider<8, 512, 1, BaseSlabProvider>,
            BaseSlabProvider,
        >,
    >::new();
    let mut slabs: TwoLevels =
        PageSlabAllocator::new_with(IdSlabProvider::new_with(BaseSlabProvider::new(), ids));
    let mut addresses = Vec::new();
    for i in 0..65 {
        let address = slabs.allocate_bytes(&mut pmm).unwrap();
        assert_eq!(slabs.alloc_to_id(address), i);
        addresses.push(address);
    }
    // Two slabs, one that holds their pages, and one that holds the page of that one.
    assert_eq!(pmm.count_free_pages(), 4);
    assert_eq!(slabs.memory_usage(), 3 * 4096);
    assert_eq!(slabs.provider().slab_id_allocator().memory_usage(), 2 * 4096);
    for (i, address) in addresses.iter().enumerate() {
        assert_eq!(slabs.id_to_alloc(i as u32), *address);
    }
    for address in addresses {
        slabs.deallocate_bytes(&mut pmm, address);
    }
    assert_eq!(pmm.count_free_pages(), 8);
}

#[test]
fn slab_allocations_do_not_overlap() {
    let mut pmm = node_with_pages(4);
    // 85 allocations of 48 bytes fit into a page, with 16 bytes to spare.
    let mut slabs = PageSlabAllocator::<48, BaseSlabProvider>::new_with(BaseSlabProvider::new());
    let mut addresses = Vec::new();
    for _ in 0..200 {
        addresses.push(slabs.allocate_bytes(&mut pmm).unwrap());
    }
    addresses.sort();
    for pair in addresses.windows(2) {
        assert!(pair[0] + 48 <= pair[1]);
    }
    for address in addresses {
        assert!(address % PAGE_SIZE + 48 <= PAGE_SIZE);
        slabs.deallocate_bytes(&mut pmm, address);
    }
    assert_eq!(pmm.count_free_pages(), 4);
}
