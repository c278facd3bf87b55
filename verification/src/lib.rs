//! Verified bookkeeping for the physical and virtual memory of a kernel.

pub mod batch_inserter;
pub mod continuous_attribution_tracker;
pub mod free_memory;
pub mod node_tree;
pub mod page;
pub mod page_list_joining;
pub mod page_list_laws;
pub mod page_list_model;
pub mod page_list_node;
pub mod page_list_splitting;
pub mod page_list_walk;
pub mod page_or_marker;
pub mod page_queues;
pub mod page_slab_allocator;
pub mod pmm_arena;
pub mod pmm_invariant;
pub mod pmm_laws;
pub mod pmm_model;
pub mod pmm_node;
pub mod pmm_places;
pub mod scanner;
pub mod slab;
pub mod slab_laws;
pub mod slab_providers;
pub mod slab_state;
pub mod slab_table;
pub mod status;
pub mod traversal;
pub mod vm_page;
pub mod vm_page_list;
