# kernel_vm

Verified bookkeeping for the physical and virtual memory of a kernel, written in Verus.

- `pmm_node` owns the physical pages: it allocates them singly, in numbers, at given addresses and
  in contiguous runs, takes them back, lends the pages of one owner to others, and tells callers to
  wait when memory is low. `pmm_model` says what each operation does to a node, `pmm_invariant`
  that every node stays well formed, and `pmm_laws` what follows from that. `pmm_arena` keeps the
  records of the pages, `free_memory` decides who has to wait.
- `vm_page_list` is the sparse list of what a memory object holds at each page: pages, references,
  markers, and ranges of zeros that take two slots however long they are. `page_or_marker` is one
  slot, `page_list_node` a run of sixteen, `node_tree` the tree of nodes; `page_list_walk` and
  `batch_inserter` go through a list. `page_list_model` says what a list is, `traversal` what a walk
  over it comes by, and `page_list_laws` what holds of the operations together.
- `page_slab_allocator` makes small allocations out of pages, and `slab_providers` says where the
  pages come from and how allocations are numbered. `slab_state` is the model of both.
- `continuous_attribution_tracker` counts, `page_queues` and `scanner` hold the plain data of their
  subsystems.

The contents of pages are not modelled: a node knows of each page whether the fill pattern was
written when it was freed. Time, threads and chance come in as arguments: a wait is taken step by
step, and the draw that delays allocations at random is set from outside.

`tests/` runs the library. `app/` is the part around it that blocks threads, prints, and calls into
the rest of the kernel.
