//! Repeated slot lookups that are likely to be close to each other.

use vstd::prelude::*;
use crate::page_list_model::{at, node_of, page_of, put};
use crate::page_or_marker::VmPageOrMarker;
use crate::vm_page_list::{VmPageList, past_end};

verus! {

/// Helper object for performing repeated `lookup_or_allocate` operations that are likely to be
/// close to each other. It remembers the node that it used last.
pub struct BatchInserter<'a> {
    pub list: &'a mut VmPageList,
    pub node: Option<usize>,
}

impl<'a> BatchInserter<'a> {
    /// Construct a `BatchInserter` for the specified `VmPageList`.
    pub fn new(list: &'a mut VmPageList) -> (inserter: Self)
        ensures
            *inserter.list == *old(list),
            *final(inserter.list) == *final(list),
            inserter.node is None,
    {
        BatchInserter { list, node: None }
    }

    /// Similar to `VmPageList::lookup_or_allocate` without intervals. If the offset is in the same
    /// node as the last one, or in the following node, then this does not search for the node.
    /// Regardless of the offsets the result is the same.
    pub fn lookup_or_allocate(&mut self, offset: u64) -> (found: Option<&mut VmPageOrMarker>)
        requires
            old(self).list.wf(),
        ensures
            *final(final(self).list) == *final(old(self).list),
            found is None <==> {
                ||| past_end(offset)
                ||| !old(self).list.nodes().contains(node_of(page_of(offset)))
                    && old(self).list.count() == old(self).list.limit()
            },
            match found {
                Some(slot) => {
                    &&& slot.wf()
                    &&& slot@ == at(old(self).list.slots(), page_of(offset))
                    &&& final(slot).wf() ==> final(self).list.wf()
                    &&& final(self).list.slots() == put(
                        old(self).list.slots(),
                        page_of(offset),
                        final(slot)@,
                    )
                    &&& final(self).list.nodes() == old(self).list.nodes().insert(
                        node_of(page_of(offset)),
                    )
                    &&& final(self).list.count() == old(self).list.count() + if old(
                        self,
                    ).list.nodes().contains(node_of(page_of(offset))) {
                        0int
                    } else {
                        1int
                    }
                    &&& final(self).list.limit() == old(self).list.limit()
                    &&& final(self).node matches Some(ix) && final(self).list.has_position(
                        ix,
                        offset,
                    )
                },
                None => *final(self).list == *old(self).list && final(self).node == old(self).node,
            },
    {
        if let Some(ix) = self.node {
            // Under the assumption of contiguous insertion, check the node that was used last and
            // the one after it.
            if self.list.node_holds(ix, offset) {
                return Some(self.list.slot_in_node(ix, offset));
            }
            if ix < usize::MAX && self.list.node_holds(ix + 1, offset) {
                self.node = Some(ix + 1);
                return Some(self.list.slot_in_node(ix + 1, offset));
            }
        }
        match self.list.place_node(offset) {
            Some(ix) => {
                self.node = Some(ix);
                Some(self.list.slot_in_node(ix, offset))
            },
            None => None,
        }
    }

    /// Forgets the node that was used last.
    pub fn reset(&mut self)
        ensures
            *final(self).list == *old(self).list,
            *final(final(self).list) == *final(old(self).list),
            final(self).node is None,
    {
        self.node = None;
    }
}

} // verus!
