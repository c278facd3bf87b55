//! A sparse list of pages.

use vstd::prelude::*;
use crate::node_tree::NodeTree;
use crate::page;
use crate::page_list_laws::{
    apart_from_neighbours, contents_ok, lemma_failed_populate_restores, lemma_return_undoes_split,
};
use crate::page_list_model::{
    Slots, add_interval, add_lacking, add_left, add_right, at, bounds, carried, carries_to_dirty,
    clear_between, clear_range, covered, end_of, ends_ok, filled, in_interval, interval_state,
    intervals_ok, joined, lemma_add_interval, lemma_added_count, lemma_added_nodes,
    lemma_added_pages, lemma_after_add_left, lemma_awaiting, lemma_bounds, lemma_end_of,
    lemma_last_populated, lemma_next_populated, lemma_populate, lemma_populate_carry,
    lemma_populate_middle, lemma_prev_populated, lemma_put_standalone, lemma_returned,
    lemma_returned_count, lemma_returned_first, lemma_split, lemma_split_tight, lemma_start_of,
    lemma_tight, lemma_tight_apart, max_page, maximal, merged_start, merges_left, merges_right,
    node_of, node_vacant, nodes_between, nodes_lacking, nodes_with_slot, occupied, page_of,
    populatable, populate, put, return_slot, spans, split, standalone, start_of, tight, tight_apart,
    vacated, vacated_between,
};
use crate::page_list_node::VmPageListNode;
use crate::page_or_marker::{
    awaiting_limit, content_ok, SentinelType, SlotContent, VmPageOrMarker, VmPageOrMarkerRef,
    ZeroRangeDirtyState,
};
use crate::status::Status;

verus! {

broadcast use NodeTree::lemma_updated;

/// How `VmPageList::lookup_or_allocate` deals with intervals.
#[derive(PartialEq, Eq, Structural, Clone, Copy, Debug)]
pub enum IntervalHandling {
    /// The list does not contain any intervals: each slot can be manipulated independently.
    NoIntervals,
    /// The list can contain intervals. A slot is only returned if it lies in none.
    CheckForInterval,
    /// The list can contain intervals, and they are split to return the required slot.
    SplitInterval,
}

/// The offset lies past the nodes that a list can have.
pub open spec fn past_end(offset: u64) -> bool {
    offset as int / 65536 >= 0xffff_ffff_ffff
}

/// A list has nodes for all offsets below `VmPageList::MAX_SIZE` and for no others.
pub proof fn lemma_past_end(offset: u64)
    ensures
        past_end(offset) <==> offset >= VmPageList::MAX_SIZE,
        VmPageList::MAX_SIZE == u64::MAX - 0xffff,
{
}

/// A sparse list of pages organized into 64 KiB (16-page) nodes.
///
/// Nodes should hold something: whoever is handed an empty slot either fills it or returns it.
#[derive(Debug)]
pub struct VmPageList {
    tree: NodeTree,
}

impl VmPageList {
    /// Offsets lie below this one, so that an offset past the end of a node can be represented.
    pub const MAX_SIZE: u64 = 0xffff_ffff_ffff_0000;

    /// The populated slots, by page number.
    pub closed spec fn slots(self) -> Slots {
        self.tree.slots()
    }

    /// The numbers of the nodes.
    pub closed spec fn nodes(self) -> Set<int> {
        self.tree.nodes()
    }

    /// The number of nodes.
    pub closed spec fn count(self) -> int {
        self.tree.order().len() as int
    }

    /// The number of nodes that there is memory for.
    pub closed spec fn limit(self) -> int {
        self.tree.limit()
    }

    pub closed spec fn wf(self) -> bool {
        self.tree.wf()
    }

    /// No node is completely empty, and every interval has a start and an end.
    pub open spec fn settled(self) -> bool {
        tight(self.nodes(), self.slots()) && intervals_ok(self.slots())
    }

    /// Nothing differs between the two lists.
    pub open spec fn same(self, other: Self) -> bool {
        &&& self.wf()
        &&& self.slots() == other.slots()
        &&& self.nodes() == other.nodes()
        &&& self.count() == other.count()
        &&& self.limit() == other.limit()
    }

    /// Populated slots lie in nodes, of which there are no more than there is memory for.
    pub proof fn lemma_wf(self)
        requires
            self.wf(),
        ensures
            self.nodes().finite(),
            self.count() == self.nodes().len(),
            self.count() <= self.limit(),
            forall|p: int| !(#[trigger] at(self.slots(), p) is Empty) ==> self.nodes().contains(
                node_of(p),
            ),
            forall|k: int| #[trigger] self.nodes().contains(k) ==> 0 <= k < 0xffff_ffff_ffff,
            forall|p: int| #[trigger] self.slots().contains_key(p) ==> !(self.slots()[p] is Empty),
    {
        self.tree.lemma_wf();
        assert(self.tree.order().no_duplicates()) by {
            assert forall|i: int, j: int|
                0 <= i < self.tree.order().len() && 0 <= j < self.tree.order().len() && i
                    != j implies self.tree.order()[i] != self.tree.order()[j] by {
                assert(i < j ==> self.tree.order()[i] < self.tree.order()[j]);
                assert(j < i ==> self.tree.order()[j] < self.tree.order()[i]);
            }
        }
        self.tree.order().unique_seq_to_set();
        assert(self.nodes() =~= self.tree.order().to_set());
        vstd::seq_lib::seq_to_set_is_finite(self.tree.order());
        assert forall|k: int| #[trigger] self.nodes().contains(k) implies 0 <= k
            < 0xffff_ffff_ffff by {
            let i = choose|i: int| 0 <= i < self.tree.order().len() && self.tree.order()[i] == k;
            assert(self.tree.order()[i] == k);
        }
    }

    /// What the slots hold is what slots take.
    pub proof fn lemma_content_ok(self, p: int)
        requires
            self.wf(),
        ensures
            content_ok(at(self.slots(), p)),
    {
        self.tree.lemma_content_ok(p);
    }

    /// The nodes of a settled list are those that hold something.
    pub proof fn lemma_nodes(self)
        requires
            self.wf(),
            self.settled(),
        ensures
            self.nodes() == occupied(self.slots()),
            self.count() == occupied(self.slots()).len(),
            occupied(self.slots()).finite(),
    {
        let s = self.slots();
        self.lemma_wf();
        assert forall|k: int| #[trigger] self.nodes().contains(k) == occupied(s).contains(k) by {
            if self.nodes().contains(k) {
                let p = lemma_tight(self.nodes(), s, k);
            }
            if occupied(s).contains(k) {
                let p = choose|p: int| 16 * k <= p < 16 * k + 16 && !(#[trigger] at(s, p) is Empty);
                assert(node_of(p) == k);
            }
        }
        assert(self.nodes() =~= occupied(s));
    }

    /// A list stays settled when the awaiting-clean length of an interval is changed.
    pub proof fn lemma_awaiting_keeps_settled(self, after: Self, p: int, awaiting: int)
        requires
            self.settled(),
            at(self.slots(), p).is_start() || at(self.slots(), p).is_slot(),
            after.slots() == put(
                self.slots(),
                p,
                at(self.slots(), p).with_awaiting(awaiting),
            ),
            after.nodes() == self.nodes(),
        ensures
            after.settled(),
            forall|x: int| #[trigger]
                in_interval(after.slots(), x) == in_interval(self.slots(), x),
    {
        lemma_awaiting(self.slots(), p, awaiting);
        self.lemma_populated_keeps_tight(after, p);
    }

    /// A list stays settled when a content that is no part of a multi-page interval is changed for
    /// another such content.
    pub proof fn lemma_swap_keeps_settled(self, after: Self, p: int, content: SlotContent)
        requires
            self.settled(),
            !(at(self.slots(), p) is Empty),
            standalone(at(self.slots(), p)),
            !(content is Empty),
            standalone(content),
            after.slots() == put(self.slots(), p, content),
            after.nodes() == self.nodes(),
        ensures
            after.settled(),
            forall|x: int|
                x != p ==> #[trigger] in_interval(after.slots(), x) == in_interval(
                    self.slots(),
                    x,
                ),
    {
        let s = self.slots();
        assert(!covered(s, p)) by {
            if covered(s, p) {
                let (a, b) = choose|a: int, b: int| a < p < b && #[trigger] spans(s, a, b);
                assert(at(s, p) is Empty);
            }
        }
        lemma_put_standalone(s, p, content);
        self.lemma_populated_keeps_tight(after, p);
    }

    /// No node falls empty when a populated slot stays populated.
    proof fn lemma_populated_keeps_tight(self, after: Self, p: int)
        requires
            tight(self.nodes(), self.slots()),
            !(at(after.slots(), p) is Empty),
            forall|x: int| x != p ==> #[trigger] at(after.slots(), x) == at(self.slots(), x),
            after.nodes() == self.nodes(),
        ensures
            tight(after.nodes(), after.slots()),
    {
        assert forall|k: int| #[trigger] after.nodes().contains(k) implies !node_vacant(
            after.slots(),
            k,
        ) by {
            let q = lemma_tight(self.nodes(), self.slots(), k);
            assert(!(at(after.slots(), q) is Empty));
        }
        reveal(tight);
    }

    /// Creates a new empty `VmPageList`.
    pub fn new() -> (list: Self)
        ensures
            list.wf(),
            list.settled(),
            list.slots() == Map::<int, SlotContent>::empty(),
            list.nodes() == Set::<int>::empty(),
            list.count() == 0,
            list.limit() == usize::MAX,
    {
        Self::with_node_limit(usize::MAX)
    }

    /// Creates a new empty `VmPageList` for which there is memory for `limit` nodes.
    pub fn with_node_limit(limit: usize) -> (list: Self)
        ensures
            list.wf(),
            list.settled(),
            list.slots() == Map::<int, SlotContent>::empty(),
            list.nodes() == Set::<int>::empty(),
            list.count() == 0,
            list.limit() == limit,
    {
        let list = VmPageList { tree: NodeTree::new(limit) };
        proof {
            assert(list.nodes() =~= Set::<int>::empty());
            reveal(tight);
            reveal(crate::page_list_model::starts_ok);
            reveal(crate::page_list_model::ends_ok);
        }
        list
    }

    /// Returns true if there are no pages, references, markers, or intervals in the page list.
    pub fn is_empty(&self) -> (result: bool)
        requires
            self.wf(),
        ensures
            result == (self.count() == 0),
            result == (self.nodes() =~= Set::<int>::empty()),
            tight(self.nodes(), self.slots()) ==> result == (self.slots() =~= Map::<
                int,
                SlotContent,
            >::empty()),
    {
        let result: bool = self.tree.len() == 0;
        proof {
            self.lemma_wf();
            if result {
                assert(self.nodes() =~= Set::<int>::empty());
                assert forall|p: int| !self.slots().contains_key(p) by {
                    if self.slots().contains_key(p) {
                        assert(!(at(self.slots(), p) is Empty));
                    }
                }
                assert(self.slots() =~= Map::<int, SlotContent>::empty());
            } else {
                let k = self.tree.order()[0];
                assert(self.nodes().contains(k));
                if tight(self.nodes(), self.slots()) {
                    let p = lemma_tight(self.nodes(), self.slots(), k);
                    assert(self.slots().contains_key(p));
                }
            }
        }
        result
    }

    /// Clears the list of any remaining slots. None of them may hold a page or a reference, as
    /// these would be lost.
    pub fn clear(&mut self)
        requires
            old(self).wf(),
            forall|p: int|
                !(#[trigger] at(old(self).slots(), p) is Page) && !(at(
                    old(self).slots(),
                    p,
                ) is Reference),
        ensures
            final(self).wf(),
            final(self).settled(),
            final(self).slots() == Map::<int, SlotContent>::empty(),
            final(self).nodes() == Set::<int>::empty(),
            final(self).count() == 0,
            final(self).limit() == old(self).limit(),
    {
        self.tree.clear();
        proof {
            assert(self.nodes() =~= Set::<int>::empty());
            reveal(tight);
            reveal(crate::page_list_model::starts_ok);
            reveal(crate::page_list_model::ends_ok);
        }
    }

    /// The position in the tree of the node that holds an offset.
    fn find_node(&self, offset: u64) -> (found: Option<usize>)
        requires
            self.wf(),
        ensures
            match found {
                Some(ix) => {
                    &&& ix < self.tree.order().len()
                    &&& self.tree.order()[ix as int] == node_of(page_of(offset))
                    &&& self.nodes().contains(node_of(page_of(offset)))
                },
                None => !self.nodes().contains(node_of(page_of(offset))),
            },
    {
        let found: Option<usize> = self.tree.find(VmPageListNode::node_offset(offset));
        proof {
            if let Some(ix) = found {
                assert(self.tree.order().contains(self.tree.order()[ix as int]));
            }
        }
        found
    }

    /// Attempts to return the slot at the specified offset. `None` is returned if there is no slot
    /// allocated for the offset. If there is one, it may still be empty.
    pub fn lookup(&self, offset: u64) -> (found: Option<&VmPageOrMarker>)
        requires
            self.wf(),
        ensures
            match found {
                Some(slot) => {
                    &&& self.nodes().contains(node_of(page_of(offset)))
                    &&& slot.wf()
                    &&& slot@ == at(self.slots(), page_of(offset))
                },
                None => !self.nodes().contains(node_of(page_of(offset))) && at(
                    self.slots(),
                    page_of(offset),
                ) is Empty,
            },
    {
        match self.find_node(offset) {
            Some(ix) => Some(self.tree.slot(ix, VmPageListNode::node_index(offset))),
            None => {
                proof {
                    self.lemma_wf();
                }
                None
            },
        }
    }

    /// Similar to `lookup` but allows for limited mutation of the slot. General mutation takes
    /// `lookup_or_allocate`.
    pub fn lookup_mut(&mut self, offset: u64) -> (found: Option<VmPageOrMarkerRef<'_>>)
        requires
            old(self).wf(),
        ensures
            match found {
                Some(slot_ref) => {
                    &&& old(self).nodes().contains(node_of(page_of(offset)))
                    &&& slot_ref.wf()
                    &&& slot_ref@ == at(old(self).slots(), page_of(offset))
                    &&& final(slot_ref.slot).wf() ==> final(self).wf()
                    &&& final(self).slots() == put(
                        old(self).slots(),
                        page_of(offset),
                        final(slot_ref.slot)@,
                    )
                    &&& final(self).nodes() == old(self).nodes()
                    &&& final(self).count() == old(self).count()
                    &&& final(self).limit() == old(self).limit()
                },
                None => {
                    &&& !old(self).nodes().contains(node_of(page_of(offset)))
                    &&& *final(self) == *old(self)
                },
            },
    {
        match self.find_node(offset) {
            Some(ix) => Some(
                VmPageOrMarkerRef::new(
                    self.tree.slot_mut(ix, VmPageListNode::node_index(offset)),
                ),
            ),
            None => None,
        }
    }

    /// Makes sure that there is a node for `offset`, and returns its position in the tree.
    fn ensure_node(&mut self, offset: u64) -> (found: Option<usize>)
        requires
            old(self).wf(),
            !past_end(offset),
        ensures
            final(self).wf(),
            final(self).slots() == old(self).slots(),
            final(self).limit() == old(self).limit(),
            match found {
                Some(ix) => {
                    &&& ix < final(self).tree.order().len()
                    &&& final(self).tree.order()[ix as int] == node_of(page_of(offset))
                    &&& final(self).nodes() == old(self).nodes().insert(node_of(page_of(offset)))
                    &&& final(self).count() == old(self).count() + if old(self).nodes().contains(
                        node_of(page_of(offset)),
                    ) {
                        0int
                    } else {
                        1int
                    }
                },
                None => {
                    &&& !old(self).nodes().contains(node_of(page_of(offset)))
                    &&& old(self).count() == old(self).limit()
                    &&& *final(self) == *old(self)
                },
            },
    {
        let node_offset: u64 = VmPageListNode::node_offset(offset);
        let ix: usize = self.tree.lower_bound(node_offset);
        let ghost k = node_of(page_of(offset));
        let ghost before = *self;
        proof {
            self.lemma_wf();
            self.tree.lemma_wf();
        }
        if ix < self.tree.len() && self.tree.offset_at(ix) == node_offset {
            proof {
                assert(self.tree.order().contains(self.tree.order()[ix as int]));
                assert(self.nodes() =~= before.nodes().insert(k));
            }
            return Some(ix);
        }
        proof {
            assert forall|i: int| ix <= i < self.tree.order().len() implies #[trigger] self.tree.order()[i]
                > node_offset as int / 65536 by {
                if i > ix {
                    assert(self.tree.order()[ix as int] < self.tree.order()[i]);
                }
            }
            if self.nodes().contains(k) {
                let i = choose|i: int| 0 <= i < self.tree.order().len() && self.tree.order()[i] == k;
                assert(self.tree.order()[i] == k);
            }
            assert(!before.nodes().contains(k));
        }
        if self.tree.insert(ix, node_offset) {
            proof {
                before.tree.lemma_nodes(self.tree, ix as int, k);
                assert(self.tree.order()[ix as int] == k);
            }
            Some(ix)
        } else {
            None
        }
    }

    /// The slot of an offset for which there is a node.
    pub(crate) fn slot_for(&mut self, offset: u64) -> (slot: &mut VmPageOrMarker)
        requires
            old(self).wf(),
            old(self).nodes().contains(node_of(page_of(offset))),
        ensures
            slot.wf(),
            content_ok(slot@),
            slot@ == at(old(self).slots(), page_of(offset)),
            final(slot).wf() ==> final(self).wf(),
            final(self).slots() == put(old(self).slots(), page_of(offset), final(slot)@),
            final(self).nodes() == old(self).nodes(),
            final(self).count() == old(self).count(),
            final(self).limit() == old(self).limit(),
    {
        let ix: usize = match self.find_node(offset) {
            Some(ix) => ix,
            None => 0,
        };
        self.tree.slot_mut(ix, VmPageListNode::node_index(offset))
    }

    /// The slot of an offset for which there is a node, for reading.
    pub(crate) fn peek(&self, offset: u64) -> (slot: &VmPageOrMarker)
        requires
            self.wf(),
            self.nodes().contains(node_of(page_of(offset))),
        ensures
            slot.wf(),
            content_ok(slot@),
            slot@ == at(self.slots(), page_of(offset)),
    {
        let ix: usize = match self.find_node(offset) {
            Some(ix) => ix,
            None => 0,
        };
        self.tree.slot(ix, VmPageListNode::node_index(offset))
    }

    /// The node that holds an offset is at this position of the tree.
    pub closed spec fn has_position(self, ix: usize, offset: u64) -> bool {
        ix < self.tree.order().len() && self.tree.order()[ix as int] == node_of(page_of(offset))
    }

    /// Whether the node at a position of the tree is there and holds an offset.
    pub(crate) fn node_holds(&self, ix: usize, offset: u64) -> (result: bool)
        requires
            self.wf(),
        ensures
            result == self.has_position(ix, offset),
            result ==> self.nodes().contains(node_of(page_of(offset))) && !past_end(offset),
    {
        let result: bool = ix < self.tree.len() && self.tree.offset_at(ix)
            == VmPageListNode::node_offset(offset);
        proof {
            if self.has_position(ix, offset) {
                assert(self.tree.order().contains(self.tree.order()[ix as int]));
                self.lemma_wf();
            }
        }
        result
    }

    /// The slot of an offset in the node that holds it.
    pub(crate) fn slot_in_node(&mut self, ix: usize, offset: u64) -> (slot: &mut VmPageOrMarker)
        requires
            old(self).wf(),
            old(self).has_position(ix, offset),
        ensures
            slot.wf(),
            slot@ == at(old(self).slots(), page_of(offset)),
            final(slot).wf() ==> final(self).wf(),
            final(self).slots() == put(old(self).slots(), page_of(offset), final(slot)@),
            final(self).nodes() == old(self).nodes(),
            old(self).nodes() == old(self).nodes().insert(node_of(page_of(offset))),
            final(self).has_position(ix, offset),
            final(self).count() == old(self).count(),
            final(self).limit() == old(self).limit(),
    {
        proof {
            assert(self.tree.order().contains(self.tree.order()[ix as int]));
            assert(self.nodes() =~= self.nodes().insert(node_of(page_of(offset))));
        }
        self.tree.slot_mut(ix, VmPageListNode::node_index(offset))
    }

    /// Makes sure that there is a node for an offset, and returns its position in the tree.
    pub(crate) fn place_node(&mut self, offset: u64) -> (found: Option<usize>)
        requires
            old(self).wf(),
        ensures
            final(self).wf(),
            final(self).slots() == old(self).slots(),
            final(self).limit() == old(self).limit(),
            found is None <==> {
                ||| past_end(offset)
                ||| !old(self).nodes().contains(node_of(page_of(offset))) && old(self).count()
                    == old(self).limit()
            },
            match found {
                Some(ix) => {
                    &&& final(self).has_position(ix, offset)
                    &&& final(self).nodes() == old(self).nodes().insert(node_of(page_of(offset)))
                    &&& final(self).count() == old(self).count() + if old(self).nodes().contains(
                        node_of(page_of(offset)),
                    ) {
                        0int
                    } else {
                        1int
                    }
                },
                None => *final(self) == *old(self),
            },
    {
        if VmPageListNode::node_offset(offset) >= Self::MAX_SIZE {
            return None;
        }
        let found: Option<usize> = self.ensure_node(offset);
        proof {
            self.lemma_wf();
        }
        found
    }

    /// `lookup_or_allocate` without regard to intervals.
    fn lookup_or_allocate_internal(&mut self, offset: u64) -> (found: Option<&mut VmPageOrMarker>)
        requires
            old(self).wf(),
        ensures
            match found {
                Some(slot) => {
                    &&& !past_end(offset)
                    &&& slot.wf()
                    &&& slot@ == at(old(self).slots(), page_of(offset))
                    &&& final(slot).wf() ==> final(self).wf()
                    &&& final(self).slots() == put(
                        old(self).slots(),
                        page_of(offset),
                        final(slot)@,
                    )
                    &&& final(self).nodes() == old(self).nodes().insert(node_of(page_of(offset)))
                    &&& final(self).count() == old(self).count() + if old(self).nodes().contains(
                        node_of(page_of(offset)),
                    ) {
                        0int
                    } else {
                        1int
                    }
                    &&& final(self).count() <= final(self).limit()
                    &&& final(self).limit() == old(self).limit()
                },
                None => {
                    &&& past_end(offset) || (!old(self).nodes().contains(node_of(page_of(offset)))
                        && old(self).count() == old(self).limit())
                    &&& *final(self) == *old(self)
                },
            },
    {
        if VmPageListNode::node_offset(offset) >= Self::MAX_SIZE {
            return None;
        }
        match self.ensure_node(offset) {
            Some(ix) => {
                proof {
                    self.lemma_wf();
                }
                Some(self.tree.slot_mut(ix, VmPageListNode::node_index(offset)))
            },
            None => None,
        }
    }

    /// Returns a slot that was empty after `lookup_or_allocate`, and that the caller did not end up
    /// filling. If the node that holds it is empty, it is removed, as it might not get cleaned up
    /// for the lifetime of the page list otherwise.
    pub fn return_empty_slot(&mut self, offset: u64)
        requires
            old(self).wf(),
            old(self).nodes().contains(node_of(page_of(offset))),
            at(old(self).slots(), page_of(offset)) is Empty,
        ensures
            final(self).wf(),
            final(self).slots() == old(self).slots(),
            final(self).limit() == old(self).limit(),
            if node_vacant(old(self).slots(), node_of(page_of(offset))) {
                &&& final(self).nodes() == old(self).nodes().remove(node_of(page_of(offset)))
                &&& final(self).count() == old(self).count() - 1
            } else {
                &&& final(self).nodes() == old(self).nodes()
                &&& final(self).count() == old(self).count()
            },
    {
        let ghost k = node_of(page_of(offset));
        let ix: usize = match self.find_node(offset) {
            Some(ix) => ix,
            None => 0,
        };
        if self.node_is_empty(ix) {
            let ghost before = *self;
            self.tree.erase(ix);
            proof {
                before.tree.lemma_nodes(self.tree, ix as int, k);
            }
        }
    }

    /// Whether the node at a position of the tree holds nothing.
    fn node_is_empty(&self, ix: usize) -> (result: bool)
        requires
            self.wf(),
            ix < self.tree.order().len(),
        ensures
            result == node_vacant(self.slots(), self.tree.order()[ix as int]),
            result ==> forall|j: int|
                0 <= j < 16 ==> #[trigger] at(
                    self.slots(),
                    self.tree.order()[ix as int] * 16 + j,
                ) is Empty,
    {
        let node: &VmPageListNode = self.tree.node_at(ix);
        let result: bool = node.is_empty();
        proof {
            let k = self.tree.order()[ix as int];
            if result {
                assert forall|j: int| 0 <= j < 16 implies #[trigger] at(
                    self.slots(),
                    k * 16 + j,
                ) is Empty by {
                    assert(node.slot(j) is Empty);
                }
                assert forall|p: int| 16 * k <= p < 16 * k + 16 implies #[trigger] at(
                    self.slots(),
                    p,
                ) is Empty by {
                    assert(at(self.slots(), k * 16 + (p - 16 * k)) is Empty);
                }
            } else {
                let j = choose|j: int| 0 <= j < 16 && !(#[trigger] node.slot(j) is Empty);
                assert(!(at(self.slots(), k * 16 + j) is Empty));
            }
        }
        result
    }

    /// Removes the nodes that hold nothing, from the one that `start_offset` lies in up to
    /// `end_offset`.
    pub(crate) fn remove_empty_nodes(&mut self, start_offset: u64, end_offset: u64)
        requires
            old(self).wf(),
            end_offset % 4096 == 0,
        ensures
            final(self).wf(),
            final(self).slots() == old(self).slots(),
            final(self).limit() == old(self).limit(),
            ({
                let gone = vacated_between(
                    old(self).nodes(),
                    old(self).slots(),
                    page_of(start_offset),
                    page_of(end_offset),
                );
                &&& final(self).nodes() == old(self).nodes().difference(gone)
                &&& final(self).count() == old(self).count() - gone.len()
            }),
    {
        let ghost s = self.slots();
        let ghost lo = node_of(page_of(start_offset));
        let ghost e = page_of(end_offset);
        let ghost gone = vacated_between(
            self.nodes(),
            s,
            page_of(start_offset),
            page_of(end_offset),
        );
        let mut ix: usize = self.tree.lower_bound(VmPageListNode::node_offset(start_offset));
        while ix < self.tree.len()
            invariant
                self.wf(),
                self.slots() == s,
                s == old(self).slots(),
                self.limit() == old(self).limit(),
                lo == node_of(page_of(start_offset)),
                e == page_of(end_offset),
                end_offset % 4096 == 0,
                ix <= self.tree.order().len(),
                forall|k: int| #[trigger]
                    self.nodes().contains(k) ==> old(self).nodes().contains(k),
                forall|k: int| #[trigger]
                    old(self).nodes().contains(k) && !self.nodes().contains(k) ==> lo <= k && 16 * k
                        < e && node_vacant(s, k),
                forall|j: int|
                    0 <= j < ix ==> #[trigger] self.tree.order()[j] < lo || !node_vacant(
                        s,
                        self.tree.order()[j],
                    ),
                forall|j: int|
                    ix <= j < self.tree.order().len() ==> #[trigger] self.tree.order()[j] >= lo,
            ensures
                forall|j: int|
                    ix <= j < self.tree.order().len() ==> 16 * #[trigger] self.tree.order()[j] >= e,
            decreases self.tree.order().len() - ix,
        {
            proof {
                self.tree.lemma_wf();
            }
            if self.tree.offset_at(ix) >= end_offset {
                break ;
            }
            if self.node_is_empty(ix) {
                let ghost before = *self;
                self.tree.erase(ix);
                proof {
                    before.tree.lemma_nodes(self.tree, ix as int, 0);
                    let order = self.tree.order();
                    assert forall|k: int| #[trigger] self.nodes().contains(k) implies old(
                        self,
                    ).nodes().contains(k) by {
                        assert(before.nodes().contains(k));
                    }
                    assert forall|j: int| ix <= j < order.len() implies #[trigger] order[j]
                        >= lo by {
                        assert(order[j] == before.tree.order()[j + 1]);
                    }
                    assert forall|j: int| 0 <= j < ix implies #[trigger] order[j] < lo
                        || !node_vacant(s, order[j]) by {
                        assert(order[j] == before.tree.order()[j]);
                    }
                }
            } else {
                ix = ix + 1;
            }
        }
        proof {
            old(self).lemma_wf();
            self.lemma_wf();
            let nodes = old(self).nodes();
            assert forall|k: int| #[trigger] self.nodes().contains(k) == nodes.difference(
                gone,
            ).contains(k) by {
                if self.nodes().contains(k) {
                    let order = self.tree.order();
                    let j = choose|j: int| 0 <= j < order.len() && order[j] == k;
                    assert(order[j] == k);
                }
            }
            assert(self.nodes() =~= nodes.difference(gone));
            vstd::set_lib::lemma_len_subset(gone, nodes);
            vstd::set_lib::lemma_set_disjoint_lens(self.nodes(), gone);
            assert(self.nodes() + gone =~= nodes);
        }
    }

    /// Removes any item at `offset` from the list and returns it, or `VmPageOrMarker::empty()` if
    /// there is none.
    pub fn remove_content(&mut self, offset: u64) -> (content: VmPageOrMarker)
        requires
            old(self).wf(),
        ensures
            content.wf(),
            content@ == at(old(self).slots(), page_of(offset)),
            final(self).wf(),
            final(self).slots() == put(old(self).slots(), page_of(offset), SlotContent::Empty),
            final(self).limit() == old(self).limit(),
            if !(content@ is Empty) && node_vacant(
                final(self).slots(),
                node_of(page_of(offset)),
            ) {
                &&& final(self).nodes() == old(self).nodes().remove(node_of(page_of(offset)))
                &&& final(self).count() == old(self).count() - 1
            } else {
                &&& final(self).nodes() == old(self).nodes()
                &&& final(self).count() == old(self).count()
            },
    {
        proof {
            self.lemma_wf();
        }
        let ghost k = node_of(page_of(offset));
        let ghost p = page_of(offset);
        match self.find_node(offset) {
            None => {
                assert(self.slots() =~= put(self.slots(), p, SlotContent::Empty));
                VmPageOrMarker::empty()
            },
            Some(ix) => {
                let slot = self.tree.slot_mut(ix, VmPageListNode::node_index(offset));
                let content: VmPageOrMarker = slot.swap(VmPageOrMarker::empty());
                let ghost before = *self;
                if !content.is_empty() && self.node_is_empty(ix) {
                    self.tree.erase(ix);
                    proof {
                        before.tree.lemma_nodes(self.tree, ix as int, k);
                    }
                }
                content
            },
        }
    }

    /// Determines whether `offset` falls in an interval involving `node`, the first node that ends
    /// after it. Returns any interval sentinel found.
    fn is_offset_in_interval_helper(
        offset: u64,
        node_offset: u64,
        node: &VmPageListNode,
    ) -> (found: Option<&VmPageOrMarker>)
        requires
            node.wf(),
            !node.vacant(),
            node_offset % 65536 == 0,
            offset < node_offset + 65536 <= u64::MAX,
        ensures
            found matches Some(slot) ==> slot.wf() && slot@ is Interval,
            offset < node_offset ==> ({
                let first = if node.slot(0) is Empty {
                    node.next_slot(0)
                } else {
                    0
                };
                &&& found is Some == node.slot(first).is_end()
                &&& found matches Some(slot) ==> slot@ == node.slot(first)
            }),
            offset >= node_offset ==> ({
                let index = (offset - node_offset) / 4096;
                let right = node.next_slot(index);
                let left = node.prev_slot(index);
                if !(node.slot(index) is Empty) {
                    &&& found is Some == (node.slot(index) is Interval)
                    &&& found matches Some(slot) ==> slot@ == node.slot(index)
                } else if right < 16 {
                    &&& found is Some == node.slot(right).is_end()
                    &&& found matches Some(slot) ==> slot@ == node.slot(right)
                } else {
                    &&& found is Some == node.slot(left).is_start()
                    &&& found matches Some(slot) ==> slot@ == node.slot(left)
                }
            }),
    {
        if offset < node_offset {
            node.node_starts_in_interval()
        } else {
            node.is_offset_in_interval(node_offset, offset)
        }
    }

    /// Finds the interval that `offset` falls in, and returns one of its sentinels.
    fn find_interval_at_offset(&self, offset: u64) -> (found: Option<&VmPageOrMarker>)
        requires
            self.wf(),
            self.settled(),
        ensures
            found is Some == in_interval(self.slots(), page_of(offset)),
            found matches Some(slot) ==> {
                &&& slot.wf()
                &&& slot@ is Interval
                &&& slot@->state == interval_state(self.slots(), page_of(offset))
                &&& slot@->state != ZeroRangeDirtyState::Clean
            },
    {
        let ghost s = self.slots();
        let ghost p = page_of(offset);
        let ghost k = node_of(p);
        let ghost order = self.tree.order();
        proof {
            self.lemma_wf();
            self.tree.lemma_wf();
        }
        let node_offset: u64 = VmPageListNode::node_offset(offset);
        let ix: usize = self.tree.lower_bound(node_offset);
        if ix >= self.tree.len() {
            proof {
                assert forall|q: int| q >= p implies #[trigger] at(s, q) is Empty by {
                    if !(at(s, q) is Empty) {
                        let i = choose|i: int| 0 <= i < order.len() && order[i] == q / 16;
                        assert(order[i] < k);
                    }
                }
                lemma_last_populated(s, p);
            }
            return None;
        }
        let base: u64 = self.tree.offset_at(ix);
        let node: &VmPageListNode = self.tree.node_at(ix);
        let ghost m = order[ix as int];
        proof {
            assert(order.contains(m));
            assert(self.nodes().contains(m));
            let q = lemma_tight(self.nodes(), s, m);
            assert(node.slot(q - 16 * m) == at(s, m * 16 + (q - 16 * m)));
        }
        let found = Self::is_offset_in_interval_helper(offset, base, node);
        proof {
            if base > offset {
                self.lemma_interval_before(*node, ix as int, p);
            } else {
                assert(p - 16 * m == (offset - base) / 4096);
                self.lemma_interval_here(*node, ix as int, p);
            }
            if let Some(slot) = found {
                crate::page_or_marker::lemma_slot_content(*slot);
            }
        }
        found
    }

    /// What the node at a position of the tree shows of it.
    spec fn is_node(self, node: VmPageListNode, ix: int) -> bool {
        &&& node.wf()
        &&& !node.vacant()
        &&& 0 <= ix < self.tree.order().len()
        &&& forall|j: int|
            0 <= j < 16 ==> #[trigger] node.slot(j) == at(
                self.slots(),
                self.tree.order()[ix] * 16 + j,
            )
    }

    /// The first populated slot of the next node tells whether a page without a node lies in an
    /// interval.
    proof fn lemma_interval_before(self, node: VmPageListNode, ix: int, p: int)
        requires
            self.wf(),
            intervals_ok(self.slots()),
            self.is_node(node, ix),
            forall|i: int| 0 <= i < ix ==> #[trigger] self.tree.order()[i] < node_of(p),
            self.tree.order()[ix] > node_of(p),
        ensures
            ({
                let first = if node.slot(0) is Empty {
                    node.next_slot(0)
                } else {
                    0
                };
                &&& in_interval(self.slots(), p) == node.slot(first).is_end()
                &&& node.slot(first).is_end() ==> interval_state(self.slots(), p) == node.slot(
                    first,
                )->state
            }),
    {
        let s = self.slots();
        let m = self.tree.order()[ix];
        let first = if node.slot(0) is Empty {
            node.next_slot(0)
        } else {
            0
        };
        self.lemma_gap_before(p, ix);
        self.lemma_first_in_node(node, ix);
        let q = 16 * m + first;
        assert(node.slot(first) == at(s, m * 16 + first));
        assert(at(s, p) is Empty);
        assert forall|x: int| p < x < q implies #[trigger] at(s, x) is Empty by {
            if x >= 16 * m {
                assert(node.slot(x - 16 * m) is Empty);
                assert(node.slot(x - 16 * m) == at(s, m * 16 + (x - 16 * m)));
            }
        }
        lemma_next_populated(s, p, q);
    }

    /// The neighbours of a page in its node tell whether it lies in an interval.
    proof fn lemma_interval_here(self, node: VmPageListNode, ix: int, p: int)
        requires
            self.wf(),
            intervals_ok(self.slots()),
            self.is_node(node, ix),
            self.tree.order()[ix] == node_of(p),
        ensures
            ({
                let index = p - 16 * node_of(p);
                let right = node.next_slot(index);
                let left = node.prev_slot(index);
                let near = if right < 16 {
                    node.slot(right)
                } else {
                    node.slot(left)
                };
                if !(node.slot(index) is Empty) {
                    &&& in_interval(self.slots(), p) == (node.slot(index) is Interval)
                    &&& interval_state(self.slots(), p) == node.slot(index)->state
                } else {
                    &&& in_interval(self.slots(), p) == (if right < 16 {
                        near.is_end()
                    } else {
                        near.is_start()
                    })
                    &&& in_interval(self.slots(), p) ==> interval_state(self.slots(), p)
                        == near->state
                }
            }),
    {
        let s = self.slots();
        let m = self.tree.order()[ix];
        let index = p - 16 * m;
        let right = node.next_slot(index);
        assert(node.slot(index) == at(s, m * 16 + index));
        assert(m * 16 + index == p);
        if node.slot(index) is Empty {
            self.lemma_neighbours(node, ix, index);
            if right < 16 {
                lemma_next_populated(s, p, 16 * m + right);
            } else {
                lemma_prev_populated(s, p, 16 * m + node.prev_slot(index));
            }
        } else if covered(s, p) {
            let (a, b) = choose|a: int, b: int| a < p < b && #[trigger] spans(s, a, b);
            assert(at(s, p) is Empty);
        }
    }

    /// Nothing is populated between the node of a page and the first node after it.
    proof fn lemma_gap_before(self, p: int, ix: int)
        requires
            self.wf(),
            0 <= ix < self.tree.order().len(),
            forall|i: int| 0 <= i < ix ==> #[trigger] self.tree.order()[i] < node_of(p),
            self.tree.order()[ix] >= node_of(p),
        ensures
            forall|x: int|
                16 * node_of(p) <= x < 16 * self.tree.order()[ix] ==> #[trigger] at(
                    self.slots(),
                    x,
                ) is Empty,
    {
        self.lemma_wf();
        self.tree.lemma_wf();
        let order = self.tree.order();
        assert forall|x: int| 16 * node_of(p) <= x < 16 * order[ix] implies #[trigger] at(
            self.slots(),
            x,
        ) is Empty by {
            if !(at(self.slots(), x) is Empty) {
                let i = choose|i: int| 0 <= i < order.len() && order[i] == x / 16;
                if i < ix {
                    assert(order[i] < node_of(p));
                } else if i > ix {
                    assert(order[ix] < order[i]);
                }
            }
        }
    }

    /// The first populated slot of a node.
    proof fn lemma_first_in_node(self, node: VmPageListNode, ix: int)
        requires
            self.wf(),
            0 <= ix < self.tree.order().len(),
            node.wf(),
            !node.vacant(),
        ensures
            ({
                let first = if node.slot(0) is Empty {
                    node.next_slot(0)
                } else {
                    0
                };
                &&& 0 <= first < 16
                &&& !(node.slot(first) is Empty)
                &&& forall|j: int| 0 <= j < first ==> #[trigger] node.slot(j) is Empty
            }),
    {
        if node.slot(0) is Empty {
            node.lemma_next_slot_is(0);
            if node.next_slot(0) >= 16 {
                assert forall|j: int| 0 <= j < 16 implies #[trigger] node.slot(j) is Empty by {}
            }
        }
    }

    /// What lies around an empty slot of a node.
    proof fn lemma_neighbours(self, node: VmPageListNode, ix: int, index: int)
        requires
            self.wf(),
            0 <= ix < self.tree.order().len(),
            node.wf(),
            !node.vacant(),
            0 <= index < 16,
            node.slot(index) is Empty,
            forall|j: int|
                0 <= j < 16 ==> #[trigger] node.slot(j) == at(
                    self.slots(),
                    self.tree.order()[ix] * 16 + j,
                ),
        ensures
            ({
                let m = self.tree.order()[ix];
                let right = node.next_slot(index);
                let left = node.prev_slot(index);
                &&& right < 16 ==> {
                    &&& index < right
                    &&& node.slot(right) == at(self.slots(), 16 * m + right)
                    &&& !(node.slot(right) is Empty)
                    &&& clear_between(self.slots(), 16 * m + index, 16 * m + right)
                }
                &&& right >= 16 ==> {
                    &&& 0 <= left < index
                    &&& node.slot(left) == at(self.slots(), 16 * m + left)
                    &&& !(node.slot(left) is Empty)
                    &&& clear_between(self.slots(), 16 * m + left, 16 * m + index)
                }
            }),
    {
        let m = self.tree.order()[ix];
        let right = node.next_slot(index);
        let left = node.prev_slot(index);
        node.lemma_next_slot_is(index);
        node.lemma_prev_slot_is(index);
        if right < 16 {
            assert forall|x: int| 16 * m + index < x < 16 * m + right implies #[trigger] at(
                self.slots(),
                x,
            ) is Empty by {
                assert(node.slot(x - 16 * m) == at(self.slots(), m * 16 + (x - 16 * m)));
            }
        } else {
            if left < 0 {
                assert forall|j: int| 0 <= j < 16 implies #[trigger] node.slot(j) is Empty by {}
            }
            assert forall|x: int| 16 * m + left < x < 16 * m + index implies #[trigger] at(
                self.slots(),
                x,
            ) is Empty by {
                assert(node.slot(x - 16 * m) == at(self.slots(), m * 16 + (x - 16 * m)));
            }
        }
    }

    /// Returns true if the specified offset falls in a sparse zero interval.
    pub fn is_offset_in_zero_interval(&self, offset: u64) -> (result: bool)
        requires
            self.wf(),
            self.settled(),
        ensures
            result == in_interval(self.slots(), page_of(offset)),
    {
        match self.find_interval_at_offset(offset) {
            Some(interval) => interval.is_interval_zero(),
            None => false,
        }
    }

    /// Returns true if the specified offset falls in a sparse page interval.
    pub(crate) fn is_offset_in_interval(&self, offset: u64) -> (result: bool)
        requires
            self.wf(),
            self.settled(),
        ensures
            result == in_interval(self.slots(), page_of(offset)),
    {
        self.find_interval_at_offset(offset).is_some()
    }

    /// Splits the interval around `offset`, for which all nodes are there.
    fn split_around(&mut self, offset: u64, state: ZeroRangeDirtyState)
        requires
            old(self).wf(),
            intervals_ok(old(self).slots()),
            in_interval(old(self).slots(), page_of(offset)),
            !at(old(self).slots(), page_of(offset)).is_slot(),
            state == interval_state(old(self).slots(), page_of(offset)),
            state != ZeroRangeDirtyState::Clean,
            !past_end(offset),
            old(self).nodes().contains(node_of(page_of(offset))),
            !at(old(self).slots(), page_of(offset)).is_start() ==> page_of(offset) > 0 && old(
                self,
            ).nodes().contains(node_of(page_of(offset) - 1)),
            !at(old(self).slots(), page_of(offset)).is_end() ==> old(self).nodes().contains(
                node_of(page_of(offset) + 1),
            ),
        ensures
            final(self).wf(),
            final(self).slots() == split(old(self).slots(), page_of(offset)),
            final(self).nodes() == old(self).nodes(),
            final(self).count() == old(self).count(),
            final(self).limit() == old(self).limit(),
    {
        let ghost s = self.slots();
        let ghost p = page_of(offset);
        proof {
            lemma_bounds(s, p);
        }
        let slot = self.peek(offset);
        let is_empty: bool = slot.is_empty();
        let is_start: bool = slot.is_interval_start();
        let is_end: bool = slot.is_interval_end();
        // What is awaiting clean of an interval that is split at its start is carried over to the
        // rest of it. That can be longer than the rest: whoever looks at it takes that into
        // account.
        let awaiting_clean_len: u64 = if is_start {
            slot.zero_interval_awaiting_clean_length()
        } else {
            0
        };
        if !is_end {
            let next = self.slot_for(offset + page::PAGE_SIZE);
            if next.is_interval_end() {
                next.change_interval_sentinel(SentinelType::Slot);
            } else {
                *next = VmPageOrMarker::zero_interval(SentinelType::Start, state);
            }
            if awaiting_clean_len > page::PAGE_SIZE {
                next.set_zero_interval_awaiting_clean_length(awaiting_clean_len - page::PAGE_SIZE);
            }
        }
        let ghost s1 = self.slots();
        if !is_start {
            let prev = self.slot_for(offset - page::PAGE_SIZE);
            if prev.is_interval_start() {
                prev.change_interval_sentinel(SentinelType::Slot);
            } else {
                *prev = VmPageOrMarker::zero_interval(SentinelType::End, state);
            }
        }
        let ghost s2 = self.slots();
        let slot = self.slot_for(offset);
        if is_empty {
            *slot = VmPageOrMarker::zero_interval(SentinelType::Slot, state);
        } else {
            if awaiting_clean_len > page::PAGE_SIZE {
                slot.set_zero_interval_awaiting_clean_length(page::PAGE_SIZE);
            }
            slot.change_interval_sentinel(SentinelType::Slot);
        }
        proof {
            assert(self.slots() =~= split(s, p));
        }
    }

    /// Similar to `lookup_or_allocate_internal` but also checks if `offset` falls in an interval.
    /// If it does and `split_interval` is set, the interval is split around `offset`, so that the
    /// slot is an interval of its own:
    ///  `[start, offset) [offset, offset + page::SIZE) [offset + page::SIZE, end)`
    /// Without `split_interval` no slot of an interval is returned, as it is not safe to manipulate
    /// one without also splitting the interval around it.
    pub fn lookup_or_allocate_check_for_interval(
        &mut self,
        offset: u64,
        split_interval: bool,
    ) -> (found: (Option<&mut VmPageOrMarker>, bool))
        requires
            old(self).wf(),
            old(self).settled(),
        ensures
            found.1 == in_interval(old(self).slots(), page_of(offset)),
            found.0 is None <==> {
                ||| past_end(offset)
                ||| in_interval(old(self).slots(), page_of(offset)) && !split_interval
                ||| old(self).count() + nodes_lacking(
                    old(self).nodes(),
                    old(self).slots(),
                    page_of(offset),
                ) > old(self).limit()
            },
            match found.0 {
                Some(slot) => {
                    let target = if in_interval(old(self).slots(), page_of(offset)) {
                        split(old(self).slots(), page_of(offset))
                    } else {
                        old(self).slots()
                    };
                    &&& slot.wf()
                    &&& slot@ == at(target, page_of(offset))
                    &&& final(slot).wf() ==> final(self).wf()
                    &&& final(self).slots() == put(target, page_of(offset), final(slot)@)
                    &&& final(self).nodes() == nodes_with_slot(
                        old(self).nodes(),
                        old(self).slots(),
                        page_of(offset),
                    )
                    &&& final(self).count() == old(self).count() + nodes_lacking(
                        old(self).nodes(),
                        old(self).slots(),
                        page_of(offset),
                    )
                    &&& final(self).limit() == old(self).limit()
                },
                None => final(self).same(*old(self)),
            },
    {
        let ghost s = self.slots();
        let ghost p = page_of(offset);
        let ghost k = node_of(p);
        let ghost nodes = self.nodes();
        proof {
            self.lemma_wf();
            if in_interval(s, p) && !at(s, p).is_slot() {
                lemma_bounds(s, p);
                let (a, b) = bounds(s, p);
                assert(!(at(s, a) is Empty) && !(at(s, b) is Empty));
                assert(nodes.contains(node_of(a)) && nodes.contains(node_of(b)));
                assert(0 <= a && p <= b && node_of(b) < 0xffff_ffff_ffff);
            }
            assert(in_interval(s, p) ==> !past_end(offset)) by {
                if in_interval(s, p) && at(s, p).is_slot() {
                    assert(nodes.contains(node_of(p)));
                }
            }
        }
        let node_index: usize = VmPageListNode::node_index(offset);
        if VmPageListNode::node_offset(offset) >= Self::MAX_SIZE {
            return (None, false);
        }
        let mut is_in_interval: bool = false;
        let mut state: ZeroRangeDirtyState = ZeroRangeDirtyState::Untracked;
        if let Some(interval) = self.find_interval_at_offset(offset) {
            is_in_interval = true;
            state = interval.zero_interval_dirty_state();
        }
        if is_in_interval && !split_interval {
            return (None, true);
        }
        if self.ensure_node(offset).is_none() {
            return (None, is_in_interval);
        }
        let slot = self.peek(offset);
        let is_empty: bool = slot.is_empty();
        let is_slot: bool = slot.is_interval_slot();
        let is_start: bool = slot.is_interval_start();
        let is_end: bool = slot.is_interval_end();
        proof {
            self.lemma_wf();
        }
        if !is_in_interval || is_slot {
            return (Some(self.slot_for(offset)), is_in_interval);
        }
        // If the slot is empty, the interval needs a new end left of it and a new start right of
        // it. Otherwise the slot is the start or the end of the interval, and only one of the two
        // is needed. At most one of them lies in another node, so if adding that fails the only
        // clean up is to return the slot at offset.
        let ghost middle = *self;
        if !is_start && node_index == 0 {
            if self.ensure_node(offset - page::PAGE_SIZE).is_none() {
                if is_empty {
                    self.return_empty_slot(offset);
                }
                proof {
                    old(self).lemma_slot_returned(middle, *self, p, is_empty);
                }
                return (None, true);
            }
        }
        if !is_end && node_index == VmPageListNode::PAGE_FAN_OUT - 1 {
            if self.ensure_node(offset + page::PAGE_SIZE).is_none() {
                if is_empty {
                    self.return_empty_slot(offset);
                }
                proof {
                    old(self).lemma_slot_returned(middle, *self, p, is_empty);
                }
                return (None, true);
            }
        }
        proof {
            assert(self.nodes() =~= nodes_with_slot(nodes, s, p));
            assert(!is_start ==> p > 0 && self.nodes().contains(node_of(p - 1)));
            assert(!is_end ==> self.nodes().contains(node_of(p + 1)));
        }
        self.split_around(offset, state);
        proof {
            self.lemma_wf();
        }
        (Some(self.slot_for(offset)), true)
    }

    /// After a slot has been taken and returned the list is what it was.
    proof fn lemma_slot_returned(self, middle: Self, last: Self, p: int, returned: bool)
        requires
            self.wf(),
            tight(self.nodes(), self.slots()),
            last.wf(),
            middle.slots() == self.slots(),
            last.slots() == self.slots(),
            last.limit() == self.limit(),
            middle.nodes() == self.nodes().insert(node_of(p)),
            middle.count() == self.count() + if self.nodes().contains(node_of(p)) {
                0int
            } else {
                1int
            },
            returned == (at(self.slots(), p) is Empty),
            if returned && node_vacant(self.slots(), node_of(p)) {
                last.nodes() == middle.nodes().remove(node_of(p)) && last.count() == middle.count()
                    - 1
            } else {
                last.nodes() == middle.nodes() && last.count() == middle.count()
            },
        ensures
            last.same(self),
    {
        let k = node_of(p);
        self.lemma_wf();
        if self.nodes().contains(k) {
            let q = lemma_tight(self.nodes(), self.slots(), k);
            assert(last.nodes() =~= self.nodes());
        } else {
            assert forall|q: int| 16 * k <= q < 16 * k + 16 implies #[trigger] at(
                self.slots(),
                q,
            ) is Empty by {}
            assert(node_vacant(self.slots(), k));
            assert(last.nodes() =~= self.nodes());
        }
    }

    /// Similar to `lookup` but only returns `None` if a slot cannot be allocated either due to out
    /// of memory, due to the offset being invalid, or `interval_handling` not allowing for a slot
    /// to be safely returned. The bool tells whether the offset falls inside an interval.
    ///
    /// The slot may be freely manipulated, but if it was not empty it must not be made empty:
    /// `remove_content` does that. If it was empty, and is not filled, it must be returned with
    /// `return_empty_slot`, so that no empty nodes are retained.
    pub fn lookup_or_allocate(&mut self, offset: u64, interval_handling: IntervalHandling) -> (found:
        (Option<&mut VmPageOrMarker>, bool))
        requires
            old(self).wf(),
            interval_handling != IntervalHandling::NoIntervals ==> old(self).settled(),
        ensures
            found.1 == (interval_handling != IntervalHandling::NoIntervals && in_interval(
                old(self).slots(),
                page_of(offset),
            )),
            found.0 is None <==> {
                ||| past_end(offset)
                ||| interval_handling == IntervalHandling::CheckForInterval && found.1
                ||| old(self).count() + (if found.1 {
                    nodes_lacking(old(self).nodes(), old(self).slots(), page_of(offset))
                } else if old(self).nodes().contains(node_of(page_of(offset))) {
                    0
                } else {
                    1
                }) > old(self).limit()
            },
            match found.0 {
                Some(slot) => {
                    let target = if found.1 {
                        split(old(self).slots(), page_of(offset))
                    } else {
                        old(self).slots()
                    };
                    &&& slot.wf()
                    &&& slot@ == at(target, page_of(offset))
                    &&& final(slot).wf() ==> final(self).wf()
                    &&& final(self).slots() == put(target, page_of(offset), final(slot)@)
                    &&& final(self).nodes() == if found.1 {
                        nodes_with_slot(old(self).nodes(), old(self).slots(), page_of(offset))
                    } else {
                        old(self).nodes().insert(node_of(page_of(offset)))
                    }
                    &&& final(self).count() == old(self).count() + if found.1 {
                        nodes_lacking(old(self).nodes(), old(self).slots(), page_of(offset))
                    } else if old(self).nodes().contains(node_of(page_of(offset))) {
                        0
                    } else {
                        1
                    }
                    &&& final(self).limit() == old(self).limit()
                },
                None => final(self).same(*old(self)),
            },
    {
        proof {
            self.lemma_wf();
        }
        match interval_handling {
            IntervalHandling::NoIntervals => (self.lookup_or_allocate_internal(offset), false),
            IntervalHandling::CheckForInterval => self.lookup_or_allocate_check_for_interval(
                offset,
                false,
            ),
            IntervalHandling::SplitInterval => self.lookup_or_allocate_check_for_interval(
                offset,
                true,
            ),
        }
    }

    /// Returns the start of an interval given the end, along with the corresponding offset.
    pub fn find_interval_start_for_end(&self, end_offset: u64) -> (found: (&VmPageOrMarker, u64))
        requires
            self.wf(),
            self.settled(),
            at(self.slots(), page_of(end_offset)).is_end(),
        ensures
            found.0.wf(),
            found.0@ == at(self.slots(), start_of(self.slots(), page_of(end_offset))),
            found.1 == start_of(self.slots(), page_of(end_offset)) * 4096,
            spans(
                self.slots(),
                start_of(self.slots(), page_of(end_offset)),
                page_of(end_offset),
            ),
    {
        assert(tight_apart(self.nodes(), self.slots(), node_of(page_of(end_offset)))) by {
            reveal(tight);
            reveal(tight_apart);
        }
        self.interval_start(end_offset)
    }

    /// The start of an interval given the end, in a list of which one node from that of the end on
    /// may be empty.
    ///
    /// The only populated slots in an interval are the start and the end. So the start is either in
    /// the same node as the end, or in the previous one.
    fn interval_start(&self, end_offset: u64) -> (found: (&VmPageOrMarker, u64))
        requires
            self.wf(),
            ends_ok(self.slots()),
            at(self.slots(), page_of(end_offset)).is_end(),
            exists|x: int|
                x >= node_of(page_of(end_offset)) && #[trigger] tight_apart(
                    self.nodes(),
                    self.slots(),
                    x,
                ),
        ensures
            found.0.wf(),
            found.0@ == at(self.slots(), start_of(self.slots(), page_of(end_offset))),
            found.1 == start_of(self.slots(), page_of(end_offset)) * 4096,
            spans(
                self.slots(),
                start_of(self.slots(), page_of(end_offset)),
                page_of(end_offset),
            ),
    {
        let ghost s = self.slots();
        let ghost p = page_of(end_offset);
        let ghost k = node_of(p);
        let ghost a = start_of(s, p);
        let ghost order = self.tree.order();
        proof {
            lemma_start_of(s, p);
            self.lemma_wf();
            self.tree.lemma_wf();
            assert(!(at(s, a) is Empty) && !(at(s, p) is Empty));
        }
        let ix: usize = match self.find_node(end_offset) {
            Some(ix) => ix,
            None => 0,
        };
        let node_offset: u64 = VmPageListNode::node_offset(end_offset);
        let node_index: usize = VmPageListNode::node_index(end_offset);
        let node: &VmPageListNode = self.tree.node_at(ix);
        match node.last_populated(node_index) {
            Some(idx) => {
                proof {
                    let q = k * 16 + idx;
                    assert(node.slot(idx as int) == at(s, q));
                    assert(q < p);
                    if a > q {
                        assert(node.slot(a - 16 * k) == at(s, k * 16 + (a - 16 * k)));
                        assert(node.slot(a - 16 * k) is Empty);
                    }
                    assert(q == a);
                }
                (node.lookup(idx), node_offset + (idx as u64) * page::PAGE_SIZE)
            },
            None => {
                proof {
                    if node_of(a) == k {
                        assert(node.slot(a - 16 * k) == at(s, k * 16 + (a - 16 * k)));
                        assert(node.slot(a - 16 * k) is Empty);
                    }
                    let i = choose|i: int| 0 <= i < order.len() && order[i] == node_of(a);
                    assert(order[i] < order[ix as int]);
                    assert(i < ix) by {
                        if i > ix {
                            assert(order[ix as int] < order[i]);
                        }
                    }
                    let x = choose|x: int|
                        x >= node_of(page_of(end_offset)) && #[trigger] tight_apart(
                            self.nodes(),
                            self.slots(),
                            x,
                        );
                    let m = order[ix - 1];
                    assert(order.contains(m));
                    assert(m < order[ix as int]);
                    let q = lemma_tight_apart(self.nodes(), s, x, m);
                    assert(i < ix - 1 ==> order[i] < m);
                    assert(q <= a);
                    assert(m == node_of(a));
                }
                let prev_node: &VmPageListNode = self.tree.node_at(ix - 1);
                let prev_offset: u64 = self.tree.offset_at(ix - 1);
                let idx: usize = match prev_node.last_populated(VmPageListNode::PAGE_FAN_OUT) {
                    Some(idx) => idx,
                    None => 0,
                };
                proof {
                    let m = order[ix - 1];
                    assert(prev_node.slot(a - 16 * m) == at(s, m * 16 + (a - 16 * m)));
                    let q = m * 16 + idx;
                    assert(prev_node.slot(idx as int) == at(s, q));
                    assert(!(prev_node.slot(a - 16 * m) is Empty));
                    assert(a <= q < p);
                    assert(q == a);
                }
                (prev_node.lookup(idx), prev_offset + (idx as u64) * page::PAGE_SIZE)
            },
        }
    }

    /// Returns the end of an interval given the start, along with the corresponding offset.
    ///
    /// The end is either in the same node as the start, or in the next one.
    pub fn find_interval_end_for_start(&self, start_offset: u64) -> (found: (&VmPageOrMarker, u64))
        requires
            self.wf(),
            self.settled(),
            at(self.slots(), page_of(start_offset)).is_start(),
        ensures
            found.0.wf(),
            found.0@ == at(self.slots(), end_of(self.slots(), page_of(start_offset))),
            found.1 == end_of(self.slots(), page_of(start_offset)) * 4096,
            spans(
                self.slots(),
                page_of(start_offset),
                end_of(self.slots(), page_of(start_offset)),
            ),
    {
        let ghost s = self.slots();
        let ghost p = page_of(start_offset);
        let ghost k = node_of(p);
        let ghost b = end_of(s, p);
        let ghost order = self.tree.order();
        proof {
            lemma_end_of(s, p);
            self.lemma_wf();
            self.tree.lemma_wf();
            assert(!(at(s, b) is Empty) && !(at(s, p) is Empty));
        }
        let ix: usize = match self.find_node(start_offset) {
            Some(ix) => ix,
            None => 0,
        };
        let len: usize = self.tree.len();
        assert(ix < len);
        let node_offset: u64 = VmPageListNode::node_offset(start_offset);
        let node_index: usize = VmPageListNode::node_index(start_offset);
        let node: &VmPageListNode = self.tree.node_at(ix);
        match node.first_populated(node_index + 1) {
            Some(idx) => {
                proof {
                    let q = k * 16 + idx;
                    assert(node.slot(idx as int) == at(s, q));
                    assert(q > p);
                    if b < q {
                        assert(node.slot(b - 16 * k) == at(s, k * 16 + (b - 16 * k)));
                        assert(node.slot(b - 16 * k) is Empty);
                    }
                    assert(q == b);
                    assert(self.nodes().contains(k));
                }
                (node.lookup(idx), node_offset + (idx as u64) * page::PAGE_SIZE)
            },
            None => {
                proof {
                    if node_of(b) == k {
                        assert(node.slot(b - 16 * k) == at(s, k * 16 + (b - 16 * k)));
                        assert(node.slot(b - 16 * k) is Empty);
                    }
                    let i = choose|i: int| 0 <= i < order.len() && order[i] == node_of(b);
                    assert(order[ix as int] < order[i]);
                    assert(ix < i) by {
                        if i < ix {
                            assert(order[i] < order[ix as int]);
                        }
                    }
                    let m = order[ix + 1];
                    assert(order.contains(m));
                    assert(order[ix as int] < m);
                    let q = lemma_tight(self.nodes(), s, m);
                    assert(ix + 1 < i ==> m < order[i]);
                    assert(q >= b);
                    assert(m == node_of(b));
                }
                let next_node: &VmPageListNode = self.tree.node_at(ix + 1);
                let next_offset: u64 = self.tree.offset_at(ix + 1);
                let idx: usize = match next_node.first_populated(0) {
                    Some(idx) => idx,
                    None => 0,
                };
                proof {
                    let m = order[ix + 1];
                    assert(next_node.slot(b - 16 * m) == at(s, m * 16 + (b - 16 * m)));
                    let q = m * 16 + idx;
                    assert(next_node.slot(idx as int) == at(s, q));
                    assert(!(next_node.slot(b - 16 * m) is Empty));
                    assert(p < q <= b);
                    assert(q == b);
                }
                (next_node.lookup(idx), next_offset + (idx as u64) * page::PAGE_SIZE)
            },
        }
    }

    /// Makes sure that there is a slot for `offset`.
    fn allocate_slot(&mut self, offset: u64) -> (allocated: bool)
        requires
            old(self).wf(),
        ensures
            final(self).wf(),
            final(self).slots() == old(self).slots(),
            final(self).limit() == old(self).limit(),
            allocated == (!past_end(offset) && (old(self).nodes().contains(
                node_of(page_of(offset)),
            ) || old(self).count() < old(self).limit())),
            allocated ==> {
                &&& final(self).nodes() == old(self).nodes().insert(node_of(page_of(offset)))
                &&& final(self).count() == old(self).count() + if old(self).nodes().contains(
                    node_of(page_of(offset)),
                ) {
                    0int
                } else {
                    1int
                }
            },
            !allocated ==> *final(self) == *old(self),
    {
        if VmPageListNode::node_offset(offset) >= Self::MAX_SIZE {
            return false;
        }
        let allocated: bool = self.ensure_node(offset).is_some();
        proof {
            self.lemma_wf();
        }
        allocated
    }

    /// The left half of adding an interval, of which all slots are there.
    fn extend_left(
        &mut self,
        start_offset: u64,
        state: ZeroRangeDirtyState,
        awaiting_clean_len: u64,
        merge_with_prev: bool,
        final_start_offset: u64,
    )
        requires
            old(self).wf(),
            ends_ok(old(self).slots()),
            start_offset % 4096 == 0,
            state != ZeroRangeDirtyState::Clean,
            awaiting_clean_len % 4096 == 0,
            page_of(awaiting_clean_len) < awaiting_limit(),
            awaiting_clean_len > 0 ==> {
                &&& state == ZeroRangeDirtyState::Dirty
                &&& final_start_offset == merged_start(
                    old(self).slots(),
                    page_of(start_offset),
                    state,
                ) * 4096
            },
            merge_with_prev == merges_left(old(self).slots(), page_of(start_offset), state),
            !merge_with_prev ==> old(self).nodes().contains(node_of(page_of(start_offset))),
        ensures
            final(self).wf(),
            final(self).slots() == add_left(
                old(self).slots(),
                page_of(start_offset),
                state,
                page_of(awaiting_clean_len),
            ),
            final(self).nodes() == old(self).nodes(),
            final(self).count() == old(self).count(),
            final(self).limit() == old(self).limit(),
    {
        let ghost s = self.slots();
        let ghost first = page_of(start_offset);
        let ghost awaiting = page_of(awaiting_clean_len);
        proof {
            self.lemma_wf();
        }
        if merge_with_prev {
            let prev_offset: u64 = start_offset - page::PAGE_SIZE;
            let ghost start = merged_start(s, first, state);
            proof {
                assert(page_of(prev_offset) == first - 1);
                assert(!(at(s, first - 1) is Empty));
                if at(s, first - 1).is_end() {
                    lemma_start_of(s, first - 1);
                    assert(!(at(s, start) is Empty));
                }
            }
            if awaiting_clean_len > 0 {
                // The new awaiting-clean length can only be merged if there is no gap between
                // what is awaiting clean of the interval on the left and the new interval.
                let final_start = self.slot_for(final_start_offset);
                let old_len: u64 = final_start.zero_interval_awaiting_clean_length();
                assert(at(s, start).is_start() || at(s, start).is_slot());
                let distance: u64 = start_offset - final_start_offset;
                if old_len >= distance {
                    let new_len: u64 = distance + awaiting_clean_len;
                    final_start.set_zero_interval_awaiting_clean_length(
                        if old_len >= new_len {
                            old_len
                        } else {
                            new_len
                        },
                    );
                }
            }
            let ghost s1 = self.slots();
            proof {
                let expected = if awaiting > 0 {
                    put(
                        s,
                        start,
                        at(s, start).with_awaiting(
                            joined(start, at(s, start)->awaiting, first, awaiting),
                        ),
                    )
                } else {
                    s
                };
                assert(s1 =~= expected);
            }
            let prev = self.slot_for(prev_offset);
            if prev.is_interval_end() {
                *prev = VmPageOrMarker::empty();
            } else {
                prev.change_interval_sentinel(SentinelType::Start);
            }
        } else {
            let new_start = self.slot_for(start_offset);
            *new_start = VmPageOrMarker::zero_interval(SentinelType::Start, state);
            if awaiting_clean_len > 0 {
                new_start.set_zero_interval_awaiting_clean_length(awaiting_clean_len);
            }
        }
        proof {
            assert(self.slots() =~= add_left(s, first, state, awaiting));
        }
    }

    /// The right half of adding an interval, of which all slots are there.
    fn extend_right(
        &mut self,
        end_offset: u64,
        state: ZeroRangeDirtyState,
        awaiting_clean_len: u64,
        merge_with_next: bool,
        final_start_offset: u64,
    )
        requires
            old(self).wf(),
            4096 <= end_offset,
            end_offset % 4096 == 0,
            final_start_offset % 4096 == 0,
            state != ZeroRangeDirtyState::Clean,
            awaiting_clean_len % 4096 == 0,
            merge_with_next == merges_right(old(self).slots(), page_of(end_offset) - 1, state),
            awaiting_clean_len > 0 && merge_with_next ==> {
                &&& at(old(self).slots(), page_of(final_start_offset)).is_start()
                &&& at(old(self).slots(), page_of(final_start_offset))->state
                    == ZeroRangeDirtyState::Dirty
                &&& page_of(final_start_offset) < page_of(end_offset)
            },
            !merge_with_next ==> old(self).nodes().contains(node_of(page_of(end_offset) - 1)),
        ensures
            final(self).wf(),
            final(self).slots() == add_right(
                old(self).slots(),
                page_of(end_offset) - 1,
                page_of(final_start_offset),
                state,
                page_of(awaiting_clean_len),
            ),
            final(self).nodes() == old(self).nodes(),
            final(self).count() == old(self).count(),
            final(self).limit() == old(self).limit(),
    {
        let ghost s = self.slots();
        let ghost next_page = page_of(end_offset);
        let ghost last = next_page - 1;
        let ghost start = page_of(final_start_offset);
        let ghost awaiting = page_of(awaiting_clean_len);
        proof {
            self.lemma_wf();
        }
        if merge_with_next {
            proof {
                assert(!(at(s, next_page) is Empty));
            }
            // The lengths of the intervals on the left and on the right could be merged even if
            // nothing of the new one is awaiting clean, but then it is not worth to look for the
            // start. The length of the interval on the right is lost, just as where an interval
            // is extended on the left.
            if awaiting_clean_len > 0 {
                let len: u64 = self.peek(end_offset).zero_interval_awaiting_clean_length();
                assert(!(at(s, start) is Empty));
                let final_start = self.slot_for(final_start_offset);
                let old_len: u64 = final_start.zero_interval_awaiting_clean_length();
                let distance: u64 = end_offset - final_start_offset;
                if len > 0 && old_len >= distance {
                    let new_len: u64 = distance + len;
                    final_start.set_zero_interval_awaiting_clean_length(
                        if old_len >= new_len {
                            old_len
                        } else {
                            new_len
                        },
                    );
                }
            }
            let ghost s1 = self.slots();
            proof {
                let next = at(s, next_page);
                let expected = if awaiting > 0 && next->awaiting > 0 {
                    put(
                        s,
                        start,
                        at(s, start).with_awaiting(
                            joined(
                                start,
                                at(s, start)->awaiting,
                                next_page,
                                next->awaiting,
                            ),
                        ),
                    )
                } else {
                    s
                };
                assert(s1 =~= expected);
            }
            let next = self.slot_for(end_offset);
            if next.is_interval_start() {
                *next = VmPageOrMarker::empty();
            } else {
                next.set_zero_interval_awaiting_clean_length(0);
                next.change_interval_sentinel(SentinelType::End);
            }
        } else {
            // If the new interval spans a single page, it already has a start here.
            let new_end = self.slot_for(end_offset - page::PAGE_SIZE);
            if new_end.is_interval_start() {
                new_end.change_interval_sentinel(SentinelType::Slot);
            } else {
                *new_end = VmPageOrMarker::zero_interval(SentinelType::End, state);
            }
        }
        proof {
            assert(self.slots() =~= add_right(s, last, start, state, awaiting));
        }
    }

    /// Adds a zero interval over the range `[start_offset, end_offset)`, of which the first
    /// `awaiting_clean_len` bytes are awaiting clean. With `replace_existing_slot` the interval is a
    /// single page for which there is an empty slot, and that slot is used.
    #[verifier::rlimit(40)]
    fn add_zero_interval_internal(
        &mut self,
        start_offset: u64,
        end_offset: u64,
        dirty_state: ZeroRangeDirtyState,
        awaiting_clean_len: u64,
        replace_existing_slot: bool,
    ) -> (result: Result<(), Status>)
        requires
            old(self).wf(),
            intervals_ok(old(self).slots()),
            start_offset % 4096 == 0,
            end_offset % 4096 == 0,
            start_offset < end_offset,
            dirty_state != ZeroRangeDirtyState::Clean,
            clear_range(old(self).slots(), page_of(start_offset), page_of(end_offset)),
            !covered(old(self).slots(), page_of(start_offset)),
            awaiting_clean_len % 4096 == 0,
            page_of(awaiting_clean_len) < awaiting_limit(),
            awaiting_clean_len > 0 ==> dirty_state == ZeroRangeDirtyState::Dirty,
            if replace_existing_slot {
                &&& end_offset == start_offset + 4096
                &&& old(self).nodes().contains(node_of(page_of(start_offset)))
                &&& tight_apart(
                    old(self).nodes(),
                    old(self).slots(),
                    node_of(page_of(start_offset)),
                )
            } else {
                tight(old(self).nodes(), old(self).slots())
            },
        ensures
            final(self).limit() == old(self).limit(),
            match result {
                Ok(_) => {
                    &&& final(self).wf()
                    &&& final(self).settled()
                    &&& final(self).slots() == add_interval(
                        old(self).slots(),
                        page_of(start_offset),
                        page_of(end_offset) - 1,
                        dirty_state,
                        page_of(awaiting_clean_len),
                    )
                },
                Err(status) => status == Status::NO_MEMORY && final(self).same(*old(self)),
            },
            result is Err <==> {
                ||| !merges_left(old(self).slots(), page_of(start_offset), dirty_state) && past_end(
                    start_offset,
                )
                ||| !merges_right(old(self).slots(), page_of(end_offset) - 1, dirty_state)
                    && past_end((end_offset - 4096) as u64)
                ||| old(self).count() + add_lacking(
                    old(self).nodes(),
                    old(self).slots(),
                    page_of(start_offset),
                    page_of(end_offset) - 1,
                    dirty_state,
                ) > old(self).limit()
            },
    {
        let ghost s = self.slots();
        let ghost nodes = self.nodes();
        let ghost first = page_of(start_offset);
        let ghost last = page_of(end_offset) - 1;
        let ghost awaiting = page_of(awaiting_clean_len);
        proof {
            self.lemma_wf();
            assert(at(s, first) is Empty && at(s, last) is Empty);
        }
        let interval_end: u64 = end_offset - page::PAGE_SIZE;
        let prev_offset: u64 = if start_offset > 0 {
            start_offset - page::PAGE_SIZE
        } else {
            0
        };
        let mut merge_with_prev: bool = false;
        let mut return_prev_slot: bool = false;
        let mut final_start_offset: u64 = start_offset;
        if start_offset > 0 {
            if let Some(prev) = self.lookup(prev_offset) {
                if prev.is_interval_zero() && (prev.is_interval_end() || prev.is_interval_slot())
                    && prev.zero_interval_dirty_state() == dirty_state {
                    merge_with_prev = true;
                    return_prev_slot = prev.is_interval_end();
                }
            }
            assert(merge_with_prev == merges_left(s, first, dirty_state));
            if merge_with_prev && awaiting_clean_len > 0 {
                if return_prev_slot {
                    proof {
                        assert(tight_apart(nodes, s, node_of(first))) by {
                            reveal(tight);
                            reveal(tight_apart);
                        }
                        assert(node_of(first) >= node_of(page_of(prev_offset)));
                    }
                    final_start_offset = self.interval_start(prev_offset).1;
                } else {
                    final_start_offset = prev_offset;
                }
            }
        }
        assert(merge_with_prev == merges_left(s, first, dirty_state));
        assert(awaiting_clean_len > 0 ==> final_start_offset == merged_start(s, first, dirty_state)
            * 4096);
        let mut merge_with_next: bool = false;
        let mut return_next_slot: bool = false;
        if let Some(next) = self.lookup(end_offset) {
            if next.is_interval_zero() && (next.is_interval_start() || next.is_interval_slot())
                && next.zero_interval_dirty_state() == dirty_state {
                merge_with_next = true;
                return_next_slot = next.is_interval_start();
            }
        }
        assert(merge_with_next == merges_right(s, last, dirty_state));
        // First allocate any slots that are needed, so that nothing can fail afterwards.
        if !merge_with_prev {
            if !self.allocate_slot(start_offset) {
                return Err(Status::NO_MEMORY);
            }
        }
        let ghost middle = *self;
        if !merge_with_next {
            if !self.allocate_slot(interval_end) {
                if !merge_with_prev {
                    self.return_empty_slot(start_offset);
                    proof {
                        if replace_existing_slot {
                            assert(nodes.contains(node_of(first)));
                            middle.lemma_wf();
                            assert(false);
                        }
                        old(self).lemma_slot_returned(middle, *self, first, true);
                    }
                }
                return Err(Status::NO_MEMORY);
            }
        }
        proof {
            self.lemma_wf();
        }
        if replace_existing_slot && merge_with_prev && merge_with_next {
            // The slot is not needed. Its node holds at least one of its neighbours.
            self.return_empty_slot(start_offset);
            proof {
                assert(!(at(s, first - 1) is Empty) && !(at(s, first + 1) is Empty));
                assert(node_of(first) == node_of(first - 1) || node_of(first) == node_of(
                    first + 1,
                ));
                if node_vacant(s, node_of(first)) {
                    assert(false);
                }
            }
        }
        let ghost grown = *self;
        proof {
            assert(grown.slots() == s);
            let with_first = if merge_with_prev {
                nodes
            } else {
                nodes.insert(node_of(first))
            };
            let with_both = if merge_with_next {
                with_first
            } else {
                with_first.insert(node_of(last))
            };
            assert(grown.nodes() == with_both);
        }
        self.extend_left(
            start_offset,
            dirty_state,
            awaiting_clean_len,
            merge_with_prev,
            final_start_offset,
        );
        proof {
            lemma_after_add_left(s, first, last, dirty_state, awaiting);
        }
        if awaiting_clean_len == 0 {
            final_start_offset = start_offset;
        }
        self.extend_right(
            end_offset,
            dirty_state,
            awaiting_clean_len,
            merge_with_next,
            final_start_offset,
        );
        let ghost t = self.slots();
        proof {
            assert(t == add_interval(s, first, last, dirty_state, awaiting));
            lemma_add_interval(s, first, last, dirty_state, awaiting);
            lemma_added_pages(s, first, last, dirty_state, awaiting);
        }
        // If the slots on the left or on the right were taken out, return them. They can be in the
        // same node, which is already gone then.
        if return_prev_slot {
            self.return_empty_slot(prev_offset);
            if return_next_slot && VmPageListNode::node_offset(prev_offset)
                == VmPageListNode::node_offset(end_offset) {
                return_next_slot = false;
            }
        }
        if return_next_slot {
            self.return_empty_slot(end_offset);
        }
        proof {
            lemma_added_nodes(
                s,
                t,
                nodes,
                self.nodes(),
                first,
                last,
                dirty_state,
                awaiting,
                replace_existing_slot,
            );
        }
        Ok(())
    }

    /// Add a sparse zero interval spanning the range `[start_offset, end_offset)` with the
    /// specified dirty state. The range must be previously unpopulated. The new interval is merged
    /// with existing intervals to the left and right, if their dirty state allows it.
    pub fn add_zero_interval(
        &mut self,
        start_offset: u64,
        end_offset: u64,
        dirty_state: ZeroRangeDirtyState,
    ) -> (result: Result<(), Status>)
        requires
            old(self).wf(),
            old(self).settled(),
            start_offset % 4096 == 0,
            end_offset % 4096 == 0,
            start_offset < end_offset,
            dirty_state != ZeroRangeDirtyState::Clean,
            clear_range(old(self).slots(), page_of(start_offset), page_of(end_offset)),
            !covered(old(self).slots(), page_of(start_offset)),
        ensures
            final(self).wf(),
            final(self).settled(),
            final(self).limit() == old(self).limit(),
            match result {
                Ok(_) => {
                    &&& final(self).slots() == add_interval(
                        old(self).slots(),
                        page_of(start_offset),
                        page_of(end_offset) - 1,
                        dirty_state,
                        0,
                    )
                    &&& final(self).nodes() == occupied(final(self).slots())
                    &&& final(self).count() == old(self).count() + add_lacking(
                        old(self).nodes(),
                        old(self).slots(),
                        page_of(start_offset),
                        page_of(end_offset) - 1,
                        dirty_state,
                    ) - vacated(old(self).nodes(), final(self).slots()).len()
                },
                Err(status) => status == Status::NO_MEMORY && final(self).same(*old(self)),
            },
            result is Err <==> {
                ||| !merges_left(old(self).slots(), page_of(start_offset), dirty_state) && past_end(
                    start_offset,
                )
                ||| !merges_right(old(self).slots(), page_of(end_offset) - 1, dirty_state)
                    && past_end((end_offset - 4096) as u64)
                ||| old(self).count() + add_lacking(
                    old(self).nodes(),
                    old(self).slots(),
                    page_of(start_offset),
                    page_of(end_offset) - 1,
                    dirty_state,
                ) > old(self).limit()
            },
    {
        let result: Result<(), Status> = self.add_zero_interval_internal(
            start_offset,
            end_offset,
            dirty_state,
            0,
            false,
        );
        proof {
            if result is Ok {
                old(self).lemma_nodes();
                self.lemma_nodes();
                lemma_added_count(
                    old(self).nodes(),
                    old(self).slots(),
                    page_of(start_offset),
                    page_of(end_offset) - 1,
                    dirty_state,
                    0,
                );
            }
        }
        result
    }

    /// Returns an unused interval slot so that it can be merged back into the interval that it was
    /// populated or split from.
    pub fn return_interval_slot(&mut self, offset: u64)
        requires
            old(self).wf(),
            old(self).settled(),
            offset % 4096 == 0,
            at(old(self).slots(), page_of(offset)).is_slot(),
        ensures
            final(self).wf(),
            final(self).settled(),
            final(self).slots() == return_slot(old(self).slots(), page_of(offset)),
            forall|x: int| #[trigger]
                in_interval(final(self).slots(), x) == in_interval(old(self).slots(), x),
            final(self).nodes() == occupied(final(self).slots()),
            final(self).count() == old(self).count() - vacated(
                old(self).nodes(),
                final(self).slots(),
            ).len(),
            final(self).limit() == old(self).limit(),
    {
        let ghost s = self.slots();
        let ghost p = page_of(offset);
        proof {
            self.lemma_wf();
            assert(!(at(s, p) is Empty));
            assert(self.nodes().contains(node_of(p)));
            assert(!covered(s, p)) by {
                if covered(s, p) {
                    let (a, b) = choose|a: int, b: int| a < p < b && #[trigger] spans(s, a, b);
                    assert(at(s, p) is Empty);
                }
            }
            lemma_put_standalone(s, p, SlotContent::Empty);
        }
        // Empty the slot and then add a zero interval back in at the same spot, which merges it to
        // the left and right as applicable. That uses the slot, so it cannot fail.
        let slot = self.slot_for(offset);
        let dirty_state: ZeroRangeDirtyState = slot.zero_interval_dirty_state();
        let awaiting_clean_len: u64 = slot.zero_interval_awaiting_clean_length();
        *slot = VmPageOrMarker::empty();
        proof {
            let t = self.slots();
            assert forall|k: int| #[trigger] self.nodes().contains(k) && k != node_of(p)
                implies !node_vacant(t, k) by {
                let q = lemma_tight(self.nodes(), s, k);
                assert(at(t, q) == at(s, q));
            }
            assert(tight_apart(self.nodes(), t, node_of(p))) by {
                reveal(tight_apart);
            }
            self.lemma_wf();
        }
        let result: Result<(), Status> = self.add_zero_interval_internal(
            offset,
            offset + page::PAGE_SIZE,
            dirty_state,
            awaiting_clean_len,
            true,
        );
        proof {
            assert(result is Ok);
            old(self).lemma_nodes();
            self.lemma_nodes();
            lemma_returned(s, p);
            lemma_returned_count(old(self).nodes(), s, p);
        }
    }

    /// Adds empty nodes from the one at `first_offset` to the one at `last_offset`, none of which
    /// are there. If there is not memory for all of them, none is added.
    fn insert_nodes(&mut self, first_offset: u64, last_offset: u64) -> (inserted: bool)
        requires
            old(self).wf(),
            first_offset % 65536 == 0,
            last_offset % 65536 == 0,
            first_offset <= last_offset,
            last_offset < Self::MAX_SIZE,
            forall|k: int|
                first_offset as int / 65536 <= k <= last_offset as int / 65536 ==> !#[trigger] old(
                    self,
                ).nodes().contains(k),
        ensures
            final(self).wf(),
            final(self).slots() == old(self).slots(),
            final(self).limit() == old(self).limit(),
            inserted == (old(self).count() + (last_offset as int / 65536 - first_offset as int
                / 65536 + 1) <= old(self).limit()),
            inserted ==> {
                &&& final(self).nodes() == Set::new(
                    |k: int|
                        old(self).nodes().contains(k) || first_offset as int / 65536 <= k
                            <= last_offset as int / 65536,
                )
                &&& final(self).count() == old(self).count() + (last_offset as int / 65536
                    - first_offset as int / 65536 + 1)
            },
            !inserted ==> final(self).same(*old(self)),
    {
        let ghost s = self.slots();
        let ghost lo = first_offset as int / 65536;
        let ghost hi = last_offset as int / 65536;
        let mut offset: u64 = first_offset;
        proof {
            self.lemma_wf();
            assert(self.nodes() =~= old(self).nodes().union(Set::new(|k: int| lo <= k < lo)));
        }
        while offset <= last_offset
            invariant
                self.wf(),
                self.slots() == s,
                s == old(self).slots(),
                old(self).wf(),
                self.limit() == old(self).limit(),
                first_offset % 65536 == 0,
                last_offset % 65536 == 0,
                offset % 65536 == 0,
                first_offset <= offset <= last_offset + 65536,
                last_offset < Self::MAX_SIZE,
                lo == first_offset as int / 65536,
                hi == last_offset as int / 65536,
                forall|k: int| lo <= k <= hi ==> !#[trigger] old(self).nodes().contains(k),
                self.nodes() == old(self).nodes().union(
                    Set::new(|k: int| lo <= k < offset as int / 65536),
                ),
                self.count() == old(self).count() + (offset as int / 65536 - lo),
            decreases last_offset + 65536 - offset,
        {
            let ghost cur = offset as int / 65536;
            let ghost before = *self;
            if self.ensure_node(offset).is_none() {
                // Clean up the nodes that were added until this point.
                let mut cleanup: u64 = first_offset;
                while cleanup < offset
                    invariant
                        self.wf(),
                        self.slots() == s,
                        s == old(self).slots(),
                        old(self).wf(),
                        self.limit() == old(self).limit(),
                        first_offset % 65536 == 0,
                        offset % 65536 == 0,
                        cleanup % 65536 == 0,
                        first_offset <= cleanup <= offset < Self::MAX_SIZE,
                        lo == first_offset as int / 65536,
                        offset as int / 65536 <= hi,
                        forall|k: int| lo <= k <= hi ==> !#[trigger] old(self).nodes().contains(k),
                        self.nodes() == old(self).nodes().union(
                            Set::new(|k: int| cleanup as int / 65536 <= k < offset as int / 65536),
                        ),
                        self.count() == old(self).count() + (offset as int / 65536 - cleanup as int
                            / 65536),
                    decreases offset - cleanup,
                {
                    let ghost c = cleanup as int / 65536;
                    proof {
                        old(self).lemma_wf();
                        assert(!old(self).nodes().contains(c));
                        assert forall|q: int| 16 * c <= q < 16 * c + 16 implies #[trigger] at(
                            s,
                            q,
                        ) is Empty by {
                            assert(node_of(q) == c);
                        }
                        assert(node_vacant(s, c));
                        assert(node_of(page_of(cleanup)) == c);
                        assert(self.nodes().contains(c));
                    }
                    let ghost middle = *self;
                    self.return_empty_slot(cleanup);
                    proof {
                        let next = c + 1;
                        assert(self.nodes() =~= old(self).nodes().union(
                            Set::new(|k: int| next <= k < offset as int / 65536),
                        ));
                    }
                    cleanup += VmPageListNode::NODE_SPAN_BYTES;
                }
                proof {
                    assert(self.nodes() =~= old(self).nodes());
                }
                return false;
            }
            proof {
                assert(node_of(page_of(offset)) == cur);
                assert(!before.nodes().contains(cur));
                let next = cur + 1;
                assert(self.nodes() =~= old(self).nodes().union(
                    Set::new(|k: int| lo <= k < next),
                ));
            }
            offset += VmPageListNode::NODE_SPAN_BYTES;
        }
        proof {
            self.lemma_wf();
            assert(self.nodes() =~= Set::new(
                |k: int| old(self).nodes().contains(k) || lo <= k <= hi,
            ));
        }
        true
    }

    /// Populates the single page intervals strictly between two offsets, for which all nodes are
    /// there. The first `awaiting_clean_len` bytes of them are awaiting clean. Returns what is left
    /// of that length.
    fn fill_slots(
        &mut self,
        start_offset: u64,
        last_offset: u64,
        state: ZeroRangeDirtyState,
        awaiting_clean_len: u64,
    ) -> (left: u64)
        requires
            old(self).wf(),
            start_offset % 4096 == 0,
            last_offset % 4096 == 0,
            start_offset < last_offset,
            state != ZeroRangeDirtyState::Clean,
            awaiting_clean_len % 4096 == 0,
            awaiting_clean_len > 0 ==> state == ZeroRangeDirtyState::Dirty,
            forall|p: int|
                page_of(start_offset) < p < page_of(last_offset) ==> #[trigger] old(
                    self,
                ).nodes().contains(node_of(p)),
        ensures
            final(self).wf(),
            final(self).slots() == filled(
                old(self).slots(),
                page_of(start_offset),
                page_of(last_offset),
                state,
                page_of(awaiting_clean_len),
            ),
            final(self).nodes() == old(self).nodes(),
            final(self).count() == old(self).count(),
            final(self).limit() == old(self).limit(),
            left % 4096 == 0,
            page_of(left) == if page_of(awaiting_clean_len) > page_of(last_offset) - page_of(
                start_offset,
            ) - 1 {
                page_of(awaiting_clean_len) - (page_of(last_offset) - page_of(start_offset) - 1)
            } else {
                0
            },
    {
        let ghost s = self.slots();
        let ghost a = page_of(start_offset);
        let ghost b = page_of(last_offset);
        let ghost awaiting = page_of(awaiting_clean_len);
        let mut left: u64 = awaiting_clean_len;
        let mut offset: u64 = start_offset + page::PAGE_SIZE;
        proof {
            assert(self.slots() =~= filled(s, a, a + 1, state, awaiting));
        }
        while offset < last_offset
            invariant
                self.wf(),
                start_offset % 4096 == 0,
                last_offset % 4096 == 0,
                offset % 4096 == 0,
                left % 4096 == 0,
                start_offset < offset <= last_offset,
                a == page_of(start_offset),
                b == page_of(last_offset),
                s == old(self).slots(),
                state != ZeroRangeDirtyState::Clean,
                left > 0 ==> state == ZeroRangeDirtyState::Dirty,
                forall|p: int| a < p < b ==> #[trigger] old(self).nodes().contains(node_of(p)),
                self.slots() == filled(s, a, page_of(offset), state, awaiting),
                self.nodes() == old(self).nodes(),
                self.count() == old(self).count(),
                self.limit() == old(self).limit(),
                page_of(left) == if awaiting > page_of(offset) - a - 1 {
                    awaiting - (page_of(offset) - a - 1)
                } else {
                    0
                },
            decreases last_offset - offset,
        {
            let ghost p = page_of(offset);
            assert(old(self).nodes().contains(node_of(p)));
            let slot = self.slot_for(offset);
            *slot = VmPageOrMarker::zero_interval(SentinelType::Slot, state);
            if left > 0 {
                slot.set_zero_interval_awaiting_clean_length(page::PAGE_SIZE);
                left -= page::PAGE_SIZE;
            }
            offset += page::PAGE_SIZE;
            proof {
                assert(page_of(offset) == p + 1);
                assert(self.slots() =~= filled(s, a, p + 1, state, awaiting));
            }
        }
        left
    }

    /// Turns an interval between two single page intervals into single page intervals. All nodes
    /// are there.
    fn fill_between(&mut self, start_offset: u64, last_offset: u64, state: ZeroRangeDirtyState)
        requires
            old(self).wf(),
            start_offset % 4096 == 0,
            last_offset % 4096 == 0,
            start_offset + 8192 <= last_offset,
            last_offset + 4096 <= u64::MAX,
            state != ZeroRangeDirtyState::Clean,
            forall|p: int|
                page_of(start_offset) < p < page_of(last_offset) ==> #[trigger] old(
                    self,
                ).nodes().contains(node_of(p)),
            at(old(self).slots(), page_of(last_offset)).is_slot(),
            at(old(self).slots(), page_of(last_offset))->state == state,
            at(old(self).slots(), page_of(start_offset) + 1).is_slot() || at(
                old(self).slots(),
                page_of(start_offset) + 1,
            ).is_start(),
            at(old(self).slots(), page_of(start_offset) + 1)->state == state,
            at(old(self).slots(), page_of(start_offset) + 1)->awaiting > page_of(last_offset)
                - page_of(start_offset) && (at(
                old(self).slots(),
                page_of(last_offset) + 1,
            ).is_start() || at(old(self).slots(), page_of(last_offset) + 1).is_slot()) ==> at(
                old(self).slots(),
                page_of(last_offset) + 1,
            )->state == ZeroRangeDirtyState::Dirty,
        ensures
            final(self).wf(),
            ({
                let a = page_of(start_offset);
                let b = page_of(last_offset);
                let awaiting = at(old(self).slots(), a + 1)->awaiting;
                final(self).slots() == carried(
                    filled(old(self).slots(), a, b, state, awaiting),
                    b,
                    awaiting - (b - a - 1),
                )
            }),
            final(self).nodes() == old(self).nodes(),
            final(self).count() == old(self).count(),
            final(self).limit() == old(self).limit(),
    {
        let ghost s2 = self.slots();
        let ghost a = page_of(start_offset);
        let ghost b = page_of(last_offset);
        let end_offset: u64 = last_offset + page::PAGE_SIZE;
        proof {
            assert(self.nodes().contains(node_of(a + 1)));
            assert(page_of((start_offset + 4096) as u64) == a + 1);
            self.lemma_content_ok(a + 1);
        }
        let awaiting_clean_len: u64 = self.peek(
            start_offset + page::PAGE_SIZE,
        ).zero_interval_awaiting_clean_length();
        let ghost awaiting = at(s2, a + 1)->awaiting;
        proof {
            assert(page_of(awaiting_clean_len) == awaiting);
        }
        let left: u64 = self.fill_slots(start_offset, last_offset, state, awaiting_clean_len);
        let ghost s3 = self.slots();
        proof {
            assert(at(s3, b) == at(s2, b));
            self.lemma_wf();
            assert(!(at(s3, b) is Empty));
            assert(left > 0 ==> page_of(left) > 0);
        }
        if left > 0 {
            let last_slot = self.slot_for(last_offset);
            last_slot.set_zero_interval_awaiting_clean_length(page::PAGE_SIZE);
            let rest: u64 = left - page::PAGE_SIZE;
            let ghost s4 = self.slots();
            proof {
                assert(at(s4, b + 1) == at(s3, b + 1));
                assert(at(s3, b + 1) == at(s2, b + 1));
                assert(page_of(end_offset) == b + 1);
                self.lemma_wf();
                self.lemma_content_ok(b + 1);
            }
            // Carry over what is left to the interval next to the last slot, if there is one.
            if rest > 0 {
                if let Some(mut next) = self.lookup_mut(end_offset) {
                    if next.slot.is_interval_start() || next.slot.is_interval_slot() {
                        let old_len: u64 = next.slot.zero_interval_awaiting_clean_length();
                        let new_len: u64 = if old_len > rest {
                            old_len
                        } else {
                            rest
                        };
                        next.set_zero_interval_awaiting_clean_length(new_len);
                    }
                }
            }
        }
        proof {
            assert(self.slots() =~= carried(s3, b, awaiting - (b - a - 1)));
        }
    }

    /// Splits the intervals around two offsets, or, if there is no memory for both, merges the
    /// first back. Returns the state of the intervals.
    fn split_ends(&mut self, start_offset: u64, last_offset: u64) -> (result: Result<
        ZeroRangeDirtyState,
        Status,
    >)
        requires
            old(self).wf(),
            old(self).settled(),
            start_offset % 4096 == 0,
            last_offset % 4096 == 0,
            start_offset <= last_offset,
            populatable(old(self).slots(), page_of(start_offset), page_of(last_offset)),
        ensures
            final(self).wf(),
            final(self).settled(),
            final(self).limit() == old(self).limit(),
            ({
                let s = old(self).slots();
                let a = page_of(start_offset);
                let b = page_of(last_offset);
                let s1 = split(s, a);
                let nodes1 = nodes_with_slot(old(self).nodes(), s, a);
                let room = old(self).limit() - old(self).count();
                let need1 = nodes_lacking(old(self).nodes(), s, a);
                let need2 = need1 + if a < b {
                    nodes_lacking(nodes1, s1, b)
                } else {
                    0
                };
                match result {
                    Ok(state) => {
                        &&& need2 <= room
                        &&& state == interval_state(s, a)
                        &&& state != ZeroRangeDirtyState::Clean
                        &&& final(self).count() == old(self).count() + need2
                        &&& if a < b {
                            final(self).slots() == split(s1, b) && final(self).nodes()
                                == nodes_with_slot(nodes1, s1, b)
                        } else {
                            final(self).slots() == s1 && final(self).nodes() == nodes1
                        }
                    },
                    Err(status) => {
                        &&& status == Status::NO_MEMORY
                        &&& need2 > room
                        &&& final(self).slots() == if need1 > room {
                            s
                        } else {
                            return_slot(s1, a)
                        }
                    },
                }
            }),
    {
        let ghost s = self.slots();
        let ghost nodes = self.nodes();
        let ghost a = page_of(start_offset);
        let ghost b = page_of(last_offset);
        let ghost s1 = split(s, a);
        let ghost nodes1 = nodes_with_slot(nodes, s, a);
        proof {
            self.lemma_wf();
            lemma_split(s, a);
            lemma_split_tight(nodes, s, a);
            self.lemma_in_range(a);
            self.lemma_in_range(b);
        }
        let state: ZeroRangeDirtyState = match self.lookup_or_allocate_check_for_interval(
            start_offset,
            true,
        ).0 {
            Some(slot) => slot.zero_interval_dirty_state(),
            None => {
                return Err(Status::NO_MEMORY);
            },
        };
        proof {
            assert(self.slots() =~= s1);
            self.lemma_wf();
            self.lemma_content_ok(a);
        }
        if start_offset == last_offset {
            return Ok(state);
        }
        proof {
            lemma_populate_middle(s, a, b);
            lemma_split_tight(nodes1, s1, b);
        }
        if self.lookup_or_allocate_check_for_interval(last_offset, true).0.is_none() {
            self.return_interval_slot(start_offset);
            return Err(Status::NO_MEMORY);
        }
        proof {
            assert(self.slots() =~= split(s1, b));
            self.lemma_wf();
        }
        Ok(state)
    }

    /// Intervals lie below the largest offset.
    proof fn lemma_in_range(self, p: int)
        requires
            self.wf(),
            intervals_ok(self.slots()),
            in_interval(self.slots(), p),
        ensures
            0 <= p < max_page(),
    {
        let s = self.slots();
        self.lemma_wf();
        if at(s, p).is_slot() {
            assert(self.nodes().contains(node_of(p)));
        } else {
            lemma_bounds(s, p);
            let (a, b) = bounds(s, p);
            assert(!(at(s, a) is Empty) && !(at(s, b) is Empty));
            assert(self.nodes().contains(node_of(a)) && self.nodes().contains(node_of(b)));
        }
    }

    /// Populating a single slot and returning it unused leaves the list as it was, if its interval
    /// could not have been joined with its neighbours.
    pub proof fn lemma_return_undoes_populate(self, populated: Self, returned: Self, p: int)
        requires
            self.wf(),
            self.settled(),
            apart_from_neighbours(self.slots(), p),
            in_interval(self.slots(), p),
            populated.slots() == populate(self.slots(), p, p),
            populated.limit() == self.limit(),
            returned.wf(),
            returned.settled(),
            returned.slots() == return_slot(populated.slots(), p),
            returned.limit() == populated.limit(),
        ensures
            returned.same(self),
    {
        self.lemma_restored(returned, p, p);
    }

    /// A list is the same again once the slots that were split off an interval have been returned,
    /// if the interval could not have been joined with its neighbours.
    proof fn lemma_restored(self, after: Self, a: int, b: int)
        requires
            self.wf(),
            self.settled(),
            after.wf(),
            after.settled(),
            after.limit() == self.limit(),
            populatable(self.slots(), a, b),
            ({
                let s = self.slots();
                ||| after.slots() == s
                ||| apart_from_neighbours(s, a) && after.slots() == return_slot(split(s, a), a)
                ||| b >= a + 2 && apart_from_neighbours(s, a) && apart_from_neighbours(s, b)
                    && after.slots() == return_slot(return_slot(split(split(s, a), b), a), b)
            }),
        ensures
            after.same(self),
    {
        let s = self.slots();
        self.lemma_wf();
        after.lemma_wf();
        self.lemma_in_range(a);
        self.lemma_in_range(b);
        assert forall|p: int| content_ok(#[trigger] at(s, p)) by {
            self.lemma_content_ok(p);
        }
        assert(contents_ok(s));
        assert(at(s, a).is_start() || at(s, a).is_slot() || a > 0) by {
            if !at(s, a).is_start() && !at(s, a).is_slot() {
                lemma_bounds(s, a);
                let (x, y) = bounds(s, a);
                assert(!(at(s, x) is Empty));
                assert(self.nodes().contains(node_of(x)));
            }
        }
        if apart_from_neighbours(s, a) {
            lemma_return_undoes_split(s, a);
        }
        if b >= a + 2 && apart_from_neighbours(s, a) && apart_from_neighbours(s, b) {
            assert(at(s, a).is_start() || a > 0) by {
                assert(covered(s, a + 1));
                let (x, y) = choose|x: int, y: int|
                    x < a + 1 < y && #[trigger] spans(s, x, y);
                assert(!(at(s, x) is Empty));
                assert(self.nodes().contains(node_of(x)));
            }
            lemma_failed_populate_restores(s, a, b);
        }
        assert(after.slots() == s);
        assert forall|k: int| self.nodes().contains(k) == after.nodes().contains(k) by {
            if self.nodes().contains(k) {
                let q = lemma_tight(self.nodes(), s, k);
                assert(after.nodes().contains(node_of(q)));
            }
            if after.nodes().contains(k) {
                let q = lemma_tight(after.nodes(), s, k);
                assert(self.nodes().contains(node_of(q)));
            }
        }
        assert(self.nodes() =~= after.nodes());
    }

    /// Populates individual interval slots in the range `[start_offset, end_offset)`, which falls
    /// inside a sparse interval, so that they can be overwritten with pages without slot lookup
    /// failing. All of them are populated, or, if there is no memory for that, those that were are
    /// merged back into the interval.
    ///
    /// If the range begins at the start of the interval, what is awaiting clean of the interval is
    /// spread over the slots and what is left of the interval. If that was 5 pages and 3 slots are
    /// populated, the lengths (in pages) of the slots and the rest are `[1, 1, 1, 2]` afterwards.
    /// If it was 2 pages they are `[1, 1, 0, 0]`.
    pub fn populate_slots_in_interval(&mut self, start_offset: u64, end_offset: u64) -> (result:
        Result<(), Status>)
        requires
            old(self).wf(),
            old(self).settled(),
            start_offset % 4096 == 0,
            end_offset % 4096 == 0,
            start_offset < end_offset,
            populatable(old(self).slots(), page_of(start_offset), page_of(end_offset) - 1),
            carries_to_dirty(old(self).slots(), page_of(start_offset), page_of(end_offset) - 1),
        ensures
            final(self).wf(),
            final(self).settled(),
            final(self).limit() == old(self).limit(),
            ({
                let s = old(self).slots();
                let a = page_of(start_offset);
                let b = page_of(end_offset) - 1;
                let s1 = split(s, a);
                let s2 = split(s1, b);
                let nodes1 = nodes_with_slot(old(self).nodes(), s, a);
                let room = old(self).limit() - old(self).count();
                let need1 = nodes_lacking(old(self).nodes(), s, a);
                let need2 = need1 + if a < b {
                    nodes_lacking(nodes1, s1, b)
                } else {
                    0
                };
                let need3 = need2 + nodes_between(a, b);
                match result {
                    Ok(_) => {
                        &&& need3 <= room
                        &&& final(self).slots() == populate(s, a, b)
                        &&& forall|x: int|
                            a <= x <= b ==> #[trigger] at(final(self).slots(), x).is_slot()
                        &&& final(self).count() == old(self).count() + need3
                    },
                    Err(status) => {
                        &&& status == Status::NO_MEMORY
                        &&& need3 > room
                        &&& need1 > room || apart_from_neighbours(s, a) && (need2 > room
                            || apart_from_neighbours(s, b)) ==> final(self).same(*old(self))
                        &&& final(self).slots() == if need1 > room {
                            s
                        } else if need2 > room {
                            return_slot(s1, a)
                        } else {
                            return_slot(return_slot(s2, a), b)
                        }
                    },
                }
            }),
            result is Err && maximal(old(self).slots()) ==> final(self).same(*old(self)),
            forall|x: int| #[trigger]
                in_interval(final(self).slots(), x) == in_interval(old(self).slots(), x),
            final(self).nodes() == occupied(final(self).slots()),
            final(self).count() == occupied(final(self).slots()).len(),
    {
        let ghost s = self.slots();
        let ghost nodes = self.nodes();
        let ghost a = page_of(start_offset);
        let last_offset: u64 = end_offset - page::PAGE_SIZE;
        let ghost b = page_of(last_offset);
        let ghost s1 = split(s, a);
        let ghost s2 = split(s1, b);
        let ghost nodes1 = nodes_with_slot(nodes, s, a);
        let ghost nodes2 = nodes_with_slot(nodes1, s1, b);
        proof {
            lemma_populate(s, a, b);
            self.lemma_content_ok(a);
            self.lemma_wf();
        }
        // First split the interval around the first and the last offset. If any of the following
        // operations fail, these slots are returned.
        let state: ZeroRangeDirtyState = match self.split_ends(start_offset, last_offset) {
            Ok(state) => state,
            Err(status) => {
                proof {
                    lemma_split(s, a);
                    lemma_returned(s1, a);
                    self.lemma_nodes();
                    assert(maximal(s) ==> apart_from_neighbours(s, a));
                    if self.slots() == s || apart_from_neighbours(s, a) {
                        old(self).lemma_restored(*self, a, b);
                    }
                }
                return Err(status);
            },
        };
        if start_offset == last_offset || last_offset == start_offset + page::PAGE_SIZE {
            proof {
                self.lemma_nodes();
            }
            return Ok(());
        }
        proof {
            self.lemma_wf();
            lemma_populate_middle(s, a, b);
            lemma_populate_carry(s, a, b);
        }
        // Then add the nodes in between. The nodes of the first and of the last slot in between
        // are there, as these hold what is left of the interval.
        let first_node_offset: u64 = VmPageListNode::node_offset(start_offset + page::PAGE_SIZE);
        let last_node_offset: u64 = VmPageListNode::node_offset(last_offset - page::PAGE_SIZE);
        let ghost lo = node_of(a + 1);
        let ghost hi = node_of(b - 1);
        let ghost middle = *self;
        proof {
            assert(first_node_offset as int / 65536 == lo);
            assert(last_node_offset as int / 65536 == hi);
            assert(!(at(s2, a + 1) is Empty));
            assert(b == a + 2 || !(at(s2, b - 1) is Empty));
            assert(nodes2.contains(lo) && nodes2.contains(hi));
            assert forall|k: int| lo < k < hi implies !#[trigger] nodes2.contains(k) by {
                if nodes2.contains(k) {
                    let q = lemma_tight(nodes2, s2, k);
                    assert(a + 1 < q < b - 1);
                    assert(at(s2, q) is Empty);
                }
            }
        }
        if last_node_offset > first_node_offset + VmPageListNode::NODE_SPAN_BYTES {
            let first_unpopulated: u64 = first_node_offset + VmPageListNode::NODE_SPAN_BYTES;
            let last_unpopulated: u64 = last_node_offset - VmPageListNode::NODE_SPAN_BYTES;
            if !self.insert_nodes(first_unpopulated, last_unpopulated) {
                proof {
                    lemma_returned_first(s, a, b);
                }
                self.return_interval_slot(start_offset);
                self.return_interval_slot(last_offset);
                proof {
                    self.lemma_nodes();
                    assert(maximal(s) ==> apart_from_neighbours(s, a) && apart_from_neighbours(
                        s,
                        b,
                    ));
                    if apart_from_neighbours(s, a) && apart_from_neighbours(s, b) {
                        old(self).lemma_restored(*self, a, b);
                    }
                }
                return Err(Status::NO_MEMORY);
            }
        }
        let ghost nodes3 = self.nodes();
        proof {
            self.lemma_wf();
            assert forall|p: int| a < p < b implies #[trigger] nodes3.contains(node_of(p)) by {
                assert(lo <= node_of(p) <= hi);
                if lo < node_of(p) < hi {
                } else {
                    assert(nodes2.contains(node_of(p)));
                }
            }
        }
        // Nothing can fail from here on.
        self.fill_between(start_offset, last_offset, state);
        proof {
            assert(self.slots() == populate(s, a, b));
            assert forall|k: int| #[trigger] nodes3.contains(k) implies !node_vacant(
                self.slots(),
                k,
            ) by {
                let t = self.slots();
                if nodes2.contains(k) {
                    let q = lemma_tight(nodes2, s2, k);
                    assert(!(at(t, q) is Empty));
                } else {
                    assert(lo < k < hi);
                    assert(a < 16 * k < b);
                    assert(at(t, 16 * k).is_slot());
                }
            }
            assert(tight(nodes3, self.slots())) by {
                reveal(tight);
            }
            self.lemma_nodes();
        }
        Ok(())
    }

    /// The offset of the first populated slot in the range `[start_offset, end_offset)`.
    pub(crate) fn next_populated(&self, start_offset: u64, end_offset: u64) -> (found: Option<u64>)
        requires
            self.wf(),
            start_offset % 4096 == 0,
            end_offset % 4096 == 0,
        ensures
            match found {
                Some(offset) => {
                    &&& offset % 4096 == 0
                    &&& start_offset <= offset < end_offset
                    &&& offset < Self::MAX_SIZE
                    &&& !(at(self.slots(), page_of(offset)) is Empty)
                    &&& self.nodes().contains(node_of(page_of(offset)))
                    &&& clear_range(self.slots(), page_of(start_offset), page_of(offset))
                },
                None => clear_range(self.slots(), page_of(start_offset), page_of(end_offset)),
            },
    {
        let ghost s = self.slots();
        let ghost a = page_of(start_offset);
        let ghost b = page_of(end_offset);
        let ghost order = self.tree.order();
        proof {
            self.lemma_wf();
            self.tree.lemma_wf();
        }
        let mut ix: usize = self.tree.lower_bound(VmPageListNode::node_offset(start_offset));
        proof {
            assert forall|q: int| a <= q && (ix < order.len() ==> q < 16 * order[ix as int])
                implies #[trigger] at(s, q) is Empty by {
                self.lemma_between(ix as int, a, q);
            }
        }
        while ix < self.tree.len()
            invariant
                self.wf(),
                s == self.slots(),
                order == self.tree.order(),
                a == page_of(start_offset),
                b == page_of(end_offset),
                start_offset % 4096 == 0,
                end_offset % 4096 == 0,
                ix <= order.len(),
                ix < order.len() ==> order[ix as int] >= node_of(a),
                forall|q: int|
                    a <= q && (ix < order.len() ==> q < 16 * order[ix as int])
                        ==> #[trigger] at(s, q) is Empty,
            decreases order.len() - ix,
        {
            let base: u64 = self.tree.offset_at(ix);
            let ghost k = order[ix as int];
            if base >= end_offset {
                return None;
            }
            let from: usize = if base >= start_offset {
                0
            } else {
                VmPageListNode::node_index(start_offset)
            };
            let node: &VmPageListNode = self.tree.node_at(ix);
            let found: Option<usize> = node.first_populated(from);
            proof {
                assert(base < start_offset ==> k == node_of(a));
                assert forall|q: int| a <= q < 16 * k + (match found {
                    Some(i) => i as int,
                    None => 16,
                }) implies #[trigger] at(s, q) is Empty by {
                    if q >= 16 * k {
                        assert(node.slot(q - 16 * k) == at(s, k * 16 + (q - 16 * k)));
                        assert(q - 16 * k >= from);
                    }
                }
            }
            if let Some(i) = found {
                let offset: u64 = base + (i as u64) * page::PAGE_SIZE;
                proof {
                    assert(node.slot(i as int) == at(s, k * 16 + i));
                    assert(page_of(offset) == k * 16 + i);
                }
                if offset >= end_offset {
                    return None;
                }
                return Some(offset);
            }
            ix += 1;
            proof {
                self.tree.lemma_wf();
                assert forall|q: int| a <= q && (ix < order.len() ==> q < 16 * order[ix as int])
                    implies #[trigger] at(s, q) is Empty by {
                    if q >= 16 * k + 16 {
                        self.lemma_between(ix as int, 16 * k + 16, q);
                    }
                }
            }
        }
        None
    }

    /// Pages between two neighbouring nodes are empty.
    proof fn lemma_between(self, ix: int, a: int, q: int)
        requires
            self.wf(),
            0 <= ix <= self.tree.order().len(),
            forall|i: int| 0 <= i < ix ==> #[trigger] self.tree.order()[i] < node_of(a),
            a <= q,
            ix < self.tree.order().len() ==> q < 16 * self.tree.order()[ix],
        ensures
            at(self.slots(), q) is Empty,
    {
        let order = self.tree.order();
        self.lemma_wf();
        self.tree.lemma_wf();
        if !(at(self.slots(), q) is Empty) {
            let i = choose|i: int| 0 <= i < order.len() && order[i] == q / 16;
            assert(order[i] == q / 16);
            if i < ix {
                assert(order[i] < node_of(a));
            } else if i > ix {
                assert(order[ix] < order[i]);
            }
        }
    }
}

impl Default for VmPageList {
    fn default() -> (list: Self)
        ensures
            list.wf(),
            list.settled(),
            list.slots() == Map::<int, SlotContent>::empty(),
            list.nodes() == Set::<int>::empty(),
            list.count() == 0,
            list.limit() == usize::MAX,
    {
        VmPageList::new()
    }
}

} // verus!
