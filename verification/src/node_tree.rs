//! The nodes of a page list, ordered by offset.

use vstd::prelude::*;
use crate::page_list_model::{Slots, at, put};
use crate::page_list_node::VmPageListNode;
use crate::page_or_marker::{SlotContent, VmPageOrMarker, content_ok, lemma_slot_content};

verus! {

/// A node and the offset of its first page.
#[derive(Debug)]
struct NodeEntry {
    offset: u64,
    node: VmPageListNode,
}

/// An ordered collection of nodes that holds at most a given number of them.
#[derive(Debug)]
pub struct NodeTree {
    entries: Vec<NodeEntry>,
    limit: usize,
}

impl NodeTree {
    /// Nodes lie below this offset, so that an offset past the end of a node can be represented.
    pub const MAX_SIZE: u64 = 0xffff_ffff_ffff_0000;

    spec fn key(self, i: int) -> int {
        self.entries@[i].offset as int / 65536
    }

    spec fn has_key(self, k: int) -> bool {
        exists|i: int| 0 <= i < self.entries@.len() && #[trigger] self.key(i) == k
    }

    spec fn index_of(self, k: int) -> int {
        choose|i: int| 0 <= i < self.entries@.len() && #[trigger] self.key(i) == k
    }

    spec fn content(self, p: int) -> SlotContent {
        if self.has_key(p / 16) {
            self.entries@[self.index_of(p / 16)].node.slot(p % 16)
        } else {
            SlotContent::Empty
        }
    }

    /// The populated slots.
    pub closed spec fn slots(self) -> Slots {
        Map::new(|p: int| !(self.content(p) is Empty), |p: int| self.content(p))
    }

    /// The numbers of the nodes, in ascending order.
    pub closed spec fn order(self) -> Seq<int> {
        Seq::new(self.entries@.len(), |i: int| self.key(i))
    }

    /// The numbers of the nodes.
    pub open spec fn nodes(self) -> Set<int> {
        Set::new(|k: int| self.order().contains(k))
    }

    /// The number of nodes that there may be.
    pub closed spec fn limit(self) -> int {
        self.limit as int
    }

    /// The nodes are aligned, in order and in range, and their slots are well formed.
    pub closed spec fn wf(self) -> bool {
        &&& self.entries@.len() <= self.limit
        &&& forall|i: int|
            0 <= i < self.entries@.len() ==> {
                &&& (#[trigger] self.entries@[i]).offset % 65536 == 0
                &&& self.entries@[i].offset < Self::MAX_SIZE
                &&& self.entries@[i].node.wf()
            }
        &&& forall|i: int, j: int|
            0 <= i < j < self.entries@.len() ==> (#[trigger] self.entries@[i]).offset < (
            #[trigger] self.entries@[j]).offset
    }

    /// Facts about every well-formed tree.
    pub proof fn lemma_wf(self)
        requires
            self.wf(),
        ensures
            self.order().len() <= self.limit(),
            forall|i: int, j: int|
                0 <= i < j < self.order().len() ==> #[trigger] self.order()[i]
                    < #[trigger] self.order()[j],
            forall|i: int|
                0 <= i < self.order().len() ==> 0 <= #[trigger] self.order()[i] < 0xffff_ffff_ffff,
            forall|p: int| !(#[trigger] at(self.slots(), p) is Empty) ==> self.nodes().contains(
                p / 16,
            ),
            forall|p: int| #[trigger] self.slots().contains_key(p) ==> !(self.slots()[p] is Empty),
    {
        assert forall|i: int, j: int| 0 <= i < j < self.order().len() implies #[trigger] self.order()[i]
            < #[trigger] self.order()[j] by {
            assert(self.entries@[i].offset < self.entries@[j].offset);
        }
        assert forall|p: int| !(#[trigger] at(self.slots(), p) is Empty) implies self.nodes().contains(
            p / 16,
        ) by {
            let i = self.index_of(p / 16);
            assert(self.order()[i] == p / 16);
        }
    }

    pub proof fn lemma_content_ok(self, p: int)
        requires
            self.wf(),
        ensures
            content_ok(at(self.slots(), p)),
    {
        if self.has_key(p / 16) {
            let i = self.index_of(p / 16);
            assert(self.entries@[i].node.wf());
            self.entries@[i].node.lemma_content(p % 16);
        }
    }

    /// How the set of nodes follows their order.
    pub proof fn lemma_nodes(self, t: NodeTree, ix: int, k: int)
        requires
            self.wf(),
            t.wf(),
        ensures
            0 <= ix <= self.order().len() && t.order() == self.order().insert(ix, k) ==> t.nodes()
                == self.nodes().insert(k),
            0 <= ix < self.order().len() && t.order() == self.order().remove(ix) ==> t.nodes()
                == self.nodes().remove(self.order()[ix]),
    {
        self.lemma_wf();
        t.lemma_wf();
        let a = self.order();
        if 0 <= ix <= a.len() && t.order() == a.insert(ix, k) {
            let b = a.insert(ix, k);
            assert forall|x: int| t.nodes().contains(x) == self.nodes().insert(k).contains(x) by {
                if a.contains(x) {
                    let i = choose|i: int| 0 <= i < a.len() && a[i] == x;
                    assert(b[if i < ix { i } else { i + 1 }] == x);
                }
                assert(b[ix] == k);
                if b.contains(x) && x != k {
                    let i = choose|i: int| 0 <= i < b.len() && b[i] == x;
                    assert(a[if i < ix { i } else { i - 1 }] == x);
                }
            }
            assert(t.nodes() =~= self.nodes().insert(k));
        }
        if 0 <= ix < a.len() && t.order() == a.remove(ix) {
            let b = a.remove(ix);
            let gone = a[ix];
            assert forall|x: int| t.nodes().contains(x) == self.nodes().remove(gone).contains(x) by {
                if a.contains(x) && x != gone {
                    let i = choose|i: int| 0 <= i < a.len() && a[i] == x;
                    assert(b[if i < ix { i } else { i - 1 }] == x);
                }
                if b.contains(x) {
                    let i = choose|i: int| 0 <= i < b.len() && b[i] == x;
                    let j = if i < ix {
                        i
                    } else {
                        i + 1
                    };
                    assert(a[j] == x);
                    assert(x != gone) by {
                        if j < ix {
                            assert(a[j] < a[ix]);
                        } else {
                            assert(a[ix] < a[j]);
                        }
                    }
                }
            }
            assert(t.nodes() =~= self.nodes().remove(gone));
        }
    }

    proof fn lemma_index(self, i: int)
        requires
            self.wf(),
            0 <= i < self.entries@.len(),
        ensures
            self.has_key(self.key(i)),
            self.index_of(self.key(i)) == i,
    {
        let j = self.index_of(self.key(i));
        assert(self.key(i) == self.key(i));
        assert(self.key(j) == self.key(i));
        if i < j {
            assert(self.entries@[i].offset < self.entries@[j].offset);
        }
        if j < i {
            assert(self.entries@[j].offset < self.entries@[i].offset);
        }
    }

    proof fn lemma_content(self, i: int, p: int)
        requires
            self.wf(),
            0 <= i < self.entries@.len(),
            p / 16 == self.key(i),
        ensures
            at(self.slots(), p) == self.entries@[i].node.slot(p % 16),
    {
        self.lemma_index(i);
    }

    /// `t` is this tree with slot `index` of node number `ix` replaced by `slot`.
    pub closed spec fn updated(
        self,
        t: NodeTree,
        ix: int,
        index: int,
        slot: VmPageOrMarker,
    ) -> bool {
        &&& 0 <= ix < self.entries@.len()
        &&& 0 <= index < 16
        &&& t.limit == self.limit
        &&& t.entries@.len() == self.entries@.len()
        &&& forall|i: int|
            0 <= i < self.entries@.len() && i != ix ==> #[trigger] t.entries@[i] == self.entries@[i]
        &&& t.entries@[ix].offset == self.entries@[ix].offset
        &&& slot.wf() ==> t.entries@[ix].node.wf()
        &&& t.entries@[ix].node.slot(index) == slot@
        &&& forall|j: int|
            0 <= j < 16 && j != index ==> #[trigger] t.entries@[ix].node.slot(j)
                == self.entries@[ix].node.slot(j)
    }

    /// Replacing a slot of a node replaces the content of one page.
    pub broadcast proof fn lemma_updated(
        self,
        t: NodeTree,
        ix: int,
        index: int,
        slot: VmPageOrMarker,
    )
        requires
            self.wf(),
            #[trigger] self.updated(t, ix, index, slot),
        ensures
            t.order() == self.order(),
            t.limit() == self.limit(),
            slot.wf() ==> t.wf(),
            t.slots() == put(self.slots(), self.order()[ix] * 16 + index, slot@),
    {
        assert forall|i: int| 0 <= i < t.entries@.len() implies #[trigger] t.entries@[i].offset
            == self.entries@[i].offset by {
            if i != ix {
                assert(t.entries@[i] == self.entries@[i]);
            }
        }
        assert(t.order() =~= self.order()) by {
            assert forall|i: int| 0 <= i < t.entries@.len() implies t.key(i) == self.key(i) by {
                assert(t.entries@[i].offset == self.entries@[i].offset);
            }
        }
        if slot.wf() {
            assert forall|i: int| 0 <= i < t.entries@.len() implies (
            #[trigger] t.entries@[i]).node.wf() by {
                if i != ix {
                    assert(t.entries@[i] == self.entries@[i]);
                }
            }
        }
        let page = self.order()[ix] * 16 + index;
        assert(page / 16 == self.key(ix) && page % 16 == index);
        assert forall|k: int| self.has_key(k) implies t.has_key(k) && t.index_of(k)
            == self.index_of(k) by {
            let i = self.index_of(k);
            assert(t.key(i) == k);
            let j = t.index_of(k);
            assert(self.key(j) == k);
            self.lemma_index(j);
            self.lemma_index(i);
        }
        assert forall|k: int| t.has_key(k) implies self.has_key(k) by {
            let i = t.index_of(k);
            assert(self.key(i) == k);
        }
        assert forall|p: int| t.content(p) == (if p == page {
            slot@
        } else {
            self.content(p)
        }) by {
            if self.has_key(p / 16) {
                let i = self.index_of(p / 16);
                self.lemma_index(ix);
                if i == ix {
                    assert(self.key(i) == p / 16);
                } else {
                    assert(t.entries@[i] == self.entries@[i]);
                }
            } else {
                self.lemma_index(ix);
            }
        }
        assert(t.slots() =~= put(self.slots(), page, slot@));
    }

    /// Creates a tree without nodes, for at most `limit` of them.
    pub fn new(limit: usize) -> (tree: Self)
        ensures
            tree.wf(),
            tree.limit() == limit,
            tree.order() == Seq::<int>::empty(),
            tree.slots() == Map::<int, SlotContent>::empty(),
    {
        let tree = NodeTree { entries: Vec::new(), limit };
        assert(tree.order() =~= Seq::<int>::empty());
        assert(tree.slots() =~= Map::<int, SlotContent>::empty());
        tree
    }

    /// The number of nodes.
    pub fn len(&self) -> (len: usize)
        ensures
            len == self.order().len(),
    {
        self.entries.len()
    }

    /// The position of the first node at or after `offset`.
    pub fn lower_bound(&self, offset: u64) -> (ix: usize)
        requires
            self.wf(),
            offset % 65536 == 0,
        ensures
            ix <= self.order().len(),
            forall|i: int| 0 <= i < ix ==> #[trigger] self.order()[i] < offset as int / 65536,
            forall|i: int|
                ix <= i < self.order().len() ==> #[trigger] self.order()[i] >= offset as int
                    / 65536,
    {
        let mut low: usize = 0;
        let mut high: usize = self.entries.len();
        while low < high
            invariant
                self.wf(),
                low <= high <= self.entries@.len(),
                forall|i: int| 0 <= i < low ==> (#[trigger] self.entries@[i]).offset < offset,
                forall|i: int|
                    high <= i < self.entries@.len() ==> (#[trigger] self.entries@[i]).offset
                        >= offset,
            decreases high - low,
        {
            let mid: usize = low + (high - low) / 2;
            if self.entries[mid].offset < offset {
                low = mid + 1;
            } else {
                high = mid;
            }
        }
        proof {
            assert forall|i: int| 0 <= i < low implies #[trigger] self.order()[i] < offset as int
                / 65536 by {
                assert(self.entries@[i].offset < offset);
            }
            assert forall|i: int| low <= i < self.order().len() implies #[trigger] self.order()[i]
                >= offset as int / 65536 by {
                assert(self.entries@[i].offset >= offset);
            }
        }
        low
    }

    /// The position of the node at `offset`.
    pub fn find(&self, offset: u64) -> (found: Option<usize>)
        requires
            self.wf(),
            offset % 65536 == 0,
        ensures
            match found {
                Some(ix) => ix < self.order().len() && self.order()[ix as int] == offset as int
                    / 65536,
                None => !self.nodes().contains(offset as int / 65536),
            },
    {
        let ix: usize = self.lower_bound(offset);
        proof {
            self.lemma_wf();
        }
        if ix < self.entries.len() && self.entries[ix].offset == offset {
            assert(self.order()[ix as int] == offset as int / 65536);
            Some(ix)
        } else {
            proof {
                let k = offset as int / 65536;
                if self.order().contains(k) {
                    let i = choose|i: int| 0 <= i < self.order().len() && self.order()[i] == k;
                    assert(self.entries@[i].offset == offset);
                    assert(i >= ix);
                    assert(i != ix);
                    assert(self.order()[ix as int] < self.order()[i]);
                    assert(self.entries@[ix as int].offset != offset);
                }
            }
            None
        }
    }

    /// The offset of the node at a position.
    pub fn offset_at(&self, ix: usize) -> (offset: u64)
        requires
            self.wf(),
            ix < self.order().len(),
        ensures
            offset == self.order()[ix as int] * 65536,
            offset < Self::MAX_SIZE,
            offset % 65536 == 0,
    {
        self.entries[ix].offset
    }

    /// The node at a position.
    pub fn node_at(&self, ix: usize) -> (node: &VmPageListNode)
        requires
            self.wf(),
            ix < self.order().len(),
        ensures
            node.wf(),
            forall|j: int|
                0 <= j < 16 ==> #[trigger] node.slot(j) == at(
                    self.slots(),
                    self.order()[ix as int] * 16 + j,
                ),
    {
        proof {
            let node = self.entries@[ix as int].node;
            assert forall|j: int| 0 <= j < 16 implies #[trigger] node.slot(j) == at(
                self.slots(),
                self.order()[ix as int] * 16 + j,
            ) by {
                let p = self.order()[ix as int] * 16 + j;
                assert(p / 16 == self.key(ix as int) && p % 16 == j);
                self.lemma_content(ix as int, p);
            }
        }
        &self.entries[ix].node
    }

    /// A slot of the node at a position.
    pub fn slot(&self, ix: usize, index: usize) -> (slot: &VmPageOrMarker)
        requires
            self.wf(),
            ix < self.order().len(),
            index < 16,
        ensures
            slot.wf(),
            content_ok(slot@),
            slot@ == at(self.slots(), self.order()[ix as int] * 16 + index),
    {
        let slot = self.node_at(ix).lookup(index);
        proof {
            lemma_slot_content(*slot);
        }
        slot
    }

    /// A slot of the node at a position, for changing.
    pub fn slot_mut(&mut self, ix: usize, index: usize) -> (slot: &mut VmPageOrMarker)
        requires
            old(self).wf(),
            ix < old(self).order().len(),
            index < 16,
        ensures
            slot.wf(),
            content_ok(slot@),
            slot@ == at(old(self).slots(), old(self).order()[ix as int] * 16 + index),
            old(self).updated(*final(self), ix as int, index as int, *final(slot)),
    {
        proof {
            let p = self.order()[ix as int] * 16 + index;
            assert(p / 16 == self.key(ix as int) && p % 16 == index);
            self.lemma_content(ix as int, p);
        }
        let slot = self.entries[ix].node.lookup_mut(index);
        proof {
            lemma_slot_content(*slot);
        }
        slot
    }

    /// Adds an empty node at `offset`, which has to go to position `ix`. This fails where the tree
    /// holds as many nodes as it may.
    pub fn insert(&mut self, ix: usize, offset: u64) -> (inserted: bool)
        requires
            old(self).wf(),
            offset % 65536 == 0,
            offset < Self::MAX_SIZE,
            ix <= old(self).order().len(),
            forall|i: int| 0 <= i < ix ==> #[trigger] old(self).order()[i] < offset as int / 65536,
            forall|i: int|
                ix <= i < old(self).order().len() ==> #[trigger] old(self).order()[i]
                    > offset as int / 65536,
        ensures
            final(self).wf(),
            final(self).limit() == old(self).limit(),
            inserted == (old(self).order().len() < old(self).limit()),
            !inserted ==> *final(self) == *old(self),
            final(self).slots() == old(self).slots(),
            final(self).order() == if inserted {
                old(self).order().insert(ix as int, offset as int / 65536)
            } else {
                old(self).order()
            },
    {
        if self.entries.len() >= self.limit {
            return false;
        }
        let node: VmPageListNode = VmPageListNode::new();
        let ghost before = *self;
        let ghost k = offset as int / 65536;
        self.entries.insert(ix, NodeEntry { offset, node });
        proof {
            let n = before.entries@.len() as int;
            assert forall|i: int| 0 <= i < n implies self.entries@[if i < ix { i } else { i + 1 }]
                == #[trigger] before.entries@[i] by {}
            assert forall|i: int| 0 <= i < n + 1 && i != ix implies #[trigger] self.entries@[i]
                == before.entries@[if i < ix { i } else { i - 1 }] by {}
            assert forall|i: int| 0 <= i < n implies (i < ix ==> (
            #[trigger] before.entries@[i]).offset < offset) && (i >= ix ==> before.entries@[i].offset
                > offset) by {
                assert(before.order()[i] == before.key(i));
            }
            assert(self.wf());
            assert(self.order() =~= before.order().insert(ix as int, k));
            assert forall|p: int| self.content(p) == before.content(p) by {
                if before.has_key(p / 16) {
                    let i = before.index_of(p / 16);
                    let j = if i < ix {
                        i
                    } else {
                        i + 1
                    };
                    assert(self.entries@[j] == before.entries@[i]);
                    self.lemma_index(j);
                    assert(self.key(j) == p / 16);
                } else if self.has_key(p / 16) {
                    let j = self.index_of(p / 16);
                    if j != ix {
                        let i = if j < ix {
                            j
                        } else {
                            j - 1
                        };
                        assert(self.entries@[j] == before.entries@[i]);
                        assert(before.key(i) == p / 16);
                    }
                }
            }
            assert(self.slots() =~= before.slots());
        }
        true
    }

    /// Removes the node at a position, which must hold nothing.
    pub fn erase(&mut self, ix: usize)
        requires
            old(self).wf(),
            ix < old(self).order().len(),
            forall|j: int|
                0 <= j < 16 ==> #[trigger] at(
                    old(self).slots(),
                    old(self).order()[ix as int] * 16 + j,
                ) is Empty,
        ensures
            final(self).wf(),
            final(self).limit() == old(self).limit(),
            final(self).slots() == old(self).slots(),
            final(self).order() == old(self).order().remove(ix as int),
    {
        let ghost before = *self;
        self.entries.remove(ix);
        proof {
            let n = before.entries@.len() as int;
            assert forall|i: int| 0 <= i < n - 1 implies #[trigger] self.entries@[i]
                == before.entries@[if i < ix { i } else { i + 1 }] by {}
            assert(self.wf());
            assert(self.order() =~= before.order().remove(ix as int));
            assert forall|p: int| self.content(p) == before.content(p) by {
                if before.has_key(p / 16) {
                    let i = before.index_of(p / 16);
                    if i == ix {
                        before.lemma_content(i, p);
                        assert(at(before.slots(), before.order()[i] * 16 + p % 16) is Empty);
                        if self.has_key(p / 16) {
                            let j = self.index_of(p / 16);
                            let i2 = if j < ix {
                                j
                            } else {
                                j + 1
                            };
                            assert(self.entries@[j] == before.entries@[i2]);
                            before.lemma_index(i2);
                        }
                    } else {
                        let j = if i < ix {
                            i
                        } else {
                            i - 1
                        };
                        assert(self.entries@[j] == before.entries@[i]);
                        assert(self.key(j) == p / 16);
                        self.lemma_index(j);
                    }
                } else if self.has_key(p / 16) {
                    let j = self.index_of(p / 16);
                    let i = if j < ix {
                        j
                    } else {
                        j + 1
                    };
                    assert(self.entries@[j] == before.entries@[i]);
                    assert(before.key(i) == p / 16);
                }
            }
            assert(self.slots() =~= before.slots());
        }
    }

    /// Removes all nodes.
    pub fn clear(&mut self)
        ensures
            final(self).wf(),
            final(self).limit() == old(self).limit(),
            final(self).order() == Seq::<int>::empty(),
            final(self).slots() == Map::<int, SlotContent>::empty(),
    {
        self.entries.clear();
        assert(self.order() =~= Seq::<int>::empty());
        assert(self.slots() =~= Map::<int, SlotContent>::empty());
    }
}

} // verus!
