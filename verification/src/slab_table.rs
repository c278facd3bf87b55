//! The slabs of an allocator, found by their pages.

use vstd::prelude::*;

use crate::slab::{Slab, SlabState, END_OF_LIST};
use crate::vm_page::VmPagePtr;

verus! {

/// Slabs, each in a page of its own.
pub struct SlabTable {
    slabs: Vec<Slab>,
}

/// `page` is the page of slab `i`.
spec fn at_page(slabs: Seq<Slab>, i: int, page: VmPagePtr) -> bool {
    0 <= i < slabs.len() && slabs[i]@.page == page
}

spec fn has_page(slabs: Seq<Slab>, page: VmPagePtr) -> bool {
    exists|i: int| at_page(slabs, i, page)
}

spec fn slab_of(slabs: Seq<Slab>, page: VmPagePtr) -> int {
    choose|i: int| at_page(slabs, i, page)
}

impl View for SlabTable {
    type V = Map<VmPagePtr, SlabState>;

    closed spec fn view(&self) -> Map<VmPagePtr, SlabState> {
        Map::new(
            |p: VmPagePtr| has_page(self.slabs@, p),
            |p: VmPagePtr| self.slabs@[slab_of(self.slabs@, p)]@,
        )
    }
}

impl SlabTable {
    /// No two slabs share a page, and each has `entries` entries.
    pub closed spec fn wf(self, entries: int) -> bool {
        &&& forall|i: int|
            0 <= i < self.slabs@.len() ==> (#[trigger] self.slabs@[i]).wf(entries)
        &&& forall|i: int, j: int|
            0 <= i < self.slabs@.len() && 0 <= j < self.slabs@.len() && (
            #[trigger] self.slabs@[i])@.page == (#[trigger] self.slabs@[j])@.page ==> i == j
    }

    /// The number of slabs.
    pub closed spec fn count(self) -> int {
        self.slabs@.len() as int
    }

    pub fn len(&self) -> (count: usize)
        ensures
            count == self.count(),
    {
        self.slabs.len()
    }

    /// What the table says of a slab holds of it.
    pub proof fn lemma_slab(self, page: VmPagePtr, entries: int)
        requires
            self.wf(entries),
            self@.contains_key(page),
        ensures
            self@[page].wf(entries),
            self@[page].page == page,
    {
        let i = slab_of(self.slabs@, page);
        assert(at_page(self.slabs@, i, page));
        assert(self.slabs@[i].wf(entries));
    }

    pub fn new(entries: Ghost<int>) -> (table: SlabTable)
        ensures
            table.wf(entries@),
            table.count() == 0,
            table@ == Map::<VmPagePtr, SlabState>::empty(),
    {
        let table = SlabTable { slabs: Vec::new() };
        assert(table@ =~= Map::empty());
        table
    }

    fn find(&self, page: VmPagePtr, entries: Ghost<int>) -> (found: Option<usize>)
        requires
            self.wf(entries@),
        ensures
            match found {
                Some(i) => at_page(self.slabs@, i as int, page) && self@.contains_key(page)
                    && slab_of(self.slabs@, page) == i,
                None => !self@.contains_key(page),
            },
    {
        let mut i: usize = 0;
        while i < self.slabs.len()
            invariant
                self.wf(entries@),
                i <= self.slabs@.len(),
                forall|j: int| 0 <= j < i ==> !#[trigger] at_page(self.slabs@, j, page),
            decreases self.slabs@.len() - i,
        {
            if self.slabs[i].page() == page {
                proof {
                    assert(at_page(self.slabs@, i as int, page));
                    let k = slab_of(self.slabs@, page);
                    assert(at_page(self.slabs@, k, page));
                }
                return Some(i);
            }
            i = i + 1;
        }
        None
    }

    pub fn contains(&self, page: VmPagePtr, entries: Ghost<int>) -> (found: bool)
        requires
            self.wf(entries@),
        ensures
            found == self@.contains_key(page),
    {
        self.find(page, entries).is_some()
    }

    /// The slab in `page`.
    pub fn get(&self, page: VmPagePtr, entries: Ghost<int>) -> (slab: &Slab)
        requires
            self.wf(entries@),
            self@.contains_key(page),
        ensures
            slab.wf(entries@),
            slab@ == self@[page],
    {
        match self.find(page, entries) {
            Some(i) => &self.slabs[i],
            None => {
                proof {
                    assert(false);
                }
                &self.slabs[0]
            },
        }
    }

    pub fn insert(&mut self, slab: Slab, entries: Ghost<int>)
        requires
            old(self).wf(entries@),
            slab.wf(entries@),
            !old(self)@.contains_key(slab@.page),
        ensures
            final(self).wf(entries@),
            final(self)@ == old(self)@.insert(slab@.page, slab@),
            final(self).count() == old(self).count() + 1,
    {
        let ghost before = self.slabs@;
        let ghost page = slab@.page;
        let ghost n = before.len() as int;
        self.slabs.push(slab);
        proof {
            let after = self.slabs@;
            assert forall|i: int| 0 <= i < n implies (#[trigger] before[i])@.page != page by {
                assert(at_page(before, i, before[i]@.page));
            }
            assert(self.wf(entries@));
            assert forall|p: VmPagePtr| #[trigger] has_page(after, p) <==> has_page(before, p) || p
                == page by {
                if has_page(before, p) {
                    let i = slab_of(before, p);
                    assert(at_page(before, i, p));
                    assert(at_page(after, i, p));
                }
                if p == page {
                    assert(at_page(after, n, p));
                }
                if has_page(after, p) {
                    let i = slab_of(after, p);
                    assert(at_page(after, i, p));
                    if i < n {
                        assert(at_page(before, i, p));
                    }
                }
            }
            assert forall|p: VmPagePtr| has_page(after, p) implies #[trigger] self@[p] == old(
                self,
            )@.insert(page, slab@)[p] by {
                let i = slab_of(after, p);
                assert(at_page(after, i, p));
                if p != page {
                    assert(i < n);
                    assert(at_page(before, i, p));
                    let k = slab_of(before, p);
                    assert(at_page(before, k, p));
                }
            }
            assert(self@ =~= old(self)@.insert(page, slab@));
        }
    }

    pub fn remove(&mut self, page: VmPagePtr, entries: Ghost<int>) -> (slab: Slab)
        requires
            old(self).wf(entries@),
            old(self)@.contains_key(page),
        ensures
            final(self).wf(entries@),
            final(self)@ == old(self)@.remove(page),
            final(self).count() == old(self).count() - 1,
            slab.wf(entries@),
            slab@ == old(self)@[page],
    {
        let found = self.find(page, entries);
        let at: usize = match found {
            Some(i) => i,
            None => 0,
        };
        let ghost before = self.slabs@;
        let slab = self.slabs.remove(at);
        proof {
            let after = self.slabs@;
            assert(before[at as int].wf(entries@));
            assert forall|i: int| 0 <= i < after.len() implies (#[trigger] after[i]).wf(entries@) by {
                if i < at {
                    assert(before[i].wf(entries@));
                } else {
                    assert(before[i + 1].wf(entries@));
                }
            }
            assert forall|i: int, j: int|
                0 <= i < after.len() && 0 <= j < after.len() && (#[trigger] after[i])@.page == (
                #[trigger] after[j])@.page implies i == j by {
                let x = if i < at {
                    before[i]
                } else {
                    before[i + 1]
                };
                let y = if j < at {
                    before[j]
                } else {
                    before[j + 1]
                };
                assert(x@.page == y@.page);
            }
            assert(self.wf(entries@));
            assert forall|p: VmPagePtr| has_page(after, p) <==> #[trigger] has_page(before, p) && p
                != page by {
                if has_page(after, p) {
                    let i = slab_of(after, p);
                    assert(at_page(after, i, p));
                    if i < at {
                        assert(at_page(before, i, p));
                        assert(before[i]@.page == before[at as int]@.page ==> i == at);
                    } else {
                        assert(at_page(before, i + 1, p));
                        assert(before[i + 1]@.page == before[at as int]@.page ==> i + 1 == at);
                    }
                }
                if has_page(before, p) && p != page {
                    let i = slab_of(before, p);
                    assert(at_page(before, i, p));
                    if i < at {
                        assert(at_page(after, i, p));
                    } else {
                        assert(at_page(after, i - 1, p));
                    }
                }
            }
            assert forall|p: VmPagePtr| has_page(after, p) implies #[trigger] self@[p] == old(
                self,
            )@.remove(page)[p] by {
                let i = slab_of(after, p);
                assert(at_page(after, i, p));
                assert(has_page(before, p) && p != page);
                let k = slab_of(before, p);
                assert(at_page(before, k, p));
                if i < at {
                    assert(before[i]@.page == before[k]@.page);
                } else {
                    assert(before[i + 1]@.page == before[k]@.page);
                }
            }
            assert(self@ =~= old(self)@.remove(page));
        }
        slab
    }

    /// Allocates an entry of the slab in `page`.
    pub fn take(&mut self, page: VmPagePtr, entries: usize) -> (index: u32)
        requires
            old(self).wf(entries as int),
            old(self)@.contains_key(page),
            old(self)@[page].allocated() < entries < END_OF_LIST,
        ensures
            final(self).wf(entries as int),
            index == old(self)@[page].next(),
            final(self)@ == old(self)@.insert(page, old(self)@[page].taken()),
            final(self).count() == old(self).count(),
    {
        proof {
            self.lemma_slab(page, entries as int);
        }
        let mut slab = self.remove(page, Ghost(entries as int));
        let index: u32 = slab.take(entries);
        self.insert(slab, Ghost(entries as int));
        assert(self@ =~= old(self)@.insert(page, old(self)@[page].taken()));
        index
    }

    /// Frees an entry of the slab in `page`.
    pub fn give_back(&mut self, page: VmPagePtr, index: u32, entries: usize)
        requires
            old(self).wf(entries as int),
            old(self)@.contains_key(page),
            old(self)@[page].is_allocated(index as int),
            entries < END_OF_LIST,
        ensures
            final(self).wf(entries as int),
            final(self)@ == old(self)@.insert(page, old(self)@[page].given_back(index)),
            final(self).count() == old(self).count(),
    {
        proof {
            self.lemma_slab(page, entries as int);
        }
        let mut slab = self.remove(page, Ghost(entries as int));
        slab.give_back(index, entries);
        self.insert(slab, Ghost(entries as int));
        assert(self@ =~= old(self)@.insert(page, old(self)@[page].given_back(index)));
    }

    /// Writes the first word of an allocated entry of the slab in `page`.
    pub fn write(&mut self, page: VmPagePtr, index: u32, word: u64, entries: usize)
        requires
            old(self).wf(entries as int),
            old(self)@.contains_key(page),
            old(self)@[page].is_allocated(index as int),
        ensures
            final(self).wf(entries as int),
            final(self)@ == old(self)@.insert(page, old(self)@[page].written(index as int, word)),
            final(self).count() == old(self).count(),
    {
        proof {
            self.lemma_slab(page, entries as int);
        }
        let mut slab = self.remove(page, Ghost(entries as int));
        slab.write(index, word, entries);
        self.insert(slab, Ghost(entries as int));
        assert(self@ =~= old(self)@.insert(page, old(self)@[page].written(index as int, word)));
    }
}

} // verus!
