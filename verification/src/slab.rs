//! One slab: a page cut into entries of the same size, with a list of those that were freed.

use vstd::prelude::*;

use crate::vm_page::VmPagePtr;

verus! {

/// Ends the list of free entries of a slab.
pub const END_OF_LIST: u32 = 0xffff_ffff;

/// The state of a slab.
#[verifier::ext_equal]
pub struct SlabState {
    /// The page the slab lies in.
    pub page: VmPagePtr,
    /// The number the slab's provider has given it.
    pub id: u32,
    /// The entries that were allocated before and are free, the last to be freed first.
    pub free: Seq<u32>,
    /// Entries from here on have never been allocated.
    pub peak: int,
    /// The first word of each entry.
    pub words: Seq<u64>,
}

impl SlabState {
    /// A slab of which nothing has been allocated.
    pub open spec fn fresh(page: VmPagePtr, id: u32, entries: int) -> SlabState {
        SlabState { page, id, free: Seq::empty(), peak: 0, words: Seq::new(entries as nat, |i| 0) }
    }

    pub open spec fn wf(self, entries: int) -> bool {
        &&& 0 <= self.peak <= entries
        &&& self.words.len() == entries
        &&& self.free.no_duplicates()
        &&& self.free.len() <= self.peak
        &&& forall|i: int| 0 <= i < self.free.len() ==> (#[trigger] self.free[i]) < self.peak
    }

    /// The number of allocated entries.
    pub open spec fn allocated(self) -> int {
        self.peak - self.free.len()
    }

    pub open spec fn is_allocated(self, index: int) -> bool {
        0 <= index < self.peak && !self.free.contains(index as u32)
    }

    /// The entry that is allocated next: the last to be freed, or else the first that was never
    /// allocated.
    pub open spec fn next(self) -> u32 {
        if self.free.len() == 0 {
            self.peak as u32
        } else {
            self.free[0]
        }
    }

    /// The slab once that entry is allocated.
    pub open spec fn taken(self) -> SlabState {
        if self.free.len() == 0 {
            SlabState { peak: self.peak + 1, ..self }
        } else {
            SlabState { free: self.free.skip(1), ..self }
        }
    }

    /// The slab once an entry is freed. The entry's first word links it to the entry that was
    /// first on the list.
    pub open spec fn given_back(self, index: u32) -> SlabState {
        SlabState {
            free: seq![index] + self.free,
            words: self.words.update(
                index as int,
                if self.free.len() == 0 {
                    END_OF_LIST as u64
                } else {
                    self.free[0] as u64
                },
            ),
            ..self
        }
    }

    /// The slab once the first word of an entry is written.
    pub open spec fn written(self, index: int, word: u64) -> SlabState {
        SlabState { words: self.words.update(index, word), ..self }
    }

    /// Allocating hands out an entry that was not allocated, and changes nothing of the others.
    pub proof fn lemma_taken(self, entries: int)
        requires
            self.wf(entries),
            self.allocated() < entries,
            entries < END_OF_LIST,
        ensures
            self.taken().wf(entries),
            0 <= self.next() < entries,
            !self.is_allocated(self.next() as int),
            self.taken().is_allocated(self.next() as int),
            self.taken().allocated() == self.allocated() + 1,
            forall|i: int|
                0 <= i < entries && i != self.next() ==> #[trigger] self.taken().is_allocated(i)
                    == self.is_allocated(i),
    {
        let after = self.taken();
        if self.free.len() == 0 {
            assert(self.peak < entries);
        } else {
            let first = self.free[0];
            assert(self.free.contains(first));
            assert(first < self.peak);
            assert forall|k: u32| #[trigger] after.free.contains(k) <==> self.free.contains(k) && k
                != first by {
                if after.free.contains(k) {
                    let j = choose|j: int| 0 <= j < after.free.len() && after.free[j] == k;
                    assert(self.free[j + 1] == k);
                }
                if self.free.contains(k) && k != first {
                    let j = choose|j: int| 0 <= j < self.free.len() && self.free[j] == k;
                    assert(after.free[j - 1] == k);
                }
            }
        }
    }

    /// Freeing an entry changes nothing of the others.
    pub proof fn lemma_given_back(self, index: u32, entries: int)
        requires
            self.wf(entries),
            self.is_allocated(index as int),
            entries < END_OF_LIST,
        ensures
            self.given_back(index).wf(entries),
            !self.given_back(index).is_allocated(index as int),
            self.given_back(index).allocated() == self.allocated() - 1,
            forall|i: int|
                0 <= i < entries && i != index ==> #[trigger] self.given_back(index).is_allocated(i)
                    == self.is_allocated(i),
            self.allocated() > 0,
    {
        let after = self.given_back(index);
        assert forall|k: u32| #[trigger] after.free.contains(k) <==> self.free.contains(k) || k
            == index by {
            if after.free.contains(k) {
                let j = choose|j: int| 0 <= j < after.free.len() && after.free[j] == k;
                if j > 0 {
                    assert(self.free[j - 1] == k);
                }
            }
            if self.free.contains(k) {
                let j = choose|j: int| 0 <= j < self.free.len() && self.free[j] == k;
                assert(after.free[j + 1] == k);
            }
            assert(after.free[0] == index);
        }
        assert forall|i: int, j: int|
            0 <= i < after.free.len() && 0 <= j < after.free.len() && i != j implies after.free[i]
            != after.free[j] by {
            if i == 0 {
                assert(self.free.contains(self.free[j - 1]));
            }
            if j == 0 {
                assert(self.free.contains(self.free[i - 1]));
            }
        }
        self.lemma_free_fits(index);
    }

    /// Where two entries are allocated there is more than one.
    pub proof fn lemma_two(self, first: int, second: int, entries: int)
        requires
            self.wf(entries),
            self.is_allocated(first),
            self.is_allocated(second),
            first != second,
            entries < END_OF_LIST,
        ensures
            self.allocated() > 1,
    {
        self.lemma_given_back(first as u32, entries);
        self.given_back(first as u32).lemma_given_back(second as u32, entries);
    }

    /// The positions of the allocated entries.
    pub open spec fn live(self) -> Set<int> {
        Set::new(|i: int| self.is_allocated(i))
    }

    /// The allocated entries are as many as the slab has counted.
    pub proof fn lemma_live(self, entries: int)
        requires
            self.wf(entries),
            entries < END_OF_LIST,
        ensures
            self.live().finite(),
            self.live().len() == self.allocated(),
    {
        let below = vstd::set_lib::set_int_range(0, self.peak);
        vstd::set_lib::lemma_int_range(0, self.peak);
        let list = self.free.map_values(|k: u32| k as int);
        assert(list.no_duplicates());
        list.unique_seq_to_set();
        let free = list.to_set();
        vstd::seq_lib::seq_to_set_is_finite(list);
        assert forall|k: int| #[trigger] free.contains(k) <==> 0 <= k < self.peak
            && self.free.contains(k as u32) by {
            if free.contains(k) {
                let j = choose|j: int| 0 <= j < list.len() && list[j] == k;
                assert(self.free[j] == k);
                assert(self.free.contains(self.free[j]));
            }
            if 0 <= k < self.peak && self.free.contains(k as u32) {
                let j = choose|j: int| 0 <= j < self.free.len() && self.free[j] == k as u32;
                assert(list[j] == k);
            }
        }
        vstd::set_lib::lemma_set_subset_finite(below, self.live());
        vstd::set_lib::lemma_set_disjoint_lens(self.live(), free);
        assert(self.live() + free =~= below);
    }

    /// As long as an entry is allocated the free entries are fewer than those below the peak.
    proof fn lemma_free_fits(self, index: u32)
        requires
            self.free.no_duplicates(),
            forall|i: int| 0 <= i < self.free.len() ==> (#[trigger] self.free[i]) < self.peak,
            0 <= index < self.peak,
            !self.free.contains(index),
        ensures
            self.free.len() < self.peak,
    {
        let below = vstd::set_lib::set_int_range(0, self.peak);
        vstd::set_lib::lemma_int_range(0, self.peak);
        let free = self.free.map_values(|k: u32| k as int);
        assert(free.no_duplicates());
        free.unique_seq_to_set();
        assert(free.to_set().subset_of(below.remove(index as int))) by {
            assert forall|k: int| free.to_set().contains(k) implies below.remove(
                index as int,
            ).contains(k) by {
                let j = choose|j: int| 0 <= j < free.len() && free[j] == k;
                assert(self.free[j] == k);
                assert(self.free.contains(self.free[j]));
            }
        }
        vstd::set_lib::lemma_len_subset(free.to_set(), below.remove(index as int));
    }
}

/// A slab. The free entries are linked through their own first words.
pub struct Slab {
    page: VmPagePtr,
    id: u32,
    free_slot: u32,
    peak_allocated: u32,
    allocated: u32,
    words: Vec<u64>,
    free: Ghost<Seq<u32>>,
}

impl View for Slab {
    type V = SlabState;

    closed spec fn view(&self) -> SlabState {
        SlabState {
            page: self.page,
            id: self.id,
            free: self.free@,
            peak: self.peak_allocated as int,
            words: self.words@,
        }
    }
}

impl Slab {
    /// The free list starts at `free_slot` and goes through the first words of its entries.
    pub closed spec fn linked(self) -> bool {
        let free = self.free@;
        &&& self.free_slot == if free.len() == 0 {
            END_OF_LIST
        } else {
            free[0]
        }
        &&& forall|i: int|
            #![trigger free[i]]
            0 <= i < free.len() ==> self.words@[free[i] as int] == if i + 1 < free.len() {
                free[i + 1] as u64
            } else {
                END_OF_LIST as u64
            }
        &&& self.allocated == self@.allocated()
    }

    pub open spec fn wf(self, entries: int) -> bool {
        self@.wf(entries) && self.linked()
    }

    /// A slab of which nothing has been allocated.
    pub fn new(page: VmPagePtr, id: u32, entries: usize) -> (slab: Slab)
        ensures
            slab.wf(entries as int),
            slab@ == SlabState::fresh(page, id, entries as int),
    {
        let mut words: Vec<u64> = Vec::new();
        let mut i: usize = 0;
        while i < entries
            invariant
                i <= entries,
                words@.len() == i,
                forall|j: int| 0 <= j < i ==> #[trigger] words@[j] == 0,
            decreases entries - i,
        {
            words.push(0);
            i = i + 1;
        }
        let slab = Slab {
            page,
            id,
            free_slot: END_OF_LIST,
            peak_allocated: 0,
            allocated: 0,
            words,
            free: Ghost(Seq::empty()),
        };
        assert(slab@ =~= SlabState::fresh(page, id, entries as int));
        slab
    }

    pub fn page(&self) -> (page: VmPagePtr)
        ensures
            page == self@.page,
    {
        self.page
    }

    pub fn id(&self) -> (id: u32)
        ensures
            id == self@.id,
    {
        self.id
    }

    pub fn allocated(&self) -> (allocated: u32)
        requires
            self.linked(),
        ensures
            allocated == self@.allocated(),
    {
        self.allocated
    }

    /// Allocates an entry.
    pub fn take(&mut self, entries: usize) -> (index: u32)
        requires
            old(self).wf(entries as int),
            old(self)@.allocated() < entries < END_OF_LIST,
        ensures
            final(self).wf(entries as int),
            index == old(self)@.next(),
            final(self)@ == old(self)@.taken(),
    {
        proof {
            self@.lemma_taken(entries as int);
        }
        let ghost free = self.free@;
        let index: u32;
        if self.free_slot == END_OF_LIST {
            proof {
                if free.len() > 0 {
                    assert(free[0] < self@.peak);
                }
            }
            index = self.peak_allocated;
            self.peak_allocated = self.peak_allocated + 1;
        } else {
            index = self.free_slot;
            assert(free[0] == index);
            let next: u64 = self.words[index as usize];
            proof {
                if free.len() > 1 {
                    assert(free[1] < self@.peak);
                }
            }
            self.free_slot = next as u32;
            self.free = Ghost(free.skip(1));
            proof {
                let rest = free.skip(1);
                assert forall|i: int|
                    #![trigger rest[i]]
                    0 <= i < rest.len() implies self.words@[rest[i] as int] == if i + 1
                    < rest.len() {
                    rest[i + 1] as u64
                } else {
                    END_OF_LIST as u64
                } by {
                    assert(rest[i] == free[i + 1]);
                }
            }
        }
        self.allocated = self.allocated + 1;
        index
    }

    /// Frees an entry.
    pub fn give_back(&mut self, index: u32, entries: usize)
        requires
            old(self).wf(entries as int),
            old(self)@.is_allocated(index as int),
            entries < END_OF_LIST,
        ensures
            final(self).wf(entries as int),
            final(self)@ == old(self)@.given_back(index),
    {
        proof {
            self@.lemma_given_back(index, entries as int);
        }
        let ghost free = self.free@;
        let ghost words = self.words@;
        self.allocated = self.allocated - 1;
        self.words.set(index as usize, self.free_slot as u64);
        self.free_slot = index;
        self.free = Ghost(seq![index] + free);
        proof {
            let all = seq![index] + free;
            assert forall|i: int|
                #![trigger all[i]]
                0 <= i < all.len() implies self.words@[all[i] as int] == if i + 1 < all.len() {
                all[i + 1] as u64
            } else {
                END_OF_LIST as u64
            } by {
                if i > 0 {
                    assert(all[i] == free[i - 1]);
                    assert(free.contains(free[i - 1]));
                    assert(free[i - 1] != index);
                }
            }
            assert(self@ =~= old(self)@.given_back(index));
        }
    }

    /// Reads the first word of an allocated entry.
    pub fn read(&self, index: u32) -> (word: u64)
        requires
            index < self@.words.len(),
        ensures
            word == self@.words[index as int],
    {
        self.words[index as usize]
    }

    /// Writes the first word of an allocated entry.
    pub fn write(&mut self, index: u32, word: u64, entries: usize)
        requires
            old(self).wf(entries as int),
            old(self)@.is_allocated(index as int),
        ensures
            final(self).wf(entries as int),
            final(self)@ == old(self)@.written(index as int, word),
    {
        let ghost free = self.free@;
        self.words.set(index as usize, word);
        proof {
            assert forall|i: int|
                #![trigger free[i]]
                0 <= i < free.len() implies self.words@[free[i] as int] == if i + 1 < free.len() {
                free[i + 1] as u64
            } else {
                END_OF_LIST as u64
            } by {
                assert(free.contains(free[i]));
            }
            assert(self@ =~= old(self)@.written(index as int, word));
        }
    }
}

} // verus!
