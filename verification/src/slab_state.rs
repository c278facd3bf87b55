//! The mathematical model of a slab allocator.

use vstd::arithmetic::power2::is_pow2;
use vstd::prelude::*;

use crate::pmm_node::page_at;
use crate::slab::SlabState;
use crate::vm_page::{lemma_erase, VmPagePtr};

verus! {

/// A slab as its provider hands it out.
#[derive(PartialEq, Eq, Structural, Clone, Copy, Debug)]
pub struct SlabPage {
    pub page: VmPagePtr,
    /// The number that tells the slab from the others of its provider.
    pub id: u32,
}

/// The sizes of allocations that are supported: an allocation holds the link to the next free one
/// and is aligned for it, and is smaller than a page.
pub open spec fn size_ok(alloc_size: int) -> bool {
    4 <= alloc_size < 4096 && alloc_size % 4 == 0
}

/// How many allocations of this size a slab holds.
pub open spec fn per_slab(alloc_size: int) -> int {
    4096int / alloc_size
}

/// `slabs` slabs hold at least `num_allocs` allocations of this size.
pub open spec fn slabs_hold(slabs: int, alloc_size: int, num_allocs: int) -> bool {
    slabs * per_slab(alloc_size) >= num_allocs
}

/// The position within its slab of the allocation at `address`.
pub open spec fn index_at(address: u64, alloc_size: int) -> int {
    (address as int % 4096) / alloc_size
}

/// The address of an entry.
pub open spec fn entry_address(page: VmPagePtr, index: int, alloc_size: int) -> u64 {
    (page.paddr + index * alloc_size) as u64
}

/// The state of a `PageSlabAllocator`.
#[verifier::ext_equal]
pub struct SlabsState {
    /// The slabs, by their pages.
    pub slabs: Map<VmPagePtr, SlabState>,
    /// The slabs with nothing left to allocate.
    pub full: Seq<VmPagePtr>,
    /// The others; allocations are made from the first of them.
    pub available: Seq<VmPagePtr>,
}

impl SlabsState {
    pub open spec fn wf(self, alloc_size: int) -> bool {
        let entries = per_slab(alloc_size);
        &&& self.full.no_duplicates()
        &&& self.available.no_duplicates()
        &&& forall|p: VmPagePtr| #[trigger]
            self.slabs.contains_key(p) <==> self.full.contains(p) || self.available.contains(p)
        &&& forall|p: VmPagePtr| #[trigger]
            self.full.contains(p) ==> self.slabs[p].allocated() == entries
        &&& forall|p: VmPagePtr| #[trigger]
            self.available.contains(p) ==> 0 < self.slabs[p].allocated() < entries
        &&& forall|p: VmPagePtr| #[trigger]
            self.slabs.contains_key(p) ==> self.slabs[p].wf(entries) && self.slabs[p].page == p
                && p.paddr % 4096 == 0 && p.paddr + 4096 <= u64::MAX
    }

    /// The allocation at `address` has been made and not been freed.
    pub open spec fn is_allocated(self, address: u64, alloc_size: int) -> bool {
        &&& self.slabs.contains_key(page_at(address))
        &&& address as int % 4096 % alloc_size == 0
        &&& self.slabs[page_at(address)].is_allocated(index_at(address, alloc_size))
    }

    /// The first word of the allocation at `address`.
    pub open spec fn word(self, address: u64, alloc_size: int) -> u64 {
        self.slabs[page_at(address)].words[index_at(address, alloc_size)]
    }

    /// The number of the slab of the allocation at `address`.
    pub open spec fn slab_id(self, address: u64) -> u32 {
        self.slabs[page_at(address)].id
    }

    /// A slab without allocations is added to the available ones.
    pub open spec fn added(self, slab: SlabPage, alloc_size: int) -> SlabsState {
        SlabsState {
            slabs: self.slabs.insert(
                slab.page,
                SlabState::fresh(slab.page, slab.id, per_slab(alloc_size)),
            ),
            available: seq![slab.page] + self.available,
            ..self
        }
    }

    /// The address of the next allocation.
    pub open spec fn next_address(self, alloc_size: int) -> u64 {
        let page = self.available[0];
        entry_address(page, self.slabs[page].next() as int, alloc_size)
    }

    /// An allocation is made from the first available slab.
    pub open spec fn taken(self, alloc_size: int) -> SlabsState {
        let page = self.available[0];
        let slab = self.slabs[page].taken();
        let slabs = self.slabs.insert(page, slab);
        if slab.allocated() == per_slab(alloc_size) {
            SlabsState { slabs, full: seq![page] + self.full, available: self.available.skip(1) }
        } else {
            SlabsState { slabs, ..self }
        }
    }

    /// The slab of the allocation at `address` goes with it.
    pub open spec fn is_last(self, address: u64) -> bool {
        self.slabs[page_at(address)].allocated() == 1
    }

    /// The allocation at `address` is freed. A slab that becomes empty is given up; where a slab
    /// holds one allocation only it was full before. Any other slab that was full becomes available
    /// after all the others, so that allocations fill up a page rather than bounce between
    /// partially full ones.
    pub open spec fn given_back(self, address: u64, alloc_size: int) -> SlabsState {
        let page = page_at(address);
        let slab = self.slabs[page].given_back(index_at(address, alloc_size) as u32);
        if self.is_last(address) && per_slab(alloc_size) == 1 {
            SlabsState {
                slabs: self.slabs.remove(page),
                full: self.full.remove_value(page),
                ..self
            }
        } else if self.is_last(address) {
            SlabsState {
                slabs: self.slabs.remove(page),
                available: self.available.remove_value(page),
                ..self
            }
        } else if self.slabs[page].allocated() == per_slab(alloc_size) {
            SlabsState {
                slabs: self.slabs.insert(page, slab),
                full: self.full.remove_value(page),
                available: self.available.push(page),
            }
        } else {
            SlabsState { slabs: self.slabs.insert(page, slab), ..self }
        }
    }

    /// The first word of the allocation at `address` is written.
    pub open spec fn written(self, address: u64, word: u64, alloc_size: int) -> SlabsState {
        let page = page_at(address);
        SlabsState {
            slabs: self.slabs.insert(
                page,
                self.slabs[page].written(index_at(address, alloc_size), word),
            ),
            ..self
        }
    }
}

/// The entries of a slab lie within its page, and an entry's address leads back to its page and
/// its position.
pub proof fn lemma_entry(page: VmPagePtr, index: int, alloc_size: int)
    requires
        size_ok(alloc_size),
        page.paddr % 4096 == 0,
        page.paddr + 4096 <= u64::MAX,
        0 <= index < per_slab(alloc_size),
    ensures
        entry_address(page, index, alloc_size) == page.paddr + index * alloc_size,
        0 <= index * alloc_size <= 4096 - alloc_size,
        page_at(entry_address(page, index, alloc_size)) == page,
        index_at(entry_address(page, index, alloc_size), alloc_size) == index,
        entry_address(page, index, alloc_size) as int % 4096 % alloc_size == 0,
{
    assert(0 <= index * alloc_size <= 4096 - alloc_size) by (nonlinear_arith)
        requires
            4 <= alloc_size < 4096,
            0 <= index < 4096int / alloc_size,
    ;
    let offset = index * alloc_size;
    let address = entry_address(page, index, alloc_size);
    assert(address == page.paddr + offset);
    assert(address as int % 4096 == offset);
    vstd::arithmetic::div_mod::lemma_div_by_multiple(index, alloc_size);
    vstd::arithmetic::div_mod::lemma_mod_multiples_basic(index, alloc_size);
}

/// An address that an allocation can have is the address of an entry.
pub proof fn lemma_address(address: u64, alloc_size: int)
    requires
        size_ok(alloc_size),
        address as int % 4096 % alloc_size == 0,
        index_at(address, alloc_size) < per_slab(alloc_size),
        page_at(address).paddr + 4096 <= u64::MAX,
    ensures
        entry_address(page_at(address), index_at(address, alloc_size), alloc_size) == address,
        0 <= index_at(address, alloc_size),
{
    let offset = address as int % 4096;
    vstd::arithmetic::div_mod::lemma_fundamental_div_mod(offset, alloc_size);
    assert((offset / alloc_size) * alloc_size == offset) by (nonlinear_arith)
        requires
            offset == alloc_size * (offset / alloc_size) + offset % alloc_size,
            offset % alloc_size == 0,
    ;
    vstd::arithmetic::div_mod::lemma_div_pos_is_pos(offset, alloc_size);
}

/// The smaller of two powers of two divides the larger.
proof fn lemma_pow2_divides(small: int, large: int)
    requires
        is_pow2(small),
        is_pow2(large),
        small <= large,
    ensures
        small > 0,
        large % small == 0,
    decreases small,
{
    reveal_with_fuel(is_pow2, 2);
    if small > 1 {
        lemma_pow2_divides(small / 2, large / 2);
        let s = small / 2;
        let l = large / 2;
        vstd::arithmetic::div_mod::lemma_fundamental_div_mod(l, s);
        assert(large == (l / s) * small) by (nonlinear_arith)
            requires
                large == 2 * l,
                small == 2 * s,
                l == s * (l / s) + l % s,
                l % s == 0,
        ;
        vstd::arithmetic::div_mod::lemma_mod_multiples_basic(l / s, small);
    }
}

/// An allocation has every alignment that divides its size.
pub proof fn lemma_aligned(address: int, alloc_size: int, align: int)
    requires
        size_ok(alloc_size),
        address % 4096 % alloc_size == 0,
        is_pow2(align),
        alloc_size % align == 0,
    ensures
        address % align == 0,
{
    let offset = address % 4096;
    reveal_with_fuel(is_pow2, 14);
    assert(align > 0);
    assert(align <= alloc_size) by {
        if alloc_size < align {
            vstd::arithmetic::div_mod::lemma_small_mod(alloc_size as nat, align as nat);
        }
    }
    lemma_pow2_divides(align, 4096);
    vstd::arithmetic::div_mod::lemma_fundamental_div_mod(address, 4096);
    vstd::arithmetic::div_mod::lemma_fundamental_div_mod(offset, alloc_size);
    vstd::arithmetic::div_mod::lemma_fundamental_div_mod(4096, align);
    vstd::arithmetic::div_mod::lemma_fundamental_div_mod(alloc_size, align);
    let q = (4096int / align) * (address / 4096) + (alloc_size / align) * (offset / alloc_size);
    assert(address == q * align) by (nonlinear_arith)
        requires
            address == 4096 * (address / 4096) + offset,
            offset == alloc_size * (offset / alloc_size),
            4096 == align * (4096int / align),
            alloc_size == align * (alloc_size / align),
            q == (4096int / align) * (address / 4096) + (alloc_size / align) * (offset
                / alloc_size),
    ;
    vstd::arithmetic::div_mod::lemma_mod_multiples_basic(q, align);
}

/// A slab holds at least one allocation, and few enough to count them.
pub proof fn lemma_per_slab(alloc_size: int)
    requires
        size_ok(alloc_size),
    ensures
        1 <= per_slab(alloc_size) <= 1024,
{
    assert(1 <= 4096int / alloc_size <= 1024) by (nonlinear_arith)
        requires
            4 <= alloc_size < 4096,
    ;
}

impl SlabsState {
    /// Every allocation lies within one page, and no two of them overlap.
    pub proof fn lemma_no_overlap(self, first: u64, second: u64, alloc_size: int)
        requires
            size_ok(alloc_size),
            self.wf(alloc_size),
            self.is_allocated(first, alloc_size),
            self.is_allocated(second, alloc_size),
            first != second,
        ensures
            first as int % 4096 + alloc_size <= 4096,
            first + alloc_size <= second || second + alloc_size <= first,
    {
        let p = page_at(first);
        let q = page_at(second);
        let i = index_at(first, alloc_size);
        let j = index_at(second, alloc_size);
        lemma_address(first, alloc_size);
        lemma_address(second, alloc_size);
        lemma_entry(p, i, alloc_size);
        lemma_entry(q, j, alloc_size);
        if p == q {
            assert(i != j);
            assert(i < j ==> i * alloc_size + alloc_size <= j * alloc_size) by (nonlinear_arith)
                requires
                    alloc_size > 0,
            ;
            assert(j < i ==> j * alloc_size + alloc_size <= i * alloc_size) by (nonlinear_arith)
                requires
                    alloc_size > 0,
            ;
        }
    }

    /// An allocation is at an address where there was none. It leaves the other allocations, and
    /// what they hold, as they were.
    pub proof fn lemma_taken(self, alloc_size: int)
        requires
            size_ok(alloc_size),
            self.available.len() > 0,
            self.slabs_ok(alloc_size),
            forall|p: VmPagePtr| #[trigger]
                self.available.contains(p) ==> 0 <= self.slabs[p].allocated() < per_slab(alloc_size),
            forall|i: int|
                1 <= i < self.available.len() ==> 0 < self.slabs[
                    #[trigger] self.available[i]
                ].allocated(),
        ensures
            self.taken(alloc_size).wf(alloc_size),
            !self.is_allocated(self.next_address(alloc_size), alloc_size),
            self.taken(alloc_size).is_allocated(self.next_address(alloc_size), alloc_size),
            page_at(self.next_address(alloc_size)) == self.available[0],
            index_at(self.next_address(alloc_size), alloc_size) == self.slabs[
                self.available[0]
            ].next(),
            self.next_address(alloc_size) == self.available[0].paddr + self.slabs[
                self.available[0]
            ].next() * alloc_size,
            forall|a: u64|
                a != self.next_address(alloc_size) ==> #[trigger] self.taken(
                    alloc_size,
                ).is_allocated(a, alloc_size) == self.is_allocated(a, alloc_size),
            forall|a: u64|
                self.is_allocated(a, alloc_size) ==> #[trigger] self.taken(alloc_size).word(
                    a,
                    alloc_size,
                ) == self.word(a, alloc_size),
            forall|a: u64|
                self.is_allocated(a, alloc_size) ==> #[trigger] self.taken(alloc_size).slab_id(a)
                    == self.slab_id(a),
            self.taken(alloc_size).slabs.dom() == self.slabs.dom(),
            self.taken(alloc_size).full.len() + self.taken(alloc_size).available.len()
                == self.full.len() + self.available.len(),
    {
        let entries = per_slab(alloc_size);
        let page = self.available[0];
        let slab = self.slabs[page];
        let index = slab.next();
        lemma_per_slab(alloc_size);
        assert(self.available.contains(page));
        assert(self.slabs.contains_key(page));
        slab.lemma_taken(entries);
        lemma_entry(page, index as int, alloc_size);
        let after = self.taken(alloc_size);
        let address = self.next_address(alloc_size);
        assert forall|a: u64| a != address implies #[trigger] after.is_allocated(a, alloc_size)
            == self.is_allocated(a, alloc_size) by {
            if page_at(a) == page && a as int % 4096 % alloc_size == 0 {
                let i = index_at(a, alloc_size);
                if 0 <= i < entries {
                    lemma_address(a, alloc_size);
                    assert(i != index);
                    assert(slab.taken().is_allocated(i) == slab.is_allocated(i));
                }
            }
        }
        assert(after.slabs.dom() =~= self.slabs.dom());
        assert forall|p: VmPagePtr| #[trigger] self.available.contains(p) && p != page implies 0
            < self.slabs[p].allocated() by {
            let i = choose|i: int| 0 <= i < self.available.len() && self.available[i] == p;
        }
        if slab.taken().allocated() == entries {
            crate::pmm_model::lemma_divide(self.available, 1);
            assert forall|p: VmPagePtr| #[trigger] self.available.take(1).contains(p) implies p
                == page by {
                let i = choose|i: int|
                    0 <= i < self.available.take(1).len() && self.available.take(1)[i] == p;
            }
            assert(self.available.take(1)[0] == page);
            assert(self.available.take(1).contains(page));
            assert(seq![page].no_duplicates());
            assert(!self.full.contains(page));
            assert forall|p: VmPagePtr| #[trigger] seq![page].contains(p) implies p == page by {}
            crate::pmm_model::lemma_unite(seq![page], self.full);
            assert(seq![page][0] == page);
            assert(seq![page].contains(page));
        }
    }

    /// What holds of the slabs and the two lists apart from how much is allocated.
    pub open spec fn slabs_ok(self, alloc_size: int) -> bool {
        let entries = per_slab(alloc_size);
        &&& self.full.no_duplicates()
        &&& self.available.no_duplicates()
        &&& forall|p: VmPagePtr| #[trigger]
            self.slabs.contains_key(p) <==> self.full.contains(p) || self.available.contains(p)
        &&& forall|p: VmPagePtr| #[trigger]
            self.full.contains(p) ==> self.slabs[p].allocated() == entries
        &&& forall|p: VmPagePtr| #[trigger]
            self.slabs.contains_key(p) ==> self.slabs[p].wf(entries) && self.slabs[p].page == p
                && p.paddr % 4096 == 0 && p.paddr + 4096 <= u64::MAX
    }

    /// A new slab changes no allocation.
    pub proof fn lemma_added(self, slab: SlabPage, alloc_size: int)
        requires
            size_ok(alloc_size),
            self.wf(alloc_size),
            !self.slabs.contains_key(slab.page),
            slab.page.paddr % 4096 == 0,
            slab.page.paddr + 4096 <= u64::MAX,
        ensures
            self.added(slab, alloc_size).slabs_ok(alloc_size),
            forall|a: u64| #[trigger]
                self.added(slab, alloc_size).is_allocated(a, alloc_size) == self.is_allocated(
                    a,
                    alloc_size,
                ),
            forall|a: u64|
                self.is_allocated(a, alloc_size) ==> #[trigger] self.added(slab, alloc_size).word(
                    a,
                    alloc_size,
                ) == self.word(a, alloc_size),
            forall|a: u64|
                self.is_allocated(a, alloc_size) ==> #[trigger] self.added(slab, alloc_size).slab_id(
                    a,
                ) == self.slab_id(a),
            self.added(slab, alloc_size).slabs.dom() == self.slabs.dom().insert(slab.page),
            forall|p: VmPagePtr| #[trigger]
                self.added(slab, alloc_size).available.contains(p) <==> self.available.contains(p)
                    || p == slab.page,
            self.added(slab, alloc_size).slabs[slab.page].allocated() == 0,
    {
        lemma_per_slab(alloc_size);
        let page = slab.page;
        let after = self.added(slab, alloc_size);
        assert(seq![page].no_duplicates());
        assert forall|p: VmPagePtr| #[trigger] seq![page].contains(p) implies p == page by {}
        assert(!self.available.contains(page));
        crate::pmm_model::lemma_unite(seq![page], self.available);
        assert(seq![page][0] == page);
        assert(seq![page].contains(page));
        assert(after.slabs.dom() =~= self.slabs.dom().insert(page));
        assert(after.slabs[page].wf(per_slab(alloc_size)));
    }

    /// Freeing an allocation leaves the others, and what they hold, as they were.
    pub proof fn lemma_given_back(self, address: u64, alloc_size: int)
        requires
            size_ok(alloc_size),
            self.wf(alloc_size),
            self.is_allocated(address, alloc_size),
        ensures
            self.given_back(address, alloc_size).wf(alloc_size),
            !self.given_back(address, alloc_size).is_allocated(address, alloc_size),
            forall|a: u64|
                a != address ==> #[trigger] self.given_back(address, alloc_size).is_allocated(
                    a,
                    alloc_size,
                ) == self.is_allocated(a, alloc_size),
            forall|a: u64|
                a != address && self.is_allocated(a, alloc_size) ==> #[trigger] self.given_back(
                    address,
                    alloc_size,
                ).word(a, alloc_size) == self.word(a, alloc_size),
            forall|a: u64|
                a != address && self.is_allocated(a, alloc_size) ==> #[trigger] self.given_back(
                    address,
                    alloc_size,
                ).slab_id(a) == self.slab_id(a),
            self.is_last(address) ==> if per_slab(alloc_size) == 1 {
                self.full.contains(page_at(address))
            } else {
                self.available.contains(page_at(address))
            },
            self.given_back(address, alloc_size).slabs.dom() == if self.is_last(address) {
                self.slabs.dom().remove(page_at(address))
            } else {
                self.slabs.dom()
            },
            self.given_back(address, alloc_size).full.len() + self.given_back(
                address,
                alloc_size,
            ).available.len() == self.full.len() + self.available.len() - (if self.is_last(
                address,
            ) {
                1int
            } else {
                0
            }),
    {
        let entries = per_slab(alloc_size);
        let page = page_at(address);
        let slab = self.slabs[page];
        let index = index_at(address, alloc_size);
        let after = self.given_back(address, alloc_size);
        lemma_per_slab(alloc_size);
        lemma_address(address, alloc_size);
        slab.lemma_given_back(index as u32, entries);
        assert forall|a: u64| a != address implies #[trigger] after.is_allocated(a, alloc_size)
            == self.is_allocated(a, alloc_size) && (self.is_allocated(a, alloc_size)
            ==> after.word(a, alloc_size) == self.word(a, alloc_size)) by {
            if page_at(a) == page && a as int % 4096 % alloc_size == 0 {
                let i = index_at(a, alloc_size);
                if 0 <= i < entries {
                    lemma_address(a, alloc_size);
                    assert(i != index);
                    assert(slab.given_back(index as u32).is_allocated(i) == slab.is_allocated(i));
                    if self.is_last(address) && slab.is_allocated(i) {
                        slab.lemma_two(index, i, entries);
                    }
                }
            }
        }
        assert forall|a: u64| a != address && self.is_allocated(a, alloc_size) implies
            #[trigger] after.word(a, alloc_size) == self.word(a, alloc_size) by {
            assert(after.is_allocated(a, alloc_size) == self.is_allocated(a, alloc_size));
        }
        assert forall|a: u64| a != address && self.is_allocated(a, alloc_size) implies
            #[trigger] after.slab_id(a) == self.slab_id(a) by {
            assert(after.is_allocated(a, alloc_size) == self.is_allocated(a, alloc_size));
        }
        if self.is_last(address) {
            assert(self.full.contains(page) || self.available.contains(page));
            assert(!(self.full.contains(page) && self.available.contains(page)));
            if entries == 1 {
                assert(self.full.contains(page));
                lemma_erase(self.full, page);
            } else {
                assert(self.available.contains(page));
                lemma_erase(self.available, page);
            }
            assert(after.slabs.dom() =~= self.slabs.dom().remove(page));
        } else {
            assert(after.slabs.dom() =~= self.slabs.dom());
            if slab.allocated() == entries {
                assert(self.full.contains(page));
                lemma_erase(self.full, page);
                assert(!self.available.contains(page));
                let available = self.available.push(page);
                assert forall|p: VmPagePtr| #[trigger] available.contains(p)
                    <==> self.available.contains(p) || p == page by {
                    if self.available.contains(p) {
                        let i = choose|i: int|
                            0 <= i < self.available.len() && self.available[i] == p;
                        assert(available[i] == p);
                    }
                    assert(available[self.available.len() as int] == page);
                }
            }
        }
    }

    /// Writing to an allocation changes what it holds and nothing else.
    pub proof fn lemma_written(self, address: u64, word: u64, alloc_size: int)
        requires
            size_ok(alloc_size),
            self.wf(alloc_size),
            self.is_allocated(address, alloc_size),
        ensures
            self.written(address, word, alloc_size).wf(alloc_size),
            self.written(address, word, alloc_size).word(address, alloc_size) == word,
            forall|a: u64| #[trigger]
                self.written(address, word, alloc_size).is_allocated(a, alloc_size)
                    == self.is_allocated(a, alloc_size),
            forall|a: u64|
                a != address && self.is_allocated(a, alloc_size) ==> #[trigger] self.written(
                    address,
                    word,
                    alloc_size,
                ).word(a, alloc_size) == self.word(a, alloc_size),
            forall|a: u64| #[trigger]
                self.written(address, word, alloc_size).slab_id(a) == self.slab_id(a),
            self.written(address, word, alloc_size).slabs.dom() == self.slabs.dom(),
    {
        let page = page_at(address);
        lemma_address(address, alloc_size);
        let after = self.written(address, word, alloc_size);
        assert(after.slabs.dom() =~= self.slabs.dom());
        assert forall|a: u64| a != address && self.is_allocated(a, alloc_size) implies
            #[trigger] after.word(a, alloc_size) == self.word(a, alloc_size) by {
            if page_at(a) == page {
                lemma_address(a, alloc_size);
            }
        }
    }
}

impl SlabsState {
    /// The addresses of all allocations.
    pub open spec fn allocations(self, alloc_size: int) -> Set<int> {
        Set::new(|a: int| 0 <= a <= u64::MAX && self.is_allocated(a as u64, alloc_size))
    }

    /// The number of slabs.
    pub open spec fn slab_count(self) -> int {
        (self.full.len() + self.available.len()) as int
    }

    /// The addresses of the allocations in `pages`.
    spec fn live(self, pages: Seq<VmPagePtr>, alloc_size: int) -> Set<int> {
        Set::new(
            |a: int|
                0 <= a <= u64::MAX && pages.contains(page_at(a as u64)) && self.is_allocated(
                    a as u64,
                    alloc_size,
                ),
        )
    }

    /// How much is allocated in `pages`, going by what each slab has counted.
    spec fn total(self, pages: Seq<VmPagePtr>) -> int
        decreases pages.len(),
    {
        if pages.len() == 0 {
            0
        } else {
            self.total(pages.drop_last()) + self.slabs[pages.last()].allocated()
        }
    }

    /// Where the first `full` of `pages` are full, and the others have something allocated and
    /// something left.
    proof fn lemma_total(self, pages: Seq<VmPagePtr>, full: int, entries: int)
        requires
            0 <= full <= pages.len(),
            forall|i: int|
                0 <= i < full ==> self.slabs[#[trigger] pages[i]].allocated() == entries,
            forall|i: int|
                full <= i < pages.len() ==> 0 < self.slabs[#[trigger] pages[i]].allocated()
                    < entries,
        ensures
            full * entries + (pages.len() - full) <= self.total(pages),
            self.total(pages) <= pages.len() * entries - (pages.len() - full),
        decreases pages.len(),
    {
        if pages.len() > 0 {
            let rest = pages.drop_last();
            let n = pages.len() as int;
            assert(pages[n - 1] == pages.last());
            if full == n {
                self.lemma_total(rest, full - 1, entries);
            } else {
                self.lemma_total(rest, full, entries);
            }
            assert((n - 1) * entries == n * entries - entries && (full - 1) * entries == full
                * entries - entries) by (nonlinear_arith);
        }
    }

    /// The allocations in `pages` are as many as the slabs have counted.
    proof fn lemma_live(self, pages: Seq<VmPagePtr>, alloc_size: int)
        requires
            size_ok(alloc_size),
            self.wf(alloc_size),
            pages.no_duplicates(),
            forall|p: VmPagePtr| #[trigger] pages.contains(p) ==> self.slabs.contains_key(p),
        ensures
            self.live(pages, alloc_size).finite(),
            self.live(pages, alloc_size).len() == self.total(pages),
        decreases pages.len(),
    {
        let all = self.live(pages, alloc_size);
        if pages.len() == 0 {
            assert(all =~= Set::empty());
        } else {
            let entries = per_slab(alloc_size);
            lemma_per_slab(alloc_size);
            let rest = pages.drop_last();
            let page = pages.last();
            let slab = self.slabs[page];
            assert(pages[pages.len() - 1] == page);
            assert forall|p: VmPagePtr| #[trigger] pages.contains(p) <==> rest.contains(p) || p
                == page by {
                if pages.contains(p) && p != page {
                    let i = choose|i: int| 0 <= i < pages.len() && pages[i] == p;
                    assert(rest[i] == p);
                }
                if rest.contains(p) {
                    let i = choose|i: int| 0 <= i < rest.len() && rest[i] == p;
                    assert(pages[i] == p);
                }
            }
            assert(!rest.contains(page));
            assert(pages.contains(page));
            assert forall|p: VmPagePtr| #[trigger] rest.contains(p) implies self.slabs.contains_key(
                p,
            ) by {
                assert(pages.contains(p));
            }
            self.lemma_live(rest, alloc_size);
            slab.lemma_live(entries);
            let address = |i: int| entry_address(page, i, alloc_size) as int;
            let here = slab.live().map(address);
            assert forall|i: int, j: int|
                slab.live().contains(i) && slab.live().contains(j) && #[trigger] address(i)
                    == #[trigger] address(j) implies i == j by {
                lemma_entry(page, i, alloc_size);
                lemma_entry(page, j, alloc_size);
            }
            vstd::set_lib::lemma_map_size(slab.live(), here, address);
            assert forall|a: int| #[trigger] here.contains(a) implies 0 <= a <= u64::MAX
                && page_at(a as u64) == page && self.is_allocated(a as u64, alloc_size) by {
                let i = choose|i: int| slab.live().contains(i) && address(i) == a;
                lemma_entry(page, i, alloc_size);
            }
            assert forall|a: int| #[trigger] all.contains(a) implies self.live(
                rest,
                alloc_size,
            ).contains(a) || here.contains(a) by {
                if page_at(a as u64) == page {
                    let i = index_at(a as u64, alloc_size);
                    lemma_address(a as u64, alloc_size);
                    assert(slab.live().contains(i) && address(i) == a);
                }
            }
            vstd::set_lib::lemma_set_disjoint_lens(self.live(rest, alloc_size), here);
            assert(self.live(rest, alloc_size) + here =~= all);
        }
    }

    /// Every slab has something allocated in it, none holds more than fits, and all of them are
    /// full just when there are as many allocations as fit into all of them.
    pub proof fn lemma_allocation_count(self, alloc_size: int)
        requires
            size_ok(alloc_size),
            self.wf(alloc_size),
        ensures
            self.allocations(alloc_size).finite(),
            self.slab_count() <= self.allocations(alloc_size).len() <= self.slab_count() * per_slab(
                alloc_size,
            ),
            self.available.len() == 0 <==> self.allocations(alloc_size).len() == self.slab_count()
                * per_slab(alloc_size),
    {
        let entries = per_slab(alloc_size);
        let pages = self.full + self.available;
        lemma_per_slab(alloc_size);
        crate::pmm_model::lemma_unite(self.full, self.available);
        self.lemma_live(pages, alloc_size);
        assert(self.live(pages, alloc_size) =~= self.allocations(alloc_size));
        assert forall|i: int| 0 <= i < self.full.len() implies self.slabs[
            #[trigger] pages[i]
        ].allocated() == entries by {
            assert(self.full.contains(self.full[i]));
        }
        assert forall|i: int| self.full.len() <= i < pages.len() implies 0 < self.slabs[
            #[trigger] pages[i]
        ].allocated() < entries by {
            assert(self.available.contains(self.available[i - self.full.len()]));
        }
        self.lemma_total(pages, self.full.len() as int, entries);
        assert(self.full.len() <= self.full.len() * entries) by (nonlinear_arith)
            requires
                1 <= entries,
        ;
    }
}

} // verus!
