//! Physical pages, what is recorded about each of them, and lists of them.

use vstd::prelude::*;
use std::collections::VecDeque;

verus! {

/// The states a physical page can be in.
#[allow(non_camel_case_types)]
#[derive(PartialEq, Eq, Structural, Clone, Copy, Debug)]
pub enum VmPageState {
    /// Free, and not on loan.
    FREE,
    /// Free to be borrowed.
    FREE_LOANED,
    /// Handed out; also the state of a loaned page on its way back.
    ALLOC,
    /// Owned by an object.
    OBJECT,
    /// Holds memory that must stay where it is.
    WIRED,
    /// Holds a slab of a slab allocator.
    SLAB,
}

/// Names a physical page by the address of its first byte.
#[derive(PartialEq, Eq, Structural, Clone, Copy, Debug)]
pub struct VmPagePtr {
    pub paddr: u64,
}

impl VmPagePtr {
    pub fn new(paddr: u64) -> (ptr: VmPagePtr)
        ensures
            ptr.paddr == paddr,
    {
        VmPagePtr { paddr }
    }

    pub fn paddr(&self) -> (paddr: u64)
        ensures
            paddr == self.paddr,
    {
        self.paddr
    }
}

/// What is recorded about one physical page.
#[derive(PartialEq, Eq, Structural, Clone, Copy, Debug)]
pub struct VmPage {
    pub state: VmPageState,
    /// The page is on loan to the rest of the system.
    pub loaned: bool,
    /// The loan is being called back: the page is not to be borrowed again.
    pub loan_cancelled: bool,
    /// The holding object of a loaned page that is on its way back.
    pub owner: Option<u64>,
    /// The object that a page in the `OBJECT` state belongs to.
    pub object: Option<u64>,
    /// How often the page is pinned.
    pub pin_count: u8,
    /// The fill pattern was written when the page was last freed.
    pub filled: bool,
}

impl VmPage {
    /// A page that has just come online.
    pub open spec fn fresh() -> VmPage {
        VmPage {
            state: VmPageState::FREE,
            loaned: false,
            loan_cancelled: false,
            owner: None,
            object: None,
            pin_count: 0,
            filled: false,
        }
    }

    pub fn new() -> (page: VmPage)
        ensures
            page == VmPage::fresh(),
    {
        VmPage {
            state: VmPageState::FREE,
            loaned: false,
            loan_cancelled: false,
            owner: None,
            object: None,
            pin_count: 0,
            filled: false,
        }
    }

    pub fn is_free(&self) -> (free: bool)
        ensures
            free == (self.state == VmPageState::FREE),
    {
        self.state == VmPageState::FREE
    }

    pub fn is_free_loaned(&self) -> (free: bool)
        ensures
            free == (self.state == VmPageState::FREE_LOANED),
    {
        self.state == VmPageState::FREE_LOANED
    }

    pub fn is_loaned(&self) -> (loaned: bool)
        ensures
            loaned == self.loaned,
    {
        self.loaned
    }

    pub fn is_loan_cancelled(&self) -> (cancelled: bool)
        ensures
            cancelled == self.loan_cancelled,
    {
        self.loan_cancelled
    }

    /// A page that an allocation may take.
    pub open spec fn allocatable(self) -> bool {
        self.state == VmPageState::FREE && !self.loaned
    }

    /// A page whose owner may let go of it.
    pub open spec fn releasable(self) -> bool {
        &&& self.state != VmPageState::FREE
        &&& self.state != VmPageState::FREE_LOANED
        &&& self.state == VmPageState::OBJECT ==> self.pin_count == 0 && self.object is None
    }

    /// The record of the page once it is handed out.
    pub open spec fn allocated(self) -> VmPage {
        VmPage { state: VmPageState::ALLOC, owner: None, ..self }
    }

    /// The record of the page once it is free again.
    pub open spec fn freed(self, filled: bool) -> VmPage {
        VmPage { state: VmPageState::FREE, filled, ..self }
    }

    /// The record of the page once it has the fill pattern.
    pub open spec fn with_pattern(self) -> VmPage {
        VmPage { filled: true, ..self }
    }

    /// The record of the page once it is in use as a slab.
    pub open spec fn slab(self) -> VmPage {
        VmPage { state: VmPageState::SLAB, ..self }
    }

    /// The record of the page once it is on loan.
    pub open spec fn lent(self) -> VmPage {
        VmPage { loaned: true, ..self }
    }

    /// The page belongs to an object.
    pub open spec fn in_object(self) -> bool {
        self.state == VmPageState::OBJECT && self.object is Some
    }

    /// The two records agree on whether the page is on loan and whether the loan is cancelled.
    pub open spec fn same_loan(self, other: VmPage) -> bool {
        self.loaned == other.loaned && self.loan_cancelled == other.loan_cancelled
    }

    /// The record of the page while `holder` holds it on its way back.
    pub open spec fn held(self, holder: u64) -> VmPage {
        VmPage { state: VmPageState::ALLOC, owner: Some(holder), ..self }
    }

    /// The record of the page once it may be borrowed again.
    pub open spec fn freed_loaned(self, filled: bool) -> VmPage {
        VmPage { state: VmPageState::FREE_LOANED, owner: None, filled, ..self }
    }
}

/// A list of pages, from front to back.
pub struct VmPageDoublyLinkedList {
    pages: VecDeque<VmPagePtr>,
}

impl View for VmPageDoublyLinkedList {
    type V = Seq<VmPagePtr>;

    closed spec fn view(&self) -> Seq<VmPagePtr> {
        self.pages@
    }
}

impl Default for VmPageDoublyLinkedList {
    fn default() -> (list: VmPageDoublyLinkedList)
        ensures
            list@ == Seq::<VmPagePtr>::empty(),
    {
        VmPageDoublyLinkedList::new()
    }
}

impl VmPageDoublyLinkedList {
    pub fn new() -> (list: VmPageDoublyLinkedList)
        ensures
            list@ == Seq::<VmPagePtr>::empty(),
    {
        VmPageDoublyLinkedList { pages: VecDeque::new() }
    }

    pub fn len(&self) -> (len: usize)
        ensures
            len == self@.len(),
    {
        self.pages.len()
    }

    pub fn is_empty(&self) -> (empty: bool)
        ensures
            empty == (self@.len() == 0),
    {
        self.pages.len() == 0
    }

    /// The page at position `i`, counted from the front.
    pub fn get(&self, i: usize) -> (page: VmPagePtr)
        requires
            i < self@.len(),
        ensures
            page == self@[i as int],
    {
        self.pages[i]
    }

    pub fn contains(&self, page: VmPagePtr) -> (found: bool)
        ensures
            found == self@.contains(page),
    {
        let mut i: usize = 0;
        while i < self.pages.len()
            invariant
                i <= self@.len(),
                forall|j: int| 0 <= j < i ==> self@[j] != page,
            decreases self@.len() - i,
        {
            if self.pages[i] == page {
                assert(self@[i as int] == page);
                return true;
            }
            i = i + 1;
        }
        false
    }

    pub fn push_back(&mut self, page: VmPagePtr)
        ensures
            final(self)@ == old(self)@.push(page),
    {
        self.pages.push_back(page);
    }

    pub fn push_front(&mut self, page: VmPagePtr)
        ensures
            final(self)@ == seq![page] + old(self)@,
    {
        self.pages.push_front(page);
    }

    pub fn pop_front(&mut self) -> (page: Option<VmPagePtr>)
        ensures
            old(self)@.len() == 0 ==> page is None && final(self)@ == old(self)@,
            old(self)@.len() > 0 ==> page == Some(old(self)@[0]) && final(self)@
                == old(self)@.subrange(1, old(self)@.len() as int),
    {
        self.pages.pop_front()
    }

    /// Moves the pages of `other` behind those of this list.
    pub fn splice_back(&mut self, other: &mut VmPageDoublyLinkedList)
        ensures
            final(self)@ == old(self)@ + old(other)@,
            final(other)@ == Seq::<VmPagePtr>::empty(),
    {
        self.pages.append(&mut other.pages);
    }

    /// Moves the pages of `other` in front of those of this list.
    pub fn splice_front(&mut self, other: &mut VmPageDoublyLinkedList)
        ensures
            final(self)@ == old(other)@ + old(self)@,
            final(other)@ == Seq::<VmPagePtr>::empty(),
    {
        let mut joined: VecDeque<VmPagePtr> = VecDeque::new();
        joined.append(&mut other.pages);
        joined.append(&mut self.pages);
        self.pages = joined;
        assert(self@ =~= old(other)@ + old(self)@);
    }

    /// Takes the first `count` pages off the front.
    pub fn split_front(&mut self, count: usize) -> (front: VmPageDoublyLinkedList)
        requires
            count <= old(self)@.len(),
        ensures
            front@ == old(self)@.take(count as int),
            final(self)@ == old(self)@.skip(count as int),
    {
        let back = self.pages.split_off(count);
        let mut front: VecDeque<VmPagePtr> = VecDeque::new();
        front.append(&mut self.pages);
        self.pages = back;
        assert(front@ =~= old(self)@.take(count as int));
        assert(self@ =~= old(self)@.skip(count as int));
        VmPageDoublyLinkedList { pages: front }
    }

    /// Takes `page` out of the list.
    pub fn erase(&mut self, page: VmPagePtr)
        requires
            old(self)@.contains(page),
        ensures
            final(self)@ == old(self)@.remove_value(page),
    {
        let mut i: usize = 0;
        while i < self.pages.len() && self.pages[i] != page
            invariant
                i <= self@.len(),
                *self == *old(self),
                old(self)@.contains(page),
                forall|j: int| 0 <= j < i ==> self@[j] != page,
            decreases self@.len() - i,
        {
            i = i + 1;
        }
        proof {
            self@.index_of_first_ensures(page);
            let first = self@.index_of_first(page)->0;
            assert(self@[first] == page);
        }
        let _ = self.pages.remove(i);
    }

    /// Copies the list into a vector, front first.
    pub fn to_vec(&self) -> (pages: Vec<VmPagePtr>)
        ensures
            pages@ == self@,
    {
        let mut pages: Vec<VmPagePtr> = Vec::new();
        let mut i: usize = 0;
        while i < self.pages.len()
            invariant
                i <= self@.len(),
                pages@ == self@.take(i as int),
            decreases self@.len() - i,
        {
            pages.push(self.pages[i]);
            i = i + 1;
            assert(self@.take(i as int) =~= self@.take(i - 1).push(self@[i - 1]));
        }
        assert(self@.take(i as int) =~= self@);
        pages
    }
}

/// Taking `page` out of a list without repetitions leaves the other pages, in their order.
pub proof fn lemma_erase(pages: Seq<VmPagePtr>, page: VmPagePtr)
    requires
        pages.no_duplicates(),
        pages.contains(page),
    ensures
        pages.remove_value(page).len() == pages.len() - 1,
        pages.remove_value(page).no_duplicates(),
        forall|p: VmPagePtr| #[trigger]
            pages.remove_value(page).contains(p) <==> pages.contains(p) && p != page,
{
    pages.index_of_first_ensures(page);
    let at = pages.index_of_first(page)->0;
    let rest = pages.remove_value(page);
    assert(rest == pages.remove(at));
    assert forall|p: VmPagePtr| #[trigger] rest.contains(p) <==> pages.contains(p)
        && p != page by {
        if rest.contains(p) {
            let i = choose|i: int| 0 <= i < rest.len() && rest[i] == p;
            if i < at {
                assert(pages[i] == p);
            } else {
                assert(pages[i + 1] == p);
            }
        }
        if pages.contains(p) && p != page {
            let i = choose|i: int| 0 <= i < pages.len() && pages[i] == p;
            if i < at {
                assert(rest[i] == p);
            } else {
                assert(rest[i - 1] == p);
            }
        }
    }
}

} // verus!
