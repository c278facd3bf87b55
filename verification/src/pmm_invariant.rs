//! Every operation of the physical memory manager keeps its state well formed.

use vstd::prelude::*;

use crate::pmm_model::{
    cancelled_pages, changed, in_arena, lemma_divide, lemma_page_bound, lemma_unite, loaned_pages,
    record_ok, PmmOptDelayReuse, PmmState,
};
use crate::vm_page::{lemma_erase, VmPage, VmPagePtr, VmPageState};

verus! {

/// How one changed record changes the numbers of loaned pages and of cancelled loans.
pub proof fn lemma_counts_insert(pages: Map<VmPagePtr, VmPage>, page: VmPagePtr, record: VmPage)
    requires
        pages.dom().finite(),
        pages.contains_key(page),
    ensures
        loaned_pages(pages.insert(page, record)).len() == loaned_pages(pages).len() - (
        if pages[page].loaned {
            1int
        } else {
            0
        }) + (if record.loaned {
            1int
        } else {
            0
        }),
        cancelled_pages(pages.insert(page, record)).len() == cancelled_pages(pages).len() - (
        if pages[page].loan_cancelled {
            1int
        } else {
            0
        }) + (if record.loan_cancelled {
            1int
        } else {
            0
        }),
{
    let after = pages.insert(page, record);
    let rest = loaned_pages(pages).remove(page);
    assert(loaned_pages(after).remove(page) =~= rest);
    assert(loaned_pages(pages).contains(page) == pages[page].loaned);
    assert(loaned_pages(after).contains(page) == record.loaned);
    if !record.loaned {
        assert(loaned_pages(after) =~= rest);
    }
    if !pages[page].loaned {
        assert(loaned_pages(pages) =~= rest);
    }
    let others = cancelled_pages(pages).remove(page);
    assert(cancelled_pages(after).remove(page) =~= others);
    assert(cancelled_pages(pages).contains(page) == pages[page].loan_cancelled);
    assert(cancelled_pages(after).contains(page) == record.loan_cancelled);
    if !record.loan_cancelled {
        assert(cancelled_pages(after) =~= others);
    }
    if !pages[page].loan_cancelled {
        assert(cancelled_pages(pages) =~= others);
    }
}

/// Changes that leave the loan flags alone leave the counts alone.
pub proof fn lemma_counts_changed(
    pages: Map<VmPagePtr, VmPage>,
    list: Seq<VmPagePtr>,
    change: spec_fn(VmPage) -> VmPage,
)
    requires
        forall|p: VmPagePtr| #[trigger]
            list.contains(p) ==> change(pages[p]).loaned == pages[p].loaned && change(
                pages[p],
            ).loan_cancelled == pages[p].loan_cancelled,
    ensures
        loaned_pages(changed(pages, list, change)) == loaned_pages(pages),
        cancelled_pages(changed(pages, list, change)) == cancelled_pages(pages),
        changed(pages, list, change).dom() == pages.dom(),
{
    assert(changed(pages, list, change).dom() =~= pages.dom());
    assert(loaned_pages(changed(pages, list, change)) =~= loaned_pages(pages));
    assert(cancelled_pages(changed(pages, list, change)) =~= cancelled_pages(pages));
}

impl PmmState {
    /// The counts fit in the machine's integers, and the free loaned pages are among the loaned.
    pub proof fn lemma_bounds(self)
        requires
            self.wf(),
        ensures
            self.free_loaned.len() <= self.loaned_count <= 0xf_ffff_ffff_ffff,
            self.loan_cancelled_count <= self.loaned_count,
            self.free.len() <= 0xf_ffff_ffff_ffff,
    {
        let loaned = loaned_pages(self.pages);
        assert forall|p: VmPagePtr| #[trigger] self.pages.dom().contains(p) implies p.paddr
            % crate::page::PAGE_SIZE == 0 && p.paddr + 4096 <= u64::MAX by {
            assert(self.pages.contains_key(p));
            let i = choose|i: int| in_arena(self.arenas, i, p);
            assert(self.arenas[i].wf());
        }
        lemma_page_bound(self.pages.dom());
        vstd::set_lib::lemma_len_subset(loaned, self.pages.dom());
        assert(cancelled_pages(self.pages).subset_of(loaned)) by {
            assert forall|p: VmPagePtr| #[trigger]
                cancelled_pages(self.pages).contains(p) implies loaned.contains(p) by {
                assert(self.pages.contains_key(p));
            }
        }
        vstd::set_lib::lemma_len_subset(cancelled_pages(self.pages), loaned);
        self.free_loaned.unique_seq_to_set();
        assert(self.free_loaned.to_set().subset_of(loaned)) by {
            assert forall|p: VmPagePtr| #[trigger]
                self.free_loaned.to_set().contains(p) implies loaned.contains(p) by {
                assert(self.free_loaned.contains(p));
                assert(self.pages.contains_key(p));
            }
        }
        vstd::set_lib::lemma_len_subset(self.free_loaned.to_set(), loaned);
        self.free.unique_seq_to_set();
        assert(self.free.to_set().subset_of(self.pages.dom())) by {
            assert forall|p: VmPagePtr| #[trigger] self.free.to_set().contains(p) implies
                self.pages.dom().contains(p) by {
                assert(self.free.contains(p));
            }
        }
        vstd::set_lib::lemma_len_subset(self.free.to_set(), self.pages.dom());
    }

    pub proof fn lemma_take_front(self, count: int)
        requires
            self.wf(),
            0 <= count <= self.free.len(),
        ensures
            self.take_front(count).wf(),
            self.settled() ==> self.take_front(count).settled(),
    {
        lemma_divide(self.free, count);
        let taken = self.free.take(count);
        let change = |r: VmPage| r.allocated();
        lemma_counts_changed(self.pages, taken, change);
        let after = self.take_front(count);
        assert(after.pages == changed(self.pages, taken, change));
    }

    pub proof fn lemma_take_page(self, page: VmPagePtr)
        requires
            self.wf(),
            self.free.contains(page),
        ensures
            self.take_page(page).wf(),
            self.settled() ==> self.take_page(page).settled(),
    {
        lemma_erase(self.free, page);
        lemma_counts_insert(self.pages, page, self.pages[page].allocated());
        let after = self.take_page(page);
        assert(after.pages.dom() =~= self.pages.dom());
    }

    pub proof fn lemma_give_back(self, list: Seq<VmPagePtr>, delay_reuse: PmmOptDelayReuse)
        requires
            self.wf(),
            self.can_free(list),
        ensures
            self.give_back(list, delay_reuse).wf(),
            self.settled() ==> self.give_back(list, delay_reuse).settled(),
    {
        lemma_unite(list, self.free);
        lemma_unite(self.free, list);
        let change = |r: VmPage| r.freed(self.free_fill_enabled);
        lemma_counts_changed(self.pages, list, change);
        let after = self.give_back(list, delay_reuse);
        assert(after.pages == changed(self.pages, list, change));
    }

    pub proof fn lemma_lend(self, list: Seq<VmPagePtr>, delay_reuse: PmmOptDelayReuse)
        requires
            self.wf(),
            self.can_lend(list),
        ensures
            self.lend(list, delay_reuse).wf(),
            self.settled() ==> self.lend(list, delay_reuse).settled(),
    {
        lemma_unite(list, self.free_loaned);
        lemma_unite(self.free_loaned, list);
        let after = self.lend(list, delay_reuse);
        let loaned = loaned_pages(self.pages);
        assert(after.pages.dom() =~= self.pages.dom());
        assert(loaned_pages(after.pages) =~= loaned + list.to_set()) by {
            assert forall|p: VmPagePtr|
                loaned_pages(after.pages).contains(p) <==> (loaned + list.to_set()).contains(p) by {
                assert(list.to_set().contains(p) == list.contains(p));
            }
        }
        assert(cancelled_pages(after.pages) =~= cancelled_pages(self.pages));
        list.unique_seq_to_set();
        assert(loaned.disjoint(list.to_set())) by {
            assert forall|p: VmPagePtr| loaned.contains(p) implies !list.to_set().contains(p) by {
                assert(list.to_set().contains(p) == list.contains(p));
            }
        }
        vstd::set_lib::lemma_set_disjoint_lens(loaned, list.to_set());
    }

    pub proof fn lemma_cancel(self, page: VmPagePtr)
        requires
            self.wf(),
            self.pages.contains_key(page),
            self.pages[page].loaned,
            !self.pages[page].loan_cancelled,
            self.pages[page].state == VmPageState::FREE_LOANED ==> self.free_loaned.contains(page),
        ensures
            self.cancel(page).wf(),
            self.settled() ==> self.cancel(page).settled(),
    {
        if self.free_loaned.contains(page) {
            lemma_erase(self.free_loaned, page);
        } else {
            self.free_loaned.index_of_first_ensures(page);
        }
        lemma_counts_insert(
            self.pages,
            page,
            VmPage { loan_cancelled: true, ..self.pages[page] },
        );
        let after = self.cancel(page);
        assert(after.pages.dom() =~= self.pages.dom());
    }

    pub proof fn lemma_end(self, page: VmPagePtr)
        requires
            self.wf(),
            self.pages.contains_key(page),
            self.pages[page].loaned,
            self.pages[page].loan_cancelled,
            self.pages[page].state == VmPageState::FREE_LOANED,
        ensures
            self.end(page).wf(),
            self.settled() ==> self.end(page).settled(),
    {
        lemma_counts_insert(
            self.pages,
            page,
            VmPage { loaned: false, loan_cancelled: false, ..self.pages[page] }.allocated(),
        );
        let after = self.end(page);
        assert(after.pages.dom() =~= self.pages.dom());
    }

    pub proof fn lemma_borrow_front(self, record: VmPage)
        requires
            self.wf(),
            self.free_loaned.len() > 0,
            record.state == VmPageState::OBJECT,
            record.loaned,
            !record.loan_cancelled,
        ensures
            self.borrow_front(record).wf(),
            self.settled() ==> self.borrow_front(record).settled(),
    {
        let page = self.free_loaned[0];
        assert(self.free_loaned.contains(page));
        lemma_divide(self.free_loaned, 1);
        assert(self.free_loaned.take(1)[0] == page);
        assert(self.free_loaned.take(1).contains(page));
        lemma_counts_insert(self.pages, page, record);
        let after = self.borrow_front(record);
        assert(after.pages.dom() =~= self.pages.dom());
        if self.settled() {
            assert forall|p: VmPagePtr|
                #![trigger after.pages[p]]
                after.pages.contains_key(p) && after.pages[p].state == VmPageState::FREE_LOANED
                    && !after.pages[p].loan_cancelled implies after.free_loaned.contains(p) by {
                assert(self.pages[p] == after.pages[p]);
                assert(self.free_loaned.contains(p));
                if self.free_loaned.take(1).contains(p) {
                    let i = choose|i: int|
                        0 <= i < self.free_loaned.take(1).len() && self.free_loaned.take(1)[i] == p;
                    assert(i == 0);
                }
            }
        }
    }

    /// The owner of a page that is on none of the lists may change its record, but not whether it
    /// is on loan.
    pub proof fn lemma_with_record(self, page: VmPagePtr, record: VmPage)
        requires
            self.wf(),
            self.pages.contains_key(page),
            !self.free.contains(page),
            !self.free_loaned.contains(page),
            self.handed_off(page),
            record_ok(record),
            record.loaned == self.pages[page].loaned,
            record.loan_cancelled == self.pages[page].loan_cancelled,
        ensures
            self.with_record(page, record).wf(),
            self.settled() && record.state != VmPageState::FREE && (record.state
                == VmPageState::FREE_LOANED ==> record.loan_cancelled) ==> self.with_record(
                page,
                record,
            ).settled(),
    {
        lemma_counts_insert(self.pages, page, record);
        let after = self.with_record(page, record);
        assert(after.pages.dom() =~= self.pages.dom());
    }

    pub proof fn lemma_give_back_loaned(self, list: Seq<VmPagePtr>, holder: u64)
        requires
            self.wf(),
            self.held_by(list, holder),
        ensures
            self.give_back_loaned(list).wf(),
            self.settled() ==> self.give_back_loaned(list).settled(),
    {
        let kept = self.kept(list);
        let keep = |p: VmPagePtr| !self.pages[p].loan_cancelled;
        assert(kept == list.filter(keep));
        lemma_filtered(list, keep);
        lemma_unite(kept, self.free_loaned);
        let change = |r: VmPage| r.freed_loaned(self.free_fill_enabled);
        lemma_counts_changed(self.pages, list, change);
        let after = self.give_back_loaned(list);
        assert(after.pages == changed(self.pages, list, change));
    }

    /// Pages whose loan is not cancelled can all be borrowed again.
    pub proof fn lemma_all_kept(self, list: Seq<VmPagePtr>)
        requires
            forall|p: VmPagePtr| #[trigger] list.contains(p) ==> !self.pages[p].loan_cancelled,
        ensures
            self.kept(list) == list,
        decreases list.len(),
    {
        reveal(Seq::filter);
        if list.len() > 0 {
            let rest = list.drop_last();
            assert forall|p: VmPagePtr| #[trigger] rest.contains(p) implies
                !self.pages[p].loan_cancelled by {
                let i = choose|i: int| 0 <= i < rest.len() && rest[i] == p;
                assert(list[i] == p);
                assert(list.contains(p));
            }
            self.lemma_all_kept(rest);
            assert(list.contains(list.last()));
            assert(list =~= rest.push(list.last()));
        }
    }

    /// Only the records of the pages that are held matter.
    pub proof fn lemma_hold_prefix(
        self,
        list: Seq<VmPagePtr>,
        first: Seq<VmPage>,
        second: Seq<VmPage>,
        holder: u64,
        count: nat,
    )
        requires
            count <= first.len(),
            count <= second.len(),
            first.take(count as int) == second.take(count as int),
        ensures
            self.hold(list, first, holder, count) == self.hold(list, second, holder, count),
        decreases count,
    {
        if count > 0 {
            assert(first.take(count as int)[count - 1] == first[count - 1]);
            assert(second.take(count as int)[count - 1] == second[count - 1]);
            assert(first.take(count - 1) =~= first.take(count as int).take(count - 1));
            assert(second.take(count - 1) =~= second.take(count as int).take(count - 1));
            self.lemma_hold_prefix(list, first, second, holder, (count - 1) as nat);
        }
    }

    pub proof fn lemma_unwire(self, page: VmPagePtr)
        requires
            self.wf(),
            self.pages.contains_key(page),
            self.pages[page].state == VmPageState::WIRED,
        ensures
            self.unwire(page).wf(),
            self.settled() ==> self.unwire(page).settled(),
    {
        if self.handoff_vmo.contains(page) {
            lemma_erase(self.handoff_vmo, page);
        } else {
            self.handoff_vmo.index_of_first_ensures(page);
        }
        lemma_counts_insert(
            self.pages,
            page,
            VmPage { state: VmPageState::ALLOC, ..self.pages[page] },
        );
        let after = self.unwire(page);
        assert(after.pages.dom() =~= self.pages.dom());
    }

    pub proof fn lemma_bring_online(self, list: Seq<VmPagePtr>)
        requires
            self.wf(),
            list.no_duplicates(),
            forall|p: VmPagePtr| #[trigger]
                list.contains(p) ==> self.allocatable(p) && !self.free.contains(p) && (
                self.all_free_pages_filled ==> self.pages[p].filled),
        ensures
            self.bring_online(list).wf(),
            self.settled() ==> self.bring_online(list).settled(),
    {
        lemma_unite(list, self.free);
        lemma_unite(self.free, list);
    }

    pub proof fn lemma_fill_all(self)
        requires
            self.wf(),
            self.free_fill_enabled,
        ensures
            self.fill_all().wf(),
            self.settled() ==> self.fill_all().settled(),
    {
        let list = self.free + self.free_loaned;
        lemma_unite(self.free, self.free_loaned);
        let change = |r: VmPage| r.with_pattern();
        lemma_counts_changed(self.pages, list, change);
        let after = self.fill_all();
        assert(after.pages == changed(self.pages, list, change));
    }
}

/// What is filtered out of a list without repetitions has none either.
pub proof fn lemma_filtered(list: Seq<VmPagePtr>, keep: spec_fn(VmPagePtr) -> bool)
    requires
        list.no_duplicates(),
    ensures
        list.filter(keep).no_duplicates(),
        forall|p: VmPagePtr| #[trigger]
            list.filter(keep).contains(p) <==> list.contains(p) && keep(p),
    decreases list.len(),
{
    reveal(Seq::filter);
    if list.len() > 0 {
        let rest = list.drop_last();
        lemma_filtered(rest, keep);
        let last = list.last();
        assert forall|p: VmPagePtr| #[trigger] list.contains(p) <==> rest.contains(p) || p
            == last by {
            if list.contains(p) {
                let i = choose|i: int| 0 <= i < list.len() && list[i] == p;
                if i < rest.len() {
                    assert(rest[i] == p);
                }
            }
            if rest.contains(p) {
                let i = choose|i: int| 0 <= i < rest.len() && rest[i] == p;
                assert(list[i] == p);
            }
            assert(list[list.len() - 1] == last);
        }
        assert(!rest.contains(last));
        if keep(last) {
            let kept = rest.filter(keep);
            let all = kept.push(last);
            assert(list.filter(keep) == all);
            assert forall|p: VmPagePtr| #[trigger] all.contains(p) <==> kept.contains(p) || p
                == last by {
                if all.contains(p) {
                    let i = choose|i: int| 0 <= i < all.len() && all[i] == p;
                    if i < kept.len() {
                        assert(kept[i] == p);
                    }
                }
                if kept.contains(p) {
                    let i = choose|i: int| 0 <= i < kept.len() && kept[i] == p;
                    assert(all[i] == p);
                }
                assert(all[kept.len() as int] == last);
            }
            assert forall|i: int, j: int|
                0 <= i < all.len() && 0 <= j < all.len() && i != j implies all[i] != all[j] by {
                if i == kept.len() {
                    assert(kept.contains(kept[j]));
                }
                if j == kept.len() {
                    assert(kept.contains(kept[i]));
                }
            }
        }
    }
}

} // verus!
