//! A small buffer of pages that wait to be written.
//!
//! Pages are staged under their index. When the buffer is full, staging a
//! page hands out, first, the pages that wait and were changed, for the
//! caller to write; a page that is staged again under an index that waits
//! takes the place of the earlier one. A page that waits is found again by
//! its index.

use crate::page::{Page, PageView};
use vstd::prelude::*;

verus! {

/// The number of pages that wait at most.
pub const IO_FLUSH_BUFFER_SIZE: usize = 16;

/// The position of the first page that waits under `index`, or the number
/// of pages that wait.
pub open spec fn waiting_at(pending: Seq<(u64, PageView)>, index: u64) -> int
    decreases pending.len(),
{
    if pending.len() == 0 {
        0
    } else if pending[0].0 == index {
        0
    } else {
        1 + waiting_at(pending.subrange(1, pending.len() as int), index)
    }
}

/// The pages that wait after `page` was staged under `index`.
pub open spec fn staged(pending: Seq<(u64, PageView)>, index: u64, page: PageView) -> Seq<
    (u64, PageView),
> {
    let at = waiting_at(pending, index);
    if at < pending.len() {
        pending.update(at, (index, page))
    } else {
        pending.push((index, page))
    }
}

/// The pages of `pending` that were changed, in order, each marked as
/// flushed.
pub open spec fn changed(pending: Seq<(u64, PageView)>) -> Seq<(u64, PageView)>
    decreases pending.len(),
{
    if pending.len() == 0 {
        Seq::empty()
    } else if pending.last().1.dirty {
        changed(pending.drop_last()).push((pending.last().0, pending.last().1.clean()))
    } else {
        changed(pending.drop_last())
    }
}

pub proof fn lemma_waiting_at(pending: Seq<(u64, PageView)>, index: u64, at: int)
    requires
        0 <= at <= pending.len(),
        forall|i: int| 0 <= i < at ==> (#[trigger] pending[i]).0 != index,
        at < pending.len() ==> pending[at].0 == index,
    ensures
        waiting_at(pending, index) == at,
    decreases pending.len(),
{
    if pending.len() > 0 && at > 0 {
        let tail = pending.subrange(1, pending.len() as int);
        assert(pending[0].0 != index);
        assert forall|i: int| 0 <= i < at - 1 implies (#[trigger] tail[i]).0 != index by {
            assert(tail[i] == pending[i + 1]);
        }
        lemma_waiting_at(tail, index, at - 1);
    }
}

/// A buffer of pages that wait to be written.
#[derive(Debug)]
pub struct WriteBehind {
    pending: Vec<(u64, Page)>,
    capacity: usize,
}

/// The mathematical value of a list of pages with their indices.
pub open spec fn pages_view(pages: Seq<(u64, Page)>) -> Seq<(u64, PageView)> {
    Seq::new(pages.len(), |i: int| (pages[i].0, pages[i].1@))
}

impl WriteBehind {
    /// The pages that wait, in the order in which their indices were first
    /// staged.
    pub closed spec fn pending(&self) -> Seq<(u64, PageView)> {
        pages_view(self.pending@)
    }

    /// The number of pages that wait at most.
    pub closed spec fn room(&self) -> int {
        self.capacity as int
    }

    /// The pages that wait are well formed and not more than there is room for.
    pub closed spec fn well_formed(&self) -> bool {
        &&& self.pending@.len() <= self.capacity
        &&& self.capacity > 0
        &&& forall|i: int| 0 <= i < self.pending@.len() ==> (#[trigger] self.pending@[i]).1.well_formed()
    }

    /// An empty buffer with room for `capacity` pages, for one page where
    /// `capacity` is zero.
    pub fn new(capacity: usize) -> (buffer: WriteBehind)
        ensures
            buffer.well_formed(),
            buffer.pending() == Seq::<(u64, PageView)>::empty(),
            buffer.room() == if capacity == 0 {
                1
            } else {
                capacity as int
            },
    {
        let buffer = WriteBehind {
            pending: Vec::new(),
            capacity: if capacity == 0 {
                1
            } else {
                capacity
            },
        };
        assert(buffer.pending() =~= Seq::<(u64, PageView)>::empty());
        buffer
    }

    /// The number of pages that wait.
    pub fn len(&self) -> (len: usize)
        ensures
            len == self.pending().len(),
    {
        self.pending.len()
    }

    /// Takes all pages that wait out of the buffer and hands out those that
    /// were changed, each marked as flushed.
    pub fn drain(&mut self) -> (batch: Vec<(u64, Page)>)
        requires
            old(self).well_formed(),
        ensures
            final(self).well_formed(),
            final(self).room() == old(self).room(),
            final(self).pending() == Seq::<(u64, PageView)>::empty(),
            pages_view(batch@) == changed(old(self).pending()),
            forall|i: int| 0 <= i < batch@.len() ==> (#[trigger] batch@[i]).1.well_formed(),
    {
        let ghost all = self.pending();
        let mut waiting: Vec<(u64, Page)> = Vec::new();
        core::mem::swap(&mut self.pending, &mut waiting);
        let waiting = crate::codec::field::reversed(waiting);
        let mut waiting = waiting;
        let mut batch: Vec<(u64, Page)> = Vec::new();
        let ghost mut done: int = 0;
        assert(all.take(0) =~= Seq::<(u64, PageView)>::empty());
        assert(pages_view(batch@) =~= Seq::<(u64, PageView)>::empty());
        while waiting.len() > 0
            invariant
                0 <= done <= all.len(),
                waiting@.len() == all.len() - done,
                forall|i: int|
                    0 <= i < waiting@.len() ==> (#[trigger] waiting@[i]).1.well_formed()
                        && waiting@[i].0 == all[all.len() - 1 - i].0 && waiting@[i].1@
                        == all[all.len() - 1 - i].1,
                pages_view(batch@) == changed(all.take(done)),
                forall|i: int| 0 <= i < batch@.len() ==> (#[trigger] batch@[i]).1.well_formed(),
            decreases waiting.len(),
        {
            let (index, page) = waiting.pop().unwrap();
            proof {
                assert(index == all[done].0 && page@ == all[done].1);
                assert(all.take(done + 1).drop_last() =~= all.take(done));
                assert(all.take(done + 1).last() == all[done]);
            }
            if page.is_dirty() {
                let mut page = page;
                page.flush();
                let ghost before = pages_view(batch@);
                batch.push((index, page));
                assert(pages_view(batch@) =~= before.push((index, page@)));
            }
            proof {
                done = done + 1;
            }
        }
        assert(all.take(done) =~= all);
        assert(self.pending() =~= Seq::<(u64, PageView)>::empty());
        batch
    }

    /// Stages `page` under `index`. Where the buffer was full, all pages
    /// that waited leave it first, and those of them that were changed are
    /// handed out, each marked as flushed, for the caller to write.
    pub fn stage(&mut self, index: u64, page: Page) -> (batch: Vec<(u64, Page)>)
        requires
            old(self).well_formed(),
            page.well_formed(),
        ensures
            final(self).well_formed(),
            final(self).room() == old(self).room(),
            forall|i: int| 0 <= i < batch@.len() ==> (#[trigger] batch@[i]).1.well_formed(),
            if old(self).pending().len() == old(self).room() {
                &&& pages_view(batch@) == changed(old(self).pending())
                &&& final(self).pending() == seq![(index, page@)]
            } else {
                &&& batch@.len() == 0
                &&& final(self).pending() == staged(old(self).pending(), index, page@)
            },
    {
        let batch = if self.pending.len() == self.capacity {
            self.drain()
        } else {
            Vec::new()
        };
        let ghost before = self.pending();
        let mut at: usize = 0;
        while at < self.pending.len() && self.pending[at].0 != index
            invariant
                at <= self.pending@.len(),
                self.pending@ == old(self).pending@ || self.pending@.len() == 0,
                before == pages_view(self.pending@),
                self.well_formed(),
                self.capacity == old(self).capacity,
                forall|i: int| 0 <= i < at ==> (#[trigger] before[i]).0 != index,
            decreases self.pending@.len() - at,
        {
            at = at + 1;
        }
        proof {
            lemma_waiting_at(before, index, at as int);
        }
        if at < self.pending.len() {
            let mut held = (index, page);
            core::mem::swap(&mut self.pending[at], &mut held);
            assert(self.pending() =~= before.update(at as int, (index, page@)));
        } else {
            self.pending.push((index, page));
            assert(self.pending() =~= before.push((index, page@)));
        }
        batch
    }

    /// A copy of the page that waits under `index`, if one does.
    pub fn find(&self, index: u64) -> (found: Option<Page>)
        requires
            self.well_formed(),
        ensures
            match found {
                Some(page) => {
                    let at = waiting_at(self.pending(), index);
                    &&& at < self.pending().len()
                    &&& page@ == self.pending()[at].1
                    &&& page.well_formed()
                },
                None => waiting_at(self.pending(), index) == self.pending().len(),
            },
    {
        let ghost all = self.pending();
        let mut at: usize = 0;
        while at < self.pending.len()
            invariant
                at <= self.pending@.len(),
                all == pages_view(self.pending@),
                self.well_formed(),
                forall|i: int| 0 <= i < at ==> (#[trigger] all[i]).0 != index,
            decreases self.pending@.len() - at,
        {
            if self.pending[at].0 == index {
                proof {
                    lemma_waiting_at(all, index, at as int);
                }
                return Some(self.pending[at].1.cloned());
            }
            at = at + 1;
        }
        proof {
            lemma_waiting_at(all, index, at as int);
        }
        None
    }
}

} // verus!
