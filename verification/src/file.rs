//! The image of a paged file: whole pages, addressed by their index.
//!
//! A page that was never stored reads as a page that holds nothing. The image
//! takes pages up to a limit that is fixed when it is made.

use crate::page::{Page, PageView};
use vstd::prelude::*;

verus! {

/// Failures of page input and output.
#[derive(Clone, Copy, Debug, PartialEq, Eq, Structural)]
pub enum IoError {
    /// The file could not be opened.
    OpenFailed,
    /// A page could not be read.
    ReadFailed,
    /// A page could not be written.
    WriteFailed,
    /// A buffer was not aligned as direct input and output demand.
    AlignmentError,
}

/// The page at `index`: the stored one, or a page that holds nothing.
pub open spec fn frame_at(frames: Seq<PageView>, index: int) -> PageView {
    if 0 <= index < frames.len() {
        frames[index]
    } else {
        PageView::blank()
    }
}

/// The pages after `page` was stored at `index`; the image grows by pages
/// that hold nothing where `index` lies beyond its end.
pub open spec fn stored(frames: Seq<PageView>, index: int, page: PageView) -> Seq<PageView> {
    if index < frames.len() {
        frames.update(index, page)
    } else {
        Seq::new(
            (index + 1) as nat,
            |i: int|
                if i < frames.len() {
                    frames[i]
                } else if i == index {
                    page
                } else {
                    PageView::blank()
                },
        )
    }
}

/// Where appended bytes go: the last page that holds anything and the count
/// of its used bytes, or the start of the first page.
pub open spec fn append_point(frames: Seq<PageView>) -> (int, int)
    decreases frames.len(),
{
    if frames.len() == 0 {
        (0, 2)
    } else if frames.last().occupied > 2 {
        (frames.len() - 1, frames.last().occupied)
    } else {
        append_point(frames.drop_last())
    }
}

/// The append point lies at a stored page that holds something, or at the
/// start of the first page.
pub proof fn lemma_append_point(frames: Seq<PageView>)
    requires
        frames_valid(frames),
    ensures
        append_point(frames).1 > 2 ==> 0 <= append_point(frames).0 < frames.len(),
        append_point(frames).1 <= 2 ==> append_point(frames) == (0int, 2int),
        2 <= append_point(frames).1 <= 4096,
    decreases frames.len(),
{
    if frames.len() > 0 {
        assert(frames.last() == frames[frames.len() - 1]);
        if frames.last().occupied <= 2 {
            assert forall|i: int| 0 <= i < frames.drop_last().len() implies (
            #[trigger] frames.drop_last()[i]).valid() && !frames.drop_last()[i].dirty by {
                assert(frames.drop_last()[i] == frames[i]);
            }
            lemma_append_point(frames.drop_last());
        }
    }
}

/// Every stored page is valid and flushed.
pub open spec fn frames_valid(frames: Seq<PageView>) -> bool {
    forall|i: int| 0 <= i < frames.len() ==> (#[trigger] frames[i]).valid() && !frames[i].dirty
}

/// Storing a page changes the page at its index and no other.
pub proof fn lemma_stored(frames: Seq<PageView>, index: int, page: PageView)
    requires
        0 <= index,
    ensures
        frame_at(stored(frames, index, page), index) == page,
        forall|other: int|
            other != index ==> #[trigger] frame_at(stored(frames, index, page), other) == frame_at(
                frames,
                other,
            ),
        stored(frames, index, page).len() == if index < frames.len() {
            frames.len()
        } else {
            (index + 1) as nat
        },
{
}

/// Storing a valid, flushed page keeps the pages valid and flushed.
pub proof fn lemma_stored_valid(frames: Seq<PageView>, index: int, page: PageView)
    requires
        0 <= index,
        frames_valid(frames),
        page.valid(),
        !page.dirty,
    ensures
        frames_valid(stored(frames, index, page)),
{
    crate::page::lemma_blank_valid();
}

/// The mathematical value of a [`PageFile`].
pub struct PageFileView {
    /// The stored pages, by index.
    pub frames: Seq<PageView>,
    /// The number of pages that the image takes at most.
    pub limit: int,
}

/// The image of a paged file.
#[derive(Debug)]
pub struct PageFile {
    pages: Vec<Page>,
    limit: usize,
}

impl View for PageFile {
    type V = PageFileView;

    closed spec fn view(&self) -> PageFileView {
        PageFileView {
            frames: Seq::new(self.pages@.len(), |i: int| self.pages@[i]@),
            limit: self.limit as int,
        }
    }
}

impl PageFile {
    /// Every stored page is valid and flushed, and there are no more pages
    /// than the limit allows.
    pub open spec fn well_formed(&self) -> bool {
        &&& frames_valid(self@.frames)
        &&& self@.frames.len() <= self@.limit
    }

    /// An image without pages that takes up to `limit` pages.
    pub fn new(limit: u64) -> (file: PageFile)
        ensures
            file.well_formed(),
            file@.frames == Seq::<PageView>::empty(),
            file@.limit == if limit <= usize::MAX {
                limit as int
            } else {
                usize::MAX as int
            },
    {
        let limit: usize = if limit > usize::MAX as u64 {
            usize::MAX
        } else {
            limit as usize
        };
        let file = PageFile { pages: Vec::new(), limit };
        assert(file@.frames =~= Seq::<PageView>::empty());
        file
    }

    /// The number of stored pages.
    pub fn page_count(&self) -> (count: u64)
        ensures
            count == self@.frames.len(),
    {
        self.pages.len() as u64
    }

    /// The number of pages that the image takes at most.
    pub fn limit(&self) -> (limit: u64)
        ensures
            limit == self@.limit,
    {
        self.limit as u64
    }

    /// A copy of the page at `index`; a page that holds nothing where none
    /// was stored there.
    pub fn load_page(&self, index: u64) -> (page: Page)
        requires
            self.well_formed(),
        ensures
            page@ == frame_at(self@.frames, index as int),
            page.well_formed(),
            !page@.dirty,
    {
        proof {
            crate::page::lemma_blank_valid();
        }
        if index < self.pages.len() as u64 {
            assert(self@.frames[index as int] == self.pages@[index as int]@);
            self.pages[index as usize].cloned()
        } else {
            Page::new()
        }
    }

    /// Stores `page` at `index` and marks it as flushed. `WriteFailed`, with
    /// nothing changed, where `index` lies at or beyond the limit.
    pub fn flush_page(&mut self, index: u64, page: Page) -> (result: Result<(), IoError>)
        requires
            old(self).well_formed(),
            page.well_formed(),
        ensures
            final(self).well_formed(),
            final(self)@.limit == old(self)@.limit,
            match result {
                Ok(_) => {
                    &&& index < old(self)@.limit
                    &&& final(self)@.frames == stored(
                        old(self)@.frames,
                        index as int,
                        page@.clean(),
                    )
                },
                Err(error) => {
                    &&& error == IoError::WriteFailed
                    &&& index >= old(self)@.limit
                    &&& final(self)@ == old(self)@
                },
            },
    {
        if index >= self.limit as u64 {
            return Err(IoError::WriteFailed);
        }
        let at: usize = index as usize;
        let mut page = page;
        page.flush();
        let ghost before = self@.frames;
        while self.pages.len() < at
            invariant
                self.limit == old(self).limit,
                at < self.limit,
                before == old(self)@.frames,
                before.len() <= self.pages@.len(),
                at >= before.len() ==> self.pages@.len() <= at,
                at < before.len() ==> self.pages@.len() == before.len(),
                forall|i: int| 0 <= i < before.len() ==> self.pages@[i]@ == #[trigger] before[i],
                forall|i: int|
                    before.len() <= i < self.pages@.len() ==> (#[trigger] self.pages@[i])@
                        == PageView::blank(),
            decreases at - self.pages.len(),
        {
            self.pages.push(Page::new());
        }
        let ghost kept = page@;
        if at < self.pages.len() {
            let mut held = page;
            core::mem::swap(&mut self.pages[at], &mut held);
            assert(self.pages@[at as int]@ == kept);
            assert(self@.frames =~= stored(before, index as int, kept));
        } else {
            self.pages.push(page);
            assert(self.pages@[at as int]@ == kept);
            assert(self@.frames =~= stored(before, index as int, kept));
        }
        proof {
            lemma_stored_valid(before, index as int, kept);
        }
        Ok(())
    }

    /// Where appended bytes go: the index of the last page that holds
    /// anything and the count of its used bytes, or the start of the first
    /// page where no page holds anything.
    pub fn occupied(&self) -> (point: (u64, u16))
        requires
            self.well_formed(),
        ensures
            (point.0 as int, point.1 as int) == append_point(self@.frames),
    {
        let mut left: usize = self.pages.len();
        let ghost frames = self@.frames;
        assert(frames.take(left as int) =~= frames);
        while left > 0
            invariant
                left <= self.pages@.len(),
                frames == self@.frames,
                self.well_formed(),
                append_point(frames) == append_point(frames.take(left as int)),
            decreases left,
        {
            let page = &self.pages[left - 1];
            assert(frames.take(left as int).last() == self.pages@[left - 1]@);
            if page.occupied() > 2 {
                return ((left - 1) as u64, page.occupied());
            }
            assert(frames.take(left as int).drop_last() =~= frames.take(left - 1));
            left = left - 1;
        }
        (0, 2)
    }
}

} // verus!
