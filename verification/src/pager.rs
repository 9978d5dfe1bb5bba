//! A logical byte stream over the pages of a file. Bytes that do not fit a
//! page go on behind the header of the next page.

use crate::error::Error;
use crate::file::{frame_at, frames_valid, lemma_stored, stored, IoError, PageFile};
use crate::page::{least, zeros, Page, PageError, PageView};
use vstd::prelude::*;

pub mod laws;

verus! {

/// How bytes are put into the pages that they span.
#[derive(Clone, Copy, Debug, PartialEq, Eq, Structural)]
pub enum SpanMode {
    /// Behind the used bytes of each page, never over them.
    Append,
    /// Over the bytes that are there; the used bytes end where the new ones end.
    Replace,
    /// Zeros over the bytes that are there; the count of used bytes stays.
    Erase,
}

/// Whether an operation may start at `offset` of its first page.
pub open spec fn start_allowed(mode: SpanMode, offset: int) -> bool {
    match mode {
        SpanMode::Append => 0 <= offset <= 4096,
        SpanMode::Replace => 2 <= offset <= 4096,
        SpanMode::Erase => 2 <= offset <= 4096,
    }
}

/// The page after it took its share of `data` at `offset`.
pub open spec fn page_after(page: PageView, mode: SpanMode, data: Seq<u8>, offset: int) -> PageView {
    match mode {
        SpanMode::Append => page.put(data, page.append_start(offset)),
        SpanMode::Replace => page.put(data, offset),
        SpanMode::Erase => page.erased(data.len() as int, offset),
    }
}

/// The number of bytes of `data` that the page takes at `offset`.
pub open spec fn page_share(page: PageView, mode: SpanMode, data: Seq<u8>, offset: int) -> int {
    match mode {
        SpanMode::Append => least(data.len() as int, 4096 - page.append_start(offset)),
        SpanMode::Replace => least(data.len() as int, 4096 - offset),
        SpanMode::Erase => least(data.len() as int, 4096 - offset),
    }
}

/// How an operation that spans pages ended.
pub struct Spread {
    /// The pages after the operation.
    pub frames: Seq<PageView>,
    /// The number of bytes that were put.
    pub done: int,
    /// The index of the last page that was touched.
    pub last: int,
    /// Whether a page at or beyond the limit would have been needed.
    pub failed: bool,
}

/// The bound on the pages that an operation still passes without putting a byte.
pub open spec fn idle_bound(frames: Seq<PageView>, page: int, offset: int) -> int {
    (if offset == 2 {
        0int
    } else {
        1int
    }) + (if page < frames.len() {
        frames.len() - page
    } else {
        0
    })
}

/// Puts `data` into the pages from `page` on: into the first at `offset`,
/// into each later one behind its header. Each page that is touched is
/// stored, flushed. Stops, with the pages touched so far stored, at the first
/// page at or beyond `limit`.
pub open spec fn spread(
    frames: Seq<PageView>,
    limit: int,
    mode: SpanMode,
    page: int,
    offset: int,
    data: Seq<u8>,
) -> Spread
    decreases data.len(), idle_bound(frames, page, offset),
{
    if page < 0 || page >= limit {
        Spread { frames, done: 0, last: page, failed: true }
    } else {
        let now = frame_at(frames, page);
        let share = page_share(now, mode, data, offset);
        let next = stored(frames, page, page_after(now, mode, data, offset).clean());
        if share >= data.len() {
            Spread { frames: next, done: data.len() as int, last: page, failed: false }
        } else if share <= 0 {
            if offset == 2 && page >= frames.len() {
                Spread { frames: next, done: 0, last: page, failed: true }
            } else {
                spread(next, limit, mode, page + 1, 2, data)
            }
        } else {
            let rest = spread(next, limit, mode, page + 1, 2, data.skip(share));
            Spread { done: share + rest.done, ..rest }
        }
    }
}

/// The bytes that a read of `len` bytes gives from `offset` of page `page`
/// on, going on behind the header of each later page.
pub open spec fn stream(frames: Seq<PageView>, page: int, offset: int, len: int) -> Seq<u8>
    decreases len, (if offset == 2 { 0int } else { 1int }),
{
    if len <= 0 {
        Seq::<u8>::empty()
    } else {
        let share = least(len, 4096 - offset);
        if share <= 0 {
            if offset == 2 {
                Seq::<u8>::empty()
            } else {
                stream(frames, page + 1, 2, len)
            }
        } else {
            frame_at(frames, page).read(len, offset) + stream(frames, page + 1, 2, len - share)
        }
    }
}

/// The later of two pages.
pub open spec fn later_page(a: int, b: int) -> int {
    if a >= b {
        a
    } else {
        b
    }
}

/// The page from which appended bytes look for room: the page that was last
/// written on where it holds anything, the first page where it does not.
pub open spec fn write_start(frames: Seq<PageView>, last_free_page: int) -> int {
    if frame_at(frames, last_free_page).occupied > 2 {
        last_free_page
    } else {
        0
    }
}

/// The mathematical value of a [`Pager`].
pub struct PagerView {
    /// The pages of the file.
    pub frames: Seq<PageView>,
    /// The number of pages that the file takes at most.
    pub limit: int,
    /// The highest index of a page that a write or a replacement touched.
    pub last_free_page: int,
}

/// A logical byte stream over the pages of a file.
#[derive(Debug)]
pub struct Pager {
    io: PageFile,
    last_free_page: u64,
}

impl View for Pager {
    type V = PagerView;

    closed spec fn view(&self) -> PagerView {
        PagerView {
            frames: self.io@.frames,
            limit: self.io@.limit,
            last_free_page: self.last_free_page as int,
        }
    }
}

/// The bytes that an operation puts: zeros where it erases.
pub open spec fn span_data(mode: SpanMode, buf: Seq<u8>, size: int) -> Seq<u8> {
    if mode == SpanMode::Erase {
        zeros(size)
    } else {
        buf
    }
}

impl Pager {
    /// The file is well formed.
    pub closed spec fn well_formed(&self) -> bool {
        self.io.well_formed()
    }

    /// What is known of a well-formed pager.
    pub proof fn lemma_well_formed(&self)
        requires
            self.well_formed(),
        ensures
            frames_valid(self@.frames),
            self@.frames.len() <= self@.limit,
    {
    }

    /// A pager over `io`, with page 0 as the page to append to.
    pub fn new(io: PageFile) -> (pager: Pager)
        requires
            io.well_formed(),
        ensures
            pager.well_formed(),
            pager@ == (PagerView { frames: io@.frames, limit: io@.limit, last_free_page: 0 }),
    {
        Pager { io, last_free_page: 0 }
    }

    /// The file that the pager works on.
    pub fn file(&self) -> (io: &PageFile)
        ensures
            io@.frames == self@.frames,
            io@.limit == self@.limit,
            self.well_formed() ==> io.well_formed(),
    {
        &self.io
    }

    /// The highest index of a page that a write or a replacement touched.
    pub fn last_free_page(&self) -> (page: u64)
        ensures
            page == self@.last_free_page,
    {
        self.last_free_page
    }

    /// Where appended bytes go; see [`PageFile::occupied`].
    pub fn occupied(&self) -> (point: (u64, u16))
        requires
            self.well_formed(),
        ensures
            (point.0 as int, point.1 as int) == crate::file::append_point(self@.frames),
    {
        self.io.occupied()
    }

    /// The 4096 bytes of the page at `offset`.
    pub fn buffer(&self, offset: u64) -> (bytes: Vec<u8>)
        requires
            self.well_formed(),
        ensures
            bytes@ == frame_at(self@.frames, offset as int).bytes,
    {
        let page = self.io.load_page(offset);
        let bytes = crate::codec::le::copy_range(page.buffer(), 0, page.buffer().len());
        assert(bytes@ =~= page@.bytes);
        bytes
    }

    /// `len` bytes from `offset.1` of page `offset.0` on, going on behind the
    /// header of each later page. `OutOfBounds` where `offset.1` lies beyond
    /// the frame.
    pub fn read_at(&self, len: usize, offset: (u64, u16)) -> (result: Result<Vec<u8>, Error>)
        requires
            self.well_formed(),
        ensures
            match result {
                Ok(bytes) => {
                    &&& offset.1 <= 4096
                    &&& bytes@ == stream(self@.frames, offset.0 as int, offset.1 as int, len as int)
                    &&& bytes@.len() == len
                },
                Err(error) => error == Error::Page(PageError::OutOfBounds) && offset.1 > 4096,
            },
    {
        if offset.1 > 4096 {
            return Err(Error::Page(PageError::OutOfBounds));
        }
        let ghost frames = self@.frames;
        let mut out: Vec<u8> = Vec::new();
        let mut page_idx: u64 = offset.0;
        let ghost mut page: int = offset.0 as int;
        let mut at: u16 = offset.1;
        let mut left: usize = len;
        let count: u64 = self.io.page_count();
        while left > 0
            invariant
                self.well_formed(),
                frames == self@.frames,
                count == frames.len(),
                at <= 4096,
                left <= len,
                out@.len() == len - left,
                page >= page_idx,
                frame_at(frames, page) == frame_at(frames, page_idx as int),
                page > page_idx ==> page_idx == u64::MAX,
                stream(frames, offset.0 as int, offset.1 as int, len as int) == out@ + stream(
                    frames,
                    page,
                    at as int,
                    left as int,
                ),
            decreases left, (if at == 2 { 0int } else { 1int }),
        {
            let held = self.io.load_page(page_idx);
            let part = match held.read_at(left, at) {
                Ok(part) => part,
                Err(_) => Vec::new(),
            };
            proof {
                let share = least(left as int, 4096 - at);
                assert(part@.len() == share);
                assert(out@ + (part@ + stream(frames, page + 1, 2, left - share)) =~= (out@
                    + part@) + stream(frames, page + 1, 2, left - share));
                assert(out@ + Seq::<u8>::empty() =~= out@);
            }
            left = left - part.len();
            crate::codec::le::put_bytes(&mut out, part.as_slice());
            if page_idx < u64::MAX {
                page_idx = page_idx + 1;
            }
            proof {
                page = page + 1;
            }
            at = 2;
        }
        proof {
            assert(out@ + Seq::<u8>::empty() =~= out@);
        }
        Ok(out)
    }

    /// Puts the bytes of an operation into the pages from `offset` on.
    fn span(&mut self, mode: SpanMode, buf: &[u8], size: usize, offset: (u64, u16)) -> (result:
        Result<(usize, u64), Error>)
        requires
            old(self).well_formed(),
            mode != SpanMode::Erase ==> size == buf@.len(),
        ensures
            final(self).well_formed(),
            final(self)@.limit == old(self)@.limit,
            !start_allowed(mode, offset.1 as int) ==> {
                &&& result == Err::<(usize, u64), Error>(Error::Page(PageError::OutOfBounds))
                &&& final(self)@ == old(self)@
            },
            start_allowed(mode, offset.1 as int) ==> {
                let out = spread(
                    old(self)@.frames,
                    old(self)@.limit,
                    mode,
                    offset.0 as int,
                    offset.1 as int,
                    span_data(mode, buf@, size as int),
                );
                &&& final(self)@.frames == out.frames
                &&& match result {
                    Ok((done, last)) => {
                        &&& !out.failed
                        &&& done == size
                        &&& out.done == size
                        &&& last == out.last
                        &&& final(self)@.last_free_page == if mode == SpanMode::Erase {
                            old(self)@.last_free_page
                        } else {
                            later_page(old(self)@.last_free_page, last as int)
                        }
                    },
                    Err(error) => {
                        &&& out.failed
                        &&& error == Error::Io(IoError::WriteFailed)
                        &&& final(self)@.last_free_page == old(self)@.last_free_page
                    },
                }
            },
    {
        let allowed = match mode {
            SpanMode::Append => offset.1 <= 4096,
            SpanMode::Replace => 2 <= offset.1 && offset.1 <= 4096,
            SpanMode::Erase => 2 <= offset.1 && offset.1 <= 4096,
        };
        if !allowed {
            return Err(Error::Page(PageError::OutOfBounds));
        }
        let ghost data = span_data(mode, buf@, size as int);
        let ghost whole = spread(
            self@.frames,
            self@.limit,
            mode,
            offset.0 as int,
            offset.1 as int,
            data,
        );
        let limit: u64 = self.io.limit();
        let mut page_idx: u64 = offset.0;
        let mut at: u16 = offset.1;
        let mut done: usize = 0;
        assert(data.skip(0) =~= data);
        loop
            invariant
                self.io.well_formed(),
                self.io@.limit == old(self)@.limit,
                limit == self.io@.limit,
                self.last_free_page == old(self).last_free_page,
                start_allowed(mode, offset.1 as int),
                whole == spread(
                    old(self)@.frames,
                    old(self)@.limit,
                    mode,
                    offset.0 as int,
                    offset.1 as int,
                    data,
                ),
                mode != SpanMode::Erase ==> size == buf@.len(),
                data == span_data(mode, buf@, size as int),
                data.len() == size,
                start_allowed(mode, at as int),
                done <= size,
                ({
                    let rest = spread(
                        self.io@.frames,
                        limit as int,
                        mode,
                        page_idx as int,
                        at as int,
                        data.skip(done as int),
                    );
                    &&& whole.frames == rest.frames
                    &&& whole.last == rest.last
                    &&& whole.failed == rest.failed
                    &&& whole.done == done + rest.done
                }),
            decreases size - done, idle_bound(self.io@.frames, page_idx as int, at as int),
        {
            if page_idx >= limit {
                return Err(Error::Io(IoError::WriteFailed));
            }
            let ghost frames = self.io@.frames;
            let ghost left = data.skip(done as int);
            let mut held = self.io.load_page(page_idx);
            let ghost now = held@;
            let share: usize = match mode {
                SpanMode::Append => {
                    assert(buf@.subrange(done as int, size as int) =~= left);
                    match held.write_at(&buf[done..size], at) {
                        Ok(share) => share,
                        Err(_) => 0,
                    }
                },
                SpanMode::Replace => {
                    assert(buf@.subrange(done as int, size as int) =~= left);
                    match held.replace_at(&buf[done..size], at) {
                        Ok(share) => share,
                        Err(_) => 0,
                    }
                },
                SpanMode::Erase => {
                    assert(left.len() == size - done);
                    match held.erase_at(size - done, at) {
                        Ok(share) => share,
                        Err(_) => 0,
                    }
                },
            };
            assert(held@ == page_after(now, mode, left, at as int));
            assert(share == page_share(now, mode, left, at as int));
            match self.io.flush_page(page_idx, held) {
                Ok(_) => {},
                Err(_) => {},
            }
            proof {
                lemma_stored(frames, page_idx as int, held@.clean());
                assert(left.skip(share as int) =~= data.skip(done + share));
            }
            done = done + share;
            if done >= size {
                if mode != SpanMode::Erase && page_idx > self.last_free_page {
                    self.last_free_page = page_idx;
                }
                return Ok((done, page_idx));
            }
            page_idx = page_idx + 1;
            at = 2;
        }
    }

    /// Appends `buf` from `offset.1` of page `offset.0` on: in each page
    /// behind the bytes that are used, in each later page from behind the
    /// header. Returns the number of bytes written and the index of the last
    /// page written. `OutOfBounds`, with nothing changed, where `offset.1`
    /// lies beyond the frame; `WriteFailed`, with the pages before it
    /// written, where a page at or beyond the limit of the file is needed.
    pub fn write_at(&mut self, buf: &[u8], offset: (u64, u16)) -> (result: Result<
        (usize, u64),
        Error,
    >)
        requires
            old(self).well_formed(),
        ensures
            final(self).well_formed(),
            final(self)@.limit == old(self)@.limit,
            offset.1 > 4096 ==> {
                &&& result == Err::<(usize, u64), Error>(Error::Page(PageError::OutOfBounds))
                &&& final(self)@ == old(self)@
            },
            offset.1 <= 4096 ==> {
                let out = spread(
                    old(self)@.frames,
                    old(self)@.limit,
                    SpanMode::Append,
                    offset.0 as int,
                    offset.1 as int,
                    buf@,
                );
                &&& final(self)@.frames == out.frames
                &&& match result {
                    Ok((written, last)) => {
                        &&& !out.failed
                        &&& written == buf@.len()
                        &&& last == out.last
                        &&& final(self)@.last_free_page == later_page(old(self)@.last_free_page, last as int)
                    },
                    Err(error) => {
                        &&& out.failed
                        &&& error == Error::Io(IoError::WriteFailed)
                        &&& final(self)@.last_free_page == old(self)@.last_free_page
                    },
                }
            },
    {
        self.span(SpanMode::Append, buf, buf.len(), offset)
    }

    /// Appends `buf` from the page that was last written on, or from the
    /// first page where that page holds nothing; see [`Pager::write_at`].
    /// Returns the number of bytes written.
    pub fn write(&mut self, buf: &[u8]) -> (result: Result<usize, Error>)
        requires
            old(self).well_formed(),
        ensures
            final(self).well_formed(),
            final(self)@.limit == old(self)@.limit,
            ({
                let out = spread(
                    old(self)@.frames,
                    old(self)@.limit,
                    SpanMode::Append,
                    write_start(old(self)@.frames, old(self)@.last_free_page),
                    2,
                    buf@,
                );
                &&& final(self)@.frames == out.frames
                &&& match result {
                    Ok(written) => {
                        &&& !out.failed
                        &&& written == buf@.len()
                        &&& final(self)@.last_free_page == later_page(
                            old(self)@.last_free_page,
                            out.last,
                        )
                    },
                    Err(error) => {
                        &&& out.failed
                        &&& error == Error::Io(IoError::WriteFailed)
                        &&& final(self)@.last_free_page == old(self)@.last_free_page
                    },
                }
            }),
    {
        let tail = self.io.load_page(self.last_free_page);
        let start: u64 = if tail.occupied() > 2 {
            self.last_free_page
        } else {
            0
        };
        match self.span(SpanMode::Append, buf, buf.len(), (start, 2)) {
            Ok((written, _)) => Ok(written),
            Err(error) => Err(error),
        }
    }

    /// Writes `buf` over the bytes from `offset.1` of page `offset.0` on,
    /// going on behind the header of each later page; in each page the used
    /// bytes end where the new ones end. Returns the number of bytes written.
    /// `OutOfBounds`, with nothing changed, where `offset.1` lies in the
    /// header or beyond the frame; `WriteFailed`, with the pages before it
    /// written, where a page at or beyond the limit of the file is needed.
    pub fn replace_at(&mut self, buf: &[u8], offset: (u64, u16)) -> (result: Result<usize, Error>)
        requires
            old(self).well_formed(),
        ensures
            final(self).well_formed(),
            final(self)@.limit == old(self)@.limit,
            !(2 <= offset.1 <= 4096) ==> {
                &&& result == Err::<usize, Error>(Error::Page(PageError::OutOfBounds))
                &&& final(self)@ == old(self)@
            },
            2 <= offset.1 <= 4096 ==> {
                let out = spread(
                    old(self)@.frames,
                    old(self)@.limit,
                    SpanMode::Replace,
                    offset.0 as int,
                    offset.1 as int,
                    buf@,
                );
                &&& final(self)@.frames == out.frames
                &&& match result {
                    Ok(written) => {
                        &&& !out.failed
                        &&& written == buf@.len()
                        &&& final(self)@.last_free_page == later_page(
                            old(self)@.last_free_page,
                            out.last,
                        )
                    },
                    Err(error) => {
                        &&& out.failed
                        &&& error == Error::Io(IoError::WriteFailed)
                        &&& final(self)@.last_free_page == old(self)@.last_free_page
                    },
                }
            },
    {
        match self.span(SpanMode::Replace, buf, buf.len(), offset) {
            Ok((written, _)) => Ok(written),
            Err(error) => Err(error),
        }
    }

    /// Sets `size` bytes to zero from `offset.1` of page `offset.0` on, going
    /// on behind the header of each later page; the counts of used bytes
    /// stay. Returns the number of bytes set. Fails as [`Pager::replace_at`]
    /// does.
    pub fn erase_at(&mut self, size: usize, offset: (u64, u16)) -> (result: Result<usize, Error>)
        requires
            old(self).well_formed(),
        ensures
            final(self).well_formed(),
            final(self)@.limit == old(self)@.limit,
            final(self)@.last_free_page == old(self)@.last_free_page,
            !(2 <= offset.1 <= 4096) ==> {
                &&& result == Err::<usize, Error>(Error::Page(PageError::OutOfBounds))
                &&& final(self)@ == old(self)@
            },
            2 <= offset.1 <= 4096 ==> {
                let out = spread(
                    old(self)@.frames,
                    old(self)@.limit,
                    SpanMode::Erase,
                    offset.0 as int,
                    offset.1 as int,
                    zeros(size as int),
                );
                &&& final(self)@.frames == out.frames
                &&& match result {
                    Ok(erased) => !out.failed && erased == size,
                    Err(error) => out.failed && error == Error::Io(IoError::WriteFailed),
                }
            },
    {
        let empty: Vec<u8> = Vec::new();
        match self.span(SpanMode::Erase, empty.as_slice(), size, offset) {
            Ok((erased, _)) => Ok(erased),
            Err(error) => Err(error),
        }
    }
}

} // verus!
