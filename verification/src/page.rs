//! Fixed-size pages: a 4096-byte frame whose first two bytes hold, in
//! little-endian, the count of used bytes, the two header bytes included.

use crate::codec::le::{get_le, le_bytes, le_value, lemma_le_bytes_len, put_le};
use vstd::prelude::*;

verus! {

/// The size of a page in bytes.
pub const PAGE_SIZE: usize = 4096;

/// The size of the occupancy header at the start of a page.
pub const HEADER_SIZE: usize = 2;

/// Why a page refused an operation.
#[derive(Clone, Copy, Debug, PartialEq, Eq, Structural)]
pub enum PageError {
    /// The offset lies outside the part of the frame that the operation may touch.
    OutOfBounds,
}

/// `count` zero bytes.
pub open spec fn zeros(count: int) -> Seq<u8> {
    Seq::new(count as nat, |i: int| 0u8)
}

/// `bytes` with `data` written over the bytes from `at` on.
pub open spec fn overwrite(bytes: Seq<u8>, at: int, data: Seq<u8>) -> Seq<u8> {
    bytes.subrange(0, at) + data + bytes.subrange(at + data.len(), bytes.len() as int)
}

/// `bytes` with the occupancy header set to `occupied`.
pub open spec fn with_header(bytes: Seq<u8>, occupied: int) -> Seq<u8> {
    overwrite(bytes, 0, le_bytes(occupied as nat, 2))
}

/// The smaller of two numbers.
pub open spec fn least(a: int, b: int) -> int {
    if a <= b {
        a
    } else {
        b
    }
}

/// The first 4096 bytes of `bytes`, with zeros where it is shorter.
pub open spec fn framed(bytes: Seq<u8>) -> Seq<u8> {
    Seq::new(4096, |i: int| if i < bytes.len() { bytes[i] } else { 0u8 })
}

/// The mathematical value of a [`Page`].
pub struct PageView {
    /// The 4096 bytes of the frame, header included.
    pub bytes: Seq<u8>,
    /// The count of used bytes, header included.
    pub occupied: int,
    /// Whether the frame was changed since it was last flushed.
    pub dirty: bool,
}

impl PageView {
    /// The frame has its size, the count is in range, and the header holds it.
    pub open spec fn valid(self) -> bool {
        &&& self.bytes.len() == 4096
        &&& 2 <= self.occupied <= 4096
        &&& self.bytes.subrange(0, 2) == le_bytes(self.occupied as nat, 2)
    }

    /// A page that holds nothing.
    pub open spec fn blank() -> PageView {
        PageView { bytes: with_header(zeros(4096), 2), occupied: 2, dirty: false }
    }

    /// The page made of a frame as it is found in a file: the count is read
    /// from the header and held to the range from 2 to 4096.
    pub open spec fn of_frame(bytes: Seq<u8>) -> PageView {
        let found = le_value(framed(bytes).subrange(0, 2)) as int;
        let occupied = if found < 2 {
            2
        } else if found > 4096 {
            4096
        } else {
            found
        };
        PageView { bytes: with_header(framed(bytes), occupied), occupied, dirty: false }
    }

    /// The bytes that a read of `len` bytes at `offset` gives.
    pub open spec fn read(self, len: int, offset: int) -> Seq<u8> {
        self.bytes.subrange(offset, offset + least(len, 4096 - offset))
    }

    /// Where an appending write at `offset` starts: never before the end of
    /// the used bytes.
    pub open spec fn append_start(self, offset: int) -> int {
        if offset < self.occupied {
            self.occupied
        } else {
            offset
        }
    }

    /// The page after `data` was put at `start`, as far as it fits, and the
    /// count of used bytes moved to the end of what was put.
    pub open spec fn put(self, data: Seq<u8>, start: int) -> PageView {
        let count = least(data.len() as int, 4096 - start);
        PageView {
            bytes: with_header(overwrite(self.bytes, start, data.take(count)), start + count),
            occupied: start + count,
            dirty: true,
        }
    }

    /// The page after `size` bytes at `offset` were set to zero, as far as
    /// the frame goes.
    pub open spec fn erased(self, size: int, offset: int) -> PageView {
        let count = least(size, 4096 - offset);
        PageView {
            bytes: overwrite(self.bytes, offset, zeros(count)),
            occupied: self.occupied,
            dirty: true,
        }
    }

    /// The page marked as flushed.
    pub open spec fn clean(self) -> PageView {
        PageView { dirty: false, ..self }
    }
}

pub proof fn lemma_blank_valid()
    ensures
        PageView::blank().valid(),
{
    lemma_le_bytes_len(2, 2);
    assert(PageView::blank().bytes.subrange(0, 2) =~= le_bytes(2, 2));
}

/// Putting data at a start from 2 to 4096 of a valid page gives a valid page.
pub proof fn lemma_put_valid(page: PageView, data: Seq<u8>, start: int)
    requires
        page.valid(),
        2 <= start <= 4096,
    ensures
        page.put(data, start).valid(),
{
    let count = least(data.len() as int, 4096 - start);
    lemma_le_bytes_len((start + count) as nat, 2);
    assert(page.put(data, start).bytes.subrange(0, 2) =~= le_bytes((start + count) as nat, 2));
}

/// Erasing from an offset from 2 to 4096 of a valid page gives a valid page
/// with zeros where it was asked, and all else as it was.
pub proof fn lemma_erased_valid(page: PageView, size: int, offset: int)
    requires
        page.valid(),
        2 <= offset <= 4096,
        0 <= size,
    ensures
        page.erased(size, offset).valid(),
        page.erased(size, offset).occupied == page.occupied,
        forall|i: int|
            offset <= i < offset + least(size, 4096 - offset) ==> #[trigger] page.erased(
                size,
                offset,
            ).bytes[i] == 0,
        forall|i: int|
            0 <= i < offset || offset + least(size, 4096 - offset) <= i < 4096
                ==> #[trigger] page.erased(size, offset).bytes[i] == page.bytes[i],
{
    assert(page.erased(size, offset).bytes.subrange(0, 2) =~= page.bytes.subrange(0, 2));
}

/// What was put is what is read back from where it was put.
pub proof fn lemma_put_read(page: PageView, data: Seq<u8>, start: int)
    requires
        page.valid(),
        2 <= start <= 4096,
    ensures
        page.put(data, start).read(data.len() as int, start) == data.take(
            least(data.len() as int, 4096 - start),
        ),
        page.put(data, start).occupied == start + least(data.len() as int, 4096 - start),
        forall|i: int| 2 <= i < start ==> #[trigger] page.put(data, start).bytes[i] == page.bytes[i],
{
    let count = least(data.len() as int, 4096 - start);
    lemma_le_bytes_len((start + count) as nat, 2);
    assert(page.put(data, start).read(data.len() as int, start) =~= data.take(count));
}

/// What was put stands where it was put, and every other byte behind the
/// header is as it was.
pub proof fn lemma_put_bytes(page: PageView, data: Seq<u8>, start: int)
    requires
        page.valid(),
        2 <= start <= 4096,
    ensures
        forall|i: int|
            2 <= i < 4096 ==> #[trigger] page.put(data, start).bytes[i] == (if start <= i < start
                + least(data.len() as int, 4096 - start) {
                data[i - start]
            } else {
                page.bytes[i]
            }),
{
    let count = least(data.len() as int, 4096 - start);
    lemma_le_bytes_len((start + count) as nat, 2);
}

/// A fixed-size frame with its occupancy count and a flag that tells whether
/// it was changed since it was last flushed.
#[derive(Debug, Clone)]
pub struct Page {
    buffer: Vec<u8>,
    occupied: u16,
    dirty: bool,
}

impl View for Page {
    type V = PageView;

    closed spec fn view(&self) -> PageView {
        PageView { bytes: self.buffer@, occupied: self.occupied as int, dirty: self.dirty }
    }
}

/// Writes the first `count` bytes of `data` into `frame` from `start` on.
fn splice(frame: &mut Vec<u8>, start: usize, data: &[u8], count: usize)
    requires
        start + count <= old(frame)@.len(),
        count <= data@.len(),
    ensures
        final(frame)@ == overwrite(old(frame)@, start as int, data@.take(count as int)),
        final(frame)@.len() == old(frame)@.len(),
{
    let mut done: usize = 0;
    let total: usize = frame.len();
    while done < count
        invariant
            done <= count,
            count <= data@.len(),
            frame@.len() == old(frame)@.len(),
            total == frame@.len(),
            start + count <= frame@.len(),
            frame@ == overwrite(old(frame)@, start as int, data@.take(done as int)),
        decreases count - done,
    {
        frame[start + done] = data[done];
        done = done + 1;
        assert(frame@ =~= overwrite(old(frame)@, start as int, data@.take(done as int)));
    }
}

/// Sets `count` bytes of `frame` from `start` on to zero.
fn wipe(frame: &mut Vec<u8>, start: usize, count: usize)
    requires
        start + count <= old(frame)@.len(),
    ensures
        final(frame)@ == overwrite(old(frame)@, start as int, zeros(count as int)),
        final(frame)@.len() == old(frame)@.len(),
{
    let mut done: usize = 0;
    let total: usize = frame.len();
    while done < count
        invariant
            done <= count,
            frame@.len() == old(frame)@.len(),
            total == frame@.len(),
            start + count <= frame@.len(),
            frame@ == overwrite(old(frame)@, start as int, zeros(done as int)),
        decreases count - done,
    {
        frame[start + done] = 0u8;
        done = done + 1;
        assert(frame@ =~= overwrite(old(frame)@, start as int, zeros(done as int)));
    }
}

/// Writes `occupied` into the header of `frame`.
fn stamp(frame: &mut Vec<u8>, occupied: u16)
    requires
        old(frame)@.len() >= 2,
    ensures
        final(frame)@ == with_header(old(frame)@, occupied as int),
        final(frame)@.len() == old(frame)@.len(),
{
    let mut header: Vec<u8> = Vec::new();
    put_le(&mut header, occupied as u128, 2);
    proof {
        lemma_le_bytes_len(occupied as nat, 2);
        assert(header@ =~= le_bytes(occupied as nat, 2));
        assert(header@.take(2) =~= header@);
    }
    splice(frame, 0, header.as_slice(), 2);
}

impl Page {
    /// The frame has its size, the count is in range, and the header holds it.
    pub open spec fn well_formed(&self) -> bool {
        self@.valid()
    }

    /// A page that holds nothing.
    pub fn new() -> (page: Page)
        ensures
            page.well_formed(),
            page@ == PageView::blank(),
    {
        let mut buffer: Vec<u8> = vec![0u8; 4096];
        assert(buffer@ =~= zeros(4096));
        stamp(&mut buffer, 2);
        proof {
            lemma_blank_valid();
        }
        Page { buffer, occupied: 2, dirty: false }
    }

    /// The page made of a frame as it is found in a file. A frame shorter
    /// than a page is taken as followed by zeros; what lies beyond a page is
    /// left out.
    pub fn from_buffer(buffer: &[u8]) -> (page: Page)
        ensures
            page.well_formed(),
            page@ == PageView::of_frame(buffer@),
    {
        let mut frame: Vec<u8> = Vec::new();
        let mut at: usize = 0;
        while at < 4096
            invariant
                at <= 4096,
                frame@.len() == at,
                forall|i: int|
                    0 <= i < at ==> #[trigger] frame@[i] == (if i < buffer@.len() {
                        buffer@[i]
                    } else {
                        0u8
                    }),
            decreases 4096 - at,
        {
            if at < buffer.len() {
                frame.push(buffer[at]);
            } else {
                frame.push(0u8);
            }
            at = at + 1;
        }
        assert(frame@ =~= framed(buffer@));
        let found: u128 = get_le(frame.as_slice(), 0, 2);
        let occupied: u16 = if found < 2 {
            2
        } else if found > 4096 {
            4096
        } else {
            found as u16
        };
        stamp(&mut frame, occupied);
        proof {
            lemma_le_bytes_len(occupied as nat, 2);
            assert(frame@.subrange(0, 2) =~= le_bytes(occupied as nat, 2));
        }
        Page { buffer: frame, occupied, dirty: false }
    }

    /// A copy of the page.
    pub fn cloned(&self) -> (copy: Page)
        ensures
            copy@ == self@,
    {
        Page { buffer: self.buffer.clone(), occupied: self.occupied, dirty: self.dirty }
    }

    /// The 4096 bytes of the frame, header included.
    pub fn buffer(&self) -> (bytes: &[u8])
        ensures
            bytes@ == self@.bytes,
    {
        self.buffer.as_slice()
    }

    /// The count of bytes that are not used.
    pub fn free(&self) -> (free: u16)
        requires
            self.well_formed(),
        ensures
            free == 4096 - self@.occupied,
    {
        4096 - self.occupied
    }

    /// The count of used bytes, header included.
    pub fn occupied(&self) -> (occupied: u16)
        ensures
            occupied == self@.occupied,
    {
        self.occupied
    }

    /// Whether the page holds nothing but its header.
    pub fn empty(&self) -> (empty: bool)
        ensures
            empty == (self@.occupied == 2),
    {
        self.occupied == 2
    }

    /// Whether every byte of the page is used.
    pub fn is_full(&self) -> (full: bool)
        ensures
            full == (self@.occupied == 4096),
    {
        self.occupied == 4096
    }

    /// Whether the page was changed since it was last flushed.
    pub fn is_dirty(&self) -> (dirty: bool)
        ensures
            dirty == self@.dirty,
    {
        self.dirty
    }

    /// Puts `buf` at `start`, as far as it fits, and moves the count of used
    /// bytes to the end of what was put.
    fn put(&mut self, buf: &[u8], start: u16) -> (written: usize)
        requires
            old(self).well_formed(),
            2 <= start <= 4096,
        ensures
            final(self).well_formed(),
            final(self)@ == old(self)@.put(buf@, start as int),
            written == least(buf@.len() as int, 4096 - start),
    {
        let room: usize = 4096 - start as usize;
        let count: usize = if buf.len() < room {
            buf.len()
        } else {
            room
        };
        splice(&mut self.buffer, start as usize, buf, count);
        let occupied: u16 = start + count as u16;
        stamp(&mut self.buffer, occupied);
        self.occupied = occupied;
        self.dirty = true;
        proof {
            lemma_put_valid(old(self)@, buf@, start as int);
        }
        count
    }

    /// Appends `buf` at `offset`, or at the end of the used bytes where
    /// `offset` lies before it; writes as much as fits and returns how much.
    /// `OutOfBounds` where `offset` lies beyond the frame.
    pub fn write_at(&mut self, buf: &[u8], offset: u16) -> (result: Result<usize, PageError>)
        requires
            old(self).well_formed(),
        ensures
            final(self).well_formed(),
            match result {
                Ok(written) => {
                    &&& offset <= 4096
                    &&& final(self)@ == old(self)@.put(
                        buf@,
                        old(self)@.append_start(offset as int),
                    )
                    &&& written == least(
                        buf@.len() as int,
                        4096 - old(self)@.append_start(offset as int),
                    )
                },
                Err(error) => {
                    &&& error == PageError::OutOfBounds
                    &&& offset > 4096
                    &&& final(self)@ == old(self)@
                },
            },
    {
        if offset > 4096 {
            return Err(PageError::OutOfBounds);
        }
        let start: u16 = if offset < self.occupied {
            self.occupied
        } else {
            offset
        };
        Ok(self.put(buf, start))
    }

    /// Appends `buf` at the end of the used bytes; writes as much as fits and
    /// returns how much.
    pub fn write(&mut self, buf: &[u8]) -> (written: usize)
        requires
            old(self).well_formed(),
        ensures
            final(self).well_formed(),
            final(self)@ == old(self)@.put(buf@, old(self)@.occupied),
            written == least(buf@.len() as int, 4096 - old(self)@.occupied),
    {
        let start: u16 = self.occupied;
        self.put(buf, start)
    }

    /// Appends `data` at the end of the used bytes; see [`Page::write`].
    pub fn write_to_buffer(&mut self, data: &[u8]) -> (written: usize)
        requires
            old(self).well_formed(),
        ensures
            final(self).well_formed(),
            final(self)@ == old(self)@.put(data@, old(self)@.occupied),
            written == least(data@.len() as int, 4096 - old(self)@.occupied),
    {
        self.write(data)
    }

    /// Writes `buf` over the bytes at `offset`, as much as fits, and moves
    /// the count of used bytes to the end of what was written. `OutOfBounds`
    /// where `offset` lies in the header or beyond the frame.
    pub fn replace_at(&mut self, buf: &[u8], offset: u16) -> (result: Result<usize, PageError>)
        requires
            old(self).well_formed(),
        ensures
            final(self).well_formed(),
            match result {
                Ok(written) => {
                    &&& 2 <= offset <= 4096
                    &&& final(self)@ == old(self)@.put(buf@, offset as int)
                    &&& written == least(buf@.len() as int, 4096 - offset)
                },
                Err(error) => {
                    &&& error == PageError::OutOfBounds
                    &&& (offset < 2 || offset > 4096)
                    &&& final(self)@ == old(self)@
                },
            },
    {
        if offset < 2 || offset > 4096 {
            return Err(PageError::OutOfBounds);
        }
        Ok(self.put(buf, offset))
    }

    /// Sets `size` bytes at `offset` to zero, as far as the frame goes, and
    /// leaves the count of used bytes as it is. `OutOfBounds` where `offset`
    /// lies in the header or beyond the frame.
    pub fn erase_at(&mut self, size: usize, offset: u16) -> (result: Result<usize, PageError>)
        requires
            old(self).well_formed(),
        ensures
            final(self).well_formed(),
            match result {
                Ok(erased) => {
                    &&& 2 <= offset <= 4096
                    &&& final(self)@ == old(self)@.erased(size as int, offset as int)
                    &&& erased == least(size as int, 4096 - offset)
                },
                Err(error) => {
                    &&& error == PageError::OutOfBounds
                    &&& (offset < 2 || offset > 4096)
                    &&& final(self)@ == old(self)@
                },
            },
    {
        if offset < 2 || offset > 4096 {
            return Err(PageError::OutOfBounds);
        }
        let room: usize = 4096 - offset as usize;
        let count: usize = if size < room {
            size
        } else {
            room
        };
        wipe(&mut self.buffer, offset as usize, count);
        self.dirty = true;
        proof {
            lemma_erased_valid(old(self)@, size as int, offset as int);
        }
        Ok(count)
    }

    /// A copy of up to `len` bytes at `offset`, as far as the frame goes.
    /// `OutOfBounds` where `offset` lies beyond the frame.
    pub fn read_at(&self, len: usize, offset: u16) -> (result: Result<Vec<u8>, PageError>)
        requires
            self.well_formed(),
        ensures
            match result {
                Ok(bytes) => offset <= 4096 && bytes@ == self@.read(len as int, offset as int),
                Err(error) => error == PageError::OutOfBounds && offset > 4096,
            },
    {
        if offset > 4096 {
            return Err(PageError::OutOfBounds);
        }
        let room: usize = 4096 - offset as usize;
        let count: usize = if len < room {
            len
        } else {
            room
        };
        Ok(crate::codec::le::copy_range(self.buffer.as_slice(), offset as usize, offset as usize + count))
    }

    /// A copy of up to `len` bytes from behind the header on.
    pub fn read(&self, len: usize) -> (bytes: Vec<u8>)
        requires
            self.well_formed(),
        ensures
            bytes@ == self@.read(len as int, 2),
    {
        let room: usize = 4094;
        let count: usize = if len < room {
            len
        } else {
            room
        };
        crate::codec::le::copy_range(self.buffer.as_slice(), 2, 2 + count)
    }

    /// Marks the page as flushed. Persisting the frame is the caller's part.
    pub fn flush(&mut self)
        ensures
            final(self)@ == old(self)@.clean(),
    {
        self.dirty = false;
    }

    /// Marks the page as flushed; see [`Page::flush`].
    pub fn after_flush(&mut self)
        ensures
            final(self)@ == old(self)@.clean(),
    {
        self.dirty = false;
    }
}

} // verus!
