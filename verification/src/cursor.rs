//! Cursors: positions that walk the documents of a collection.
//!
//! A document stands in the collection as its length in four bytes and then
//! its fields. A document that was removed leaves its length and zeros in
//! the place of its fields: a gap in which a document that is not larger can
//! be put.

use crate::codec::error::CodecError;
use crate::codec::field::FieldView;
use crate::codec::le::{le_bytes, le_value, lemma_le_bytes_len, lemma_le_value_bound, lemma_radix_pow_values};
use crate::codec::wire::{encodable, entries_wire};
use crate::collection::Collection;
use crate::document::{document_wire, parse_document, Document};
use crate::error::{CursorError, Error};
use crate::file::IoError;
use crate::page::{zeros, PageError, PageView};
use crate::pager::{spread, stream, SpanMode};
use vstd::prelude::*;

pub mod laws;

verus! {

/// The position that lies `by` bytes behind `offset` of page `page`: in the
/// page that many whole pages further, and there behind the header where a
/// page was crossed.
pub open spec fn advanced(page: int, offset: int, by: int) -> (int, int) {
    let reached = offset + by;
    (page + reached / 4096, reached % 4096 + if reached / 4096 > 0 {
        2int
    } else {
        0int
    })
}

/// Whether all bytes are zero.
pub open spec fn all_zero(bytes: Seq<u8>) -> bool {
    forall|i: int| 0 <= i < bytes.len() ==> #[trigger] bytes[i] == 0
}

/// The length that the record at a position says its document has.
pub open spec fn size_at(frames: Seq<PageView>, page: int, offset: int) -> int {
    le_value(stream(frames, page, offset, 4)) as int
}

/// Whether the document at a position was removed: all bytes of its fields
/// are zero.
pub open spec fn removed_at(frames: Seq<PageView>, page: int, offset: int) -> bool {
    let body = advanced(page, offset, 4);
    all_zero(stream(frames, body.0, body.1, size_at(frames, page, offset)))
}

/// What is written into a gap of `gap` bytes to put a document there: the
/// document, and behind it, where it is smaller than the gap, the length of
/// what is left of the gap behind that length.
pub open spec fn gap_fill(fields: Seq<(Seq<char>, FieldView)>, gap: int) -> Seq<u8> {
    if entries_wire(fields).len() < gap {
        document_wire(fields) + le_bytes((gap - entries_wire(fields).len() - 4) as nat, 4)
    } else {
        document_wire(fields)
    }
}

/// Whether a document of `size` bytes can be put into a gap of `gap` bytes:
/// it fills the gap, or leaves room for the length of what is left.
pub open spec fn fits_gap(size: int, gap: int) -> bool {
    size == gap || size + 4 <= gap
}

/// A position in a collection.
#[derive(Clone, Copy, Debug, PartialEq, Eq, Structural)]
pub struct Cursor {
    page: u64,
    offset: u16,
}

impl View for Cursor {
    type V = (int, int);

    closed spec fn view(&self) -> (int, int) {
        (self.page as int, self.offset as int)
    }
}

/// Whether all bytes are zero.
pub fn is_zero(bytes: &[u8]) -> (zero: bool)
    ensures
        zero == all_zero(bytes@),
{
    let mut at: usize = 0;
    while at < bytes.len()
        invariant
            at <= bytes@.len(),
            forall|i: int| 0 <= i < at ==> #[trigger] bytes@[i] == 0,
        decreases bytes@.len() - at,
    {
        if bytes[at] != 0 {
            return false;
        }
        at = at + 1;
    }
    true
}

impl Cursor {
    /// A cursor at the first document of a collection.
    pub fn new() -> (cursor: Cursor)
        ensures
            cursor@ == (0int, 2int),
    {
        Cursor { page: 0, offset: 2 }
    }

    /// A cursor at `offset` of page `page`.
    pub fn at(page: u64, offset: u16) -> (cursor: Cursor)
        ensures
            cursor@ == (page as int, offset as int),
    {
        Cursor { page, offset }
    }

    /// The page that the cursor is in.
    pub fn page(&self) -> (page: u64)
        ensures
            page == self@.0,
    {
        self.page
    }

    /// The offset of the cursor in its page.
    pub fn offset(&self) -> (offset: u16)
        ensures
            offset == self@.1,
    {
        self.offset
    }

    /// The position that lies `by` bytes behind the cursor; nothing where
    /// its page has no index.
    fn reach(&self, by: u64) -> (position: Option<(u64, u16)>)
        requires
            by <= u32::MAX + 4,
        ensures
            match position {
                Some(position) => (position.0 as int, position.1 as int) == advanced(
                    self@.0,
                    self@.1,
                    by as int,
                ),
                None => advanced(self@.0, self@.1, by as int).0 > u64::MAX,
            },
    {
        let reached: u64 = self.offset as u64 + by;
        let pages: u64 = reached / 4096;
        let within: u64 = reached % 4096;
        if pages > u64::MAX - self.page {
            return None;
        }
        let offset: u16 = if pages > 0 {
            (within + 2) as u16
        } else {
            within as u16
        };
        Some((self.page + pages, offset))
    }

    /// The length that the record at the cursor says its document has. A
    /// length of zero says that no document is there. `OutOfBounds` where
    /// the cursor lies beyond its page.
    pub fn current_document_size(&self, collection: &Collection) -> (result: Result<u32, Error>)
        requires
            collection.well_formed(),
        ensures
            match result {
                Ok(size) => self@.1 <= 4096 && size == size_at(collection@.frames, self@.0, self@.1),
                Err(error) => error == Error::Page(PageError::OutOfBounds) && self@.1 > 4096,
            },
    {
        let bytes = match collection.pager().read_at(4, (self.page, self.offset)) {
            Ok(bytes) => bytes,
            Err(error) => {
                return Err(error);
            },
        };
        proof {
            lemma_radix_pow_values();
            lemma_le_value_bound(bytes@);
            assert(bytes@.subrange(0, 4) =~= bytes@);
        }
        Ok(crate::codec::le::get_le(bytes.as_slice(), 0, 4) as u32)
    }

    /// Moves the cursor behind the record that it is at. `OutOfBounds`, with
    /// the cursor left where it is, where the cursor lies beyond its page,
    /// and where the page that is reached has no index.
    pub fn next_document(&mut self, collection: &Collection) -> (result: Result<(), Error>)
        requires
            collection.well_formed(),
        ensures
            match result {
                Ok(_) => {
                    &&& old(self)@.1 <= 4096
                    &&& final(self)@ == advanced(
                        old(self)@.0,
                        old(self)@.1,
                        size_at(collection@.frames, old(self)@.0, old(self)@.1) + 4,
                    )
                },
                Err(error) => {
                    &&& error == Error::Page(PageError::OutOfBounds)
                    &&& final(self)@ == old(self)@
                    &&& (old(self)@.1 > 4096 || advanced(
                        old(self)@.0,
                        old(self)@.1,
                        size_at(collection@.frames, old(self)@.0, old(self)@.1) + 4,
                    ).0 > u64::MAX)
                },
            },
    {
        let size = match self.current_document_size(collection) {
            Ok(size) => size,
            Err(error) => {
                return Err(error);
            },
        };
        match self.reach(size as u64 + 4) {
            Some(position) => {
                self.page = position.0;
                self.offset = position.1;
                Ok(())
            },
            None => Err(Error::Page(PageError::OutOfBounds)),
        }
    }

    /// The document at the cursor. `EndOfStream` where the record says that
    /// no document is there; `BadLength` where the record is larger than
    /// the machine can address.
    pub fn read_current_document(&self, collection: &Collection) -> (result: Result<
        Document,
        Error,
    >)
        requires
            collection.well_formed(),
        ensures
            match result {
                Ok(document) => {
                    &&& self@.1 <= 4096
                    &&& size_at(collection@.frames, self@.0, self@.1) > 0
                    &&& parse_document(
                        stream(
                            collection@.frames,
                            self@.0,
                            self@.1,
                            size_at(collection@.frames, self@.0, self@.1) + 4,
                        ),
                    ) == Ok::<Seq<(Seq<char>, FieldView)>, CodecError>(document@)
                },
                Err(error) => {
                    if self@.1 > 4096 {
                        error == Error::Page(PageError::OutOfBounds)
                    } else if size_at(collection@.frames, self@.0, self@.1) == 0 {
                        error == Error::Cursor(CursorError::EndOfStream)
                    } else if size_at(collection@.frames, self@.0, self@.1) + 4 > usize::MAX {
                        error == Error::Codec(CodecError::BadLength)
                    } else {
                        match parse_document(
                            stream(
                                collection@.frames,
                                self@.0,
                                self@.1,
                                size_at(collection@.frames, self@.0, self@.1) + 4,
                            ),
                        ) {
                            Ok(_) => false,
                            Err(found) => error == Error::Codec(found),
                        }
                    }
                },
            },
    {
        let size = match self.current_document_size(collection) {
            Ok(size) => size,
            Err(error) => {
                return Err(error);
            },
        };
        if size == 0 {
            return Err(Error::Cursor(CursorError::EndOfStream));
        }
        if size as u64 + 4 > usize::MAX as u64 {
            return Err(Error::Codec(CodecError::BadLength));
        }
        let bytes = match collection.pager().read_at(size as usize + 4, (self.page, self.offset)) {
            Ok(bytes) => bytes,
            Err(error) => {
                return Err(error);
            },
        };
        match Document::deserialize(bytes.as_slice()) {
            Ok(document) => Ok(document),
            Err(error) => Err(Error::Codec(error)),
        }
    }

    /// Sets the bytes of the fields of the document at the cursor to zero
    /// and leaves its length as it is. `EndOfStream`, with nothing changed,
    /// where the record says that no document is there.
    pub fn remove_current_document(&self, collection: &mut Collection) -> (result: Result<
        (),
        Error,
    >)
        requires
            old(collection).well_formed(),
        ensures
            final(collection).well_formed(),
            final(collection).name_view() == old(collection).name_view(),
            final(collection)@.limit == old(collection)@.limit,
            final(collection)@.last_free_page == old(collection)@.last_free_page,
            ({
                let frames = old(collection)@.frames;
                let size = size_at(frames, self@.0, self@.1);
                let body = advanced(self@.0, self@.1, 4);
                if self@.1 > 4096 {
                    &&& result == Err::<(), Error>(Error::Page(PageError::OutOfBounds))
                    &&& final(collection)@ == old(collection)@
                } else if size == 0 {
                    &&& result == Err::<(), Error>(Error::Cursor(CursorError::EndOfStream))
                    &&& final(collection)@ == old(collection)@
                } else if body.0 > u64::MAX || size > usize::MAX {
                    &&& result == Err::<(), Error>(Error::Page(PageError::OutOfBounds))
                    &&& final(collection)@ == old(collection)@
                } else {
                    let out = spread(
                        frames,
                        old(collection)@.limit,
                        SpanMode::Erase,
                        body.0,
                        body.1,
                        zeros(size),
                    );
                    &&& final(collection)@.frames == out.frames
                    &&& if out.failed {
                        result == Err::<(), Error>(Error::Io(IoError::WriteFailed))
                    } else {
                        result.is_ok()
                    }
                }
            }),
    {
        let size = match self.current_document_size(collection) {
            Ok(size) => size,
            Err(error) => {
                return Err(error);
            },
        };
        if size == 0 {
            return Err(Error::Cursor(CursorError::EndOfStream));
        }
        let body = match self.reach(4) {
            Some(body) => body,
            None => {
                return Err(Error::Page(PageError::OutOfBounds));
            },
        };
        if size as u64 > usize::MAX as u64 {
            return Err(Error::Page(PageError::OutOfBounds));
        }
        match collection.erase_at(size as usize, body) {
            Ok(_) => Ok(()),
            Err(error) => Err(error),
        }
    }

    /// Whether the document at the cursor was removed: all bytes of its
    /// fields are zero.
    pub fn is_current_document_removed(&self, collection: &Collection) -> (result: Result<
        bool,
        Error,
    >)
        requires
            collection.well_formed(),
        ensures
            match result {
                Ok(removed) => {
                    &&& self@.1 <= 4096
                    &&& advanced(self@.0, self@.1, 4).0 <= u64::MAX
                    &&& size_at(collection@.frames, self@.0, self@.1) <= usize::MAX
                    &&& removed == removed_at(collection@.frames, self@.0, self@.1)
                },
                Err(error) => {
                    &&& error == Error::Page(PageError::OutOfBounds)
                    &&& (self@.1 > 4096 || advanced(self@.0, self@.1, 4).0 > u64::MAX || size_at(
                        collection@.frames,
                        self@.0,
                        self@.1,
                    ) > usize::MAX)
                },
            },
    {
        let size = match self.current_document_size(collection) {
            Ok(size) => size,
            Err(error) => {
                return Err(error);
            },
        };
        let body = match self.reach(4) {
            Some(body) => body,
            None => {
                return Err(Error::Page(PageError::OutOfBounds));
            },
        };
        if size as u64 > usize::MAX as u64 {
            return Err(Error::Page(PageError::OutOfBounds));
        }
        let bytes = match collection.pager().read_at(size as usize, body) {
            Ok(bytes) => bytes,
            Err(error) => {
                return Err(error);
            },
        };
        Ok(is_zero(bytes.as_slice()))
    }

    /// Puts `document` into the gap that a removed document left at the
    /// cursor. Where the document is smaller than the gap, the length of
    /// what is left of the gap is written behind it. `CursorNotOnTombstone`
    /// where the document at the cursor was not removed;
    /// `DocumentTooLargeForGap` where the document neither fills the gap nor
    /// leaves room for that length. Nothing is written where the operation
    /// fails before its write.
    pub fn insert_document(&self, collection: &mut Collection, document: &Document) -> (result:
        Result<(), Error>)
        requires
            old(collection).well_formed(),
        ensures
            final(collection).well_formed(),
            final(collection).name_view() == old(collection).name_view(),
            final(collection)@.limit == old(collection)@.limit,
            ({
                let frames = old(collection)@.frames;
                let gap = size_at(frames, self@.0, self@.1);
                let size = entries_wire(document@).len() as int;
                if self@.1 > 4096 || self@.1 < 2 || advanced(self@.0, self@.1, 4).0 > u64::MAX
                    || gap > usize::MAX {
                    &&& result == Err::<(), Error>(Error::Page(PageError::OutOfBounds))
                    &&& final(collection)@ == old(collection)@
                } else if !removed_at(frames, self@.0, self@.1) {
                    &&& result == Err::<(), Error>(
                        Error::Cursor(CursorError::CursorNotOnTombstone),
                    )
                    &&& final(collection)@ == old(collection)@
                } else if !encodable(FieldView::Mapping(document@)) {
                    &&& result == Err::<(), Error>(Error::Codec(CodecError::BadLength))
                    &&& final(collection)@ == old(collection)@
                } else if !fits_gap(size, gap) {
                    &&& result == Err::<(), Error>(
                        Error::Cursor(CursorError::DocumentTooLargeForGap),
                    )
                    &&& final(collection)@ == old(collection)@
                } else {
                    let out = spread(
                        frames,
                        old(collection)@.limit,
                        SpanMode::Replace,
                        self@.0,
                        self@.1,
                        gap_fill(document@, gap),
                    );
                    &&& final(collection)@.frames == out.frames
                    &&& if out.failed {
                        result == Err::<(), Error>(Error::Io(IoError::WriteFailed))
                    } else {
                        result.is_ok()
                    }
                }
            }),
    {
        if self.offset < 2 {
            return Err(Error::Page(PageError::OutOfBounds));
        }
        let removed = match self.is_current_document_removed(collection) {
            Ok(removed) => removed,
            Err(error) => {
                return Err(error);
            },
        };
        if !removed {
            return Err(Error::Cursor(CursorError::CursorNotOnTombstone));
        }
        let gap = match self.current_document_size(collection) {
            Ok(gap) => gap,
            Err(error) => {
                return Err(error);
            },
        };
        let mut bytes = match document.serialize() {
            Ok(bytes) => bytes,
            Err(error) => {
                return Err(Error::Codec(error));
            },
        };
        proof {
            lemma_le_bytes_len(entries_wire(document@).len(), 4);
        }
        let size: usize = bytes.len() - 4;
        if size as u64 > gap as u64 {
            return Err(Error::Cursor(CursorError::DocumentTooLargeForGap));
        }
        let left: u64 = gap as u64 - size as u64;
        if left > 0 {
            if left < 4 {
                return Err(Error::Cursor(CursorError::DocumentTooLargeForGap));
            }
            crate::codec::le::put_le(&mut bytes, (left - 4) as u128, 4);
        }
        match collection.replace_at(bytes.as_slice(), (self.page, self.offset)) {
            Ok(_) => Ok(()),
            Err(error) => Err(error),
        }
    }
}

} // verus!
