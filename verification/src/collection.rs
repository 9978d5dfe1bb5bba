//! Collections: documents written one behind the other into the pages of a
//! file.

use crate::codec::error::CodecError;
use crate::codec::field::FieldView;
use crate::codec::wire::encodable;
use crate::cursor::Cursor;
use crate::document::{document_wire, Document};
use crate::error::Error;
use crate::file::{IoError, PageFile};
use crate::pager::{later_page, spread, write_start, Pager, PagerView, SpanMode};
use vstd::prelude::*;

verus! {

/// A collection of documents in the pages of a file.
#[derive(Debug)]
pub struct Collection {
    pager: Pager,
    name: String,
}

impl View for Collection {
    type V = PagerView;

    closed spec fn view(&self) -> PagerView {
        self.pager@
    }
}

impl Collection {
    /// The file of the collection is well formed.
    pub closed spec fn well_formed(&self) -> bool {
        self.pager.well_formed()
    }

    /// The name of the collection, as a mathematical value.
    pub closed spec fn name_view(&self) -> Seq<char> {
        self.name@
    }

    /// The collection named `name` over the file `io`.
    pub fn new(name: String, io: PageFile) -> (collection: Collection)
        requires
            io.well_formed(),
        ensures
            collection.well_formed(),
            collection.name_view() == name@,
            collection@ == (PagerView { frames: io@.frames, limit: io@.limit, last_free_page: 0 }),
    {
        Collection { pager: Pager::new(io), name }
    }

    /// Writes `document` behind the documents that are there: from the page
    /// that was last written on, or from the first page where that page holds
    /// nothing, in each page behind the bytes that are used. `BadLength`, with nothing written, where a length inside the
    /// document does not fit its prefix; `WriteFailed`, with the pages
    /// before it written, where a page at or beyond the limit of the file is
    /// needed.
    pub fn insert_document(&mut self, document: &Document) -> (result: Result<(), Error>)
        requires
            old(self).well_formed(),
        ensures
            final(self).well_formed(),
            final(self).name_view() == old(self).name_view(),
            final(self)@.limit == old(self)@.limit,
            !encodable(FieldView::Mapping(document@)) ==> {
                &&& result == Err::<(), Error>(Error::Codec(CodecError::BadLength))
                &&& final(self)@ == old(self)@
            },
            encodable(FieldView::Mapping(document@)) ==> {
                let out = spread(
                    old(self)@.frames,
                    old(self)@.limit,
                    SpanMode::Append,
                    write_start(old(self)@.frames, old(self)@.last_free_page),
                    2,
                    document_wire(document@),
                );
                &&& final(self)@.frames == out.frames
                &&& if out.failed {
                    &&& result == Err::<(), Error>(Error::Io(IoError::WriteFailed))
                    &&& final(self)@.last_free_page == old(self)@.last_free_page
                } else {
                    &&& result.is_ok()
                    &&& final(self)@.last_free_page == later_page(old(self)@.last_free_page, out.last)
                }
            },
    {
        let bytes = match document.serialize() {
            Ok(bytes) => bytes,
            Err(error) => {
                return Err(Error::Codec(error));
            },
        };
        match self.pager.write(bytes.as_slice()) {
            Ok(_) => Ok(()),
            Err(error) => Err(error),
        }
    }

    /// A cursor at the first document.
    pub fn cursor(&self) -> (cursor: Cursor)
        ensures
            cursor@ == (0int, 2int),
    {
        Cursor::new()
    }

    /// The name of the collection.
    pub fn name(&self) -> (name: &str)
        ensures
            name@ == self.name_view(),
    {
        self.name.as_str()
    }

    /// The byte stream of the collection.
    pub fn pager(&self) -> (pager: &Pager)
        ensures
            pager@ == self@,
            self.well_formed() ==> pager.well_formed(),
    {
        &self.pager
    }

    /// Writes `buf` over the bytes from `offset` on; see [`Pager::replace_at`].
    pub fn replace_at(&mut self, buf: &[u8], offset: (u64, u16)) -> (result: Result<usize, Error>)
        requires
            old(self).well_formed(),
        ensures
            final(self).well_formed(),
            final(self).name_view() == old(self).name_view(),
            final(self)@.limit == old(self)@.limit,
            !(2 <= offset.1 <= 4096) ==> {
                &&& result == Err::<usize, Error>(
                    Error::Page(crate::page::PageError::OutOfBounds),
                )
                &&& final(self)@ == old(self)@
            },
            2 <= offset.1 <= 4096 ==> {
                let out = spread(
                    old(self)@.frames,
                    old(self)@.limit,
                    SpanMode::Replace,
                    offset.0 as int,
                    offset.1 as int,
                    buf@,
                );
                &&& final(self)@.frames == out.frames
                &&& match result {
                    Ok(written) => {
                        &&& !out.failed
                        &&& written == buf@.len()
                        &&& final(self)@.last_free_page == later_page(old(self)@.last_free_page, out.last)
                    },
                    Err(error) => {
                        &&& out.failed
                        &&& error == Error::Io(IoError::WriteFailed)
                        &&& final(self)@.last_free_page == old(self)@.last_free_page
                    },
                }
            },
    {
        self.pager.replace_at(buf, offset)
    }

    /// Sets `size` bytes to zero from `offset` on; see [`Pager::erase_at`].
    pub fn erase_at(&mut self, size: usize, offset: (u64, u16)) -> (result: Result<usize, Error>)
        requires
            old(self).well_formed(),
        ensures
            final(self).well_formed(),
            final(self).name_view() == old(self).name_view(),
            final(self)@.limit == old(self)@.limit,
            final(self)@.last_free_page == old(self)@.last_free_page,
            !(2 <= offset.1 <= 4096) ==> {
                &&& result == Err::<usize, Error>(
                    Error::Page(crate::page::PageError::OutOfBounds),
                )
                &&& final(self)@ == old(self)@
            },
            2 <= offset.1 <= 4096 ==> {
                let out = spread(
                    old(self)@.frames,
                    old(self)@.limit,
                    SpanMode::Erase,
                    offset.0 as int,
                    offset.1 as int,
                    crate::page::zeros(size as int),
                );
                &&& final(self)@.frames == out.frames
                &&& match result {
                    Ok(erased) => !out.failed && erased == size,
                    Err(error) => out.failed && error == Error::Io(IoError::WriteFailed),
                }
            },
    {
        self.pager.erase_at(size, offset)
    }
}

} // verus!
