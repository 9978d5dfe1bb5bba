//! Where a document lies in a collection, with the blocks of bytes that hold it.

use vstd::prelude::*;

verus! {

/// The place and the size of a document, and the blocks of bytes that hold
/// it, one for each page that it spans.
pub struct DocumentPtr<'a> {
    offset: u16,
    page: usize,
    blocks: Vec<&'a [u8]>,
    size: usize,
}

/// The mathematical value of a [`DocumentPtr`].
pub struct DocumentPtrView {
    pub page: int,
    pub offset: int,
    pub blocks: Seq<Seq<u8>>,
    pub size: int,
}

impl<'a> View for DocumentPtr<'a> {
    type V = DocumentPtrView;

    closed spec fn view(&self) -> DocumentPtrView {
        DocumentPtrView {
            page: self.page as int,
            offset: self.offset as int,
            blocks: Seq::new(self.blocks@.len(), |i: int| self.blocks@[i]@),
            size: self.size as int,
        }
    }
}

impl<'a> DocumentPtr<'a> {
    pub fn new(page: usize, offset: u16, blocks: Vec<&'a [u8]>, size: usize) -> (pointer: Self)
        ensures
            pointer@ == (DocumentPtrView {
                page: page as int,
                offset: offset as int,
                blocks: Seq::new(blocks@.len(), |i: int| blocks@[i]@),
                size: size as int,
            }),
    {
        DocumentPtr { page, blocks, offset, size }
    }

    /// The blocks of bytes that hold the document.
    pub fn buffer(&self) -> (blocks: &Vec<&'a [u8]>)
        ensures
            blocks@.len() == self@.blocks.len(),
            forall|i: int| 0 <= i < blocks@.len() ==> (#[trigger] blocks@[i])@ == self@.blocks[i],
    {
        &self.blocks
    }

    pub fn offset(&self) -> (offset: u16)
        ensures
            offset == self@.offset,
    {
        self.offset
    }

    pub fn page(&self) -> (page: usize)
        ensures
            page == self@.page,
    {
        self.page
    }

    pub fn size(&self) -> (size: usize)
        ensures
            size == self@.size,
    {
        self.size
    }
}

} // verus!
