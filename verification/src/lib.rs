//! The core of an embedded, single-process document store.
//!
//! - [`codec`]: the binary encoding of typed values, with the proof that
//!   decoding gives back what was encoded.
//! - [`record_id`]: references to records.
//! - [`page`], [`file`], [`pager`]: fixed-size pages, the image of a paged
//!   file, and the byte stream that runs through the pages.
//! - [`document`], [`collection`], [`cursor`]: documents, the file that
//!   holds them one behind the other, and the position that walks them.
//! - [`btree`]: B+ trees in memory and on the pages of a file.
//! - [`store`], [`config`], [`write_behind`], [`document_ptr`], [`error`]:
//!   databases by name, the configuration, the buffer of pages that wait to
//!   be written, and the failures.
//!
//! The library keeps every file as an image of its pages in memory. Reading
//! the pages from a device and writing them back is the part of the program
//! that embeds the library.

pub mod btree;
pub mod codec;
pub mod collection;
pub mod config;
pub mod cursor;
pub mod document;
pub mod document_ptr;
pub mod error;
pub mod file;
pub mod page;
pub mod pager;
pub mod record_id;
pub mod store;
pub mod write_behind;
