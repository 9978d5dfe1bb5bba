//! The B+ tree on the pages of a file.
//!
//! The tree lives in two files. The data file holds the nodes, each in a
//! page of its own, behind the page header; a reference to a node is the
//! byte offset of its record in the data file. The metadata file holds, in
//! its first page, the reference to the root, and in its second page the
//! type of the keys.

use crate::btree::file::item::{FileBTreeNodeItem, FileItemView};
use crate::btree::file::node::{node_fits, node_wire, parse_node, FileBTreeNode, FileNodeView};
use crate::btree::shape::{
    any_non_pair, cut_point, find_insert_child, find_leaf_pair, find_leaf_slot, find_lookup_child,
    find_separator, insert_child, leaf_find, leaf_slot, lookup_child, overfull, pair_with,
    separator_place, shapes, ItemKind, ItemShape, NodeItem,
};
use crate::codec::compare::{fields_equal, orderable, same_value, KeyOrder};
use crate::codec::error::CodecError;
use crate::codec::field::{fields_view, Field, FieldType, FieldView};
use crate::codec::le::{le_bytes, le_value};
use crate::codec::serialize::Serialize;
use crate::error::{BTreeError, Error};
use crate::file::{append_point, frame_at, lemma_append_point, stored, IoError, PageFile};
use crate::page::{zeros, PageView};
use crate::pager::Pager;
use crate::record_id::{parse_record_id, record_id_fits, record_id_wire, RecordId, RecordIdView};
use vstd::prelude::*;

verus! {

/// The number of bytes of a page that a node can take.
pub const NODE_ROOM: usize = 4094;

/// The number of nodes that a way from the root down passes at most.
pub const MAX_DEPTH: usize = 64;

/// The mathematical value of a [`FileBTree`].
pub struct FileTreeView {
    /// The pages of the data file.
    pub data: Seq<PageView>,
    /// The number of pages that the data file takes at most.
    pub data_limit: int,
    /// The pages of the metadata file.
    pub meta: Seq<PageView>,
    /// The number of pages that the metadata file takes at most.
    pub meta_limit: int,
    /// The number of items at which a node is split.
    pub max_degree: int,
    /// Whether a value that is already the first under its key is refused.
    pub unique: bool,
}

/// The bytes of a page behind its header.
pub open spec fn slot_bytes(frames: Seq<PageView>, page: int) -> Seq<u8> {
    frame_at(frames, page).bytes.subrange(2, 4096)
}

/// A page after `bytes`, followed by zeros to the end of the page, were
/// written behind its header.
pub open spec fn slot_page(page: PageView, bytes: Seq<u8>) -> PageView {
    page.put(bytes + zeros(4094 - bytes.len()), 2).clean()
}

/// The reference to the record behind the header of page `page` of the file
/// that holds the reference.
pub open spec fn slot_id(page: int) -> RecordIdView {
    RecordIdView { path: Seq::empty(), offset: (page * 4096 + 2) as u64 }
}

/// The page in which a new node goes: the first page where no page holds
/// anything, the page behind the last page that holds anything otherwise.
pub open spec fn fresh_page(frames: Seq<PageView>) -> int {
    let point = append_point(frames);
    if point.1 <= 2 {
        point.0
    } else {
        point.0 + 1
    }
}

/// The node that `id` refers to: `MissingChild` where the reference leads
/// into another file, not to the start of a page, or to a page that holds no
/// record; `CorruptNode` where the record is no node.
#[verifier::opaque]
pub open spec fn node_at(frames: Seq<PageView>, id: RecordIdView) -> Result<
    FileNodeView,
    BTreeError,
> {
    if id.path.len() != 0 || id.offset % 4096 != 2 {
        Err(BTreeError::MissingChild)
    } else {
        let bytes = slot_bytes(frames, id.offset as int / 4096);
        if le_value(bytes.subrange(0, 4)) == 0 {
            Err(BTreeError::MissingChild)
        } else {
            match parse_node(bytes) {
                Ok(node) => Ok(FileNodeView { record_id: Some(id), ..node }),
                Err(_) => Err(BTreeError::CorruptNode),
            }
        }
    }
}

/// The pages after `node` was written into page `page`, or why it was not:
/// `BadLength` where the node does not fit a page, `WriteFailed` where the
/// page lies at or beyond the limit of the file.
pub open spec fn saved(frames: Seq<PageView>, limit: int, node: FileNodeView, page: int) -> Result<
    Seq<PageView>,
    Error,
> {
    if !node_fits(node) || node_wire(node).len() > 4094 {
        Err(Error::Codec(CodecError::BadLength))
    } else if page < 0 || page >= limit {
        Err(Error::Io(IoError::WriteFailed))
    } else {
        Ok(stored(frames, page, slot_page(frame_at(frames, page), node_wire(node))))
    }
}

/// The reference to the root that the metadata holds; nothing where the tree
/// has no root yet.
pub open spec fn root_of(meta: Seq<PageView>) -> Result<Option<RecordIdView>, Error> {
    let bytes = slot_bytes(meta, 0);
    if le_value(bytes.subrange(0, 4)) == 0 {
        Ok(None)
    } else {
        match parse_record_id(bytes) {
            Ok(id) => Ok(Some(id)),
            Err(error) => Err(Error::Codec(error)),
        }
    }
}

/// The metadata after `id` was written as the reference to the root, or why
/// it was not.
pub open spec fn with_root(meta: Seq<PageView>, limit: int, id: RecordIdView) -> Result<
    Seq<PageView>,
    Error,
> {
    if !record_id_fits(id) || record_id_wire(id).len() > 4094 {
        Err(Error::Codec(CodecError::BadLength))
    } else if limit <= 0 {
        Err(Error::Io(IoError::WriteFailed))
    } else {
        Ok(stored(meta, 0, slot_page(frame_at(meta, 0), record_id_wire(id))))
    }
}

/// The type of the keys that the metadata holds.
pub open spec fn key_type_of(meta: Seq<PageView>) -> Result<FieldType, Error> {
    match FieldType::of_tag(slot_bytes(meta, 1)[0]) {
        Some(kind) => Ok(kind),
        None => Err(Error::Codec(CodecError::InvalidTag)),
    }
}

/// The metadata after `kind` was written as the type of the keys, or why it
/// was not.
pub open spec fn with_key_type(meta: Seq<PageView>, limit: int, kind: FieldType) -> Result<
    Seq<PageView>,
    Error,
> {
    if limit <= 1 {
        Err(Error::Io(IoError::WriteFailed))
    } else {
        Ok(stored(meta, 1, slot_page(frame_at(meta, 1), le_bytes(kind.tag() as nat, 4))))
    }
}

/// Whether `key` can be a key of a tree that is keyed by `kind`.
pub open spec fn usable_key(key: FieldView, kind: FieldType) -> bool {
    key.kind() == kind && orderable(key)
}

/// The values under `key`, searched from the node that `at` refers to down
/// through at most `fuel` nodes: in a leaf, the values of the first pair
/// with that key; in an internal node, what the child before the first
/// greater separator holds, or the child at the last pointer where no
/// separator is greater. `CorruptNode` where an internal node holds no
/// pointer there, and where the search does not end within `fuel` nodes.
pub open spec fn file_lookup(data: Seq<PageView>, at: RecordIdView, key: Field, fuel: nat) -> Result<
    Option<Seq<FieldView>>,
    BTreeError,
>
    decreases fuel,
{
    if fuel == 0 {
        Err(BTreeError::CorruptNode)
    } else {
        match node_at(data, at) {
            Err(error) => Err(error),
            Ok(node) => {
                if !node.internal {
                    let found = leaf_find(node.items, key);
                    if found < node.items.len() {
                        match node.items[found] {
                            FileItemView::Pair(_, values) => Ok(Some(values)),
                            _ => Ok(None),
                        }
                    } else {
                        Ok(None)
                    }
                } else {
                    let child = lookup_child(node.items, key);
                    if 0 <= child < node.items.len() {
                        match node.items[child] {
                            FileItemView::Pointer(below) => file_lookup(
                                data,
                                below,
                                key,
                                (fuel - 1) as nat,
                            ),
                            _ => Err(BTreeError::CorruptNode),
                        }
                    } else {
                        Err(BTreeError::CorruptNode)
                    }
                }
            },
        }
    }
}

/// The tree after `node` was written into page `page` of the data file, and
/// whether it was written.
pub open spec fn save_step(tree: FileTreeView, node: FileNodeView, page: int) -> (
    FileTreeView,
    Result<(), Error>,
) {
    match saved(tree.data, tree.data_limit, node, page) {
        Ok(data) => (FileTreeView { data, ..tree }, Ok(())),
        Err(error) => (tree, Err(error)),
    }
}

/// The tree after `id` was written as the reference to the root, and whether
/// it was written.
pub open spec fn root_step(tree: FileTreeView, id: RecordIdView) -> (
    FileTreeView,
    Result<(), Error>,
) {
    match with_root(tree.meta, tree.meta_limit, id) {
        Ok(meta) => (FileTreeView { meta, ..tree }, Ok(())),
        Err(error) => (tree, Err(error)),
    }
}

/// Whether the record behind the header of page `page` has an offset.
pub open spec fn slot_fits(page: int) -> bool {
    0 <= page && page * 4096 + 2 <= u64::MAX
}

/// The page that holds the record that `id` refers to.
pub open spec fn page_of(id: RecordIdView) -> int {
    id.offset as int / 4096
}

/// The way from a node down to a leaf.
pub struct FileDescent {
    /// The internal nodes passed, each with the position of the pointer taken.
    pub frames: Seq<(FileNodeView, int)>,
    /// The leaf reached.
    pub leaf: FileNodeView,
}

/// The way that goes through `front` first and then takes `rest`.
pub open spec fn extend_descent(
    front: Seq<(FileNodeView, int)>,
    rest: Result<FileDescent, BTreeError>,
) -> Result<FileDescent, BTreeError> {
    match rest {
        Ok(rest) => Ok(FileDescent { frames: front + rest.frames, leaf: rest.leaf }),
        Err(error) => Err(error),
    }
}

/// The way that an insertion of `key` takes from the node that `at` refers
/// to down to a leaf, through at most `fuel` nodes. `CorruptNode` where an
/// internal node holds no pointer where one is looked for, and where the way
/// does not end within `fuel` nodes.
pub open spec fn file_descend(data: Seq<PageView>, at: RecordIdView, key: Field, fuel: nat) -> Result<
    FileDescent,
    BTreeError,
>
    decreases fuel,
{
    if fuel == 0 {
        Err(BTreeError::CorruptNode)
    } else {
        match node_at(data, at) {
            Err(error) => Err(error),
            Ok(node) => {
                if !node.internal {
                    Ok(FileDescent { frames: Seq::empty(), leaf: node })
                } else {
                    let child = insert_child(node.items, key);
                    if child < node.items.len() {
                        match node.items[child] {
                            FileItemView::Pointer(below) => extend_descent(
                                seq![(node, child)],
                                file_descend(data, below, key, (fuel - 1) as nat),
                            ),
                            _ => Err(BTreeError::CorruptNode),
                        }
                    } else {
                        Err(BTreeError::CorruptNode)
                    }
                }
            },
        }
    }
}

/// The items of a leaf after `value` was put under `key`: behind the values
/// of the pair with that key, or as a new pair before the first pair with a
/// greater key. Nothing where `unique` is set and `value` equals the first
/// value under the key.
pub open spec fn file_leaf_put(
    items: Seq<FileItemView>,
    key: Field,
    value: FieldView,
    unique: bool,
) -> Option<Seq<FileItemView>> {
    let slot = leaf_slot(items, key);
    if slot < items.len() && pair_with(items[slot], key) {
        match items[slot] {
            FileItemView::Pair(own, values) => {
                if unique && values.len() > 0 && same_value(values[0], value) {
                    None
                } else {
                    Some(items.update(slot, FileItemView::Pair(own, values.push(value))))
                }
            },
            _ => Some(items),
        }
    } else {
        Some(items.insert(slot, FileItemView::Pair(key@, seq![value])))
    }
}

/// The key of a separator or of a pair.
pub open spec fn file_key_of(item: FileItemView) -> Option<FieldView> {
    match item {
        FileItemView::Key(key) => Some(key),
        FileItemView::Pair(key, _) => Some(key),
        FileItemView::Pointer(_) => None,
    }
}

/// Where a node is to be cut in two and the key that parts the halves;
/// nothing where the node has not grown too large, and where no key parts
/// the halves.
pub open spec fn file_split_plan(node: FileNodeView, max_degree: int) -> Option<(int, FieldView)> {
    let cut = cut_point(node.items.len() as int, node.internal);
    let right = node.items.skip(cut);
    if !overfull(node.items, node.internal, max_degree) || cut > node.items.len()
        || separator_place(right).is_none() {
        None
    } else {
        match file_key_of(right[separator_place(right).unwrap()]) {
            Some(separator) => Some((cut, separator)),
            None => None,
        }
    }
}

/// The left half of a node that is cut at `cut`; it stays where the node was.
pub open spec fn left_half(node: FileNodeView, cut: int, parent: Option<RecordIdView>) -> FileNodeView {
    FileNodeView {
        items: node.items.take(cut),
        internal: any_non_pair(node.items.take(cut)),
        record_id: node.record_id,
        parent,
    }
}

/// The right half of a node that is cut at `cut`; it is stored at `id`.
pub open spec fn right_half(
    node: FileNodeView,
    cut: int,
    id: RecordIdView,
    parent: Option<RecordIdView>,
) -> FileNodeView {
    FileNodeView {
        items: node.items.skip(cut),
        internal: any_non_pair(node.items.skip(cut)),
        record_id: Some(id),
        parent,
    }
}

/// The root that is put above the two halves of a root that was split.
pub open spec fn file_root_above(
    left: RecordIdView,
    separator: FieldView,
    right: RecordIdView,
    id: RecordIdView,
) -> FileNodeView {
    FileNodeView {
        items: seq![
            FileItemView::Pointer(left),
            FileItemView::Key(separator),
            FileItemView::Pointer(right),
        ],
        internal: true,
        record_id: Some(id),
        parent: None,
    }
}

/// The items of a parent after the pointer at `place` gave way to a pointer
/// to the left half, the separator and a pointer to the right half.
pub open spec fn file_bumped(
    items: Seq<FileItemView>,
    place: int,
    left: RecordIdView,
    separator: FieldView,
    right: RecordIdView,
) -> Seq<FileItemView> {
    items.update(place, FileItemView::Pointer(left)).insert(
        place + 1,
        FileItemView::Key(separator),
    ).insert(place + 2, FileItemView::Pointer(right))
}

/// The tree after the root `node` was cut at `cut`: the left half is written
/// where the root was, the right half into the first free page, a new root
/// into the page behind it, and the reference to the new root into the
/// metadata. The first write that fails ends the operation.
pub open spec fn split_root(tree: FileTreeView, node: FileNodeView, cut: int, separator: FieldView) -> (
    FileTreeView,
    Result<(), Error>,
) {
    let right_page = fresh_page(tree.data);
    if node.record_id.is_none() {
        (tree, Err(Error::BTree(BTreeError::CorruptNode)))
    } else if !slot_fits(right_page + 1) {
        (tree, Err(Error::Io(IoError::WriteFailed)))
    } else {
        let left_id = node.record_id.unwrap();
        let right_id = slot_id(right_page);
        let root_id = slot_id(right_page + 1);
        let first = save_step(tree, left_half(node, cut, Some(root_id)), page_of(left_id));
        if first.1.is_err() {
            first
        } else {
            let second = save_step(
                first.0,
                right_half(node, cut, right_id, Some(root_id)),
                right_page,
            );
            if second.1.is_err() {
                second
            } else {
                let third = save_step(
                    second.0,
                    file_root_above(left_id, separator, right_id, root_id),
                    right_page + 1,
                );
                if third.1.is_err() {
                    third
                } else {
                    root_step(third.0, root_id)
                }
            }
        }
    }
}

/// The parent after its child `node` was cut at `cut`.
pub open spec fn grown_parent(
    tree: FileTreeView,
    node: FileNodeView,
    separator: FieldView,
    parent: FileNodeView,
    place: int,
) -> FileNodeView {
    FileNodeView {
        items: file_bumped(
            parent.items,
            place,
            node.record_id.unwrap(),
            separator,
            slot_id(fresh_page(tree.data)),
        ),
        ..parent
    }
}

/// The tree after the node `node` below `parent` was cut at `cut`: the left
/// half is written where the node was, the right half into the first free
/// page, and the parent, with the separator and the pointer to the right
/// half behind the pointer at `place`, where the parent was. The first write
/// that fails ends the operation.
pub open spec fn split_inner(
    tree: FileTreeView,
    node: FileNodeView,
    cut: int,
    separator: FieldView,
    parent: FileNodeView,
    place: int,
) -> (FileTreeView, Result<(), Error>) {
    let right_page = fresh_page(tree.data);
    if node.record_id.is_none() || parent.record_id.is_none() || place < 0 || place
        >= parent.items.len() {
        (tree, Err(Error::BTree(BTreeError::CorruptNode)))
    } else if !slot_fits(right_page) {
        (tree, Err(Error::Io(IoError::WriteFailed)))
    } else {
        let left_id = node.record_id.unwrap();
        let right_id = slot_id(right_page);
        let first = save_step(tree, left_half(node, cut, node.parent), page_of(left_id));
        if first.1.is_err() {
            first
        } else {
            let second = save_step(first.0, right_half(node, cut, right_id, node.parent), right_page);
            if second.1.is_err() {
                second
            } else {
                save_step(
                    second.0,
                    grown_parent(tree, node, separator, parent, place),
                    page_of(parent.record_id.unwrap()),
                )
            }
        }
    }
}

/// The tree after `node` was split, where it has grown too large, and the
/// nodes above it on the way `frames` likewise. A node in which no key parts
/// the halves is left as it is.
pub open spec fn file_balanced(
    tree: FileTreeView,
    node: FileNodeView,
    frames: Seq<(FileNodeView, int)>,
) -> (FileTreeView, Result<(), Error>)
    decreases frames.len(),
{
    match file_split_plan(node, tree.max_degree) {
        None => (tree, Ok(())),
        Some((cut, separator)) => {
            if frames.len() == 0 {
                split_root(tree, node, cut, separator)
            } else {
                let (parent, place) = frames.last();
                let step = split_inner(tree, node, cut, separator, parent, place);
                if step.1.is_err() {
                    step
                } else {
                    file_balanced(
                        step.0,
                        grown_parent(tree, node, separator, parent, place),
                        frames.drop_last(),
                    )
                }
            }
        },
    }
}

/// The reference to the root, and the tree after a root was made where
/// there was none: an empty leaf in the first free page of the data file,
/// with the reference to it in the metadata.
pub open spec fn ensure_root(tree: FileTreeView) -> (FileTreeView, Result<RecordIdView, Error>) {
    match root_of(tree.meta) {
        Err(error) => (tree, Err(error)),
        Ok(Some(id)) => (tree, Ok(id)),
        Ok(None) => {
            let page = fresh_page(tree.data);
            if !slot_fits(page) {
                (tree, Err(Error::Io(IoError::WriteFailed)))
            } else {
                let node = FileNodeView {
                    items: Seq::empty(),
                    internal: false,
                    record_id: Some(slot_id(page)),
                    parent: None,
                };
                let first = save_step(tree, node, page);
                match first.1 {
                    Err(error) => (first.0, Err(error)),
                    Ok(_) => {
                        let second = root_step(first.0, slot_id(page));
                        match second.1 {
                            Err(error) => (second.0, Err(error)),
                            Ok(_) => (second.0, Ok(slot_id(page))),
                        }
                    },
                }
            }
        },
    }
}

/// The tree after `value` was put under `key`, and whether it was put.
/// `KeyTypeMismatch` where the key is not of the type that the tree is keyed
/// by or cannot be ordered. The value is not put where the leaf refuses it.
/// The first read or write that fails ends the operation.
pub open spec fn file_insert(tree: FileTreeView, key: Field, value: FieldView) -> (
    FileTreeView,
    Result<bool, Error>,
) {
    match key_type_of(tree.meta) {
        Err(error) => (tree, Err(error)),
        Ok(kind) => {
            if !usable_key(key@, kind) {
                (tree, Err(Error::BTree(BTreeError::KeyTypeMismatch)))
            } else {
                let rooted = ensure_root(tree);
                match rooted.1 {
                    Err(error) => (rooted.0, Err(error)),
                    Ok(root) => put_from(rooted.0, root, key, value),
                }
            }
        },
    }
}

/// The tree after `value` was put under `key` on the way down from `root`.
pub open spec fn put_from(tree: FileTreeView, root: RecordIdView, key: Field, value: FieldView) -> (
    FileTreeView,
    Result<bool, Error>,
) {
    match file_descend(tree.data, root, key, 64) {
        Err(error) => (tree, Err(Error::BTree(error))),
        Ok(way) => {
            match file_leaf_put(way.leaf.items, key, value, tree.unique) {
                None => (tree, Ok(false)),
                Some(items) => {
                    let leaf = FileNodeView { items, ..way.leaf };
                    if leaf.record_id.is_none() {
                        (tree, Err(Error::BTree(BTreeError::CorruptNode)))
                    } else {
                        let step = save_step(tree, leaf, page_of(leaf.record_id.unwrap()));
                        match step.1 {
                            Err(error) => (step.0, Err(error)),
                            Ok(_) => {
                                let done = file_balanced(step.0, leaf, way.frames);
                                match done.1 {
                                    Err(error) => (done.0, Err(error)),
                                    Ok(_) => (done.0, Ok(true)),
                                }
                            },
                        }
                    }
                },
            }
        },
    }
}

/// The frames of a way as mathematical values.
pub open spec fn file_frames(frames: Seq<(FileBTreeNode, usize)>) -> Seq<(FileNodeView, int)> {
    Seq::new(frames.len(), |i: int| (frames[i].0@, frames[i].1 as int))
}

/// The pages after the node that `id` refers to was taken out: the bytes of
/// its record are zeros.
pub open spec fn removed(data: Seq<PageView>, id: RecordIdView) -> Seq<PageView> {
    stored(
        data,
        page_of(id),
        frame_at(data, page_of(id)).erased(
            crate::btree::file::node::node_span(slot_bytes(data, page_of(id))),
            2,
        ).clean(),
    )
}

/// A result of the tree as a result of the store.
pub open spec fn lifted<T>(result: Result<T, BTreeError>) -> Result<T, Error> {
    match result {
        Ok(value) => Ok(value),
        Err(error) => Err(Error::BTree(error)),
    }
}

/// What a search for `key` gives: `KeyTypeMismatch` where the key is not of
/// the type that the tree is keyed by or cannot be ordered; nothing where
/// the tree has no root yet; what the search from the root finds otherwise.
pub open spec fn file_get(tree: FileTreeView, key: Field) -> Result<Option<Seq<FieldView>>, Error> {
    match key_type_of(tree.meta) {
        Err(error) => Err(error),
        Ok(kind) => {
            if !usable_key(key@, kind) {
                Err(Error::BTree(BTreeError::KeyTypeMismatch))
            } else {
                match root_of(tree.meta) {
                    Err(error) => Err(error),
                    Ok(None) => Ok(None),
                    Ok(Some(root)) => lifted(file_lookup(tree.data, root, key, 64)),
                }
            }
        },
    }
}

/// A B+ tree on the pages of a file.
#[derive(Debug)]
pub struct FileBTree {
    pager: Pager,
    unique: bool,
    max_degree: usize,
    metadata: PageFile,
}

impl View for FileBTree {
    type V = FileTreeView;

    closed spec fn view(&self) -> FileTreeView {
        FileTreeView {
            data: self.pager@.frames,
            data_limit: self.pager@.limit,
            meta: self.metadata@.frames,
            meta_limit: self.metadata@.limit,
            max_degree: self.max_degree as int,
            unique: self.unique,
        }
    }
}

/// `bytes`, followed by zeros up to the room that a page has.
fn padded(bytes: &Vec<u8>) -> (whole: Vec<u8>)
    requires
        bytes@.len() <= 4094,
    ensures
        whole@ == bytes@ + zeros(4094 - bytes@.len()),
        whole@.len() == 4094,
{
    let mut whole: Vec<u8> = Vec::new();
    crate::codec::le::put_bytes(&mut whole, bytes.as_slice());
    let mut at: usize = bytes.len();
    while at < 4094
        invariant
            bytes@.len() <= at <= 4094,
            whole@ == bytes@ + zeros(at - bytes@.len()),
        decreases 4094 - at,
    {
        whole.push(0u8);
        at = at + 1;
        assert(whole@ =~= bytes@ + zeros(at - bytes@.len()));
    }
    whole
}

/// Stores `bytes`, followed by zeros, behind the header of page `index`.
fn write_slot(file: &mut PageFile, index: u64, bytes: &Vec<u8>) -> (result: Result<(), IoError>)
    requires
        old(file).well_formed(),
        bytes@.len() <= 4094,
    ensures
        final(file).well_formed(),
        final(file)@.limit == old(file)@.limit,
        match result {
            Ok(_) => index < old(file)@.limit && final(file)@.frames == stored(
                old(file)@.frames,
                index as int,
                slot_page(frame_at(old(file)@.frames, index as int), bytes@),
            ),
            Err(error) => {
                &&& error == IoError::WriteFailed
                &&& index >= old(file)@.limit
                &&& final(file)@ == old(file)@
            },
        },
{
    let whole = padded(bytes);
    let mut page = file.load_page(index);
    match page.replace_at(whole.as_slice(), 2) {
        Ok(_) => {},
        Err(_) => {},
    }
    file.flush_page(index, page)
}

/// The bytes behind the header of page `index`.
fn read_slot(file: &PageFile, index: u64) -> (bytes: Vec<u8>)
    requires
        file.well_formed(),
    ensures
        bytes@ == slot_bytes(file@.frames, index as int),
        bytes@.len() == 4094,
{
    let page = file.load_page(index);
    page.read(4094)
}

impl FileBTree {
    /// The two files are well formed.
    pub closed spec fn well_formed(&self) -> bool {
        self.pager.well_formed() && self.metadata.well_formed()
    }

    /// A tree over the data file `data` and the metadata file `metadata`.
    pub fn new(data: PageFile, metadata: PageFile, max_degree: usize, unique: bool) -> (tree:
        FileBTree)
        requires
            data.well_formed(),
            metadata.well_formed(),
        ensures
            tree.well_formed(),
            tree@ == (FileTreeView {
                data: data@.frames,
                data_limit: data@.limit,
                meta: metadata@.frames,
                meta_limit: metadata@.limit,
                max_degree: max_degree as int,
                unique,
            }),
    {
        FileBTree { pager: Pager::new(data), unique, max_degree, metadata }
    }

    /// The number of items at which a node is split.
    pub fn max_degree(&self) -> (max_degree: usize)
        ensures
            max_degree == self@.max_degree,
    {
        self.max_degree
    }

    /// The data file.
    pub fn data(&self) -> (file: &PageFile)
        ensures
            file@.frames == self@.data,
            file@.limit == self@.data_limit,
    {
        self.pager.file()
    }

    /// The metadata file.
    pub fn metadata(&self) -> (file: &PageFile)
        ensures
            file@.frames == self@.meta,
            file@.limit == self@.meta_limit,
    {
        &self.metadata
    }

    /// The type of the keys, as the metadata holds it.
    pub fn key_type(&self) -> (result: Result<FieldType, Error>)
        requires
            self.well_formed(),
        ensures
            result == key_type_of(self@.meta),
    {
        let bytes = read_slot(&self.metadata, 1);
        match FieldType::from_tag(bytes[0]) {
            Some(kind) => Ok(kind),
            None => Err(Error::Codec(CodecError::InvalidTag)),
        }
    }

    /// Writes the type of the keys into the metadata.
    pub fn set_key_type(&mut self, kind: FieldType) -> (result: Result<(), Error>)
        requires
            old(self).well_formed(),
        ensures
            final(self).well_formed(),
            match with_key_type(old(self)@.meta, old(self)@.meta_limit, kind) {
                Ok(meta) => result.is_ok() && final(self)@ == (FileTreeView { meta, ..old(self)@ }),
                Err(error) => result == Err::<(), Error>(error) && final(self)@ == old(self)@,
            },
    {
        let mut bytes: Vec<u8> = Vec::new();
        crate::codec::le::put_le(&mut bytes, kind.to_tag() as u128, 4);
        proof {
            crate::codec::le::lemma_le_bytes_len(kind.tag() as nat, 4);
        }
        match write_slot(&mut self.metadata, 1, &bytes) {
            Ok(_) => Ok(()),
            Err(error) => Err(Error::Io(error)),
        }
    }

    /// The reference to the root, as the metadata holds it; nothing where
    /// the tree has no root yet.
    pub fn root_rci(&self) -> (result: Result<Option<RecordId>, Error>)
        requires
            self.well_formed(),
        ensures
            match result {
                Ok(Some(id)) => root_of(self@.meta) == Ok::<Option<RecordIdView>, Error>(
                    Some(id@),
                ),
                Ok(None) => root_of(self@.meta) == Ok::<Option<RecordIdView>, Error>(None),
                Err(error) => root_of(self@.meta) == Err::<Option<RecordIdView>, Error>(error),
            },
    {
        let bytes = read_slot(&self.metadata, 0);
        let announced: u128 = crate::codec::le::get_le(bytes.as_slice(), 0, 4);
        if announced == 0 {
            return Ok(None);
        }
        match RecordId::decode(bytes.as_slice()) {
            Ok((id, _)) => Ok(Some(id)),
            Err(error) => Err(Error::Codec(error)),
        }
    }

    /// Writes `id` into the metadata as the reference to the root.
    fn set_root(&mut self, id: &RecordId) -> (result: Result<(), Error>)
        requires
            old(self).well_formed(),
        ensures
            final(self).well_formed(),
            (final(self)@, result) == root_step(old(self)@, id@),
    {
        let bytes = match id.serialize() {
            Ok(bytes) => bytes,
            Err(error) => {
                return Err(Error::Codec(error));
            },
        };
        if bytes.len() > 4094 {
            return Err(Error::Codec(CodecError::BadLength));
        }
        match write_slot(&mut self.metadata, 0, &bytes) {
            Ok(_) => Ok(()),
            Err(error) => Err(Error::Io(error)),
        }
    }

    /// The node that `record_id` refers to.
    pub fn read_node(&self, record_id: &RecordId) -> (result: Result<FileBTreeNode, Error>)
        requires
            self.well_formed(),
        ensures
            match result {
                Ok(node) => node.well_formed() && node_at(self@.data, record_id@) == Ok::<
                    FileNodeView,
                    BTreeError,
                >(node@),
                Err(error) => match node_at(self@.data, record_id@) {
                    Ok(_) => false,
                    Err(found) => error == Error::BTree(found),
                },
            },
    {
        reveal(node_at);
        if !record_id.path().is_empty() || record_id.offset() % 4096 != 2 {
            return Err(Error::BTree(BTreeError::MissingChild));
        }
        let bytes = read_slot(self.pager.file(), record_id.offset() / 4096);
        let announced: u128 = crate::codec::le::get_le(bytes.as_slice(), 0, 4);
        if announced == 0 {
            return Err(Error::BTree(BTreeError::MissingChild));
        }
        match FileBTreeNode::decode(bytes.as_slice()) {
            Ok((node, _)) => {
                let mut node = node;
                node.set_record_id(Some(record_id.cloned()));
                Ok(node)
            },
            Err(_) => Err(Error::BTree(BTreeError::CorruptNode)),
        }
    }

    /// Writes `node` into page `page` of the data file.
    fn save_at(&mut self, node: &FileBTreeNode, page: u64) -> (result: Result<(), Error>)
        requires
            old(self).well_formed(),
        ensures
            final(self).well_formed(),
            (final(self)@, result) == save_step(old(self)@, node@, page as int),
    {
        let bytes = match node.serialize() {
            Ok(bytes) => bytes,
            Err(error) => {
                return Err(Error::Codec(error));
            },
        };
        if bytes.len() > 4094 {
            return Err(Error::Codec(CodecError::BadLength));
        }
        let whole = padded(&bytes);
        proof {
            self.pager.lemma_well_formed();
        }
        match self.pager.replace_at(whole.as_slice(), (page, 2)) {
            Ok(_) => Ok(()),
            Err(error) => Err(error),
        }
    }

    /// Whether `key` is of the type that the tree is keyed by and can be
    /// ordered.
    fn check_key(&self, key: &Field) -> (result: Result<(), Error>)
        requires
            self.well_formed(),
        ensures
            match key_type_of(self@.meta) {
                Err(error) => result == Err::<(), Error>(error),
                Ok(kind) => if usable_key(key@, kind) {
                    result.is_ok()
                } else {
                    result == Err::<(), Error>(Error::BTree(BTreeError::KeyTypeMismatch))
                },
            },
    {
        let kind = match self.key_type() {
            Ok(kind) => kind,
            Err(error) => {
                return Err(error);
            },
        };
        if key.field_type() != kind || key.compare(key).is_none() {
            return Err(Error::BTree(BTreeError::KeyTypeMismatch));
        }
        Ok(())
    }

    /// Copies of the values under `key`, in the order in which they were
    /// put, if the search from the root finds the key.
    pub fn get(&self, key: &Field) -> (result: Result<Option<Vec<Field>>, Error>)
        requires
            self.well_formed(),
        ensures
            match result {
                Ok(Some(values)) => file_get(self@, *key) == Ok::<Option<Seq<FieldView>>, Error>(
                    Some(fields_view(values@)),
                ),
                Ok(None) => file_get(self@, *key) == Ok::<Option<Seq<FieldView>>, Error>(None),
                Err(error) => file_get(self@, *key) == Err::<Option<Seq<FieldView>>, Error>(error),
            },
    {
        match self.check_key(key) {
            Ok(_) => {},
            Err(error) => {
                return Err(error);
            },
        }
        let root = match self.root_rci() {
            Ok(Some(root)) => root,
            Ok(None) => {
                return Ok(None);
            },
            Err(error) => {
                return Err(error);
            },
        };
        let ghost data = self@.data;
        let ghost goal = file_get(self@, *key);
        let mut at: RecordId = root;
        let mut fuel: usize = 64;
        while fuel > 0
            invariant
                self.well_formed(),
                data == self@.data,
                fuel <= 64,
                goal == file_get(self@, *key),
                goal == lifted(file_lookup(data, at@, *key, fuel as nat)),
            decreases fuel,
        {
            let node = match self.read_node(&at) {
                Ok(node) => node,
                Err(error) => {
                    return Err(error);
                },
            };
            let items = node.items();
            if !node.is_internal() {
                let found = find_leaf_pair(items, key);
                if found >= items.len() {
                    return Ok(None);
                }
                assert(shapes(items@)[found as int] == items@[found as int]@);
                return match &items[found] {
                    FileBTreeNodeItem::Pair(_, values) => Ok(
                        Some(crate::btree::file::item::copy_fields(values)),
                    ),
                    _ => Ok(None),
                };
            }
            let child: usize = match find_lookup_child(items, key) {
                Some(child) => child,
                None => {
                    return Err(Error::BTree(BTreeError::CorruptNode));
                },
            };
            assert(shapes(items@)[child as int] == items@[child as int]@);
            match &items[child] {
                FileBTreeNodeItem::Pointer(below) => {
                    at = below.cloned();
                },
                _ => {
                    return Err(Error::BTree(BTreeError::CorruptNode));
                },
            }
            fuel = fuel - 1;
        }
        Err(Error::BTree(BTreeError::CorruptNode))
    }

    /// The page in which a new node goes.
    fn fresh_slot(&self) -> (page: u64)
        requires
            self.well_formed(),
        ensures
            page == fresh_page(self@.data),
    {
        proof {
            self.pager.lemma_well_formed();
            lemma_append_point(self@.data);
        }
        let count: u64 = self.pager.file().page_count();
        let point = self.pager.occupied();
        if point.1 <= 2 {
            point.0
        } else {
            point.0 + 1
        }
    }

    /// The reference to the record behind the header of page `page`.
    fn slot_reference(page: u64) -> (id: Option<RecordId>)
        ensures
            match id {
                Some(id) => slot_fits(page as int) && id@ == slot_id(page as int),
                None => !slot_fits(page as int),
            },
    {
        if page > (u64::MAX - 2) / 4096 {
            None
        } else {
            Some(RecordId::new(String::new(), page * 4096 + 2))
        }
    }

    /// The reference to the root; makes a root where there is none.
    fn ensure_root(&mut self) -> (result: Result<RecordId, Error>)
        requires
            old(self).well_formed(),
        ensures
            final(self).well_formed(),
            final(self)@ == ensure_root(old(self)@).0,
            match result {
                Ok(id) => ensure_root(old(self)@).1 == Ok::<RecordIdView, Error>(id@),
                Err(error) => ensure_root(old(self)@).1 == Err::<RecordIdView, Error>(error),
            },
    {
        match self.root_rci() {
            Ok(Some(id)) => {
                return Ok(id);
            },
            Ok(None) => {},
            Err(error) => {
                return Err(error);
            },
        }
        let page = self.fresh_slot();
        let id = match Self::slot_reference(page) {
            Some(id) => id,
            None => {
                return Err(Error::Io(IoError::WriteFailed));
            },
        };
        let node = FileBTreeNode::empty(false, Some(id.cloned()));
        match self.save_at(&node, page) {
            Ok(_) => {},
            Err(error) => {
                return Err(error);
            },
        }
        match self.set_root(&id) {
            Ok(_) => {},
            Err(error) => {
                return Err(error);
            },
        }
        Ok(id)
    }

    /// The root; makes a root where there is none.
    pub fn root(&mut self) -> (result: Result<FileBTreeNode, Error>)
        requires
            old(self).well_formed(),
        ensures
            final(self).well_formed(),
            final(self)@ == ensure_root(old(self)@).0,
            match ensure_root(old(self)@).1 {
                Err(error) => result.is_err() && result.unwrap_err() == error,
                Ok(id) => match result {
                    Ok(node) => node.well_formed() && node_at(final(self)@.data, id) == Ok::<
                        FileNodeView,
                        BTreeError,
                    >(node@),
                    Err(error) => match node_at(final(self)@.data, id) {
                        Ok(_) => false,
                        Err(found) => error == Error::BTree(found),
                    },
                },
            },
    {
        let id = match self.ensure_root() {
            Ok(id) => id,
            Err(error) => {
                return Err(error);
            },
        };
        self.read_node(&id)
    }

    /// The way that an insertion of `key` takes from the root down to a leaf.
    fn find_way(&self, root: &RecordId, key: &Field) -> (result: Result<
        (Vec<(FileBTreeNode, usize)>, FileBTreeNode),
        Error,
    >)
        requires
            self.well_formed(),
        ensures
            match result {
                Ok((frames, leaf)) => {
                    &&& file_descend(self@.data, root@, *key, 64) == Ok::<FileDescent, BTreeError>(
                        FileDescent { frames: file_frames(frames@), leaf: leaf@ },
                    )
                    &&& leaf.well_formed()
                    &&& forall|i: int|
                        0 <= i < frames@.len() ==> (#[trigger] frames@[i]).0.well_formed()
                },
                Err(error) => match file_descend(self@.data, root@, *key, 64) {
                    Ok(_) => false,
                    Err(found) => error == Error::BTree(found),
                },
            },
    {
        let ghost data = self@.data;
        let ghost goal = file_descend(data, root@, *key, 64);
        let mut frames: Vec<(FileBTreeNode, usize)> = Vec::new();
        let mut at: RecordId = root.cloned();
        let mut fuel: usize = 64;
        proof {
            assert(file_frames(frames@) =~= Seq::<(FileNodeView, int)>::empty());
            if goal.is_ok() {
                assert(Seq::<(FileNodeView, int)>::empty() + goal.unwrap().frames
                    =~= goal.unwrap().frames);
            }
        }
        while fuel > 0
            invariant
                self.well_formed(),
                data == self@.data,
                fuel <= 64,
                goal == file_descend(data, root@, *key, 64),
                goal == extend_descent(
                    file_frames(frames@),
                    file_descend(data, at@, *key, fuel as nat),
                ),
                forall|i: int| 0 <= i < frames@.len() ==> (#[trigger] frames@[i]).0.well_formed(),
            decreases fuel,
        {
            let node = match self.read_node(&at) {
                Ok(node) => node,
                Err(error) => {
                    return Err(error);
                },
            };
            if !node.is_internal() {
                assert(file_frames(frames@) + Seq::<(FileNodeView, int)>::empty() =~= file_frames(
                    frames@,
                ));
                return Ok((frames, node));
            }
            let items = node.items();
            let child = find_insert_child(items, key);
            if child >= items.len() {
                return Err(Error::BTree(BTreeError::CorruptNode));
            }
            assert(shapes(items@)[child as int] == items@[child as int]@);
            let below: RecordId = match &items[child] {
                FileBTreeNodeItem::Pointer(below) => below.cloned(),
                _ => {
                    return Err(Error::BTree(BTreeError::CorruptNode));
                },
            };
            proof {
                let rest = file_descend(data, below@, *key, (fuel - 1) as nat);
                let longer = frames@.push((node, child));
                assert(file_frames(longer) =~= file_frames(frames@) + seq![(node@, child as int)]);
                if rest.is_ok() {
                    assert(file_frames(frames@) + (seq![(node@, child as int)]
                        + rest.unwrap().frames) =~= file_frames(longer) + rest.unwrap().frames);
                }
            }
            frames.push((node, child));
            at = below;
            fuel = fuel - 1;
        }
        Err(Error::BTree(BTreeError::CorruptNode))
    }

    /// Puts `value` under `key` in the leaf `leaf`.
    fn put_in_leaf(leaf: &mut FileBTreeNode, key: Field, value: Field, unique: bool) -> (stored:
        bool)
        requires
            old(leaf).well_formed(),
        ensures
            final(leaf).well_formed(),
            match file_leaf_put(old(leaf)@.items, key, value@, unique) {
                None => !stored && final(leaf)@ == old(leaf)@,
                Some(items) => stored && final(leaf)@ == (FileNodeView { items, ..old(leaf)@ }),
            },
    {
        let items = leaf.items();
        let slot = find_leaf_slot(items, &key);
        if slot < items.len() {
            assert(shapes(items@)[slot as int] == items@[slot as int]@);
            let held = &items[slot];
            if held.item_kind() == ItemKind::Pair && held.compare_to(&key) == Some(KeyOrder::Equal) {
                let (_, values) = held.as_pair();
                if unique && values.len() > 0 && fields_equal(&values[0], &value) {
                    return false;
                }
                let mut grown = held.cloned();
                grown.push_value(value);
                let _ = leaf.replace(grown, slot);
                return true;
            }
        }
        let mut values: Vec<Field> = Vec::new();
        values.push(value);
        assert(fields_view(values@) =~= seq![value@]);
        leaf.insert(FileBTreeNodeItem::Pair(key, values), slot);
        true
    }

    /// Where `node` is to be cut in two, and the key that parts the halves.
    fn plan_split(node: &FileBTreeNode, max_degree: usize) -> (plan: Option<(usize, Field)>)
        requires
            node.well_formed(),
        ensures
            match plan {
                Some((cut, separator)) => {
                    &&& file_split_plan(node@, max_degree as int) == Some(
                        (cut as int, separator@),
                    )
                    &&& cut <= node@.items.len()
                },
                None => file_split_plan(node@, max_degree as int).is_none(),
            },
    {
        let items = node.items();
        let internal: bool = node.is_internal();
        let len: usize = items.len();
        let cut: usize = if internal {
            len / 2 + 1
        } else {
            len / 2
        };
        let too_large: bool = if internal {
            node.non_ptr_len() >= max_degree
        } else {
            len >= max_degree
        };
        if !too_large || cut > len {
            return None;
        }
        let place: usize = match find_separator(items, cut) {
            Some(place) => place,
            None => {
                return None;
            },
        };
        assert(node@.items.skip(cut as int)[place as int] == items@[cut + place]@);
        match &items[cut + place] {
            FileBTreeNodeItem::Key(key) => Some((cut, key.duplicate())),
            FileBTreeNodeItem::Pair(key, _) => Some((cut, key.duplicate())),
            FileBTreeNodeItem::Pointer(_) => None,
        }
    }

    /// The two halves of `node`, cut at `cut`.
    fn halves(
        node: &FileBTreeNode,
        cut: usize,
        left_id: &RecordId,
        right_id: &RecordId,
        parent: &Option<RecordId>,
    ) -> (pair: (FileBTreeNode, FileBTreeNode))
        requires
            cut <= node@.items.len(),
            node@.record_id == Some(left_id@),
        ensures
            pair.0.well_formed(),
            pair.1.well_formed(),
            pair.0@ == left_half(node@, cut as int, crate::btree::file::node::reference_view(
                *parent,
            )),
            pair.1@ == right_half(
                node@,
                cut as int,
                right_id@,
                crate::btree::file::node::reference_view(*parent),
            ),
    {
        let items = node.items();
        let len: usize = items.len();
        assert(shapes(items@).subrange(0, cut as int) =~= node@.items.take(cut as int));
        assert(shapes(items@).subrange(cut as int, len as int) =~= node@.items.skip(cut as int));
        let mut left = FileBTreeNode::from_range(items, 0, cut, Some(left_id.cloned()));
        left.set_parent(crate::btree::file::node::copy_reference(parent));
        let mut right = FileBTreeNode::from_range(items, cut, len, Some(right_id.cloned()));
        right.set_parent(crate::btree::file::node::copy_reference(parent));
        (left, right)
    }

    /// Cuts the root `node` in two at `cut` and puts a new root above the
    /// halves.
    fn split_root(&mut self, node: &FileBTreeNode, cut: usize, separator: Field) -> (result: Result<
        (),
        Error,
    >)
        requires
            old(self).well_formed(),
            node.well_formed(),
            cut <= node@.items.len(),
        ensures
            final(self).well_formed(),
            (final(self)@, result) == split_root(old(self)@, node@, cut as int, separator@),
    {
        let right_page = self.fresh_slot();
        let left_id: RecordId = match node.record_id() {
            Some(id) => id.cloned(),
            None => {
                return Err(Error::BTree(BTreeError::CorruptNode));
            },
        };
        if right_page == u64::MAX {
            return Err(Error::Io(IoError::WriteFailed));
        }
        let root_id: RecordId = match Self::slot_reference(right_page + 1) {
            Some(id) => id,
            None => {
                return Err(Error::Io(IoError::WriteFailed));
            },
        };
        let right_id: RecordId = match Self::slot_reference(right_page) {
            Some(id) => id,
            None => {
                return Err(Error::Io(IoError::WriteFailed));
            },
        };
        let above: Option<RecordId> = Some(root_id.cloned());
        let (left, right) = Self::halves(node, cut, &left_id, &right_id, &above);
        match self.save_at(&left, left_id.offset() / 4096) {
            Ok(_) => {},
            Err(error) => {
                return Err(error);
            },
        }
        match self.save_at(&right, right_page) {
            Ok(_) => {},
            Err(error) => {
                return Err(error);
            },
        }
        let mut top = FileBTreeNode::empty(true, Some(root_id.cloned()));
        top.append(FileBTreeNodeItem::Pointer(left_id));
        top.append(FileBTreeNodeItem::Key(separator));
        top.append(FileBTreeNodeItem::Pointer(right_id));
        assert(top@.items =~= file_root_above(
            left_id@,
            separator@,
            right_id@,
            root_id@,
        ).items);
        match self.save_at(&top, right_page + 1) {
            Ok(_) => {},
            Err(error) => {
                return Err(error);
            },
        }
        self.set_root(&root_id)
    }

    /// Cuts `node` in two at `cut` and puts the separator and the pointer to
    /// the right half into `parent`, behind the pointer at `place`.
    fn split_inner(
        &mut self,
        node: &FileBTreeNode,
        cut: usize,
        separator: Field,
        parent: &mut FileBTreeNode,
        place: usize,
    ) -> (result: Result<(), Error>)
        requires
            old(self).well_formed(),
            node.well_formed(),
            old(parent).well_formed(),
            cut <= node@.items.len(),
        ensures
            final(self).well_formed(),
            final(parent).well_formed(),
            (final(self)@, result) == split_inner(
                old(self)@,
                node@,
                cut as int,
                separator@,
                old(parent)@,
                place as int,
            ),
            result.is_ok() ==> final(parent)@ == grown_parent(
                old(self)@,
                node@,
                separator@,
                old(parent)@,
                place as int,
            ),
    {
        let right_page = self.fresh_slot();
        let left_id: RecordId = match node.record_id() {
            Some(id) => id.cloned(),
            None => {
                return Err(Error::BTree(BTreeError::CorruptNode));
            },
        };
        let parent_page: u64 = match parent.record_id() {
            Some(id) => id.offset() / 4096,
            None => {
                return Err(Error::BTree(BTreeError::CorruptNode));
            },
        };
        let width: usize = parent.items().len();
        if place >= width {
            return Err(Error::BTree(BTreeError::CorruptNode));
        }
        let right_id: RecordId = match Self::slot_reference(right_page) {
            Some(id) => id,
            None => {
                return Err(Error::Io(IoError::WriteFailed));
            },
        };
        let above: Option<RecordId> = match node.parent() {
            Some(id) => Some(id.cloned()),
            None => None,
        };
        let (left, right) = Self::halves(node, cut, &left_id, &right_id, &above);
        match self.save_at(&left, left_id.offset() / 4096) {
            Ok(_) => {},
            Err(error) => {
                return Err(error);
            },
        }
        match self.save_at(&right, right_page) {
            Ok(_) => {},
            Err(error) => {
                return Err(error);
            },
        }
        let _ = parent.replace(FileBTreeNodeItem::Pointer(left_id), place);
        parent.insert(FileBTreeNodeItem::Key(separator), place + 1);
        let wide: usize = parent.items().len();
        assert(place + 1 < wide);
        parent.insert(FileBTreeNodeItem::Pointer(right_id), place + 2);
        self.save_at(parent, parent_page)
    }

    /// Splits `node`, where it has grown too large, and the nodes above it
    /// on the way `frames` likewise.
    fn balance(&mut self, node: FileBTreeNode, frames: Vec<(FileBTreeNode, usize)>) -> (result:
        Result<(), Error>)
        requires
            old(self).well_formed(),
            node.well_formed(),
            forall|i: int| 0 <= i < frames@.len() ==> (#[trigger] frames@[i]).0.well_formed(),
        ensures
            final(self).well_formed(),
            (final(self)@, result) == file_balanced(old(self)@, node@, file_frames(frames@)),
    {
        let mut node = node;
        let mut frames = frames;
        let ghost goal = file_balanced(self@, node@, file_frames(frames@));
        let mut outcome: Result<(), Error> = Ok(());
        loop
            invariant_except_break
                goal == file_balanced(self@, node@, file_frames(frames@)),
            invariant
                self.well_formed(),
                self@.max_degree == old(self)@.max_degree,
                node.well_formed(),
                forall|i: int| 0 <= i < frames@.len() ==> (#[trigger] frames@[i]).0.well_formed(),
            ensures
                goal == (self@, outcome),
            decreases frames@.len(),
        {
            let ghost way = file_frames(frames@);
            let (cut, separator) = match Self::plan_split(&node, self.max_degree) {
                Some(plan) => plan,
                None => {
                    outcome = Ok(());
                    break;
                },
            };
            if frames.len() == 0 {
                assert(way.len() == 0);
                outcome = self.split_root(&node, cut, separator);
                break;
            }
            let ghost last = frames@[frames@.len() - 1];
            assert(way.last() == (last.0@, last.1 as int));
            let (parent, place) = frames.pop().unwrap();
            assert(file_frames(frames@) =~= way.drop_last());
            let mut parent = parent;
            match self.split_inner(&node, cut, separator, &mut parent, place) {
                Ok(_) => {},
                Err(error) => {
                    outcome = Err(error);
                    break;
                },
            }
            node = parent;
        }
        outcome
    }

    /// Puts `kv.1` under `kv.0`. Returns whether it was put: it is not where
    /// the tree takes each value once and the value is the first under its
    /// key already. `KeyTypeMismatch` where the key is not of the type that
    /// the tree is keyed by.
    pub fn insert(&mut self, kv: (Field, Field)) -> (result: Result<bool, Error>)
        requires
            old(self).well_formed(),
        ensures
            final(self).well_formed(),
            (final(self)@, result) == file_insert(old(self)@, kv.0, kv.1@),
    {
        let (key, value) = kv;
        match self.check_key(&key) {
            Ok(_) => {},
            Err(error) => {
                return Err(error);
            },
        }
        let root = match self.ensure_root() {
            Ok(root) => root,
            Err(error) => {
                return Err(error);
            },
        };
        let (frames, leaf) = match self.find_way(&root, &key) {
            Ok(way) => way,
            Err(error) => {
                return Err(error);
            },
        };
        let mut leaf = leaf;
        if !Self::put_in_leaf(&mut leaf, key, value, self.unique) {
            return Ok(false);
        }
        let page: u64 = match leaf.record_id() {
            Some(id) => id.offset() / 4096,
            None => {
                return Err(Error::BTree(BTreeError::CorruptNode));
            },
        };
        match self.save_at(&leaf, page) {
            Ok(_) => {},
            Err(error) => {
                return Err(error);
            },
        }
        match self.balance(leaf, frames) {
            Ok(_) => Ok(true),
            Err(error) => Err(error),
        }
    }

    /// Takes the node that `record_id` refers to out of the data file: the
    /// bytes of its record are set to zero. Returns the node. Nothing is
    /// changed where the node cannot be read.
    pub fn remove_node(&mut self, record_id: &RecordId) -> (result: Result<FileBTreeNode, Error>)
        requires
            old(self).well_formed(),
        ensures
            final(self).well_formed(),
            match node_at(old(self)@.data, record_id@) {
                Err(found) => {
                    &&& result.is_err()
                    &&& result.unwrap_err() == Error::BTree(found)
                    &&& final(self)@ == old(self)@
                },
                Ok(node) => {
                    if page_of(record_id@) >= old(self)@.data_limit {
                        &&& result.is_err()
                        &&& result.unwrap_err() == Error::Io(IoError::WriteFailed)
                        &&& final(self)@ == old(self)@
                    } else {
                        &&& result.is_ok()
                        &&& result.unwrap()@ == node
                        &&& final(self)@ == (FileTreeView {
                            data: removed(old(self)@.data, record_id@),
                            ..old(self)@
                        })
                    }
                },
            },
    {
        let node = match self.read_node(record_id) {
            Ok(node) => node,
            Err(error) => {
                return Err(error);
            },
        };
        proof {
            reveal(node_at);
            self.pager.lemma_well_formed();
        }
        let page: u64 = record_id.offset() / 4096;
        let bytes = read_slot(self.pager.file(), page);
        let size: usize = crate::codec::le::get_le(bytes.as_slice(), 0, 4) as usize;
        match self.pager.erase_at(size, (page, 2)) {
            Ok(_) => Ok(node),
            Err(error) => Err(error),
        }
    }
}

} // verus!
