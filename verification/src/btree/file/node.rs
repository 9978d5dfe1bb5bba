//! Nodes of the file tree, and their encoding.
//!
//! A node is written as the length of the whole record, that length's four
//! bytes included; a byte that says whether the node is internal; a byte
//! that says whether a reference to the parent follows; that reference; and
//! the items one after the other.

use crate::btree::file::item::{
    item_fits, item_span, item_well_formed, item_wire, lemma_item_roundtrip, parse_item,
    FileBTreeNodeItem, FileItemView,
};
use crate::btree::shape::{
    any_non_pair, count_non_pointers, lemma_count_non_pointers_bound, non_pointer_count, shapes,
    ItemKind, ItemShape, NodeItem,
};
use crate::codec::deserialize::Deserialize;
use crate::codec::error::CodecError;
use crate::codec::le::{
    get_le, le_bytes, le_value, lemma_le_bytes_len, lemma_le_value_of_bytes,
    lemma_radix_pow_values, put_bytes, put_le,
};
use crate::codec::serialize::{saturated, Serialize};
use crate::record_id::{
    lemma_record_id_roundtrip, parse_record_id, record_id_fits, record_id_span, record_id_wire,
    RecordId, RecordIdView,
};
use vstd::prelude::*;

verus! {

/// The mathematical value of a [`FileBTreeNode`].
pub struct FileNodeView {
    /// The items, in order.
    pub items: Seq<FileItemView>,
    /// Whether the node is an internal node.
    pub internal: bool,
    /// Where the node is stored, where it is stored.
    pub record_id: Option<RecordIdView>,
    /// Where the parent is stored, where the node has one.
    pub parent: Option<RecordIdView>,
}

/// The mathematical value of a reference that may be missing.
pub open spec fn reference_view(reference: Option<RecordId>) -> Option<RecordIdView> {
    match reference {
        Some(id) => Some(id@),
        None => None,
    }
}

/// The encodings of a list of items, one after the other.
pub open spec fn items_wire(items: Seq<FileItemView>) -> Seq<u8>
    decreases items.len(),
{
    if items.len() == 0 {
        Seq::<u8>::empty()
    } else {
        items_wire(items.drop_last()) + item_wire(items.last())
    }
}

/// The encoding of the reference to the parent: nothing where there is none.
pub open spec fn parent_wire(parent: Option<RecordIdView>) -> Seq<u8> {
    match parent {
        Some(id) => record_id_wire(id),
        None => Seq::<u8>::empty(),
    }
}

/// The encoding of a node. Where the node is stored is not part of it.
pub open spec fn node_wire(node: FileNodeView) -> Seq<u8> {
    node_head(node) + parent_wire(node.parent) + items_wire(node.items)
}

/// The six bytes at the start of the encoding of a node: the length of the
/// whole record and the two flags.
pub open spec fn node_head(node: FileNodeView) -> Seq<u8> {
    le_bytes((6 + parent_wire(node.parent).len() + items_wire(node.items).len()) as nat, 4)
        + seq![
        if node.internal {
            1u8
        } else {
            0u8
        },
        if node.parent.is_some() {
            1u8
        } else {
            0u8
        },
    ]
}

/// The node that is made of what the parts of its encoding decode to.
pub open spec fn node_of(
    items: Result<Seq<FileItemView>, CodecError>,
    internal: bool,
    parent: Option<RecordIdView>,
) -> Result<FileNodeView, CodecError> {
    match items {
        Ok(items) => Ok(FileNodeView { items, internal, record_id: None, parent }),
        Err(error) => Err(error),
    }
}

/// Every length inside the node fits its 32-bit prefix.
pub open spec fn node_fits(node: FileNodeView) -> bool {
    &&& forall|i: int| 0 <= i < node.items.len() ==> item_fits(#[trigger] node.items[i])
    &&& (node.parent.is_some() ==> record_id_fits(node.parent.unwrap()))
    &&& 6 + parent_wire(node.parent).len() + items_wire(node.items).len() <= u32::MAX
}

/// A node that the decoder gives back as it was, but for where it is stored.
pub open spec fn node_well_formed(node: FileNodeView) -> bool {
    &&& forall|i: int| 0 <= i < node.items.len() ==> item_well_formed(#[trigger] node.items[i])
    &&& (node.parent.is_some() ==> record_id_fits(node.parent.unwrap()))
    &&& 6 + parent_wire(node.parent).len() + items_wire(node.items).len() <= u32::MAX
}

/// The items that `bytes` holds one after the other, added in order to `seen`.
pub open spec fn parse_items(bytes: Seq<u8>, seen: Seq<FileItemView>) -> Result<
    Seq<FileItemView>,
    CodecError,
>
    decreases bytes.len(),
{
    if bytes.len() == 0 {
        Ok(seen)
    } else {
        match parse_item(bytes) {
            Err(error) => Err(error),
            Ok(item) => {
                let used = item_span(bytes);
                if 0 < used <= bytes.len() {
                    parse_items(bytes.subrange(used, bytes.len() as int), seen.push(item))
                } else {
                    Err(CodecError::ShortBuffer)
                }
            },
        }
    }
}

/// The number of bytes that the node at the start of `bytes` says it takes.
pub open spec fn node_span(bytes: Seq<u8>) -> int {
    le_value(bytes.subrange(0, 4)) as int
}

/// The node at the start of `bytes`; what follows it is not looked at.
pub open spec fn parse_node(bytes: Seq<u8>) -> Result<FileNodeView, CodecError> {
    if bytes.len() < 4 {
        Err(CodecError::ShortBuffer)
    } else if node_span(bytes) < 6 {
        Err(CodecError::BadLength)
    } else if bytes.len() < node_span(bytes) {
        Err(CodecError::ShortBuffer)
    } else {
        let body = bytes.subrange(6, node_span(bytes));
        let internal = bytes[4] != 0;
        if bytes[5] != 0 {
            match parse_record_id(body) {
                Err(error) => Err(error),
                Ok(parent) => {
                    if record_id_span(body) > body.len() {
                        Err(CodecError::ShortBuffer)
                    } else {
                        node_of(
                            parse_items(
                                body.subrange(record_id_span(body), body.len() as int),
                                Seq::empty(),
                            ),
                            internal,
                            Some(parent),
                        )
                    }
                },
            }
        } else {
            node_of(parse_items(body, Seq::empty()), internal, None)
        }
    }
}

/// The encoding of a node takes at least the six bytes of its head.
pub proof fn lemma_node_wire_len(node: FileNodeView)
    ensures
        node_wire(node).len() == 6 + parent_wire(node.parent).len() + items_wire(node.items).len(),
{
    lemma_le_bytes_len(
        (6 + parent_wire(node.parent).len() + items_wire(node.items).len()) as nat,
        4,
    );
}

pub proof fn lemma_items_wire_push(items: Seq<FileItemView>, item: FileItemView)
    ensures
        items_wire(items.push(item)) == items_wire(items) + item_wire(item),
{
    assert(items.push(item).drop_last() =~= items);
}

pub proof fn lemma_items_wire_front(items: Seq<FileItemView>)
    requires
        items.len() > 0,
    ensures
        items_wire(items) == item_wire(items[0]) + items_wire(
            items.subrange(1, items.len() as int),
        ),
    decreases items.len(),
{
    let tail = items.subrange(1, items.len() as int);
    if items.len() == 1 {
        assert(items.drop_last() =~= Seq::<FileItemView>::empty());
        assert(items_wire(items.drop_last()) =~= Seq::<u8>::empty());
        assert(items_wire(tail) =~= Seq::<u8>::empty());
        assert(items_wire(items) =~= item_wire(items[0]) + items_wire(tail));
    } else {
        lemma_items_wire_front(items.drop_last());
        assert(items.drop_last().subrange(1, items.len() - 1) =~= tail.drop_last());
        assert(tail.last() == items.last());
        assert(items.drop_last()[0] == items[0]);
        assert(items_wire(items) =~= item_wire(items[0]) + items_wire(tail));
    }
}

/// Well-formed items, encoded one after the other, decode to the same items
/// in the same order.
pub proof fn lemma_items_roundtrip(seen: Seq<FileItemView>, more: Seq<FileItemView>)
    requires
        forall|i: int| 0 <= i < more.len() ==> item_well_formed(#[trigger] more[i]),
    ensures
        parse_items(items_wire(more), seen) == Ok::<Seq<FileItemView>, CodecError>(seen + more),
    decreases more.len(),
{
    if more.len() == 0 {
        assert(seen + more =~= seen);
    } else {
        let first = more[0];
        let tail = more.subrange(1, more.len() as int);
        let bytes = items_wire(more);
        lemma_items_wire_front(more);
        lemma_item_roundtrip(first, items_wire(tail));
        assert(bytes.subrange(item_wire(first).len() as int, bytes.len() as int) =~= items_wire(
            tail,
        ));
        assert(seen.push(first) + tail =~= seen + more);
        assert forall|i: int| 0 <= i < tail.len() implies item_well_formed(#[trigger] tail[i]) by {
            assert(tail[i] == more[i + 1]);
        }
        lemma_items_roundtrip(seen.push(first), tail);
    }
}

/// A well-formed node, encoded and followed by anything, decodes to itself
/// but for where it is stored, and the decoder takes exactly the bytes of
/// its encoding.
pub proof fn lemma_node_roundtrip(node: FileNodeView, trailing: Seq<u8>)
    requires
        node_well_formed(node),
    ensures
        parse_node(node_wire(node) + trailing) == Ok::<FileNodeView, CodecError>(
            FileNodeView { record_id: None, ..node },
        ),
        node_span(node_wire(node) + trailing) == node_wire(node).len(),
{
    let above = parent_wire(node.parent);
    let below = items_wire(node.items);
    let head = node_head(node);
    let total = (6 + above.len() + below.len()) as nat;
    let bytes = node_wire(node) + trailing;
    lemma_radix_pow_values();
    lemma_le_bytes_len(total, 4);
    lemma_le_value_of_bytes(total, 4);
    assert(head.len() == 6);
    assert(head.subrange(0, 4) =~= le_bytes(total, 4));
    assert(bytes.subrange(0, 4) =~= head.subrange(0, 4));
    assert(bytes[4] == head[4]);
    assert(bytes[5] == head[5]);
    assert(node_span(bytes) == total);
    let body = bytes.subrange(6, total as int);
    assert(body =~= above + below);
    lemma_items_roundtrip(Seq::empty(), node.items);
    assert(Seq::<FileItemView>::empty() + node.items =~= node.items);
    match node.parent {
        Some(id) => {
            lemma_record_id_roundtrip(id, below);
            assert(body.subrange(above.len() as int, body.len() as int) =~= below);
        },
        None => {
            assert(body =~= below);
        },
    }
}

/// A node of the file tree.
#[derive(Debug)]
pub struct FileBTreeNode {
    items: Vec<FileBTreeNodeItem>,
    internal: bool,
    non_ptr_items: usize,
    rci: Option<RecordId>,
    parent: Option<RecordId>,
}

impl View for FileBTreeNode {
    type V = FileNodeView;

    closed spec fn view(&self) -> FileNodeView {
        FileNodeView {
            items: shapes(self.items@),
            internal: self.internal,
            record_id: reference_view(self.rci),
            parent: reference_view(self.parent),
        }
    }
}

/// A copy of a reference that may be missing.
pub fn copy_reference(reference: &Option<RecordId>) -> (copy: Option<RecordId>)
    ensures
        reference_view(copy) == reference_view(*reference),
{
    match reference {
        Some(id) => Some(id.cloned()),
        None => None,
    }
}

impl FileBTreeNode {
    /// The count of items that are no pointers is up to date.
    pub closed spec fn well_formed(&self) -> bool {
        self.non_ptr_items == count_non_pointers(shapes(self.items@))
    }

    /// A node without items and without a parent.
    pub fn empty(internal: bool, rci: Option<RecordId>) -> (node: FileBTreeNode)
        ensures
            node.well_formed(),
            node@ == (FileNodeView {
                items: Seq::empty(),
                internal,
                record_id: reference_view(rci),
                parent: None,
            }),
    {
        let node = FileBTreeNode {
            items: Vec::new(),
            internal,
            non_ptr_items: 0,
            rci,
            parent: None,
        };
        assert(shapes(node.items@) =~= Seq::empty());
        node
    }

    /// A node with copies of `items` and without a parent: a leaf where all
    /// items are pairs, an internal node where one is not.
    pub fn from_items(items: &Vec<FileBTreeNodeItem>, rci: Option<RecordId>) -> (node:
        FileBTreeNode)
        ensures
            node.well_formed(),
            node@ == (FileNodeView {
                items: shapes(items@),
                internal: any_non_pair(shapes(items@)),
                record_id: reference_view(rci),
                parent: None,
            }),
    {
        assert(shapes(items@).subrange(0, items@.len() as int) =~= shapes(items@));
        Self::from_range(items, 0, items.len(), rci)
    }

    /// A node with copies of the items from `start` to before `end` and
    /// without a parent: a leaf where all of them are pairs, an internal
    /// node where one is not.
    pub fn from_range(
        items: &Vec<FileBTreeNodeItem>,
        start: usize,
        end: usize,
        rci: Option<RecordId>,
    ) -> (node: FileBTreeNode)
        requires
            start <= end <= items@.len(),
        ensures
            node.well_formed(),
            node@ == (FileNodeView {
                items: shapes(items@).subrange(start as int, end as int),
                internal: any_non_pair(shapes(items@).subrange(start as int, end as int)),
                record_id: reference_view(rci),
                parent: None,
            }),
    {
        let mut node = Self::empty(false, rci);
        let mut at: usize = start;
        let ghost all = shapes(items@).subrange(start as int, end as int);
        assert(all.take(0) =~= Seq::empty());
        while at < end
            invariant
                start <= at <= end,
                end <= items@.len(),
                all == shapes(items@).subrange(start as int, end as int),
                node.well_formed(),
                node@.parent.is_none(),
                node@.record_id == reference_view(rci),
                node@.items == all.take(at - start),
                node@.internal == any_non_pair(all.take(at - start)),
            decreases end - at,
        {
            let item = &items[at];
            let ghost done = at - start;
            node.append(item.cloned());
            assert(all.take(done).push(item@) =~= all.take(done + 1));
            if !item.is_pair() {
                node.set_internal(true);
                assert(all.take(done + 1)[done].kind() != ItemKind::Pair);
            } else {
                assert(any_non_pair(all.take(done + 1)) ==> any_non_pair(all.take(done))) by {
                    if any_non_pair(all.take(done + 1)) {
                        let i = choose|i: int|
                            0 <= i < done + 1 && (#[trigger] all.take(done + 1)[i]).kind()
                                != ItemKind::Pair;
                        assert(all.take(done)[i].kind() != ItemKind::Pair);
                    }
                }
            }
            assert(any_non_pair(all.take(done)) ==> any_non_pair(all.take(done + 1))) by {
                if any_non_pair(all.take(done)) {
                    let i = choose|i: int|
                        0 <= i < done && (#[trigger] all.take(done)[i]).kind() != ItemKind::Pair;
                    assert(all.take(done + 1)[i].kind() != ItemKind::Pair);
                }
            }
            at = at + 1;
        }
        assert(all.take(at - start) =~= all);
        node
    }

    /// Says whether the node is an internal node.
    pub fn set_internal(&mut self, internal: bool)
        requires
            old(self).well_formed(),
        ensures
            final(self).well_formed(),
            final(self)@ == (FileNodeView { internal, ..old(self)@ }),
    {
        self.internal = internal;
    }

    /// Adds `item` behind the items.
    pub fn append(&mut self, item: FileBTreeNodeItem)
        requires
            old(self).well_formed(),
        ensures
            final(self).well_formed(),
            final(self)@ == (FileNodeView { items: old(self)@.items.push(item@), ..old(self)@ }),
    {
        proof {
            lemma_count_non_pointers_bound(shapes(self.items@));
            assert(shapes(self.items@.push(item)).drop_last() =~= shapes(self.items@));
        }
        let counted: bool = !item.is_pointer();
        self.items.push(item);
        let total: usize = self.items.len();
        if counted {
            assert(self.non_ptr_items < total);
            self.non_ptr_items = self.non_ptr_items + 1;
        }
        assert(self@.items =~= old(self)@.items.push(item@));
    }

    /// Takes the last item off, if there is one.
    pub fn pop(&mut self) -> (item: Option<FileBTreeNodeItem>)
        requires
            old(self).well_formed(),
        ensures
            final(self).well_formed(),
            match item {
                Some(item) => {
                    &&& old(self)@.items.len() > 0
                    &&& item@ == old(self)@.items.last()
                    &&& final(self)@ == (FileNodeView {
                        items: old(self)@.items.drop_last(),
                        ..old(self)@
                    })
                },
                None => old(self)@.items.len() == 0 && final(self)@ == old(self)@,
            },
    {
        if self.items.len() == 0 {
            return None;
        }
        let item = self.items.pop().unwrap();
        proof {
            assert(shapes(old(self).items@).drop_last() =~= shapes(self.items@));
            assert(shapes(old(self).items@).last() == item@);
        }
        if !item.is_pointer() {
            self.non_ptr_items = self.non_ptr_items - 1;
        }
        Some(item)
    }

    /// Puts `item` before the item at `idx`, or behind the items where `idx`
    /// is their number.
    pub fn insert(&mut self, item: FileBTreeNodeItem, idx: usize)
        requires
            old(self).well_formed(),
            idx <= old(self)@.items.len(),
        ensures
            final(self).well_formed(),
            final(self)@ == (FileNodeView {
                items: old(self)@.items.insert(idx as int, item@),
                ..old(self)@
            }),
    {
        self.items.insert(idx, item);
        self.non_ptr_items = non_pointer_count(&self.items);
        assert(self@.items =~= old(self)@.items.insert(idx as int, item@));
    }

    /// Puts `item` in the place of the item at `idx` and returns that item;
    /// changes nothing where there is no item at `idx`.
    pub fn replace(&mut self, item: FileBTreeNodeItem, idx: usize) -> (previous: Option<
        FileBTreeNodeItem,
    >)
        requires
            old(self).well_formed(),
        ensures
            final(self).well_formed(),
            match previous {
                Some(previous) => {
                    &&& idx < old(self)@.items.len()
                    &&& previous@ == old(self)@.items[idx as int]
                    &&& final(self)@ == (FileNodeView {
                        items: old(self)@.items.update(idx as int, item@),
                        ..old(self)@
                    })
                },
                None => idx >= old(self)@.items.len() && final(self)@ == old(self)@,
            },
    {
        if idx >= self.items.len() {
            return None;
        }
        let mut held = item;
        core::mem::swap(&mut self.items[idx], &mut held);
        self.non_ptr_items = non_pointer_count(&self.items);
        assert(self@.items =~= old(self)@.items.update(idx as int, item@));
        Some(held)
    }

    /// The item at `idx`, if there is one.
    pub fn get(&self, idx: usize) -> (item: Option<&FileBTreeNodeItem>)
        ensures
            match item {
                Some(item) => idx < self@.items.len() && item@ == self@.items[idx as int],
                None => idx >= self@.items.len(),
            },
    {
        if idx < self.items.len() {
            Some(&self.items[idx])
        } else {
            None
        }
    }

    /// The last item, if there is one.
    pub fn last(&self) -> (item: Option<&FileBTreeNodeItem>)
        ensures
            match item {
                Some(item) => self@.items.len() > 0 && item@ == self@.items.last(),
                None => self@.items.len() == 0,
            },
    {
        if self.items.len() > 0 {
            Some(&self.items[self.items.len() - 1])
        } else {
            None
        }
    }

    /// The items, in order.
    pub fn items(&self) -> (items: &Vec<FileBTreeNodeItem>)
        ensures
            shapes(items@) == self@.items,
    {
        &self.items
    }

    /// The items, in order, out of the node.
    pub fn take_items(self) -> (items: Vec<FileBTreeNodeItem>)
        ensures
            shapes(items@) == self@.items,
    {
        self.items
    }

    pub fn is_internal(&self) -> (internal: bool)
        ensures
            internal == self@.internal,
    {
        self.internal
    }

    /// The number of items that are no pointers.
    pub fn non_ptr_len(&self) -> (count: usize)
        requires
            self.well_formed(),
        ensures
            count == count_non_pointers(self@.items),
    {
        self.non_ptr_items
    }

    /// Where the node is stored, where it is stored.
    pub fn record_id(&self) -> (id: Option<&RecordId>)
        ensures
            match id {
                Some(id) => self@.record_id == Some(id@),
                None => self@.record_id.is_none(),
            },
    {
        self.rci.as_ref()
    }

    /// Says where the node is stored.
    pub fn set_record_id(&mut self, record_id: Option<RecordId>)
        requires
            old(self).well_formed(),
        ensures
            final(self).well_formed(),
            final(self)@ == (FileNodeView { record_id: reference_view(record_id), ..old(self)@ }),
    {
        self.rci = record_id;
    }

    /// Where the parent is stored, where the node has one.
    pub fn parent(&self) -> (id: Option<&RecordId>)
        ensures
            match id {
                Some(id) => self@.parent == Some(id@),
                None => self@.parent.is_none(),
            },
    {
        self.parent.as_ref()
    }

    /// Says where the parent is stored.
    pub fn set_parent(&mut self, parent: Option<RecordId>)
        requires
            old(self).well_formed(),
        ensures
            final(self).well_formed(),
            final(self)@ == (FileNodeView { parent: reference_view(parent), ..old(self)@ }),
    {
        self.parent = parent;
    }

    /// The node at the start of `from`, with the number of bytes it takes.
    /// The node does not know where it is stored.
    pub fn decode(from: &[u8]) -> (result: Result<(FileBTreeNode, usize), CodecError>)
        ensures
            match result {
                Ok((node, used)) => {
                    &&& node.well_formed()
                    &&& parse_node(from@) == Ok::<FileNodeView, CodecError>(node@)
                    &&& used == node_span(from@)
                    &&& 6 <= used <= from@.len()
                },
                Err(error) => parse_node(from@) == Err::<FileNodeView, CodecError>(error),
            },
    {
        if from.len() < 4 {
            return Err(CodecError::ShortBuffer);
        }
        let announced: u128 = get_le(from, 0, 4);
        if announced < 6 {
            return Err(CodecError::BadLength);
        }
        if (from.len() as u128) < announced {
            return Err(CodecError::ShortBuffer);
        }
        let end: usize = announced as usize;
        let body = &from[6..end];
        let internal: bool = from[4] != 0;
        let mut node = FileBTreeNode::empty(internal, None);
        let mut at: usize = 0;
        if from[5] != 0 {
            let (parent, used) = match RecordId::decode(body) {
                Ok(found) => found,
                Err(error) => {
                    return Err(error);
                },
            };
            node.set_parent(Some(parent));
            at = used;
        }
        let total: usize = body.len();
        let ghost expected = parse_node(from@);
        assert(body@.subrange(0, total as int) =~= body@);
        while at < total
            invariant
                at <= total,
                total == body@.len(),
                node.well_formed(),
                node@.record_id.is_none(),
                expected == parse_node(from@),
                end == node_span(from@),
                6 <= end <= from@.len(),
                expected == node_of(
                    parse_items(body@.subrange(at as int, total as int), node@.items),
                    node@.internal,
                    node@.parent,
                ),
            decreases total - at,
        {
            let left = &body[at..total];
            let (item, used) = match FileBTreeNodeItem::decode(left) {
                Ok(found) => found,
                Err(error) => {
                    return Err(error);
                },
            };
            proof {
                assert(left@.subrange(used as int, left@.len() as int) =~= body@.subrange(
                    at + used,
                    total as int,
                ));
            }
            node.append(item);
            at = at + used;
        }
        proof {
            assert(body@.subrange(at as int, total as int) =~= Seq::<u8>::empty());
        }
        Ok((node, end))
    }
}

impl Serialize for FileBTreeNode {
    open spec fn wire_bytes(&self) -> Seq<u8> {
        node_wire(self@)
    }

    open spec fn fits(&self) -> bool {
        node_fits(self@)
    }

    fn serialize(&self) -> (result: Result<Vec<u8>, CodecError>) {
        let above: Vec<u8> = match &self.parent {
            Some(id) => {
                match id.serialize() {
                    Ok(bytes) => bytes,
                    Err(error) => {
                        return Err(error);
                    },
                }
            },
            None => Vec::new(),
        };
        let ghost all = shapes(self.items@);
        let mut below: Vec<u8> = Vec::new();
        let mut at: usize = 0;
        while at < self.items.len()
            invariant
                at <= self.items@.len(),
                all == shapes(self.items@),
                below@ == items_wire(all.take(at as int)),
                forall|i: int| 0 <= i < at ==> item_fits(#[trigger] all[i]),
            decreases self.items@.len() - at,
        {
            let inner = match self.items[at].serialize() {
                Ok(inner) => inner,
                Err(error) => {
                    assert(!item_fits(all[at as int]));
                    return Err(error);
                },
            };
            proof {
                lemma_items_wire_push(all.take(at as int), all[at as int]);
                assert(all.take(at as int).push(all[at as int]) =~= all.take(at + 1));
            }
            put_bytes(&mut below, inner.as_slice());
            at = at + 1;
        }
        assert(all.take(at as int) =~= all);
        if above.len() > (u32::MAX - 6) as usize || below.len() > (u32::MAX - 6) as usize
            - above.len() {
            return Err(CodecError::BadLength);
        }
        let mut out: Vec<u8> = Vec::new();
        put_le(&mut out, (6 + above.len() + below.len()) as u128, 4);
        out.push(if self.internal { 1u8 } else { 0u8 });
        out.push(if self.parent.is_some() { 1u8 } else { 0u8 });
        put_bytes(&mut out, above.as_slice());
        put_bytes(&mut out, below.as_slice());
        assert(out@ =~= node_wire(self@));
        Ok(out)
    }

    fn size(&self) -> (size: u32) {
        proof {
            lemma_le_bytes_len(
                (6 + parent_wire(self@.parent).len() + items_wire(self@.items).len()) as nat,
                4,
            );
        }
        let above: u64 = match &self.parent {
            Some(id) => id.size() as u64,
            None => 0,
        };
        let ghost all = shapes(self.items@);
        let mut below: u64 = 0;
        let mut at: usize = 0;
        while at < self.items.len()
            invariant
                at <= self.items@.len(),
                all == shapes(self.items@),
                below == saturated(items_wire(all.take(at as int)).len()),
            decreases self.items@.len() - at,
        {
            let inner: u64 = self.items[at].size() as u64;
            proof {
                lemma_items_wire_push(all.take(at as int), all[at as int]);
                assert(all.take(at as int).push(all[at as int]) =~= all.take(at + 1));
            }
            below = if below + inner > u32::MAX as u64 {
                u32::MAX as u64
            } else {
                below + inner
            };
            at = at + 1;
        }
        assert(all.take(at as int) =~= all);
        let whole: u64 = 6 + above + below;
        if whole > u32::MAX as u64 {
            u32::MAX
        } else {
            whole as u32
        }
    }
}

impl Deserialize for FileBTreeNode {
    open spec fn decodes_to(bytes: Seq<u8>, value: FileBTreeNode) -> bool {
        parse_node(bytes) == Ok::<FileNodeView, CodecError>(value@)
    }

    open spec fn decode_error(bytes: Seq<u8>) -> Option<CodecError> {
        match parse_node(bytes) {
            Ok(_) => None,
            Err(error) => Some(error),
        }
    }

    fn deserialize(from: &[u8]) -> (result: Result<FileBTreeNode, CodecError>) {
        match FileBTreeNode::decode(from) {
            Ok((node, _)) => Ok(node),
            Err(error) => Err(error),
        }
    }
}

} // verus!
