//! Nodes of the in-memory tree. A pointer is the index of a node in the
//! tree's list of nodes.

use crate::btree::key::{TreeKey, TreeValue};
use crate::btree::shape::{
    any_non_pair, count_non_pointers, lemma_count_non_pointers_bound, shapes, ItemKind, ItemShape,
    NodeItem,
};
use crate::codec::compare::KeyOrder;
use vstd::prelude::*;

verus! {

/// An item of a node: a separator key, a reference to a child, or a key with
/// the values that were put under it, in the order in which they were put.
#[derive(Debug)]
pub enum BTreeNodeItem<Key, Value> {
    Key(Key),
    Pointer(usize),
    Pair(Key, Vec<Value>),
}

/// The mathematical value of a [`BTreeNodeItem`].
pub enum BTreeNodeItemView<Key, Value> {
    Key(Key),
    Pointer(usize),
    Pair(Key, Seq<Value>),
}

impl<Key, Value> View for BTreeNodeItem<Key, Value> {
    type V = BTreeNodeItemView<Key, Value>;

    open spec fn view(&self) -> BTreeNodeItemView<Key, Value> {
        match self {
            BTreeNodeItem::Key(key) => BTreeNodeItemView::Key(*key),
            BTreeNodeItem::Pointer(pointer) => BTreeNodeItemView::Pointer(*pointer),
            BTreeNodeItem::Pair(key, values) => BTreeNodeItemView::Pair(*key, values@),
        }
    }
}

impl<Key: TreeKey, Value> ItemShape for BTreeNodeItemView<Key, Value> {
    type Key = Key;

    open spec fn kind(&self) -> ItemKind {
        match self {
            BTreeNodeItemView::Key(_) => ItemKind::Key,
            BTreeNodeItemView::Pointer(_) => ItemKind::Pointer,
            BTreeNodeItemView::Pair(_, _) => ItemKind::Pair,
        }
    }

    open spec fn order_to(&self, key: &Key) -> Option<KeyOrder> {
        match self {
            BTreeNodeItemView::Key(own) => Some(own.order(key)),
            BTreeNodeItemView::Pointer(_) => None,
            BTreeNodeItemView::Pair(own, _) => Some(own.order(key)),
        }
    }
}

impl<Key: TreeKey, Value: TreeValue> NodeItem for BTreeNodeItem<Key, Value> {
    type Shape = BTreeNodeItemView<Key, Value>;

    open spec fn shape(&self) -> BTreeNodeItemView<Key, Value> {
        self@
    }

    fn item_kind(&self) -> (kind: ItemKind) {
        match self {
            BTreeNodeItem::Key(_) => ItemKind::Key,
            BTreeNodeItem::Pointer(_) => ItemKind::Pointer,
            BTreeNodeItem::Pair(_, _) => ItemKind::Pair,
        }
    }

    fn compare_to(&self, key: &Key) -> (order: Option<KeyOrder>) {
        match self {
            BTreeNodeItem::Key(own) => Some(own.compare(key)),
            BTreeNodeItem::Pointer(_) => None,
            BTreeNodeItem::Pair(own, _) => Some(own.compare(key)),
        }
    }
}

/// A copy of a list of values.
pub fn copy_values<Value: TreeValue>(values: &Vec<Value>) -> (copies: Vec<Value>)
    ensures
        copies@ == values@,
{
    let mut copies: Vec<Value> = Vec::new();
    let mut at: usize = 0;
    while at < values.len()
        invariant
            at <= values@.len(),
            copies@ == values@.take(at as int),
        decreases values@.len() - at,
    {
        copies.push(values[at].copy());
        at = at + 1;
        assert(copies@ =~= values@.take(at as int));
    }
    assert(values@.take(at as int) =~= values@);
    copies
}

impl<Key: TreeKey, Value: TreeValue> BTreeNodeItem<Key, Value> {
    /// The key and the values of a pair.
    pub fn as_pair(&self) -> (pair: (&Key, &Vec<Value>))
        requires
            self is Pair,
        ensures
            self@ == BTreeNodeItemView::Pair(*pair.0, pair.1@),
    {
        match self {
            BTreeNodeItem::Pair(key, values) => (key, values),
            _ => vstd::pervasive::unreached(),
        }
    }

    /// The index of the node that a pointer refers to.
    pub fn as_pointer(&self) -> (pointer: usize)
        requires
            self is Pointer,
        ensures
            self@ == BTreeNodeItemView::<Key, Value>::Pointer(pointer),
    {
        match self {
            BTreeNodeItem::Pointer(pointer) => *pointer,
            _ => vstd::pervasive::unreached(),
        }
    }

    /// The key of a separator.
    pub fn as_key(&self) -> (key: &Key)
        requires
            self is Key,
        ensures
            self@ == BTreeNodeItemView::<Key, Value>::Key(*key),
    {
        match self {
            BTreeNodeItem::Key(key) => key,
            _ => vstd::pervasive::unreached(),
        }
    }

    pub fn is_key(&self) -> (yes: bool)
        ensures
            yes == (self is Key),
    {
        match self {
            BTreeNodeItem::Key(_) => true,
            _ => false,
        }
    }

    pub fn is_pair(&self) -> (yes: bool)
        ensures
            yes == (self is Pair),
    {
        match self {
            BTreeNodeItem::Pair(_, _) => true,
            _ => false,
        }
    }

    pub fn is_pointer(&self) -> (yes: bool)
        ensures
            yes == (self is Pointer),
    {
        match self {
            BTreeNodeItem::Pointer(_) => true,
            _ => false,
        }
    }

    /// A copy of the item.
    pub fn cloned(&self) -> (copy: Self)
        ensures
            copy@ == self@,
    {
        match self {
            BTreeNodeItem::Key(key) => BTreeNodeItem::Key(key.copy()),
            BTreeNodeItem::Pointer(pointer) => BTreeNodeItem::Pointer(*pointer),
            BTreeNodeItem::Pair(key, values) => BTreeNodeItem::Pair(key.copy(), copy_values(values)),
        }
    }

    /// Adds a value behind the values of a pair.
    pub fn push_value(&mut self, value: Value)
        requires
            *old(self) is Pair,
        ensures
            final(self)@ == BTreeNodeItemView::Pair(
                old(self)@->Pair_0,
                old(self)@->Pair_1.push(value),
            ),
    {
        match self {
            BTreeNodeItem::Pair(_, values) => {
                values.push(value);
            },
            _ => {},
        }
    }
}

/// The mathematical value of a [`BTreeNode`].
pub struct BTreeNodeView<Key, Value> {
    /// The items, in order.
    pub items: Seq<BTreeNodeItemView<Key, Value>>,
    /// Whether the node is an internal node.
    pub internal: bool,
    /// The index of the parent, where the node has one.
    pub parent: Option<usize>,
}

/// A node of the in-memory tree.
#[derive(Debug)]
pub struct BTreeNode<Key, Value> {
    items: Vec<BTreeNodeItem<Key, Value>>,
    internal: bool,
    parent: Option<usize>,
    non_ptr_items: usize,
}

impl<Key, Value> View for BTreeNode<Key, Value> {
    type V = BTreeNodeView<Key, Value>;

    closed spec fn view(&self) -> BTreeNodeView<Key, Value> {
        BTreeNodeView {
            items: Seq::new(self.items@.len(), |i: int| self.items@[i]@),
            internal: self.internal,
            parent: self.parent,
        }
    }
}

impl<Key: TreeKey, Value: TreeValue> BTreeNode<Key, Value> {
    /// The count of items that are no pointers is up to date.
    pub closed spec fn well_formed(&self) -> bool {
        self.non_ptr_items == count_non_pointers(shapes(self.items@))
    }

    /// A node without items.
    pub fn empty(internal: bool, parent: Option<usize>) -> (node: Self)
        ensures
            node.well_formed(),
            node@ == (BTreeNodeView::<Key, Value> { items: Seq::empty(), internal, parent }),
    {
        let node = BTreeNode { items: Vec::new(), internal, parent, non_ptr_items: 0 };
        assert(node@.items =~= Seq::empty());
        assert(shapes(node.items@) =~= Seq::empty());
        node
    }

    /// A node with copies of `items`: a leaf where all of them are pairs, an
    /// internal node where one is not.
    pub fn from_items(items: &Vec<BTreeNodeItem<Key, Value>>, parent: Option<usize>) -> (node: Self)
        ensures
            node.well_formed(),
            node@.items == shapes(items@),
            node@.internal == any_non_pair(shapes(items@)),
            node@.parent == parent,
    {
        assert(shapes(items@).subrange(0, items@.len() as int) =~= shapes(items@));
        Self::from_range(items, 0, items.len(), parent)
    }

    /// A node with copies of the items from `start` to before `end`: a leaf
    /// where all of them are pairs, an internal node where one is not.
    pub fn from_range(
        items: &Vec<BTreeNodeItem<Key, Value>>,
        start: usize,
        end: usize,
        parent: Option<usize>,
    ) -> (node: Self)
        requires
            start <= end <= items@.len(),
        ensures
            node.well_formed(),
            node@.items == shapes(items@).subrange(start as int, end as int),
            node@.internal == any_non_pair(shapes(items@).subrange(start as int, end as int)),
            node@.parent == parent,
    {
        let mut node = Self::empty(false, parent);
        let mut at: usize = start;
        let ghost all = shapes(items@).subrange(start as int, end as int);
        assert(all.take(0) =~= Seq::empty());
        while at < end
            invariant
                start <= at <= end,
                end <= items@.len(),
                all == shapes(items@).subrange(start as int, end as int),
                node.well_formed(),
                node@.parent == parent,
                node@.items == all.take(at - start),
                node@.internal == any_non_pair(all.take(at - start)),
            decreases end - at,
        {
            let item = &items[at];
            let ghost done = at - start;
            node.append(item.cloned());
            assert(all.take(done).push(item@) =~= all.take(done + 1));
            if !item.is_pair() {
                node.set_internal(true);
                assert(all.take(done + 1)[done].kind() != ItemKind::Pair);
            } else {
                assert(any_non_pair(all.take(done + 1)) ==> any_non_pair(all.take(done))) by {
                    if any_non_pair(all.take(done + 1)) {
                        let i = choose|i: int|
                            0 <= i < done + 1 && (#[trigger] all.take(done + 1)[i]).kind()
                                != ItemKind::Pair;
                        assert(all.take(done)[i].kind() != ItemKind::Pair);
                    }
                }
            }
            assert(any_non_pair(all.take(done)) ==> any_non_pair(all.take(done + 1))) by {
                if any_non_pair(all.take(done)) {
                    let i = choose|i: int|
                        0 <= i < done && (#[trigger] all.take(done)[i]).kind() != ItemKind::Pair;
                    assert(all.take(done + 1)[i].kind() != ItemKind::Pair);
                }
            }
            at = at + 1;
        }
        assert(all.take(at - start) =~= all);
        node
    }

    /// Says whether the node is an internal node.
    pub fn set_internal(&mut self, internal: bool)
        requires
            old(self).well_formed(),
        ensures
            final(self).well_formed(),
            final(self)@ == (BTreeNodeView { internal, ..old(self)@ }),
    {
        self.internal = internal;
    }

    /// Says which node is the parent.
    pub fn set_parent(&mut self, parent: Option<usize>)
        requires
            old(self).well_formed(),
        ensures
            final(self).well_formed(),
            final(self)@ == (BTreeNodeView { parent, ..old(self)@ }),
    {
        self.parent = parent;
    }

    /// Adds `item` behind the items.
    pub fn append(&mut self, item: BTreeNodeItem<Key, Value>)
        requires
            old(self).well_formed(),
        ensures
            final(self).well_formed(),
            final(self)@ == (BTreeNodeView { items: old(self)@.items.push(item@), ..old(self)@ }),
    {
        proof {
            lemma_count_non_pointers_bound(shapes(self.items@));
            assert(shapes(self.items@.push(item)).drop_last() =~= shapes(self.items@));
        }
        let counted: bool = !item.is_pointer();
        self.items.push(item);
        let total: usize = self.items.len();
        if counted {
            assert(self.non_ptr_items < total);
            self.non_ptr_items = self.non_ptr_items + 1;
        }
        assert(self@.items =~= old(self)@.items.push(item@));
    }

    /// Takes the last item off, if there is one.
    pub fn pop(&mut self) -> (item: Option<BTreeNodeItem<Key, Value>>)
        requires
            old(self).well_formed(),
        ensures
            final(self).well_formed(),
            match item {
                Some(item) => {
                    &&& old(self)@.items.len() > 0
                    &&& item@ == old(self)@.items.last()
                    &&& final(self)@ == (BTreeNodeView {
                        items: old(self)@.items.drop_last(),
                        ..old(self)@
                    })
                },
                None => old(self)@.items.len() == 0 && final(self)@ == old(self)@,
            },
    {
        if self.items.len() == 0 {
            return None;
        }
        let item = self.items.pop().unwrap();
        proof {
            assert(shapes(old(self).items@).drop_last() =~= shapes(self.items@));
            assert(shapes(old(self).items@).last() == item@);
        }
        if !item.is_pointer() {
            self.non_ptr_items = self.non_ptr_items - 1;
        }
        assert(self@.items =~= old(self)@.items.drop_last());
        Some(item)
    }

    /// Puts `item` before the item at `idx`, or behind the items where `idx`
    /// is their number.
    pub fn insert(&mut self, item: BTreeNodeItem<Key, Value>, idx: usize)
        requires
            old(self).well_formed(),
            idx <= old(self)@.items.len(),
        ensures
            final(self).well_formed(),
            final(self)@ == (BTreeNodeView {
                items: old(self)@.items.insert(idx as int, item@),
                ..old(self)@
            }),
    {
        self.items.insert(idx, item);
        self.non_ptr_items = crate::btree::shape::non_pointer_count(&self.items);
        assert(self@.items =~= old(self)@.items.insert(idx as int, item@));
    }

    /// Puts `item` in the place of the item at `idx` and returns that item;
    /// changes nothing where there is no item at `idx`.
    pub fn replace(&mut self, item: BTreeNodeItem<Key, Value>, idx: usize) -> (previous: Option<
        BTreeNodeItem<Key, Value>,
    >)
        requires
            old(self).well_formed(),
        ensures
            final(self).well_formed(),
            match previous {
                Some(previous) => {
                    &&& idx < old(self)@.items.len()
                    &&& previous@ == old(self)@.items[idx as int]
                    &&& final(self)@ == (BTreeNodeView {
                        items: old(self)@.items.update(idx as int, item@),
                        ..old(self)@
                    })
                },
                None => idx >= old(self)@.items.len() && final(self)@ == old(self)@,
            },
    {
        if idx >= self.items.len() {
            return None;
        }
        let mut held = item;
        core::mem::swap(&mut self.items[idx], &mut held);
        self.non_ptr_items = crate::btree::shape::non_pointer_count(&self.items);
        assert(self@.items =~= old(self)@.items.update(idx as int, item@));
        Some(held)
    }

    /// The item at `idx`, if there is one.
    pub fn get(&self, idx: usize) -> (item: Option<&BTreeNodeItem<Key, Value>>)
        ensures
            match item {
                Some(item) => idx < self@.items.len() && item@ == self@.items[idx as int],
                None => idx >= self@.items.len(),
            },
    {
        if idx < self.items.len() {
            Some(&self.items[idx])
        } else {
            None
        }
    }

    /// The last item, if there is one.
    pub fn last(&self) -> (item: Option<&BTreeNodeItem<Key, Value>>)
        ensures
            match item {
                Some(item) => self@.items.len() > 0 && item@ == self@.items.last(),
                None => self@.items.len() == 0,
            },
    {
        if self.items.len() > 0 {
            Some(&self.items[self.items.len() - 1])
        } else {
            None
        }
    }

    /// The items, in order.
    pub fn items(&self) -> (items: &Vec<BTreeNodeItem<Key, Value>>)
        ensures
            shapes(items@) == self@.items,
    {
        assert(shapes(self.items@) =~= self@.items);
        &self.items
    }

    pub fn is_internal(&self) -> (internal: bool)
        ensures
            internal == self@.internal,
    {
        self.internal
    }

    /// The index of the parent, where the node has one.
    pub fn parent(&self) -> (parent: Option<usize>)
        ensures
            parent == self@.parent,
    {
        self.parent
    }

    /// The number of items that are no pointers.
    pub fn non_ptr_len(&self) -> (count: usize)
        requires
            self.well_formed(),
        ensures
            count == count_non_pointers(self@.items),
    {
        assert(shapes(self.items@) =~= self@.items);
        self.non_ptr_items
    }
}

} // verus!
