//! What the items of a node have in common, and the searches and the split
//! that work on any list of them.
//!
//! An internal node holds pointers and separator keys in turn; a leaf holds
//! pairs of a key and its values, in the order of the keys.

use crate::codec::compare::KeyOrder;
use vstd::prelude::*;

verus! {

/// The three kinds of items of a node.
#[derive(Clone, Copy, Debug, PartialEq, Eq, Structural)]
pub enum ItemKind {
    /// A separator key of an internal node.
    Key,
    /// A key of a leaf with its values.
    Pair,
    /// A reference to a child node.
    Pointer,
}

/// What an item of a node is, as far as searches and splits go.
pub trait ItemShape {
    /// The keys of the tree.
    type Key;

    /// The kind of the item.
    spec fn kind(&self) -> ItemKind;

    /// How the key of the item stands to `key`; nothing for a pointer, and
    /// for keys that cannot be compared.
    spec fn order_to(&self, key: &Self::Key) -> Option<KeyOrder>;
}

/// An item of a node, as it is held in memory.
pub trait NodeItem: Sized {
    /// The mathematical value of the item.
    type Shape: ItemShape;

    /// The mathematical value of the item.
    spec fn shape(&self) -> Self::Shape;

    /// The kind of the item.
    fn item_kind(&self) -> (kind: ItemKind)
        ensures
            kind == self.shape().kind(),
    ;

    /// How the key of the item stands to `key`.
    fn compare_to(&self, key: &<Self::Shape as ItemShape>::Key) -> (order: Option<KeyOrder>)
        ensures
            order == self.shape().order_to(key),
    ;
}

/// The mathematical values of a list of items, in order.
pub open spec fn shapes<I: NodeItem>(items: Seq<I>) -> Seq<I::Shape> {
    Seq::new(items.len(), |i: int| items[i].shape())
}

/// The item is a separator key that is not greater than `key`.
pub open spec fn key_at_most<I: ItemShape>(item: I, key: I::Key) -> bool {
    item.kind() == ItemKind::Key && (item.order_to(&key) == Some(KeyOrder::Less) || item.order_to(
        &key,
    ) == Some(KeyOrder::Equal))
}

/// The item is a separator key that is greater than `key`.
pub open spec fn key_above<I: ItemShape>(item: I, key: I::Key) -> bool {
    item.kind() == ItemKind::Key && item.order_to(&key) == Some(KeyOrder::Greater)
}

/// The item is a pair whose key is not less than `key`.
pub open spec fn pair_at_least<I: ItemShape>(item: I, key: I::Key) -> bool {
    item.kind() == ItemKind::Pair && (item.order_to(&key) == Some(KeyOrder::Greater)
        || item.order_to(&key) == Some(KeyOrder::Equal))
}

/// The item is a pair whose key is `key`.
pub open spec fn pair_with<I: ItemShape>(item: I, key: I::Key) -> bool {
    item.kind() == ItemKind::Pair && item.order_to(&key) == Some(KeyOrder::Equal)
}

/// Where an insertion of `key` goes down from an internal node: behind the
/// last separator key that is not greater than `key`, or to the first item
/// where there is no such key.
pub open spec fn insert_child<I: ItemShape>(items: Seq<I>, key: I::Key) -> int
    decreases items.len(),
{
    if items.len() == 0 {
        0
    } else if key_at_most(items.last(), key) {
        items.len() as int
    } else {
        insert_child(items.drop_last(), key)
    }
}

/// The position of the first separator key that is greater than `key`, or
/// the number of items where there is none.
pub open spec fn first_above<I: ItemShape>(items: Seq<I>, key: I::Key) -> int
    decreases items.len(),
{
    if items.len() == 0 {
        0
    } else if key_above(items[0], key) {
        0
    } else {
        1 + first_above(items.subrange(1, items.len() as int), key)
    }
}

/// The position of the last pointer, or a position below zero where there
/// is none.
pub open spec fn last_pointer<I: ItemShape>(items: Seq<I>) -> int
    decreases items.len(),
{
    if items.len() == 0 {
        -1
    } else if items.last().kind() == ItemKind::Pointer {
        items.len() - 1
    } else {
        last_pointer(items.drop_last())
    }
}

/// Where a search for `key` goes down from an internal node: before the
/// first separator key that is greater than `key`, or to the last pointer
/// where there is no such key. Below zero where the node starts with such a
/// key, and where it has no pointer.
pub open spec fn lookup_child<I: ItemShape>(items: Seq<I>, key: I::Key) -> int {
    if first_above(items, key) < items.len() {
        first_above(items, key) - 1
    } else {
        last_pointer(items)
    }
}

/// The position of the first pair whose key is not less than `key`, or the
/// number of items where there is none.
pub open spec fn leaf_slot<I: ItemShape>(items: Seq<I>, key: I::Key) -> int
    decreases items.len(),
{
    if items.len() == 0 {
        0
    } else if pair_at_least(items[0], key) {
        0
    } else {
        1 + leaf_slot(items.subrange(1, items.len() as int), key)
    }
}

/// The position of the first pair whose key is `key`, or the number of items
/// where there is none.
pub open spec fn leaf_find<I: ItemShape>(items: Seq<I>, key: I::Key) -> int
    decreases items.len(),
{
    if items.len() == 0 {
        0
    } else if pair_with(items[0], key) {
        0
    } else {
        1 + leaf_find(items.subrange(1, items.len() as int), key)
    }
}

/// The number of items that are no pointers.
pub open spec fn count_non_pointers<I: ItemShape>(items: Seq<I>) -> nat
    decreases items.len(),
{
    if items.len() == 0 {
        0
    } else {
        count_non_pointers(items.drop_last()) + if items.last().kind() == ItemKind::Pointer {
            0nat
        } else {
            1nat
        }
    }
}

/// Whether any item of the list is no pair.
pub open spec fn any_non_pair<I: ItemShape>(items: Seq<I>) -> bool {
    exists|i: int| 0 <= i < items.len() && (#[trigger] items[i]).kind() != ItemKind::Pair
}

/// Whether a node with these items is to be split: a leaf where it has
/// `max_degree` items or more, an internal node where `max_degree` of its
/// items or more are no pointers.
pub open spec fn overfull<I: ItemShape>(items: Seq<I>, internal: bool, max_degree: int) -> bool {
    if internal {
        count_non_pointers(items) >= max_degree
    } else {
        items.len() >= max_degree
    }
}

/// Where a node is cut in two: a leaf at the middle, an internal node one
/// item behind the middle.
pub open spec fn cut_point(len: int, internal: bool) -> int {
    if internal {
        len / 2 + 1
    } else {
        len / 2
    }
}

/// The position, in the right half of a split, of the item whose key parts
/// the halves: the first item, or the second where the first is a pointer;
/// nothing where no key stands there.
pub open spec fn separator_place<I: ItemShape>(right: Seq<I>) -> Option<int> {
    if right.len() == 0 {
        None
    } else if right[0].kind() != ItemKind::Pointer {
        Some(0)
    } else if right.len() >= 2 && right[1].kind() == ItemKind::Key {
        Some(1)
    } else {
        None
    }
}

pub proof fn lemma_count_non_pointers_bound<I: ItemShape>(items: Seq<I>)
    ensures
        count_non_pointers(items) <= items.len(),
    decreases items.len(),
{
    if items.len() > 0 {
        lemma_count_non_pointers_bound(items.drop_last());
    }
}

/// Where the first item that meets a condition stands, no item before it
/// meets it.
pub proof fn lemma_first_above<I: ItemShape>(items: Seq<I>, key: I::Key, at: int)
    requires
        0 <= at <= items.len(),
        forall|i: int| 0 <= i < at ==> !key_above(#[trigger] items[i], key),
        at < items.len() ==> key_above(items[at], key),
    ensures
        first_above(items, key) == at,
    decreases items.len(),
{
    if items.len() > 0 && at > 0 {
        let tail = items.subrange(1, items.len() as int);
        assert(!key_above(items[0], key));
        assert forall|i: int| 0 <= i < at - 1 implies !key_above(#[trigger] tail[i], key) by {
            assert(tail[i] == items[i + 1]);
        }
        lemma_first_above(tail, key, at - 1);
    }
}

pub proof fn lemma_leaf_slot<I: ItemShape>(items: Seq<I>, key: I::Key, at: int)
    requires
        0 <= at <= items.len(),
        forall|i: int| 0 <= i < at ==> !pair_at_least(#[trigger] items[i], key),
        at < items.len() ==> pair_at_least(items[at], key),
    ensures
        leaf_slot(items, key) == at,
    decreases items.len(),
{
    if items.len() > 0 && at > 0 {
        let tail = items.subrange(1, items.len() as int);
        assert(!pair_at_least(items[0], key));
        assert forall|i: int| 0 <= i < at - 1 implies !pair_at_least(#[trigger] tail[i], key) by {
            assert(tail[i] == items[i + 1]);
        }
        lemma_leaf_slot(tail, key, at - 1);
    }
}

pub proof fn lemma_leaf_find<I: ItemShape>(items: Seq<I>, key: I::Key, at: int)
    requires
        0 <= at <= items.len(),
        forall|i: int| 0 <= i < at ==> !pair_with(#[trigger] items[i], key),
        at < items.len() ==> pair_with(items[at], key),
    ensures
        leaf_find(items, key) == at,
    decreases items.len(),
{
    if items.len() > 0 && at > 0 {
        let tail = items.subrange(1, items.len() as int);
        assert(!pair_with(items[0], key));
        assert forall|i: int| 0 <= i < at - 1 implies !pair_with(#[trigger] tail[i], key) by {
            assert(tail[i] == items[i + 1]);
        }
        lemma_leaf_find(tail, key, at - 1);
    }
}

/// Where the first pair whose key is not less than `key` stands, no pair
/// before it has such a key.
pub proof fn lemma_leaf_slot_found<I: ItemShape>(items: Seq<I>, key: I::Key)
    ensures
        0 <= leaf_slot(items, key) <= items.len(),
        leaf_slot(items, key) < items.len() ==> pair_at_least(items[leaf_slot(items, key)], key),
        forall|i: int| 0 <= i < leaf_slot(items, key) ==> !pair_at_least(#[trigger] items[i], key),
    decreases items.len(),
{
    if items.len() > 0 && !pair_at_least(items[0], key) {
        let tail = items.subrange(1, items.len() as int);
        lemma_leaf_slot_found(tail, key);
        assert forall|i: int| 0 <= i < leaf_slot(items, key) implies !pair_at_least(
            #[trigger] items[i],
            key,
        ) by {
            if i > 0 {
                assert(tail[i - 1] == items[i]);
            }
        }
    }
}

/// Where the first pair whose key is `key` stands, no pair before it has
/// that key.
pub proof fn lemma_leaf_find_found<I: ItemShape>(items: Seq<I>, key: I::Key)
    ensures
        0 <= leaf_find(items, key) <= items.len(),
        leaf_find(items, key) < items.len() ==> pair_with(items[leaf_find(items, key)], key),
        forall|i: int| 0 <= i < leaf_find(items, key) ==> !pair_with(#[trigger] items[i], key),
    decreases items.len(),
{
    if items.len() > 0 && !pair_with(items[0], key) {
        let tail = items.subrange(1, items.len() as int);
        lemma_leaf_find_found(tail, key);
        assert forall|i: int| 0 <= i < leaf_find(items, key) implies !pair_with(
            #[trigger] items[i],
            key,
        ) by {
            if i > 0 {
                assert(tail[i - 1] == items[i]);
            }
        }
    }
}

/// Whether an order says "less or equal".
fn at_most(order: Option<KeyOrder>) -> (yes: bool)
    ensures
        yes == (order == Some(KeyOrder::Less) || order == Some(KeyOrder::Equal)),
{
    match order {
        Some(KeyOrder::Less) => true,
        Some(KeyOrder::Equal) => true,
        _ => false,
    }
}

/// Whether an order says "greater or equal".
fn at_least(order: Option<KeyOrder>) -> (yes: bool)
    ensures
        yes == (order == Some(KeyOrder::Greater) || order == Some(KeyOrder::Equal)),
{
    match order {
        Some(KeyOrder::Greater) => true,
        Some(KeyOrder::Equal) => true,
        _ => false,
    }
}

/// Where an insertion of `key` goes down from an internal node.
pub fn find_insert_child<I: NodeItem>(items: &Vec<I>, key: &<I::Shape as ItemShape>::Key) -> (at: usize)
    ensures
        at == insert_child(shapes(items@), *key),
        at <= items@.len(),
{
    let mut left: usize = items.len();
    assert(shapes(items@).take(left as int) =~= shapes(items@));
    while left > 0
        invariant
            left <= items@.len(),
            insert_child(shapes(items@), *key) == insert_child(shapes(items@).take(left as int), *key),
        decreases left,
    {
        let item = &items[left - 1];
        assert(shapes(items@).take(left as int).last() == item.shape());
        if item.item_kind() == ItemKind::Key && at_most(item.compare_to(key)) {
            return left;
        }
        assert(shapes(items@).take(left as int).drop_last() =~= shapes(items@).take(left - 1));
        left = left - 1;
    }
    0
}

/// The position of the first separator key that is greater than `key`, or
/// the number of items.
pub fn find_first_above<I: NodeItem>(items: &Vec<I>, key: &<I::Shape as ItemShape>::Key) -> (at: usize)
    ensures
        at == first_above(shapes(items@), *key),
        at <= items@.len(),
{
    let mut at: usize = 0;
    while at < items.len()
        invariant
            at <= items@.len(),
            forall|i: int| 0 <= i < at ==> !key_above(#[trigger] shapes(items@)[i], *key),
        decreases items@.len() - at,
    {
        let item = &items[at];
        if item.item_kind() == ItemKind::Key && item.compare_to(key) == Some(KeyOrder::Greater) {
            proof {
                lemma_first_above(shapes(items@), *key, at as int);
            }
            return at;
        }
        at = at + 1;
    }
    proof {
        lemma_first_above(shapes(items@), *key, at as int);
    }
    at
}

/// The position of the last pointer, if there is one.
pub fn find_last_pointer<I: NodeItem>(items: &Vec<I>) -> (found: Option<usize>)
    ensures
        match found {
            Some(at) => at == last_pointer(shapes(items@)) && at < items@.len(),
            None => last_pointer(shapes(items@)) < 0,
        },
{
    let mut left: usize = items.len();
    assert(shapes(items@).take(left as int) =~= shapes(items@));
    while left > 0
        invariant
            left <= items@.len(),
            last_pointer(shapes(items@)) == last_pointer(shapes(items@).take(left as int)),
        decreases left,
    {
        let item = &items[left - 1];
        assert(shapes(items@).take(left as int).last() == item.shape());
        if item.item_kind() == ItemKind::Pointer {
            return Some(left - 1);
        }
        assert(shapes(items@).take(left as int).drop_last() =~= shapes(items@).take(left - 1));
        left = left - 1;
    }
    None
}

/// Where a search for `key` goes down from an internal node, if that is a
/// position of the node.
pub fn find_lookup_child<I: NodeItem>(items: &Vec<I>, key: &<I::Shape as ItemShape>::Key) -> (found:
    Option<usize>)
    ensures
        match found {
            Some(at) => at == lookup_child(shapes(items@), *key) && at < items@.len(),
            None => lookup_child(shapes(items@), *key) < 0,
        },
{
    let above = find_first_above(items, key);
    if above < items.len() {
        if above == 0 {
            None
        } else {
            Some(above - 1)
        }
    } else {
        find_last_pointer(items)
    }
}

/// The position of the first pair whose key is not less than `key`, or the
/// number of items.
pub fn find_leaf_slot<I: NodeItem>(items: &Vec<I>, key: &<I::Shape as ItemShape>::Key) -> (at: usize)
    ensures
        at == leaf_slot(shapes(items@), *key),
        at <= items@.len(),
{
    let mut at: usize = 0;
    while at < items.len()
        invariant
            at <= items@.len(),
            forall|i: int| 0 <= i < at ==> !pair_at_least(#[trigger] shapes(items@)[i], *key),
        decreases items@.len() - at,
    {
        let item = &items[at];
        if item.item_kind() == ItemKind::Pair && at_least(item.compare_to(key)) {
            proof {
                lemma_leaf_slot(shapes(items@), *key, at as int);
            }
            return at;
        }
        at = at + 1;
    }
    proof {
        lemma_leaf_slot(shapes(items@), *key, at as int);
    }
    at
}

/// The position of the first pair whose key is `key`, or the number of items.
pub fn find_leaf_pair<I: NodeItem>(items: &Vec<I>, key: &<I::Shape as ItemShape>::Key) -> (at: usize)
    ensures
        at == leaf_find(shapes(items@), *key),
        at <= items@.len(),
{
    let mut at: usize = 0;
    while at < items.len()
        invariant
            at <= items@.len(),
            forall|i: int| 0 <= i < at ==> !pair_with(#[trigger] shapes(items@)[i], *key),
        decreases items@.len() - at,
    {
        let item = &items[at];
        if item.item_kind() == ItemKind::Pair && item.compare_to(key) == Some(KeyOrder::Equal) {
            proof {
                lemma_leaf_find(shapes(items@), *key, at as int);
            }
            return at;
        }
        at = at + 1;
    }
    proof {
        lemma_leaf_find(shapes(items@), *key, at as int);
    }
    at
}

/// The number of items that are no pointers.
pub fn non_pointer_count<I: NodeItem>(items: &Vec<I>) -> (count: usize)
    ensures
        count == count_non_pointers(shapes(items@)),
{
    let mut count: usize = 0;
    let mut at: usize = 0;
    while at < items.len()
        invariant
            at <= items@.len(),
            count <= at,
            count == count_non_pointers(shapes(items@).take(at as int)),
        decreases items@.len() - at,
    {
        assert(shapes(items@).take(at + 1).drop_last() =~= shapes(items@).take(at as int));
        assert(shapes(items@).take(at + 1).last() == items@[at as int].shape());
        if items[at].item_kind() != ItemKind::Pointer {
            count = count + 1;
        }
        at = at + 1;
    }
    assert(shapes(items@).take(at as int) =~= shapes(items@));
    count
}

/// The position, counted from `start`, of the item whose key parts the
/// halves of a split at `start`.
pub fn find_separator<I: NodeItem>(items: &Vec<I>, start: usize) -> (place: Option<usize>)
    requires
        start <= items@.len(),
    ensures
        match place {
            Some(at) => separator_place(shapes(items@).skip(start as int)) == Some(at as int)
                && start + at < items@.len(),
            None => separator_place(shapes(items@).skip(start as int)).is_none(),
        },
{
    let ghost right = shapes(items@).skip(start as int);
    if start >= items.len() {
        None
    } else {
        assert(right[0] == items@[start as int].shape());
        if items[start].item_kind() != ItemKind::Pointer {
            Some(0)
        } else if items.len() - start >= 2 {
            assert(right[1] == items@[start + 1].shape());
            if items[start + 1].item_kind() == ItemKind::Key {
                Some(1)
            } else {
                None
            }
        } else {
            None
        }
    }
}

} // verus!
