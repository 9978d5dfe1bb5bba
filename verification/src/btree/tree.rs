//! The in-memory B+ tree.
//!
//! The nodes live in a list and refer to each other by index. An insertion
//! goes down from the root to a leaf, puts the pair there and, on its way
//! back up, splits each node that has grown too large.

use crate::btree::key::{TreeKey, TreeValue};
use crate::btree::node::{copy_values, BTreeNode, BTreeNodeItem, BTreeNodeItemView, BTreeNodeView};
use crate::btree::shape::{
    any_non_pair, cut_point, find_insert_child, find_leaf_pair, find_leaf_slot, find_lookup_child,
    find_separator, insert_child, leaf_find, leaf_slot, lookup_child, overfull, pair_with,
    separator_place, shapes, ItemKind, ItemShape, NodeItem,
};
use crate::codec::compare::KeyOrder;
use vstd::prelude::*;

verus! {

/// The mathematical value of a [`BTree`].
pub struct BTreeView<Key, Value> {
    /// The nodes, by index.
    pub nodes: Seq<BTreeNodeView<Key, Value>>,
    /// The index of the root.
    pub root: int,
    /// The number of items at which a node is split.
    pub max_degree: int,
    /// Whether a value that is already the first under its key is refused.
    pub unique: bool,
}

/// The values under `key`, searched from node `at` down through at most
/// `fuel` nodes: in a leaf, the values of the first pair with that key; in an
/// internal node, what the child before the first greater separator holds,
/// or the child at the last pointer where no separator is greater.
pub open spec fn lookup<Key: TreeKey, Value>(
    nodes: Seq<BTreeNodeView<Key, Value>>,
    at: int,
    key: Key,
    fuel: nat,
) -> Option<Seq<Value>>
    decreases fuel,
{
    if fuel == 0 || at < 0 || at >= nodes.len() {
        None
    } else if !nodes[at].internal {
        let found = leaf_find(nodes[at].items, key);
        if found < nodes[at].items.len() {
            match nodes[at].items[found] {
                BTreeNodeItemView::Pair(_, values) => Some(values),
                _ => None,
            }
        } else {
            None
        }
    } else {
        let child = lookup_child(nodes[at].items, key);
        if 0 <= child < nodes[at].items.len() {
            match nodes[at].items[child] {
                BTreeNodeItemView::Pointer(below) => lookup(
                    nodes,
                    below as int,
                    key,
                    (fuel - 1) as nat,
                ),
                _ => None,
            }
        } else {
            None
        }
    }
}

/// The way from a node down to a leaf.
pub struct Descent {
    /// The internal nodes passed, each with the position of the pointer taken.
    pub frames: Seq<(int, int)>,
    /// The leaf reached.
    pub leaf: int,
}

/// The way that an insertion of `key` takes from node `at` down to a leaf,
/// through at most `fuel` nodes; nothing where a node on the way does not
/// hold a pointer where one is looked for.
pub open spec fn descend<Key: TreeKey, Value>(
    nodes: Seq<BTreeNodeView<Key, Value>>,
    at: int,
    key: Key,
    fuel: nat,
) -> Option<Descent>
    decreases fuel,
{
    if fuel == 0 || at < 0 || at >= nodes.len() {
        None
    } else if !nodes[at].internal {
        Some(Descent { frames: Seq::empty(), leaf: at })
    } else {
        let child = insert_child(nodes[at].items, key);
        if child < nodes[at].items.len() {
            match nodes[at].items[child] {
                BTreeNodeItemView::Pointer(below) => {
                    match descend(nodes, below as int, key, (fuel - 1) as nat) {
                        Some(rest) => Some(
                            Descent { frames: seq![(at, child)] + rest.frames, leaf: rest.leaf },
                        ),
                        None => None,
                    }
                },
                _ => None,
            }
        } else {
            None
        }
    }
}

/// The items of a leaf after `value` was put under `key`: behind the values
/// of the pair with that key, or as a new pair before the first pair with a
/// greater key. Nothing where `unique` is set and `value` is the first value
/// under the key already.
pub open spec fn leaf_put<Key: TreeKey, Value>(
    items: Seq<BTreeNodeItemView<Key, Value>>,
    key: Key,
    value: Value,
    unique: bool,
) -> Option<Seq<BTreeNodeItemView<Key, Value>>> {
    let slot = leaf_slot(items, key);
    if slot < items.len() && pair_with(items[slot], key) {
        match items[slot] {
            BTreeNodeItemView::Pair(own, values) => {
                if unique && values.len() > 0 && values[0] == value {
                    None
                } else {
                    Some(items.update(slot, BTreeNodeItemView::Pair(own, values.push(value))))
                }
            },
            _ => Some(items),
        }
    } else {
        Some(items.insert(slot, BTreeNodeItemView::Pair(key, seq![value])))
    }
}

/// The key of a separator or of a pair.
pub open spec fn key_of<Key, Value>(item: BTreeNodeItemView<Key, Value>) -> Option<Key> {
    match item {
        BTreeNodeItemView::Key(key) => Some(key),
        BTreeNodeItemView::Pair(key, _) => Some(key),
        BTreeNodeItemView::Pointer(_) => None,
    }
}

/// The nodes after each child that `items` points to was told that `parent`
/// is its parent.
pub open spec fn adopted<Key, Value>(
    nodes: Seq<BTreeNodeView<Key, Value>>,
    items: Seq<BTreeNodeItemView<Key, Value>>,
    parent: usize,
) -> Seq<BTreeNodeView<Key, Value>>
    decreases items.len(),
{
    if items.len() == 0 {
        nodes
    } else {
        let rest = adopted(nodes, items.drop_last(), parent);
        match items.last() {
            BTreeNodeItemView::Pointer(child) => {
                if child < rest.len() {
                    rest.update(
                        child as int,
                        BTreeNodeView { parent: Some(parent), ..rest[child as int] },
                    )
                } else {
                    rest
                }
            },
            _ => rest,
        }
    }
}

/// Telling children who their parent is changes no list of items and no
/// kind of node.
pub proof fn lemma_adopted<Key, Value>(
    nodes: Seq<BTreeNodeView<Key, Value>>,
    items: Seq<BTreeNodeItemView<Key, Value>>,
    parent: usize,
)
    ensures
        adopted(nodes, items, parent).len() == nodes.len(),
        forall|i: int|
            0 <= i < nodes.len() ==> (#[trigger] adopted(nodes, items, parent)[i]).items
                == nodes[i].items && adopted(nodes, items, parent)[i].internal == nodes[i].internal,
    decreases items.len(),
{
    if items.len() > 0 {
        lemma_adopted(nodes, items.drop_last(), parent);
    }
}

/// Where node `at` is to be cut in two and the key that parts the halves;
/// nothing where the node has not grown too large, and where no key parts
/// the halves.
pub open spec fn split_plan<Key: TreeKey, Value>(tree: BTreeView<Key, Value>, at: int) -> Option<
    (int, Key),
> {
    if at < 0 || at >= tree.nodes.len() || tree.nodes.len() + 2 > usize::MAX {
        None
    } else {
        let node = tree.nodes[at];
        let cut = cut_point(node.items.len() as int, node.internal);
        let right = node.items.skip(cut);
        if !overfull(node.items, node.internal, tree.max_degree) || cut > node.items.len()
            || separator_place(right).is_none() {
            None
        } else {
            match key_of(right[separator_place(right).unwrap()]) {
                Some(separator) => Some((cut, separator)),
                None => None,
            }
        }
    }
}

/// The nodes after node `at` was cut at `cut`: the left half stays where the
/// node was, the right half becomes a new node behind the others, both have
/// `parent` as their parent, and the children of the right half have the new
/// node as theirs.
pub open spec fn split_nodes<Key: TreeKey, Value>(
    nodes: Seq<BTreeNodeView<Key, Value>>,
    at: int,
    cut: int,
    parent: Option<usize>,
) -> Seq<BTreeNodeView<Key, Value>> {
    let left = nodes[at].items.take(cut);
    let right = nodes[at].items.skip(cut);
    adopted(
        nodes.update(at, BTreeNodeView { items: left, internal: any_non_pair(left), parent }).push(
            BTreeNodeView { items: right, internal: any_non_pair(right), parent },
        ),
        right,
        nodes.len() as usize,
    )
}

/// The items of a parent after the pointer at `place` gave way to a pointer
/// to the left half, the separator and a pointer to the right half.
pub open spec fn bumped<Key, Value>(
    items: Seq<BTreeNodeItemView<Key, Value>>,
    place: int,
    left: usize,
    separator: Key,
    right: usize,
) -> Seq<BTreeNodeItemView<Key, Value>> {
    items.update(place, BTreeNodeItemView::Pointer(left)).insert(
        place + 1,
        BTreeNodeItemView::Key(separator),
    ).insert(place + 2, BTreeNodeItemView::Pointer(right))
}

/// The root that is put above the two halves of a root that was split.
pub open spec fn root_above<Key, Value>(left: usize, separator: Key, right: usize) -> BTreeNodeView<
    Key,
    Value,
> {
    BTreeNodeView {
        items: seq![
            BTreeNodeItemView::Pointer(left),
            BTreeNodeItemView::Key(separator),
            BTreeNodeItemView::Pointer(right),
        ],
        internal: true,
        parent: None,
    }
}

/// The tree after node `at` was split, where it has grown too large, and the
/// nodes above it on the way `frames` likewise. The parent gets, in the
/// place of the pointer to the node, a pointer to the left half, the
/// separator and a pointer to the right half. A root that is split gets a
/// new root above it. A node in which no key parts the halves is left as it
/// is.
pub open spec fn balanced<Key: TreeKey, Value>(
    tree: BTreeView<Key, Value>,
    at: int,
    frames: Seq<(int, int)>,
) -> BTreeView<Key, Value>
    decreases frames.len(),
{
    match split_plan(tree, at) {
        None => tree,
        Some((cut, separator)) => {
            let fresh = tree.nodes.len() as usize;
            if frames.len() == 0 {
                let above = (fresh + 1) as usize;
                BTreeView {
                    nodes: split_nodes(tree.nodes, at, cut, Some(above)).push(
                        root_above(at as usize, separator, fresh),
                    ),
                    root: above as int,
                    ..tree
                }
            } else {
                let (parent, place) = frames.last();
                if parent < 0 || parent >= tree.nodes.len() || parent == at || place < 0 || place
                    >= tree.nodes[parent].items.len() {
                    tree
                } else {
                    let grown = split_nodes(tree.nodes, at, cut, tree.nodes[at].parent);
                    balanced(
                        BTreeView {
                            nodes: grown.update(
                                parent,
                                BTreeNodeView {
                                    items: bumped(
                                        grown[parent].items,
                                        place,
                                        at as usize,
                                        separator,
                                        fresh,
                                    ),
                                    ..grown[parent]
                                },
                            ),
                            ..tree
                        },
                        parent,
                        frames.drop_last(),
                    )
                }
            }
        }
    }
}

/// The tree after `value` was put under `key`, and whether it was put: it is
/// not where the way down from the root does not end in a leaf, and where
/// the leaf refuses the value.
pub open spec fn inserted<Key: TreeKey, Value>(tree: BTreeView<Key, Value>, key: Key, value: Value) -> (
    BTreeView<Key, Value>,
    bool,
) {
    match descend(tree.nodes, tree.root, key, tree.nodes.len()) {
        None => (tree, false),
        Some(way) => {
            match leaf_put(tree.nodes[way.leaf].items, key, value, tree.unique) {
                None => (tree, false),
                Some(items) => (
                    balanced(
                        BTreeView {
                            nodes: tree.nodes.update(
                                way.leaf,
                                BTreeNodeView { items, ..tree.nodes[way.leaf] },
                            ),
                            ..tree
                        },
                        way.leaf,
                        way.frames,
                    ),
                    true,
                ),
            }
        },
    }
}

/// The frames of a way as numbers.
pub open spec fn frames_of(frames: Seq<(usize, usize)>) -> Seq<(int, int)> {
    Seq::new(frames.len(), |i: int| (frames[i].0 as int, frames[i].1 as int))
}

/// The way that goes through `front` first and then takes `rest`.
pub open spec fn extend_way(front: Seq<(int, int)>, rest: Option<Descent>) -> Option<Descent> {
    match rest {
        Some(rest) => Some(Descent { frames: front + rest.frames, leaf: rest.leaf }),
        None => None,
    }
}

/// A B+ tree in memory.
#[derive(Debug)]
pub struct BTree<Key, Value> {
    max_degree: usize,
    nodes: Vec<BTreeNode<Key, Value>>,
    root: usize,
    unique: bool,
}

impl<Key, Value> View for BTree<Key, Value> {
    type V = BTreeView<Key, Value>;

    closed spec fn view(&self) -> BTreeView<Key, Value> {
        BTreeView {
            nodes: Seq::new(self.nodes@.len(), |i: int| self.nodes@[i]@),
            root: self.root as int,
            max_degree: self.max_degree as int,
            unique: self.unique,
        }
    }
}

impl<Key: TreeKey, Value: TreeValue> BTree<Key, Value> {
    /// The root is a node, and the counts that the nodes keep are up to date.
    pub closed spec fn well_formed(&self) -> bool {
        &&& self.root < self.nodes@.len()
        &&& forall|i: int| 0 <= i < self.nodes@.len() ==> (#[trigger] self.nodes@[i]).well_formed()
    }

    /// A tree whose root is an empty leaf.
    pub fn new(max_degree: usize, unique: bool) -> (tree: Self)
        ensures
            tree.well_formed(),
            tree@ == (BTreeView::<Key, Value> {
                nodes: seq![
                    BTreeNodeView { items: Seq::empty(), internal: false, parent: None },
                ],
                root: 0,
                max_degree: max_degree as int,
                unique,
            }),
    {
        let mut nodes: Vec<BTreeNode<Key, Value>> = Vec::new();
        nodes.push(BTreeNode::empty(false, None));
        let tree = BTree { max_degree, nodes, root: 0, unique };
        assert(tree@.nodes =~= seq![
            BTreeNodeView::<Key, Value> { items: Seq::empty(), internal: false, parent: None },
        ]);
        tree
    }

    /// The number of items at which a node is split.
    pub fn max_degree(&self) -> (max_degree: usize)
        ensures
            max_degree == self@.max_degree,
    {
        self.max_degree
    }

    /// Copies of the values under `key`, in the order in which they were
    /// put, if the search from the root finds the key.
    pub fn get(&self, key: &Key) -> (found: Option<Vec<Value>>)
        requires
            self.well_formed(),
        ensures
            match found {
                Some(values) => lookup(self@.nodes, self@.root, *key, self@.nodes.len())
                    == Some(values@),
                None => lookup(self@.nodes, self@.root, *key, self@.nodes.len()).is_none(),
            },
    {
        let ghost nodes = self@.nodes;
        let mut at: usize = self.root;
        let mut fuel: usize = self.nodes.len();
        while fuel > 0
            invariant
                self.well_formed(),
                nodes == self@.nodes,
                fuel <= self.nodes@.len(),
                lookup(nodes, self@.root, *key, nodes.len()) == lookup(
                    nodes,
                    at as int,
                    *key,
                    fuel as nat,
                ),
            decreases fuel,
        {
            if at >= self.nodes.len() {
                return None;
            }
            let node = &self.nodes[at];
            assert(nodes[at as int] == node@);
            let items = node.items();
            if !node.is_internal() {
                let found = find_leaf_pair(items, key);
                if found >= items.len() {
                    return None;
                }
                assert(shapes(items@)[found as int] == items@[found as int]@);
                return match &items[found] {
                    BTreeNodeItem::Pair(_, values) => Some(copy_values(values)),
                    _ => None,
                };
            }
            let child: usize = match find_lookup_child(items, key) {
                Some(child) => child,
                None => {
                    return None;
                },
            };
            assert(shapes(items@)[child as int] == items@[child as int]@);
            match &items[child] {
                BTreeNodeItem::Pointer(below) => {
                    at = *below;
                },
                _ => {
                    return None;
                },
            }
            fuel = fuel - 1;
        }
        None
    }

    /// The way that an insertion of `key` takes from the root down to a leaf.
    fn find_way(&self, key: &Key) -> (way: Option<(Vec<(usize, usize)>, usize)>)
        requires
            self.well_formed(),
        ensures
            match way {
                Some((frames, leaf)) => leaf < self@.nodes.len() && descend(
                    self@.nodes,
                    self@.root,
                    *key,
                    self@.nodes.len(),
                ) == Some(Descent { frames: frames_of(frames@), leaf: leaf as int }),
                None => descend(self@.nodes, self@.root, *key, self@.nodes.len()).is_none(),
            },
    {
        let ghost nodes = self@.nodes;
        let ghost whole = descend(nodes, self@.root, *key, nodes.len());
        let mut frames: Vec<(usize, usize)> = Vec::new();
        let mut at: usize = self.root;
        let mut fuel: usize = self.nodes.len();
        assert(frames_of(frames@) + Seq::<(int, int)>::empty() =~= frames_of(frames@));
        assert(frames_of(frames@) =~= Seq::<(int, int)>::empty());
        assert(whole == extend_way(frames_of(frames@), whole)) by {
            if whole.is_some() {
                assert(Seq::<(int, int)>::empty() + whole.unwrap().frames =~= whole.unwrap().frames);
            }
        }
        while fuel > 0
            invariant
                self.well_formed(),
                nodes == self@.nodes,
                whole == descend(nodes, self@.root, *key, nodes.len()),
                whole == extend_way(
                    frames_of(frames@),
                    descend(nodes, at as int, *key, fuel as nat),
                ),
            decreases fuel,
        {
            if at >= self.nodes.len() {
                return None;
            }
            let node = &self.nodes[at];
            assert(nodes[at as int] == node@);
            if !node.is_internal() {
                assert(frames_of(frames@) + Seq::<(int, int)>::empty() =~= frames_of(frames@));
                return Some((frames, at));
            }
            let items = node.items();
            let child = find_insert_child(items, key);
            if child >= items.len() {
                return None;
            }
            assert(shapes(items@)[child as int] == items@[child as int]@);
            let below: usize = match &items[child] {
                BTreeNodeItem::Pointer(below) => *below,
                _ => {
                    return None;
                },
            };
            proof {
                let rest = descend(nodes, below as int, *key, (fuel - 1) as nat);
                let longer = frames@.push((at, child));
                assert(frames_of(longer) =~= frames_of(frames@) + seq![(at as int, child as int)]);
                if rest.is_some() {
                    assert(frames_of(frames@) + (seq![(at as int, child as int)]
                        + rest.unwrap().frames) =~= frames_of(longer) + rest.unwrap().frames);
                }
            }
            frames.push((at, child));
            at = below;
            fuel = fuel - 1;
        }
        None
    }

    /// Puts `value` under `key` in the leaf `leaf`.
    fn put_in_leaf(&mut self, leaf: usize, key: Key, value: Value) -> (stored: bool)
        requires
            old(self).well_formed(),
            leaf < old(self)@.nodes.len(),
        ensures
            final(self).well_formed(),
            match leaf_put(
                old(self)@.nodes[leaf as int].items,
                key,
                value,
                old(self)@.unique,
            ) {
                None => !stored && final(self)@ == old(self)@,
                Some(items) => stored && final(self)@ == (BTreeView {
                    nodes: old(self)@.nodes.update(
                        leaf as int,
                        BTreeNodeView { items, ..old(self)@.nodes[leaf as int] },
                    ),
                    ..old(self)@
                }),
            },
    {
        let ghost before = self@;
        let node = &self.nodes[leaf];
        assert(before.nodes[leaf as int] == node@);
        let items = node.items();
        let slot = find_leaf_slot(items, &key);
        let mut fresh: Option<BTreeNodeItem<Key, Value>> = None;
        if slot < items.len() {
            assert(shapes(items@)[slot as int] == items@[slot as int]@);
            let held = &items[slot];
            if held.item_kind() == ItemKind::Pair && held.compare_to(&key) == Some(KeyOrder::Equal) {
                let (_, values) = held.as_pair();
                if self.unique && values.len() > 0 && values[0].same(&value) {
                    return false;
                }
                let mut grown = held.cloned();
                grown.push_value(value);
                let _ = self.nodes[leaf].replace(grown, slot);
                assert(self@.nodes =~= before.nodes.update(
                    leaf as int,
                    BTreeNodeView {
                        items: leaf_put(before.nodes[leaf as int].items, key, value, before.unique)
                            .unwrap(),
                        ..before.nodes[leaf as int]
                    },
                ));
                return true;
            }
        }
        let mut values: Vec<Value> = Vec::new();
        values.push(value);
        assert(values@ =~= seq![value]);
        self.nodes[leaf].insert(BTreeNodeItem::Pair(key, values), slot);
        assert(self@.nodes =~= before.nodes.update(
            leaf as int,
            BTreeNodeView {
                items: leaf_put(before.nodes[leaf as int].items, key, value, before.unique).unwrap(),
                ..before.nodes[leaf as int]
            },
        ));
        true
    }

    /// Puts `kv.1` under `kv.0`. Returns whether it was put: it is not where
    /// the tree takes each value once and the value is the first under its
    /// key already.
    pub fn insert(&mut self, kv: (Key, Value)) -> (stored: bool)
        requires
            old(self).well_formed(),
        ensures
            final(self).well_formed(),
            (final(self)@, stored) == inserted(old(self)@, kv.0, kv.1),
    {
        let (key, value) = kv;
        let (frames, leaf) = match self.find_way(&key) {
            Some(way) => way,
            None => {
                return false;
            },
        };
        if !self.put_in_leaf(leaf, key, value) {
            return false;
        }
        self.balance(leaf, frames);
        true
    }

    /// Tells each child that node `parent` points to that `parent` is its
    /// parent.
    fn adopt(&mut self, parent: usize)
        requires
            old(self).well_formed(),
            parent < old(self)@.nodes.len(),
        ensures
            final(self).well_formed(),
            final(self)@ == (BTreeView {
                nodes: adopted(
                    old(self)@.nodes,
                    old(self)@.nodes[parent as int].items,
                    parent,
                ),
                ..old(self)@
            }),
    {
        let ghost before = self@;
        let ghost items = before.nodes[parent as int].items;
        let total: usize = self.nodes[parent].items().len();
        let mut at: usize = 0;
        assert(items.take(0) =~= Seq::empty());
        while at < total
            invariant
                at <= total,
                total == items.len(),
                self.well_formed(),
                parent < self.nodes@.len(),
                self@.root == before.root,
                self@.max_degree == before.max_degree,
                self@.unique == before.unique,
                self@.nodes.len() == before.nodes.len(),
                self@.nodes[parent as int].items == items,
                self@.nodes == adopted(before.nodes, items.take(at as int), parent),
            decreases total - at,
        {
            let ghost now = self@.nodes;
            let child: Option<usize> = match self.nodes[parent].get(at) {
                Some(BTreeNodeItem::Pointer(child)) => Some(*child),
                _ => None,
            };
            proof {
                assert(items.take(at + 1).drop_last() =~= items.take(at as int));
                assert(items.take(at + 1).last() == items[at as int]);
            }
            match child {
                Some(child) => {
                    if child < self.nodes.len() {
                        self.nodes[child].set_parent(Some(parent));
                        assert(self@.nodes =~= now.update(
                            child as int,
                            BTreeNodeView { parent: Some(parent), ..now[child as int] },
                        ));
                    }
                },
                None => {},
            }
            at = at + 1;
        }
        assert(items.take(at as int) =~= items);
    }

    /// Where node `at` is to be cut in two, and the key that parts the halves.
    fn plan_split(&self, at: usize) -> (plan: Option<(usize, Key)>)
        requires
            self.well_formed(),
        ensures
            match plan {
                Some((cut, separator)) => {
                    &&& split_plan(self@, at as int) == Some((cut as int, separator))
                    &&& at < self@.nodes.len()
                    &&& cut <= self@.nodes[at as int].items.len()
                    &&& self@.nodes.len() + 2 <= usize::MAX
                },
                None => split_plan(self@, at as int).is_none(),
            },
    {
        let count: usize = self.nodes.len();
        if at >= count || count > usize::MAX - 2 {
            return None;
        }
        let node = &self.nodes[at];
        assert(self@.nodes[at as int] == node@);
        let items = node.items();
        let internal: bool = node.is_internal();
        let len: usize = items.len();
        let cut: usize = if internal {
            len / 2 + 1
        } else {
            len / 2
        };
        let too_large: bool = if internal {
            node.non_ptr_len() >= self.max_degree
        } else {
            len >= self.max_degree
        };
        if !too_large || cut > len {
            return None;
        }
        let place: usize = match find_separator(items, cut) {
            Some(place) => place,
            None => {
                return None;
            },
        };
        assert(node@.items.skip(cut as int)[place as int] == items@[cut + place]@);
        match &items[cut + place] {
            BTreeNodeItem::Key(key) => Some((cut, key.copy())),
            BTreeNodeItem::Pair(key, _) => Some((cut, key.copy())),
            BTreeNodeItem::Pointer(_) => None,
        }
    }

    /// Cuts node `at` in two at `cut`.
    fn split(&mut self, at: usize, cut: usize, parent: Option<usize>)
        requires
            old(self).well_formed(),
            at < old(self)@.nodes.len(),
            cut <= old(self)@.nodes[at as int].items.len(),
            old(self)@.nodes.len() + 2 <= usize::MAX,
        ensures
            final(self).well_formed(),
            final(self)@ == (BTreeView {
                nodes: split_nodes(old(self)@.nodes, at as int, cut as int, parent),
                ..old(self)@
            }),
            final(self)@.nodes.len() == old(self)@.nodes.len() + 1,
            forall|i: int|
                0 <= i < old(self)@.nodes.len() && i != at ==> (#[trigger] final(self)@.nodes[i]).items
                    == old(self)@.nodes[i].items,
    {
        let ghost before = self@;
        let node = &self.nodes[at];
        assert(before.nodes[at as int] == node@);
        let items = node.items();
        let len: usize = items.len();
        assert(shapes(items@).subrange(0, cut as int) =~= node@.items.take(cut as int));
        assert(shapes(items@).subrange(cut as int, len as int) =~= node@.items.skip(cut as int));
        let left = BTreeNode::from_range(items, 0, cut, parent);
        let right = BTreeNode::from_range(items, cut, len, parent);
        let ghost left_view = left@;
        let ghost right_view = right@;
        let fresh: usize = self.nodes.len();
        self.nodes[at] = left;
        self.nodes.push(right);
        let ghost halves = before.nodes.update(at as int, left_view).push(right_view);
        assert(self@.nodes =~= halves);
        proof {
            lemma_adopted(halves, right_view.items, fresh);
        }
        self.adopt(fresh);
    }

    /// Puts, into node `parent`, a pointer to `left`, the separator and a
    /// pointer to `right` in the place of the pointer at `place`.
    fn bump(&mut self, parent: usize, place: usize, left: usize, separator: Key, right: usize)
        requires
            old(self).well_formed(),
            parent < old(self)@.nodes.len(),
            place < old(self)@.nodes[parent as int].items.len(),
        ensures
            final(self).well_formed(),
            final(self)@ == (BTreeView {
                nodes: old(self)@.nodes.update(
                    parent as int,
                    BTreeNodeView {
                        items: bumped(
                            old(self)@.nodes[parent as int].items,
                            place as int,
                            left,
                            separator,
                            right,
                        ),
                        ..old(self)@.nodes[parent as int]
                    },
                ),
                ..old(self)@
            }),
    {
        let ghost before = self@;
        assert(before.nodes[parent as int] == self.nodes@[parent as int]@);
        let narrow: usize = self.nodes[parent].items().len();
        assert(place < narrow);
        let _ = self.nodes[parent].replace(BTreeNodeItem::Pointer(left), place);
        self.nodes[parent].insert(BTreeNodeItem::Key(separator), place + 1);
        let wide: usize = self.nodes[parent].items().len();
        assert(place + 1 < wide);
        self.nodes[parent].insert(BTreeNodeItem::Pointer(right), place + 2);
        assert(self@.nodes =~= before.nodes.update(
            parent as int,
            BTreeNodeView {
                items: bumped(
                    before.nodes[parent as int].items,
                    place as int,
                    left,
                    separator,
                    right,
                ),
                ..before.nodes[parent as int]
            },
        ));
    }

    /// Puts a new root above the halves `left` and `right` of the old one.
    fn grow_root(&mut self, left: usize, separator: Key, right: usize)
        requires
            old(self).well_formed(),
            old(self)@.nodes.len() < usize::MAX,
        ensures
            final(self).well_formed(),
            final(self)@ == (BTreeView {
                nodes: old(self)@.nodes.push(root_above(left, separator, right)),
                root: old(self)@.nodes.len() as int,
                ..old(self)@
            }),
    {
        let ghost before = self@;
        let mut top: BTreeNode<Key, Value> = BTreeNode::empty(true, None);
        top.append(BTreeNodeItem::Pointer(left));
        top.append(BTreeNodeItem::Key(separator));
        top.append(BTreeNodeItem::Pointer(right));
        assert(top@.items =~= root_above::<Key, Value>(left, separator, right).items);
        let above: usize = self.nodes.len();
        self.nodes.push(top);
        self.root = above;
        assert(self@.nodes =~= before.nodes.push(root_above(left, separator, right)));
    }

    /// Splits node `at`, where it has grown too large, and the nodes above
    /// it on the way `frames` likewise.
    fn balance(&mut self, at: usize, frames: Vec<(usize, usize)>)
        requires
            old(self).well_formed(),
        ensures
            final(self).well_formed(),
            final(self)@ == balanced(old(self)@, at as int, frames_of(frames@)),
    {
        let mut at = at;
        let mut frames = frames;
        let ghost goal = balanced(self@, at as int, frames_of(frames@));
        loop
            invariant_except_break
                goal == balanced(self@, at as int, frames_of(frames@)),
            invariant
                self.well_formed(),
            ensures
                goal == self@,
            decreases frames@.len(),
        {
            let ghost before = self@;
            let ghost way = frames_of(frames@);
            let (cut, separator) = match self.plan_split(at) {
                Some(plan) => plan,
                None => {
                    break;
                },
            };
            let fresh: usize = self.nodes.len();
            if frames.len() == 0 {
                self.split(at, cut, Some(fresh + 1));
                self.grow_root(at, separator, fresh);
                assert(way.len() == 0);
                break;
            }
            let (parent, place) = frames[frames.len() - 1];
            assert(way.last() == (parent as int, place as int));
            if parent >= fresh || parent == at {
                break;
            }
            assert(before.nodes[parent as int] == self.nodes@[parent as int]@);
            if place >= self.nodes[parent].items().len() {
                break;
            }
            let above: Option<usize> = self.nodes[at].parent();
            assert(before.nodes[at as int] == self.nodes@[at as int]@);
            self.split(at, cut, above);
            self.bump(parent, place, at, separator, fresh);
            let _ = frames.pop();
            assert(frames_of(frames@) =~= way.drop_last());
            at = parent;
        }
    }
}

} // verus!
