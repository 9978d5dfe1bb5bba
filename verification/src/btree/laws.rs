//! What the in-memory tree gives back for what was put into it.
//!
//! The laws speak of a tree whose root is a leaf that has not grown so
//! large that it is split: of a tree that was just made, and of a sorted
//! leaf that takes one more value. They hold of keys that are in a total
//! order.

use crate::btree::key::{
    lemma_order_chain, lemma_order_flip, lemma_order_reflexive, order_laws, TreeKey,
};
use crate::btree::node::{BTreeNodeItemView, BTreeNodeView};
use crate::btree::shape::{
    leaf_find, leaf_slot, lemma_leaf_find, lemma_leaf_find_found, lemma_leaf_slot_found,
    pair_at_least, pair_with, separator_place, ItemShape,
};
use crate::btree::tree::{
    descend, inserted, key_of, leaf_put, lookup, split_plan, BTreeView, Descent,
};
use crate::codec::compare::KeyOrder;
use vstd::prelude::*;

verus! {

/// A tree that was just made: its root is a leaf without items.
pub open spec fn fresh_tree<Key, Value>(max_degree: int, unique: bool) -> BTreeView<Key, Value> {
    BTreeView {
        nodes: seq![BTreeNodeView { items: Seq::empty(), internal: false, parent: None }],
        root: 0,
        max_degree,
        unique,
    }
}

/// A tree whose root is a leaf that holds `values` under `key` and nothing
/// else.
pub open spec fn single_tree<Key, Value>(
    max_degree: int,
    unique: bool,
    key: Key,
    values: Seq<Value>,
) -> BTreeView<Key, Value> {
    BTreeView {
        nodes: seq![
            BTreeNodeView {
                items: seq![BTreeNodeItemView::Pair(key, values)],
                internal: false,
                parent: None,
            },
        ],
        root: 0,
        max_degree,
        unique,
    }
}

/// A value that is put into a tree that was just made is put, and it is
/// what is found under its key.
pub proof fn lemma_first_insert<Key: TreeKey, Value>(
    max_degree: int,
    unique: bool,
    key: Key,
    value: Value,
)
    requires
        max_degree >= 2,
        key.order(&key) == KeyOrder::Equal,
    ensures
        inserted(fresh_tree::<Key, Value>(max_degree, unique), key, value) == (
            single_tree(max_degree, unique, key, seq![value]),
            true,
        ),
        lookup(single_tree(max_degree, unique, key, seq![value]).nodes, 0, key, 1) == Some(
            seq![value],
        ),
{
    let tree = fresh_tree::<Key, Value>(max_degree, unique);
    let after = single_tree(max_degree, unique, key, seq![value]);
    reveal_with_fuel(descend, 2);
    reveal_with_fuel(leaf_slot, 2);
    reveal_with_fuel(leaf_find, 2);
    reveal_with_fuel(lookup, 2);
    assert(descend(tree.nodes, 0, key, 1) == Some(Descent { frames: Seq::empty(), leaf: 0 }));
    let items = Seq::<BTreeNodeItemView<Key, Value>>::empty().insert(
        0,
        BTreeNodeItemView::Pair(key, seq![value]),
    );
    assert(items =~= seq![BTreeNodeItemView::Pair(key, seq![value])]);
    assert(leaf_put(tree.nodes[0].items, key, value, unique) == Some(items));
    let grown = BTreeView {
        nodes: tree.nodes.update(0, BTreeNodeView { items, ..tree.nodes[0] }),
        ..tree
    };
    assert(grown.nodes =~= after.nodes);
    assert(split_plan(after, 0).is_none());
    assert(after.nodes[0].items[0].order_to(&key) == Some(KeyOrder::Equal));
    assert(pair_with(after.nodes[0].items[0], key));
}

/// A tree that takes each value once refuses the value that is the first
/// under its key already, and stays as it is.
pub proof fn lemma_unique_refuses_second<Key: TreeKey, Value>(
    max_degree: int,
    key: Key,
    value: Value,
)
    requires
        max_degree >= 2,
        key.order(&key) == KeyOrder::Equal,
    ensures
        inserted(single_tree(max_degree, true, key, seq![value]), key, value) == (
            single_tree(max_degree, true, key, seq![value]),
            false,
        ),
{
    let tree = single_tree(max_degree, true, key, seq![value]);
    reveal_with_fuel(descend, 2);
    reveal_with_fuel(leaf_slot, 2);
    assert(descend(tree.nodes, 0, key, 1) == Some(Descent { frames: Seq::empty(), leaf: 0 }));
    assert(tree.nodes[0].items[0].order_to(&key) == Some(KeyOrder::Equal));
    assert(pair_at_least(tree.nodes[0].items[0], key));
    assert(leaf_slot(tree.nodes[0].items, key) == 0);
    assert(leaf_put(tree.nodes[0].items, key, value, true).is_none());
}

/// A second value that is put under a key is found behind the first, where
/// the tree does not refuse it.
pub proof fn lemma_second_value_follows<Key: TreeKey, Value>(
    max_degree: int,
    unique: bool,
    key: Key,
    first: Value,
    second: Value,
)
    requires
        max_degree >= 2,
        key.order(&key) == KeyOrder::Equal,
        !unique || first != second,
    ensures
        inserted(single_tree(max_degree, unique, key, seq![first]), key, second) == (
            single_tree(max_degree, unique, key, seq![first, second]),
            true,
        ),
        lookup(
            single_tree(max_degree, unique, key, seq![first, second]).nodes,
            0,
            key,
            1,
        ) == Some(seq![first, second]),
{
    let tree = single_tree(max_degree, unique, key, seq![first]);
    let after = single_tree(max_degree, unique, key, seq![first, second]);
    reveal_with_fuel(descend, 2);
    reveal_with_fuel(leaf_slot, 2);
    reveal_with_fuel(leaf_find, 2);
    reveal_with_fuel(lookup, 2);
    assert(descend(tree.nodes, 0, key, 1) == Some(Descent { frames: Seq::empty(), leaf: 0 }));
    assert(tree.nodes[0].items[0].order_to(&key) == Some(KeyOrder::Equal));
    assert(pair_at_least(tree.nodes[0].items[0], key));
    assert(leaf_slot(tree.nodes[0].items, key) == 0);
    assert(seq![first].push(second) =~= seq![first, second]);
    let items = tree.nodes[0].items.update(0, BTreeNodeItemView::Pair(key, seq![first, second]));
    assert(items =~= after.nodes[0].items);
    assert(leaf_put(tree.nodes[0].items, key, second, unique) == Some(items));
    let grown = BTreeView {
        nodes: tree.nodes.update(0, BTreeNodeView { items, ..tree.nodes[0] }),
        ..tree
    };
    assert(grown.nodes =~= after.nodes);
    assert(split_plan(after, 0).is_none());
    assert(after.nodes[0].items[0].order_to(&key) == Some(KeyOrder::Equal));
    assert(pair_with(after.nodes[0].items[0], key));
}

/// The key of a pair.
pub open spec fn pair_key<Key, Value>(item: BTreeNodeItemView<Key, Value>) -> Key {
    item->Pair_0
}

/// The items are pairs that stand in the strict order of their keys.
pub open spec fn sorted_pairs<Key: TreeKey, Value>(items: Seq<BTreeNodeItemView<Key, Value>>) -> bool {
    &&& forall|i: int| 0 <= i < items.len() ==> #[trigger] items[i] is Pair
    &&& forall|i: int, j: int|
        0 <= i < j < items.len() ==> pair_key(#[trigger] items[i]).order(
            &pair_key(#[trigger] items[j]),
        ) == KeyOrder::Less
}

/// The values that a leaf holds under `key`: those of the first pair with
/// that key, none where there is no such pair.
pub open spec fn values_under<Key: TreeKey, Value>(
    items: Seq<BTreeNodeItemView<Key, Value>>,
    key: Key,
) -> Seq<Value> {
    let at = leaf_find(items, key);
    if at < items.len() {
        match items[at] {
            BTreeNodeItemView::Pair(_, values) => values,
            _ => Seq::empty(),
        }
    } else {
        Seq::empty()
    }
}

/// The keys of the pairs before the place of a key stand before the key.
pub proof fn lemma_before_slot<Key: TreeKey, Value>(
    items: Seq<BTreeNodeItemView<Key, Value>>,
    key: Key,
)
    requires
        sorted_pairs(items),
    ensures
        0 <= leaf_slot(items, key) <= items.len(),
        forall|i: int|
            0 <= i < leaf_slot(items, key) ==> pair_key(#[trigger] items[i]).order(&key)
                == KeyOrder::Less,
        leaf_slot(items, key) < items.len() ==> pair_key(items[leaf_slot(items, key)]).order(&key)
            != KeyOrder::Less,
{
    lemma_leaf_slot_found(items, key);
    let slot = leaf_slot(items, key);
    assert forall|i: int| 0 <= i < slot implies pair_key(#[trigger] items[i]).order(&key)
        == KeyOrder::Less by {
        assert(!pair_at_least(items[i], key));
        assert(items[i] is Pair);
    }
    if slot < items.len() {
        assert(items[slot] is Pair);
    }
}

/// A value that is put behind the values of the pair with its key is found
/// behind them, and the values under every other key are as they were.
pub proof fn lemma_leaf_put_update<Key: TreeKey, Value>(
    items: Seq<BTreeNodeItemView<Key, Value>>,
    key: Key,
    value: Value,
    probe: Key,
)
    requires
        order_laws::<Key>(),
        sorted_pairs(items),
        leaf_slot(items, key) < items.len(),
        pair_with(items[leaf_slot(items, key)], key),
    ensures
        ({
            let slot = leaf_slot(items, key);
            let after = items.update(
                slot,
                BTreeNodeItemView::Pair(pair_key(items[slot]), items[slot]->Pair_1.push(value)),
            );
            &&& sorted_pairs(after)
            &&& values_under(after, probe) == if probe.order(&key) == KeyOrder::Equal {
                values_under(items, probe).push(value)
            } else {
                values_under(items, probe)
            }
        }),
{
    let slot = leaf_slot(items, key);
    let own = pair_key(items[slot]);
    let after = items.update(slot, BTreeNodeItemView::Pair(own, items[slot]->Pair_1.push(value)));
    let found = leaf_find(items, probe);
    lemma_before_slot(items, key);
    lemma_leaf_find_found(items, probe);
    assert(items[slot] is Pair);
    assert(own.order(&key) == KeyOrder::Equal);
    assert forall|i: int| 0 <= i < after.len() implies pair_key(#[trigger] after[i]) == pair_key(
        items[i],
    ) && after[i] is Pair by {
        assert(items[i] is Pair);
    }
    assert(sorted_pairs(after)) by {
        assert forall|i: int, j: int| 0 <= i < j < after.len() implies pair_key(
            #[trigger] after[i],
        ).order(&pair_key(#[trigger] after[j])) == KeyOrder::Less by {
            assert(pair_key(items[i]).order(&pair_key(items[j])) == KeyOrder::Less);
        }
    }
    assert forall|i: int| 0 <= i < after.len() implies pair_with(#[trigger] after[i], probe)
        == pair_with(items[i], probe) by {
        assert(items[i] is Pair);
    }
    lemma_leaf_find(after, probe, found);
    if found == slot {
        assert(own.order(&probe) == KeyOrder::Equal);
        lemma_order_flip(own, probe);
        lemma_order_chain(probe, own, key);
    } else if probe.order(&key) == KeyOrder::Equal {
        lemma_order_flip(probe, key);
        lemma_order_chain(own, key, probe);
        assert(pair_with(items[slot], probe));
        assert(found < slot);
        let early = pair_key(items[found]);
        assert(items[found] is Pair);
        assert(early.order(&probe) == KeyOrder::Equal);
        lemma_order_chain(early, probe, key);
        assert(false);
    }
}

/// A pair that is put at the place of its key into a sorted leaf leaves
/// the leaf sorted.
pub proof fn lemma_leaf_put_insert_sorted<Key: TreeKey, Value>(
    items: Seq<BTreeNodeItemView<Key, Value>>,
    key: Key,
    value: Value,
)
    requires
        order_laws::<Key>(),
        sorted_pairs(items),
        !(leaf_slot(items, key) < items.len() && pair_with(items[leaf_slot(items, key)], key)),
    ensures
        sorted_pairs(
            items.insert(leaf_slot(items, key), BTreeNodeItemView::Pair(key, seq![value])),
        ),
        forall|j: int|
            leaf_slot(items, key) <= j < items.len() ==> key.order(&pair_key(#[trigger] items[j]))
                == KeyOrder::Less,
{
    let slot = leaf_slot(items, key);
    let fresh = BTreeNodeItemView::Pair(key, seq![value]);
    let after = items.insert(slot, fresh);
    lemma_before_slot(items, key);
    lemma_leaf_slot_found(items, key);
    assert forall|j: int| slot <= j < items.len() implies key.order(&pair_key(#[trigger] items[j]))
        == KeyOrder::Less by {
        let at = pair_key(items[slot]);
        assert(items[slot] is Pair);
        assert(pair_at_least(items[slot], key));
        assert(at.order(&key) == KeyOrder::Greater);
        lemma_order_flip(key, at);
        if j > slot {
            assert(at.order(&pair_key(items[j])) == KeyOrder::Less);
            lemma_order_chain(key, at, pair_key(items[j]));
        }
    }
    assert forall|i: int| 0 <= i < after.len() implies #[trigger] after[i] is Pair by {
        if i < slot {
            assert(after[i] == items[i]);
        } else if i > slot {
            assert(after[i] == items[i - 1]);
        }
    }
    assert forall|i: int, j: int| 0 <= i < j < after.len() implies pair_key(
        #[trigger] after[i],
    ).order(&pair_key(#[trigger] after[j])) == KeyOrder::Less by {
        if j < slot {
            assert(pair_key(items[i]).order(&pair_key(items[j])) == KeyOrder::Less);
        } else if j == slot {
            assert(pair_key(items[i]).order(&key) == KeyOrder::Less);
        } else if i < slot {
            assert(pair_key(items[i]).order(&pair_key(items[j - 1])) == KeyOrder::Less);
        } else if i == slot {
            assert(key.order(&pair_key(items[j - 1])) == KeyOrder::Less);
        } else {
            assert(pair_key(items[i - 1]).order(&pair_key(items[j - 1])) == KeyOrder::Less);
        }
    }
}

/// A pair that is put at the place of its key into a sorted leaf that has
/// no pair with that key is what is found under the key, and the values
/// under every other key are as they were.
pub proof fn lemma_leaf_put_insert_found<Key: TreeKey, Value>(
    items: Seq<BTreeNodeItemView<Key, Value>>,
    key: Key,
    value: Value,
    probe: Key,
)
    requires
        order_laws::<Key>(),
        sorted_pairs(items),
        !(leaf_slot(items, key) < items.len() && pair_with(items[leaf_slot(items, key)], key)),
    ensures
        values_under(
            items.insert(leaf_slot(items, key), BTreeNodeItemView::Pair(key, seq![value])),
            probe,
        ) == if probe.order(&key) == KeyOrder::Equal {
            values_under(items, probe).push(value)
        } else {
            values_under(items, probe)
        },
{
    let slot = leaf_slot(items, key);
    let fresh = BTreeNodeItemView::Pair(key, seq![value]);
    let after = items.insert(slot, fresh);
    let found = leaf_find(items, probe);
    lemma_before_slot(items, key);
    lemma_leaf_put_insert_sorted(items, key, value);
    lemma_leaf_find_found(items, probe);
    lemma_order_flip(probe, key);
    if probe.order(&key) == KeyOrder::Equal {
        assert forall|i: int| 0 <= i < items.len() implies !pair_with(
            #[trigger] items[i],
            probe,
        ) by {
            assert(items[i] is Pair);
            if i < slot {
                assert(pair_key(items[i]).order(&key) == KeyOrder::Less);
                lemma_order_chain(pair_key(items[i]), key, probe);
            } else {
                assert(key.order(&pair_key(items[i])) == KeyOrder::Less);
                lemma_order_chain(probe, key, pair_key(items[i]));
                lemma_order_flip(probe, pair_key(items[i]));
            }
        }
        lemma_leaf_find(items, probe, items.len() as int);
        assert forall|i: int| 0 <= i < slot implies !pair_with(#[trigger] after[i], probe) by {
            assert(after[i] == items[i]);
        }
        assert(after[slot] == fresh);
        lemma_leaf_find(after, probe, slot);
        assert(Seq::<Value>::empty().push(value) =~= seq![value]);
    } else {
        let moved = if found < slot {
            found
        } else {
            found + 1
        };
        assert forall|i: int| 0 <= i < moved && i < after.len() implies !pair_with(
            #[trigger] after[i],
            probe,
        ) by {
            if i < slot {
                assert(after[i] == items[i]);
            } else if i == slot {
                assert(after[i] == fresh);
            } else {
                assert(after[i] == items[i - 1]);
            }
        }
        if found < items.len() {
            assert(after[moved] == items[found]);
        }
        lemma_leaf_find(after, probe, moved);
    }
}

/// A value that a sorted leaf takes under a key stands behind the values
/// that the leaf held under that key; the values under every other key are
/// as they were, and the leaf stays sorted.
pub proof fn lemma_leaf_put_law<Key: TreeKey, Value>(
    items: Seq<BTreeNodeItemView<Key, Value>>,
    key: Key,
    value: Value,
    unique: bool,
    probe: Key,
)
    requires
        order_laws::<Key>(),
        sorted_pairs(items),
        leaf_put(items, key, value, unique).is_some(),
    ensures
        sorted_pairs(leaf_put(items, key, value, unique).unwrap()),
        values_under(leaf_put(items, key, value, unique).unwrap(), probe) == if probe.order(&key)
            == KeyOrder::Equal {
            values_under(items, probe).push(value)
        } else {
            values_under(items, probe)
        },
{
    let slot = leaf_slot(items, key);
    lemma_leaf_slot_found(items, key);
    if slot < items.len() && pair_with(items[slot], key) {
        assert(items[slot] is Pair);
        lemma_leaf_put_update(items, key, value, probe);
    } else {
        lemma_leaf_put_insert_sorted(items, key, value);
        lemma_leaf_put_insert_found(items, key, value, probe);
    }
}

/// The values that a search finds, none where it finds nothing.
pub open spec fn held<Value>(found: Option<Seq<Value>>) -> Seq<Value> {
    match found {
        Some(values) => values,
        None => Seq::empty(),
    }
}

/// While the root of a tree is a sorted leaf that does not grow too large,
/// a value that is put under a key is found behind the values that were
/// found under that key, the values under every other key are found as
/// before, and the root stays a sorted leaf.
pub proof fn lemma_insert_then_get<Key: TreeKey, Value>(
    tree: BTreeView<Key, Value>,
    key: Key,
    value: Value,
    probe: Key,
)
    requires
        order_laws::<Key>(),
        0 <= tree.root < tree.nodes.len(),
        !tree.nodes[tree.root].internal,
        sorted_pairs(tree.nodes[tree.root].items),
        inserted(tree, key, value).1,
        tree.nodes[tree.root].items.len() + 1 < tree.max_degree,
    ensures
        inserted(tree, key, value).0.root == tree.root,
        inserted(tree, key, value).0.nodes.len() == tree.nodes.len(),
        !inserted(tree, key, value).0.nodes[tree.root].internal,
        sorted_pairs(inserted(tree, key, value).0.nodes[tree.root].items),
        held(
            lookup(
                inserted(tree, key, value).0.nodes,
                tree.root,
                probe,
                tree.nodes.len(),
            ),
        ) == if probe.order(&key) == KeyOrder::Equal {
            held(lookup(tree.nodes, tree.root, probe, tree.nodes.len())).push(value)
        } else {
            held(lookup(tree.nodes, tree.root, probe, tree.nodes.len()))
        },
{
    let leaf = tree.nodes[tree.root];
    reveal_with_fuel(descend, 2);
    reveal_with_fuel(lookup, 2);
    assert(descend(tree.nodes, tree.root, key, tree.nodes.len()) == Some(
        Descent { frames: Seq::empty(), leaf: tree.root },
    ));
    let items = leaf_put(leaf.items, key, value, tree.unique).unwrap();
    lemma_leaf_put_law(leaf.items, key, value, tree.unique, probe);
    lemma_leaf_slot_found(leaf.items, key);
    assert(items.len() <= leaf.items.len() + 1);
    let grown = BTreeView {
        nodes: tree.nodes.update(tree.root, BTreeNodeView { items, ..leaf }),
        ..tree
    };
    assert(split_plan(grown, tree.root).is_none());
    lemma_leaf_find_found(leaf.items, probe);
    lemma_leaf_find_found(items, probe);
    assert(leaf_find(leaf.items, probe) < leaf.items.len() ==> leaf.items[leaf_find(
        leaf.items,
        probe,
    )] is Pair);
    assert(leaf_find(items, probe) < items.len() ==> items[leaf_find(items, probe)] is Pair);
}

/// The halves of a sorted leaf that is cut in two are sorted, the key that
/// parts them is the first key of the right half, every key of the left
/// half stands before it, and no key of the right half does.
pub proof fn lemma_leaf_split_keeps_order<Key: TreeKey, Value>(
    items: Seq<BTreeNodeItemView<Key, Value>>,
    cut: int,
)
    requires
        order_laws::<Key>(),
        sorted_pairs(items),
        0 <= cut < items.len(),
    ensures
        sorted_pairs(items.take(cut)),
        sorted_pairs(items.skip(cut)),
        separator_place(items.skip(cut)) == Some(0int),
        key_of(items.skip(cut)[0]) == Some(pair_key(items[cut])),
        forall|i: int|
            0 <= i < cut ==> pair_key(#[trigger] items[i]).order(&pair_key(items[cut]))
                == KeyOrder::Less,
        forall|j: int|
            cut <= j < items.len() ==> pair_key(items[cut]).order(&pair_key(#[trigger] items[j]))
                != KeyOrder::Greater,
{
    let left = items.take(cut);
    let right = items.skip(cut);
    assert forall|i: int| 0 <= i < left.len() implies #[trigger] left[i] is Pair by {
        assert(left[i] == items[i]);
    }
    assert forall|i: int, j: int| 0 <= i < j < left.len() implies pair_key(
        #[trigger] left[i],
    ).order(&pair_key(#[trigger] left[j])) == KeyOrder::Less by {
        assert(pair_key(items[i]).order(&pair_key(items[j])) == KeyOrder::Less);
    }
    assert forall|i: int| 0 <= i < right.len() implies #[trigger] right[i] is Pair by {
        assert(right[i] == items[i + cut]);
    }
    assert forall|i: int, j: int| 0 <= i < j < right.len() implies pair_key(
        #[trigger] right[i],
    ).order(&pair_key(#[trigger] right[j])) == KeyOrder::Less by {
        assert(pair_key(items[i + cut]).order(&pair_key(items[j + cut])) == KeyOrder::Less);
    }
    assert(right[0] == items[cut]);
    assert(items[cut] is Pair);
    assert forall|j: int| cut <= j < items.len() implies pair_key(items[cut]).order(
        &pair_key(#[trigger] items[j]),
    ) != KeyOrder::Greater by {
        if j == cut {
            lemma_order_reflexive(pair_key(items[cut]));
        } else {
            assert(pair_key(items[cut]).order(&pair_key(items[j])) == KeyOrder::Less);
        }
    }
}

} // verus!
