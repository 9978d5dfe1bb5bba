//! What the file tree gives back for what was put into it.
//!
//! A node that was written into a page is the node that is read from it.
//! While the root of a tree is a leaf that has not grown so large that it is
//! split, a value that was put under a key is found behind the values that
//! were put under that key before, and every other key finds what it found
//! before.

use crate::btree::file::node::{lemma_node_roundtrip, node_well_formed, node_wire, FileNodeView};
use crate::btree::file::item::FileItemView;
use crate::btree::file::tree::{
    file_key_of,
    ensure_root, file_descend, file_get, file_insert, file_leaf_put, file_lookup, file_split_plan,
    fresh_page, key_type_of, node_at, page_of, put_from, root_of, root_step, save_step, saved,
    slot_bytes, slot_fits, slot_id, slot_page, usable_key, with_root, FileDescent, FileTreeView,
};
use crate::btree::shape::{
    leaf_find, leaf_slot, lemma_leaf_find, lemma_leaf_find_found, lemma_leaf_slot_found,
    pair_at_least, pair_with, separator_place, ItemShape,
};
use crate::codec::compare::{
    key_order, key_stands, lemma_key_order_chain, lemma_key_order_defined, lemma_key_order_flip,
    lemma_key_order_reflexive, same_value, KeyOrder,
};
use crate::codec::field::{Field, FieldType, FieldView};
use crate::error::Error;
use crate::record_id::{lemma_record_id_roundtrip, record_id_wire};
use crate::error::BTreeError;
use crate::file::{frame_at, frames_valid, lemma_stored, lemma_stored_valid, stored};
use crate::page::{lemma_blank_valid, lemma_put_bytes, lemma_put_valid, zeros, PageView};
use crate::record_id::RecordIdView;
use vstd::prelude::*;

verus! {

/// What stands behind the header of a page after bytes were written there.
pub proof fn lemma_slot_page(page: PageView, bytes: Seq<u8>)
    requires
        page.valid(),
        bytes.len() <= 4094,
    ensures
        slot_page(page, bytes).valid(),
        !slot_page(page, bytes).dirty,
        slot_page(page, bytes).occupied == 4096,
        slot_page(page, bytes).bytes.subrange(2, 4096) == bytes + zeros(4094 - bytes.len()),
{
    let whole = bytes + zeros(4094 - bytes.len());
    lemma_put_valid(page, whole, 2);
    lemma_put_bytes(page, whole, 2);
    assert(slot_page(page, bytes).bytes.subrange(2, 4096) =~= whole);
}

/// The pages after a node was written into a page: the page holds the
/// encoding of the node and zeros behind it, and the other pages are as
/// they were.
pub proof fn lemma_saved_frames(frames: Seq<PageView>, limit: int, node: FileNodeView, page: int)
    requires
        frames_valid(frames),
        saved(frames, limit, node, page).is_ok(),
    ensures
        frames_valid(saved(frames, limit, node, page).unwrap()),
        slot_bytes(saved(frames, limit, node, page).unwrap(), page) == node_wire(node) + zeros(
            4094 - node_wire(node).len(),
        ),
        forall|other: int|
            other != page ==> #[trigger] frame_at(
                saved(frames, limit, node, page).unwrap(),
                other,
            ) == frame_at(frames, other),
{
    let bytes = node_wire(node);
    let now = frame_at(frames, page);
    lemma_blank_valid();
    assert(now.valid());
    lemma_slot_page(now, bytes);
    lemma_stored(frames, page, slot_page(now, bytes));
    lemma_stored_valid(frames, page, slot_page(now, bytes));
}

/// The record behind the header of page `page` lies in that page.
pub proof fn lemma_slot_id(page: int)
    requires
        slot_fits(page),
    ensures
        slot_id(page).path.len() == 0,
        slot_id(page).offset as int / 4096 == page,
        slot_id(page).offset % 4096 == 2,
{
    assert(slot_id(page).offset == page * 4096 + 2);
    vstd::arithmetic::div_mod::lemma_fundamental_div_mod_converse(page * 4096 + 2, 4096, page, 2);
}

/// A page that holds the encoding of a well-formed node behind its header
/// is read as that node.
pub proof fn lemma_node_in_slot(frames: Seq<PageView>, node: FileNodeView, page: int)
    requires
        node_well_formed(node),
        slot_fits(page),
        node.record_id == Some(slot_id(page)),
        node_wire(node).len() <= 4094,
        slot_bytes(frames, page) == node_wire(node) + zeros(4094 - node_wire(node).len()),
    ensures
        node_at(frames, slot_id(page)) == Ok::<FileNodeView, BTreeError>(node),
{
    reveal(node_at);
    lemma_slot_id(page);
    lemma_node_roundtrip(node, zeros(4094 - node_wire(node).len()));
    crate::btree::file::node::lemma_node_wire_len(node);
}

/// A well-formed node that was written into a page is read from that page
/// as it was written, and what the other pages hold is as it was.
pub proof fn lemma_saved_node_is_read(
    frames: Seq<PageView>,
    limit: int,
    node: FileNodeView,
    page: int,
)
    requires
        frames_valid(frames),
        node_well_formed(node),
        slot_fits(page),
        node.record_id == Some(slot_id(page)),
        saved(frames, limit, node, page).is_ok(),
    ensures
        frames_valid(saved(frames, limit, node, page).unwrap()),
        node_at(saved(frames, limit, node, page).unwrap(), slot_id(page)) == Ok::<
            FileNodeView,
            BTreeError,
        >(node),
        forall|other: int|
            other != page ==> #[trigger] frame_at(
                saved(frames, limit, node, page).unwrap(),
                other,
            ) == frame_at(frames, other),
{
    lemma_saved_frames(frames, limit, node, page);
    lemma_node_in_slot(saved(frames, limit, node, page).unwrap(), node, page);
}

/// The reference to the root that was written into the metadata is the
/// reference that is read from it, and the type of the keys is as it was.
pub proof fn lemma_root_is_read(meta: Seq<PageView>, limit: int, id: RecordIdView)
    requires
        frames_valid(meta),
        with_root(meta, limit, id).is_ok(),
    ensures
        frames_valid(with_root(meta, limit, id).unwrap()),
        root_of(with_root(meta, limit, id).unwrap()) == Ok::<Option<RecordIdView>, Error>(
            Some(id),
        ),
        key_type_of(with_root(meta, limit, id).unwrap()) == key_type_of(meta),
{
    let bytes = record_id_wire(id);
    let now = frame_at(meta, 0);
    let after = with_root(meta, limit, id).unwrap();
    lemma_blank_valid();
    assert(now.valid());
    lemma_slot_page(now, bytes);
    lemma_stored(meta, 0, slot_page(now, bytes));
    lemma_stored_valid(meta, 0, slot_page(now, bytes));
    lemma_record_id_roundtrip(id, zeros(4094 - bytes.len()));
    assert(frame_at(after, 1) == frame_at(meta, 1));
}

/// A leaf without items that knows that it is stored in page `page`.
pub open spec fn empty_leaf(page: int) -> FileNodeView {
    FileNodeView {
        items: Seq::empty(),
        internal: false,
        record_id: Some(slot_id(page)),
        parent: None,
    }
}

/// A leaf that holds `values` under `key` and nothing else, and knows that
/// it is stored in page `page`.
pub open spec fn single_leaf(page: int, key: FieldView, values: Seq<FieldView>) -> FileNodeView {
    FileNodeView {
        items: seq![FileItemView::Pair(key, values)],
        internal: false,
        record_id: Some(slot_id(page)),
        parent: None,
    }
}

/// A tree without a root gets an empty leaf in the first page of its empty
/// data file as its root.
pub proof fn lemma_ensure_root_fresh(tree: FileTreeView)
    requires
        frames_valid(tree.meta),
        tree.data == Seq::<PageView>::empty(),
        root_of(tree.meta) == Ok::<Option<RecordIdView>, Error>(None),
        ensure_root(tree).1.is_ok(),
    ensures
        ensure_root(tree).1 == Ok::<RecordIdView, Error>(slot_id(0)),
        ensure_root(tree).0.max_degree == tree.max_degree,
        ensure_root(tree).0.unique == tree.unique,
        ensure_root(tree).0.data_limit == tree.data_limit,
        frames_valid(ensure_root(tree).0.data),
        frames_valid(ensure_root(tree).0.meta),
        node_at(ensure_root(tree).0.data, slot_id(0)) == Ok::<FileNodeView, BTreeError>(
            empty_leaf(0),
        ),
        root_of(ensure_root(tree).0.meta) == Ok::<Option<RecordIdView>, Error>(Some(slot_id(0))),
        key_type_of(ensure_root(tree).0.meta) == key_type_of(tree.meta),
{
    reveal_with_fuel(crate::file::append_point, 2);
    assert(fresh_page(tree.data) == 0);
    let node = empty_leaf(0);
    assert(crate::btree::file::node::items_wire(node.items) =~= Seq::<u8>::empty());
    assert(node_well_formed(node));
    let first = save_step(tree, node, 0);
    assert(first.1.is_ok());
    lemma_saved_node_is_read(tree.data, tree.data_limit, node, 0);
    let second = root_step(first.0, slot_id(0));
    assert(second.1.is_ok());
    lemma_root_is_read(tree.meta, tree.meta_limit, slot_id(0));
}

/// A value that is put into a leaf that is the root, and that does not grow
/// too large by it, is written with the leaf, and nothing else changes.
pub proof fn lemma_put_in_root_leaf(
    tree: FileTreeView,
    page: int,
    leaf: FileNodeView,
    after: FileNodeView,
    key: Field,
    value: FieldView,
)
    requires
        frames_valid(tree.data),
        slot_fits(page),
        node_at(tree.data, slot_id(page)) == Ok::<FileNodeView, BTreeError>(leaf),
        !leaf.internal,
        leaf.record_id == Some(slot_id(page)),
        file_leaf_put(leaf.items, key, value, tree.unique) == Some(after.items),
        after == (FileNodeView { items: after.items, ..leaf }),
        node_well_formed(after),
        file_split_plan(after, tree.max_degree).is_none(),
        put_from(tree, slot_id(page), key, value).1.is_ok(),
    ensures
        put_from(tree, slot_id(page), key, value).1 == Ok::<bool, Error>(true),
        put_from(tree, slot_id(page), key, value).0 == (FileTreeView {
            data: saved(tree.data, tree.data_limit, after, page).unwrap(),
            ..tree
        }),
        frames_valid(put_from(tree, slot_id(page), key, value).0.data),
        node_at(put_from(tree, slot_id(page), key, value).0.data, slot_id(page)) == Ok::<
            FileNodeView,
            BTreeError,
        >(after),
{
    reveal_with_fuel(file_descend, 2);
    lemma_slot_id(page);
    assert(file_descend(tree.data, slot_id(page), key, 64) == Ok::<FileDescent, BTreeError>(
        FileDescent { frames: Seq::empty(), leaf },
    ));
    assert(page_of(slot_id(page)) == page);
    let step = save_step(tree, after, page);
    assert(step.1.is_ok());
    lemma_saved_node_is_read(tree.data, tree.data_limit, after, page);
}

/// The values under a key that can be ordered are found in a leaf that is
/// the root and holds nothing but them.
pub proof fn lemma_get_in_root_leaf(
    tree: FileTreeView,
    page: int,
    key: Field,
    values: Seq<FieldView>,
)
    requires
        key_type_of(tree.meta).is_ok(),
        usable_key(key@, key_type_of(tree.meta).unwrap()),
        root_of(tree.meta) == Ok::<Option<RecordIdView>, Error>(Some(slot_id(page))),
        node_at(tree.data, slot_id(page)) == Ok::<FileNodeView, BTreeError>(
            single_leaf(page, key@, values),
        ),
    ensures
        file_get(tree, key) == Ok::<Option<Seq<FieldView>>, Error>(Some(values)),
{
    reveal_with_fuel(file_lookup, 2);
    reveal_with_fuel(leaf_find, 2);
    lemma_key_order_reflexive(key@);
    let leaf = single_leaf(page, key@, values);
    assert(leaf.items[0].order_to(&key) == Some(KeyOrder::Equal));
    assert(pair_with(leaf.items[0], key));
    assert(leaf_find(leaf.items, key) == 0);
}

/// A value that is put into a tree that has no root yet and an empty data
/// file is put, and it is what is found under its key. Put again, it is
/// refused where the tree takes each value once, and the tree stays as it
/// is. This holds of keys of the type of the tree that can be ordered, of
/// values that are equal to themselves, of trees that split at two items or
/// more, and where no write fails.
pub proof fn lemma_first_insert_file(tree: FileTreeView, key: Field, value: FieldView)
    requires
        frames_valid(tree.meta),
        tree.data == Seq::<PageView>::empty(),
        root_of(tree.meta) == Ok::<Option<RecordIdView>, Error>(None),
        key_type_of(tree.meta).is_ok(),
        usable_key(key@, key_type_of(tree.meta).unwrap()),
        tree.max_degree >= 2,
        node_well_formed(single_leaf(0, key@, seq![value])),
        file_insert(tree, key, value).1.is_ok(),
    ensures
        file_insert(tree, key, value).1 == Ok::<bool, Error>(true),
        file_get(file_insert(tree, key, value).0, key) == Ok::<Option<Seq<FieldView>>, Error>(
            Some(seq![value]),
        ),
        tree.unique && same_value(value, value) ==> file_insert(
            file_insert(tree, key, value).0,
            key,
            value,
        ) == (file_insert(tree, key, value).0, Ok::<bool, Error>(false)),
{
    let rooted = ensure_root(tree);
    lemma_ensure_root_fresh(tree);
    let leaf = empty_leaf(0);
    let after = single_leaf(0, key@, seq![value]);
    reveal_with_fuel(leaf_slot, 2);
    assert(Seq::<FileItemView>::empty().insert(0, FileItemView::Pair(key@, seq![value]))
        =~= after.items);
    assert(file_leaf_put(leaf.items, key, value, rooted.0.unique) == Some(after.items));
    assert(file_split_plan(after, rooted.0.max_degree).is_none());
    lemma_put_in_root_leaf(rooted.0, 0, leaf, after, key, value);
    let done = file_insert(tree, key, value).0;
    assert(done == put_from(rooted.0, slot_id(0), key, value).0);
    lemma_get_in_root_leaf(done, 0, key, seq![value]);
    if tree.unique && same_value(value, value) {
        reveal_with_fuel(file_descend, 2);
        lemma_key_order_reflexive(key@);
        assert(after.items[0].order_to(&key) == Some(KeyOrder::Equal));
        assert(pair_at_least(after.items[0], key));
        assert(leaf_slot(after.items, key) == 0);
        assert(file_leaf_put(after.items, key, value, true).is_none());
        assert(ensure_root(done) == (done, Ok::<RecordIdView, Error>(slot_id(0))));
        assert(file_descend(done.data, slot_id(0), key, 64) == Ok::<FileDescent, BTreeError>(
            FileDescent { frames: Seq::empty(), leaf: after },
        ));
    }
}

/// The key of a pair.
pub open spec fn file_pair_key(item: FileItemView) -> FieldView {
    item->Pair_0
}

/// The items are pairs whose keys are keys of a tree that is keyed by
/// `kind`, and they stand in the strict order of their keys.
pub open spec fn sorted_file_pairs(items: Seq<FileItemView>, kind: FieldType) -> bool {
    &&& forall|i: int|
        0 <= i < items.len() ==> #[trigger] items[i] is Pair && usable_key(
            file_pair_key(items[i]),
            kind,
        )
    &&& forall|i: int, j: int|
        0 <= i < j < items.len() ==> key_order(
            file_pair_key(#[trigger] items[i]),
            file_pair_key(#[trigger] items[j]),
        ) == Some(KeyOrder::Less)
}

/// The values that a leaf holds under `key`: those of the first pair with
/// that key, none where there is no such pair.
pub open spec fn file_values_under(items: Seq<FileItemView>, key: Field) -> Seq<FieldView> {
    let at = leaf_find(items, key);
    if at < items.len() {
        match items[at] {
            FileItemView::Pair(_, values) => values,
            _ => Seq::empty(),
        }
    } else {
        Seq::empty()
    }
}

/// The keys of the pairs before the place of a key stand before the key,
/// and the key of the pair at that place does not.
pub proof fn lemma_file_before_slot(items: Seq<FileItemView>, kind: FieldType, key: Field)
    requires
        sorted_file_pairs(items, kind),
        usable_key(key@, kind),
    ensures
        0 <= leaf_slot(items, key) <= items.len(),
        forall|i: int|
            0 <= i < items.len() ==> key_order(file_pair_key(#[trigger] items[i]), key@).is_some(),
        forall|i: int|
            0 <= i < leaf_slot(items, key) ==> key_stands(
                file_pair_key(#[trigger] items[i]),
                key@,
            ) == KeyOrder::Less,
        leaf_slot(items, key) < items.len() ==> key_stands(
            file_pair_key(items[leaf_slot(items, key)]),
            key@,
        ) != KeyOrder::Less,
{
    lemma_leaf_slot_found(items, key);
    let slot = leaf_slot(items, key);
    assert forall|i: int| 0 <= i < items.len() implies key_order(
        file_pair_key(#[trigger] items[i]),
        key@,
    ).is_some() by {
        assert(items[i] is Pair);
        lemma_key_order_defined(file_pair_key(items[i]), key@);
    }
    assert forall|i: int| 0 <= i < slot implies key_stands(
        file_pair_key(#[trigger] items[i]),
        key@,
    ) == KeyOrder::Less by {
        assert(!pair_at_least(items[i], key));
        assert(items[i] is Pair);
        assert(key_order(file_pair_key(items[i]), key@).is_some());
    }
    if slot < items.len() {
        assert(items[slot] is Pair);
    }
}

/// A value that is put behind the values of the pair with its key is found
/// behind them, and the values under every other key are as they were.
pub proof fn lemma_file_leaf_put_update(
    items: Seq<FileItemView>,
    kind: FieldType,
    key: Field,
    value: FieldView,
    probe: Field,
)
    requires
        sorted_file_pairs(items, kind),
        usable_key(key@, kind),
        usable_key(probe@, kind),
        leaf_slot(items, key) < items.len(),
        pair_with(items[leaf_slot(items, key)], key),
    ensures
        ({
            let slot = leaf_slot(items, key);
            let after = items.update(
                slot,
                FileItemView::Pair(file_pair_key(items[slot]), items[slot]->Pair_1.push(value)),
            );
            &&& sorted_file_pairs(after, kind)
            &&& file_values_under(after, probe) == if key_order(probe@, key@) == Some(
                KeyOrder::Equal,
            ) {
                file_values_under(items, probe).push(value)
            } else {
                file_values_under(items, probe)
            }
        }),
{
    let slot = leaf_slot(items, key);
    let own = file_pair_key(items[slot]);
    let after = items.update(slot, FileItemView::Pair(own, items[slot]->Pair_1.push(value)));
    let found = leaf_find(items, probe);
    lemma_file_before_slot(items, kind, key);
    lemma_file_before_slot(items, kind, probe);
    lemma_leaf_find_found(items, probe);
    lemma_key_order_defined(probe@, key@);
    assert(items[slot] is Pair);
    assert(key_stands(own, key@) == KeyOrder::Equal);
    assert forall|i: int| 0 <= i < after.len() implies file_pair_key(#[trigger] after[i])
        == file_pair_key(items[i]) && after[i] is Pair by {
        assert(items[i] is Pair);
    }
    assert(sorted_file_pairs(after, kind)) by {
        assert forall|i: int, j: int| 0 <= i < j < after.len() implies key_order(
            file_pair_key(#[trigger] after[i]),
            file_pair_key(#[trigger] after[j]),
        ) == Some(KeyOrder::Less) by {
            assert(key_order(file_pair_key(items[i]), file_pair_key(items[j])) == Some(
                KeyOrder::Less,
            ));
        }
        assert forall|i: int| 0 <= i < after.len() implies #[trigger] after[i] is Pair
            && usable_key(file_pair_key(after[i]), kind) by {
            assert(items[i] is Pair);
        }
    }
    assert forall|i: int| 0 <= i < after.len() implies pair_with(#[trigger] after[i], probe)
        == pair_with(items[i], probe) by {
        assert(items[i] is Pair);
    }
    lemma_leaf_find(after, probe, found);
    if found == slot {
        assert(key_stands(own, probe@) == KeyOrder::Equal);
        lemma_key_order_flip(own, probe@);
        lemma_key_order_chain(probe@, own, key@);
    } else if key_order(probe@, key@) == Some(KeyOrder::Equal) {
        lemma_key_order_flip(probe@, key@);
        lemma_key_order_chain(own, key@, probe@);
        assert(pair_with(items[slot], probe));
        assert(found < slot);
        let early = file_pair_key(items[found]);
        assert(items[found] is Pair);
        assert(key_stands(early, probe@) == KeyOrder::Equal);
        lemma_key_order_chain(early, probe@, key@);
        assert(false);
    }
}

/// A pair that is put at the place of its key into a sorted leaf leaves
/// the leaf sorted.
pub proof fn lemma_file_leaf_put_insert_sorted(
    items: Seq<FileItemView>,
    kind: FieldType,
    key: Field,
    value: FieldView,
)
    requires
        sorted_file_pairs(items, kind),
        usable_key(key@, kind),
        !(leaf_slot(items, key) < items.len() && pair_with(items[leaf_slot(items, key)], key)),
    ensures
        sorted_file_pairs(
            items.insert(leaf_slot(items, key), FileItemView::Pair(key@, seq![value])),
            kind,
        ),
        forall|j: int|
            leaf_slot(items, key) <= j < items.len() ==> key_order(
                key@,
                file_pair_key(#[trigger] items[j]),
            ) == Some(KeyOrder::Less),
{
    let slot = leaf_slot(items, key);
    let fresh = FileItemView::Pair(key@, seq![value]);
    let after = items.insert(slot, fresh);
    lemma_file_before_slot(items, kind, key);
    lemma_leaf_slot_found(items, key);
    assert forall|j: int| slot <= j < items.len() implies key_order(
        key@,
        file_pair_key(#[trigger] items[j]),
    ) == Some(KeyOrder::Less) by {
        let at = file_pair_key(items[slot]);
        assert(items[slot] is Pair);
        assert(pair_at_least(items[slot], key));
        assert(key_stands(at, key@) == KeyOrder::Greater);
        lemma_key_order_flip(at, key@);
        if j > slot {
            assert(key_order(at, file_pair_key(items[j])) == Some(KeyOrder::Less));
            lemma_key_order_chain(key@, at, file_pair_key(items[j]));
        }
    }
    assert forall|i: int| 0 <= i < after.len() implies #[trigger] after[i] is Pair && usable_key(
        file_pair_key(after[i]),
        kind,
    ) by {
        if i < slot {
            assert(after[i] == items[i]);
        } else if i > slot {
            assert(after[i] == items[i - 1]);
        }
    }
    assert forall|i: int, j: int| 0 <= i < j < after.len() implies key_order(
        file_pair_key(#[trigger] after[i]),
        file_pair_key(#[trigger] after[j]),
    ) == Some(KeyOrder::Less) by {
        if j < slot {
            assert(key_order(file_pair_key(items[i]), file_pair_key(items[j])) == Some(
                KeyOrder::Less,
            ));
        } else if j == slot {
            assert(key_stands(file_pair_key(items[i]), key@) == KeyOrder::Less);
            assert(key_order(file_pair_key(items[i]), key@).is_some());
        } else if i < slot {
            assert(key_order(file_pair_key(items[i]), file_pair_key(items[j - 1])) == Some(
                KeyOrder::Less,
            ));
        } else if i == slot {
            assert(key_order(key@, file_pair_key(items[j - 1])) == Some(KeyOrder::Less));
        } else {
            assert(key_order(file_pair_key(items[i - 1]), file_pair_key(items[j - 1])) == Some(
                KeyOrder::Less,
            ));
        }
    }
}

/// A pair that is put at the place of its key into a sorted leaf that has
/// no pair with that key is what is found under the key, and the values
/// under every other key are as they were.
pub proof fn lemma_file_leaf_put_insert_found(
    items: Seq<FileItemView>,
    kind: FieldType,
    key: Field,
    value: FieldView,
    probe: Field,
)
    requires
        sorted_file_pairs(items, kind),
        usable_key(key@, kind),
        usable_key(probe@, kind),
        !(leaf_slot(items, key) < items.len() && pair_with(items[leaf_slot(items, key)], key)),
    ensures
        file_values_under(
            items.insert(leaf_slot(items, key), FileItemView::Pair(key@, seq![value])),
            probe,
        ) == if key_order(probe@, key@) == Some(KeyOrder::Equal) {
            file_values_under(items, probe).push(value)
        } else {
            file_values_under(items, probe)
        },
{
    let slot = leaf_slot(items, key);
    let fresh = FileItemView::Pair(key@, seq![value]);
    let after = items.insert(slot, fresh);
    let found = leaf_find(items, probe);
    lemma_file_before_slot(items, kind, key);
    lemma_file_before_slot(items, kind, probe);
    lemma_file_leaf_put_insert_sorted(items, kind, key, value);
    lemma_leaf_find_found(items, probe);
    lemma_key_order_defined(probe@, key@);
    lemma_key_order_flip(probe@, key@);
    if key_order(probe@, key@) == Some(KeyOrder::Equal) {
        assert forall|i: int| 0 <= i < items.len() implies !pair_with(
            #[trigger] items[i],
            probe,
        ) by {
            assert(items[i] is Pair);
            let own = file_pair_key(items[i]);
            if i < slot {
                assert(key_stands(own, key@) == KeyOrder::Less);
                lemma_key_order_chain(own, key@, probe@);
            } else {
                assert(key_order(key@, own) == Some(KeyOrder::Less));
                lemma_key_order_chain(probe@, key@, own);
                lemma_key_order_flip(probe@, own);
            }
        }
        lemma_leaf_find(items, probe, items.len() as int);
        assert forall|i: int| 0 <= i < slot implies !pair_with(#[trigger] after[i], probe) by {
            assert(after[i] == items[i]);
        }
        assert(after[slot] == fresh);
        lemma_leaf_find(after, probe, slot);
        assert(Seq::<FieldView>::empty().push(value) =~= seq![value]);
    } else {
        let moved = if found < slot {
            found
        } else {
            found + 1
        };
        assert forall|i: int| 0 <= i < moved && i < after.len() implies !pair_with(
            #[trigger] after[i],
            probe,
        ) by {
            if i < slot {
                assert(after[i] == items[i]);
            } else if i == slot {
                assert(after[i] == fresh);
            } else {
                assert(after[i] == items[i - 1]);
            }
        }
        if found < items.len() {
            assert(after[moved] == items[found]);
        }
        lemma_leaf_find(after, probe, moved);
    }
}

/// A value that a sorted leaf takes under a key stands behind the values
/// that the leaf held under that key; the values under every other key are
/// as they were, and the leaf stays sorted.
pub proof fn lemma_file_leaf_put_law(
    items: Seq<FileItemView>,
    kind: FieldType,
    key: Field,
    value: FieldView,
    unique: bool,
    probe: Field,
)
    requires
        sorted_file_pairs(items, kind),
        usable_key(key@, kind),
        usable_key(probe@, kind),
        file_leaf_put(items, key, value, unique).is_some(),
    ensures
        sorted_file_pairs(file_leaf_put(items, key, value, unique).unwrap(), kind),
        file_values_under(file_leaf_put(items, key, value, unique).unwrap(), probe)
            == if key_order(probe@, key@) == Some(KeyOrder::Equal) {
            file_values_under(items, probe).push(value)
        } else {
            file_values_under(items, probe)
        },
        file_leaf_put(items, key, value, unique).unwrap().len() <= items.len() + 1,
{
    let slot = leaf_slot(items, key);
    lemma_leaf_slot_found(items, key);
    if slot < items.len() && pair_with(items[slot], key) {
        assert(items[slot] is Pair);
        lemma_file_leaf_put_update(items, kind, key, value, probe);
    } else {
        lemma_file_leaf_put_insert_sorted(items, kind, key, value);
        lemma_file_leaf_put_insert_found(items, kind, key, value, probe);
    }
}

/// The values that a search finds, none where it finds nothing.
pub open spec fn file_held(found: Result<Option<Seq<FieldView>>, Error>) -> Seq<FieldView> {
    match found {
        Ok(Some(values)) => values,
        _ => Seq::empty(),
    }
}

/// A search in a tree whose root is a leaf of pairs finds the values that
/// the leaf holds under the key.
pub proof fn lemma_get_from_root_leaf(tree: FileTreeView, page: int, leaf: FileNodeView, key: Field)
    requires
        key_type_of(tree.meta).is_ok(),
        usable_key(key@, key_type_of(tree.meta).unwrap()),
        root_of(tree.meta) == Ok::<Option<RecordIdView>, Error>(Some(slot_id(page))),
        node_at(tree.data, slot_id(page)) == Ok::<FileNodeView, BTreeError>(leaf),
        !leaf.internal,
        forall|i: int| 0 <= i < leaf.items.len() ==> #[trigger] leaf.items[i] is Pair,
    ensures
        file_get(tree, key).is_ok(),
        file_held(file_get(tree, key)) == file_values_under(leaf.items, key),
{
    reveal_with_fuel(file_lookup, 2);
    lemma_leaf_find_found(leaf.items, key);
    let found = leaf_find(leaf.items, key);
    if found < leaf.items.len() {
        assert(leaf.items[found] is Pair);
    }
}

/// While the root of a tree is a sorted leaf that does not grow too large,
/// a value that is put under a key is found behind the values that were
/// found under that key, and the values under every other key are found as
/// before. This holds where the leaf with the value is well formed, so that
/// it is read as it was written.
pub proof fn lemma_file_insert_then_get(
    tree: FileTreeView,
    page: int,
    leaf: FileNodeView,
    key: Field,
    value: FieldView,
    probe: Field,
)
    requires
        frames_valid(tree.data),
        key_type_of(tree.meta).is_ok(),
        usable_key(key@, key_type_of(tree.meta).unwrap()),
        usable_key(probe@, key_type_of(tree.meta).unwrap()),
        root_of(tree.meta) == Ok::<Option<RecordIdView>, Error>(Some(slot_id(page))),
        slot_fits(page),
        node_at(tree.data, slot_id(page)) == Ok::<FileNodeView, BTreeError>(leaf),
        !leaf.internal,
        leaf.record_id == Some(slot_id(page)),
        sorted_file_pairs(leaf.items, key_type_of(tree.meta).unwrap()),
        leaf.items.len() + 1 < tree.max_degree,
        file_insert(tree, key, value).1 == Ok::<bool, Error>(true),
        node_well_formed(
            FileNodeView {
                items: file_leaf_put(leaf.items, key, value, tree.unique).unwrap(),
                ..leaf
            },
        ),
    ensures
        file_get(file_insert(tree, key, value).0, probe).is_ok(),
        file_held(file_get(file_insert(tree, key, value).0, probe)) == if key_order(
            probe@,
            key@,
        ) == Some(KeyOrder::Equal) {
            file_held(file_get(tree, probe)).push(value)
        } else {
            file_held(file_get(tree, probe))
        },
        node_at(file_insert(tree, key, value).0.data, slot_id(page)).is_ok(),
        sorted_file_pairs(
            node_at(file_insert(tree, key, value).0.data, slot_id(page)).unwrap().items,
            key_type_of(tree.meta).unwrap(),
        ),
{
    let kind = key_type_of(tree.meta).unwrap();
    reveal_with_fuel(file_descend, 2);
    assert(ensure_root(tree) == (tree, Ok::<RecordIdView, Error>(slot_id(page))));
    assert(file_descend(tree.data, slot_id(page), key, 64) == Ok::<FileDescent, BTreeError>(
        FileDescent { frames: Seq::empty(), leaf },
    ));
    assert(file_leaf_put(leaf.items, key, value, tree.unique).is_some());
    let items = file_leaf_put(leaf.items, key, value, tree.unique).unwrap();
    let after = FileNodeView { items, ..leaf };
    lemma_file_leaf_put_law(leaf.items, kind, key, value, tree.unique, probe);
    assert(file_split_plan(after, tree.max_degree).is_none());
    lemma_put_in_root_leaf(tree, page, leaf, after, key, value);
    let done = file_insert(tree, key, value).0;
    assert(done == put_from(tree, slot_id(page), key, value).0);
    lemma_get_from_root_leaf(tree, page, leaf, probe);
    lemma_get_from_root_leaf(done, page, after, probe);
}

/// The halves of a sorted leaf that is cut in two are sorted, the key that
/// parts them is the first key of the right half, every key of the left
/// half stands before it, and no key of the right half does.
pub proof fn lemma_file_leaf_split_keeps_order(items: Seq<FileItemView>, kind: FieldType, cut: int)
    requires
        sorted_file_pairs(items, kind),
        0 <= cut < items.len(),
    ensures
        sorted_file_pairs(items.take(cut), kind),
        sorted_file_pairs(items.skip(cut), kind),
        separator_place(items.skip(cut)) == Some(0int),
        file_key_of(items.skip(cut)[0]) == Some(file_pair_key(items[cut])),
        forall|i: int|
            0 <= i < cut ==> key_order(file_pair_key(#[trigger] items[i]), file_pair_key(items[cut]))
                == Some(KeyOrder::Less),
        forall|j: int|
            cut <= j < items.len() ==> key_order(
                file_pair_key(items[cut]),
                file_pair_key(#[trigger] items[j]),
            ).is_some() && key_order(file_pair_key(items[cut]), file_pair_key(items[j])) != Some(
                KeyOrder::Greater,
            ),
{
    let left = items.take(cut);
    let right = items.skip(cut);
    assert forall|i: int| 0 <= i < left.len() implies #[trigger] left[i] is Pair && usable_key(
        file_pair_key(left[i]),
        kind,
    ) by {
        assert(left[i] == items[i]);
    }
    assert forall|i: int, j: int| 0 <= i < j < left.len() implies key_order(
        file_pair_key(#[trigger] left[i]),
        file_pair_key(#[trigger] left[j]),
    ) == Some(KeyOrder::Less) by {
        assert(key_order(file_pair_key(items[i]), file_pair_key(items[j])) == Some(
            KeyOrder::Less,
        ));
    }
    assert forall|i: int| 0 <= i < right.len() implies #[trigger] right[i] is Pair && usable_key(
        file_pair_key(right[i]),
        kind,
    ) by {
        assert(right[i] == items[i + cut]);
    }
    assert forall|i: int, j: int| 0 <= i < j < right.len() implies key_order(
        file_pair_key(#[trigger] right[i]),
        file_pair_key(#[trigger] right[j]),
    ) == Some(KeyOrder::Less) by {
        assert(key_order(file_pair_key(items[i + cut]), file_pair_key(items[j + cut])) == Some(
            KeyOrder::Less,
        ));
    }
    assert(right[0] == items[cut]);
    assert(items[cut] is Pair);
    assert forall|j: int| cut <= j < items.len() implies key_order(
        file_pair_key(items[cut]),
        file_pair_key(#[trigger] items[j]),
    ).is_some() && key_order(file_pair_key(items[cut]), file_pair_key(items[j])) != Some(
        KeyOrder::Greater,
    ) by {
        if j == cut {
            lemma_key_order_reflexive(file_pair_key(items[cut]));
        } else {
            assert(key_order(file_pair_key(items[cut]), file_pair_key(items[j])) == Some(
                KeyOrder::Less,
            ));
        }
    }
}

} // verus!
