use comet::btree::file::item::FileBTreeNodeItem;
use comet::btree::file::node::FileBTreeNode;
use comet::btree::node::{BTreeNode, BTreeNodeItem};
use comet::btree::tree::BTree;
use comet::codec::deserialize::Deserialize;
use comet::codec::error::CodecError;
use comet::codec::field::Field;
use comet::codec::serialize::Serialize;
use comet::config::IoConfig;
use comet::document_ptr::DocumentPtr;
use comet::file::PageFile;
use comet::page::Page;
use comet::record_id::RecordId;
use comet::store::{file_kind, has_suffix, Comet, FileKind};
use comet::write_behind::WriteBehind;

#[test]
fn configuration_is_built_from_a_directory() {
    let builder = IoConfig::builder();
    assert!(!builder.is_complete());
    let config = builder.data_dir("/tmp/data".to_string()).build();
    assert_eq!(config.data_dir(), "/tmp/data");
}

#[test]
fn document_pointer_holds_what_it_was_given() {
    let block = [1u8, 2, 3];
    let pointer = DocumentPtr::new(3, 17, vec![&block[..]], 3);
    assert_eq!(pointer.page(), 3);
    assert_eq!(pointer.offset(), 17);
    assert_eq!(pointer.size(), 3);
    assert_eq!(pointer.buffer()[0], &[1, 2, 3]);
}

#[test]
fn databases_and_collections_are_found_by_name() {
    let mut store = Comet::new();
    assert_eq!(store.create_database("a".to_string()), 0);
    assert_eq!(store.create_database("b".to_string()), 1);
    assert_eq!(store.position("b"), Some(1));
    assert_eq!(store.position("c"), None);
    assert!(store.database("c").is_none());
    assert_eq!(store.database("a").unwrap().name(), "a");
    let at = store.databases_mut()[1].create_collection("users".to_string(), PageFile::new(4));
    assert_eq!(at, 0);
    let database = store.database("b").unwrap();
    assert_eq!(database.position("users"), Some(0));
    assert_eq!(database.collection("users").unwrap().name(), "users");
    assert!(database.collection("none").is_none());
    assert_eq!(database.collections().len(), 1);
    assert_eq!(store.databases().len(), 2);
}

#[test]
fn write_behind_hands_out_changed_pages_when_full() {
    let mut buffer = WriteBehind::new(2);
    let mut changed = Page::new();
    changed.write(&[1]);
    assert!(buffer.stage(5, changed).is_empty());
    assert!(buffer.stage(6, Page::new()).is_empty());
    assert_eq!(buffer.len(), 2);
    assert_eq!(buffer.find(5).unwrap().occupied(), 3);
    assert!(buffer.find(7).is_none());

    let mut again = Page::new();
    again.write(&[1, 2]);
    let batch = buffer.stage(5, again);
    assert_eq!(batch.len(), 1);
    assert_eq!(batch[0].0, 5);
    assert_eq!(batch[0].1.occupied(), 3);
    assert!(!batch[0].1.is_dirty());
    assert_eq!(buffer.len(), 1);
    assert_eq!(buffer.find(5).unwrap().occupied(), 4);

    let mut newer = Page::new();
    newer.write(&[1, 2, 3]);
    assert!(buffer.stage(5, newer).is_empty());
    assert_eq!(buffer.len(), 1);
    let rest = buffer.drain();
    assert_eq!(rest.len(), 1);
    assert_eq!(rest[0].1.occupied(), 5);
    assert_eq!(buffer.len(), 0);
    assert_eq!(WriteBehind::new(0).len(), 0);
}

#[test]
fn nodes_count_the_items_that_are_no_pointers() {
    let mut node: BTreeNode<u32, u32> = BTreeNode::empty(true, Some(3));
    node.append(BTreeNodeItem::Pointer(1));
    node.append(BTreeNodeItem::Key(10));
    node.append(BTreeNodeItem::Pointer(2));
    assert_eq!(node.non_ptr_len(), 1);
    assert_eq!(node.parent(), Some(3));
    assert!(node.is_internal());
    node.insert(BTreeNodeItem::Key(5), 1);
    assert_eq!(node.non_ptr_len(), 2);
    assert!(node.get(1).unwrap().is_key());
    assert_eq!(*node.get(1).unwrap().as_key(), 5);
    let previous = node.replace(BTreeNodeItem::Pointer(9), 1).unwrap();
    assert!(previous.is_key());
    assert_eq!(node.non_ptr_len(), 1);
    assert!(node.replace(BTreeNodeItem::Pointer(9), 40).is_none());
    assert_eq!(node.last().unwrap().as_pointer(), 2);
    assert!(node.pop().unwrap().is_pointer());
    assert!(node.pop().unwrap().is_key());
    assert_eq!(node.non_ptr_len(), 0);
    assert_eq!(node.items().len(), 2);
    assert!(node.get(2).is_none());

    let mut pair: BTreeNodeItem<u32, u32> = BTreeNodeItem::Pair(1, vec![2]);
    pair.push_value(3);
    assert_eq!(pair.as_pair(), (&1, &vec![2, 3]));
    assert!(pair.cloned().is_pair());
    let leaf = BTreeNode::from_items(&vec![pair], None);
    assert!(!leaf.is_internal());
    let inner = BTreeNode::from_items(&vec![BTreeNodeItem::<u32, u32>::Key(1)], None);
    assert!(inner.is_internal());
}

#[test]
fn memory_tree_takes_each_value_once_where_asked() {
    let mut tree = BTree::<u32, u32>::new(4, true);
    assert_eq!(tree.max_degree(), 4);
    assert!(tree.insert((1, 10)));
    assert!(!tree.insert((1, 10)));
    assert_eq!(tree.get(&1), Some(vec![10]));
    assert!(tree.insert((1, 11)));
    assert_eq!(tree.get(&1), Some(vec![10, 11]));
    assert_eq!(tree.get(&2), None);

    let mut many = BTree::<i64, u8>::new(4, false);
    for key in [5i64, -3, 8, 1, 9, 2, 7, -4, 6, 0] {
        assert!(many.insert((key, key.unsigned_abs() as u8)));
    }
    for key in [5i64, -3, 8, 1, 9, 2, 7, -4, 6, 0] {
        assert_eq!(many.get(&key), Some(vec![key.unsigned_abs() as u8]));
    }
    assert_eq!(many.get(&4), None);
}

#[test]
fn file_nodes_keep_their_parent_and_their_place() {
    let mut node = FileBTreeNode::empty(true, Some(RecordId::new(String::new(), 2)));
    node.set_parent(Some(RecordId::new("up".to_string(), 4098)));
    node.append(FileBTreeNodeItem::Pointer(RecordId::new(String::new(), 8194)));
    assert_eq!(node.record_id().unwrap().offset(), 2);
    assert_eq!(node.parent().unwrap().path(), "up");
    let bytes = node.serialize().unwrap();
    assert_eq!(bytes.len() as u32, node.size());
    assert_eq!(&bytes[..6], [33, 0, 0, 0, 1, 1]);
    let back = FileBTreeNode::deserialize(&bytes).unwrap();
    assert!(back.is_internal());
    assert!(back.record_id().is_none());
    assert_eq!(back.parent().unwrap().offset(), 4098);
    assert_eq!(back.items().len(), 1);
    assert_eq!(back.non_ptr_len(), 0);
    assert_eq!(back.items()[0].as_pointer().offset(), 8194);
    assert_eq!(back.take_items().len(), 1);

    assert_eq!(
        FileBTreeNode::deserialize(&[5, 0, 0, 0, 0, 0]).err(),
        Some(CodecError::BadLength)
    );
    assert_eq!(
        FileBTreeNode::deserialize(&[7, 0, 0, 0, 0, 0, 3]).err(),
        Some(CodecError::InvalidTag)
    );
    assert_eq!(
        FileBTreeNode::deserialize(&[9, 0, 0, 0, 0, 0, 1]).err(),
        Some(CodecError::ShortBuffer)
    );
    assert_eq!(
        FileBTreeNodeItem::deserialize(&[1, 3, 0, 0, 0]).err(),
        Some(CodecError::BadLength)
    );
    let mut pair = FileBTreeNodeItem::Pair(Field::ubyte(1), vec![]);
    pair.push_value(Field::ubyte(2));
    assert_eq!(pair.cloned().as_pair().1.len(), 1);
    assert_eq!(pair.size(), pair.serialize().unwrap().len() as u32);
}

#[test]
fn files_of_a_database_are_told_apart_by_their_names() {
    assert_eq!(file_kind("users"), FileKind::Collection);
    assert_eq!(file_kind("by_name.btree"), FileKind::TreeData);
    assert_eq!(file_kind("by_name.btm"), FileKind::TreeMetadata);
    assert_eq!(file_kind(".btree"), FileKind::TreeData);
    assert_eq!(file_kind("btree"), FileKind::Collection);
    assert_eq!(file_kind("a.btree.bak"), FileKind::Collection);
    assert!(has_suffix(b"abc", b""));
    assert!(!has_suffix(b"bc", b"abc"));
}
