use comet::btree::file::item::FileBTreeNodeItem;
use comet::btree::file::node::FileBTreeNode;
use comet::codec::deserialize::Deserialize;
use comet::codec::field::Field;
use comet::codec::serialize::Serialize;

#[test]
pub fn node_serialization_works() {
    let mut node = FileBTreeNode::empty(false, None);
    node.append(FileBTreeNodeItem::Key(Field::ubyte(10)));
    node.append(FileBTreeNodeItem::Pair(
        Field::ubyte(11),
        vec![Field::string("value".to_string())],
    ));

    let buffer = node.serialize();
    assert!(buffer.is_ok());

    let buffer = buffer.unwrap();
    assert_eq!(
        &buffer[..],
        [
            34, 0, 0, 0, 0, 0, 0, 2, 1, 0, 0, 0, 10, 1, 20, 0, 0, 0, 2, 1, 0, 0, 0, 11, 0, 5, 0, 0,
            0, 118, 97, 108, 117, 101,
        ]
    );
}

#[test]
pub fn node_deserialization_works() {
    let buffer = [
        34, 0, 0, 0, 0, 0, 0, 2, 1, 0, 0, 0, 10, 1, 20, 0, 0, 0, 2, 1, 0, 0, 0, 11, 0, 5, 0, 0, 0,
        118, 97, 108, 117, 101,
    ];
    let node = FileBTreeNode::deserialize(&buffer);
    assert!(node.is_ok());

    let node = node.unwrap();
    assert_eq!(node.is_internal(), false);
    assert!(node.items()[0].is_key());
    assert_eq!(node.items()[0].as_key().value_as_ubyte(), 10);

    assert!(node.items()[1].is_pair());
    assert_eq!(node.items()[1].as_pair().0.value_as_ubyte(), 11);
    assert_eq!(node.items()[1].as_pair().1[0].value_as_string(), "value");
}
