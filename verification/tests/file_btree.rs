use comet::btree::file::tree::FileBTree;
use comet::codec::field::{Field, FieldType};
use comet::error::{BTreeError, Error};
use comet::file::PageFile;

fn tree(max_degree: usize, unique: bool) -> FileBTree {
    let mut tree = FileBTree::new(PageFile::new(1024), PageFile::new(2), max_degree, unique);
    tree.set_key_type(FieldType::UInt32).unwrap();
    tree
}

fn numbers(values: &[Field]) -> Vec<u32> {
    values.iter().map(|value| value.value_as_uint32()).collect()
}

#[test]
fn file_tree_keeps_values_in_insertion_order() {
    let mut tree = tree(4, false);
    let pairs = [
        (0, 1),
        (1, 2),
        (3, 4),
        (2, 3),
        (7, 8),
        (5, 6),
        (6, 7),
        (8, 9),
        (9, 10),
        (10, 11),
        (3, 5),
    ];
    for (key, value) in pairs {
        assert_eq!(
            tree.insert((Field::uint32(key), Field::uint32(value))),
            Ok(true)
        );
    }

    let key_5 = tree.get(&Field::uint32(5)).unwrap().unwrap();
    assert_eq!(numbers(&key_5), vec![6]);

    let key_3 = tree.get(&Field::uint32(3)).unwrap().unwrap();
    assert_eq!(numbers(&key_3), vec![4, 5]);

    for (key, value) in [(0, 1), (1, 2), (2, 3), (7, 8), (6, 7), (8, 9), (9, 10), (10, 11)] {
        let found = tree.get(&Field::uint32(key)).unwrap().unwrap();
        assert_eq!(numbers(&found), vec![value]);
    }
    assert_eq!(tree.get(&Field::uint32(4)), Ok(None));
}

#[test]
fn file_tree_unique_rejects_duplicate_value() {
    let mut tree = tree(4, true);
    assert_eq!(
        tree.insert((Field::uint32(1), Field::uint32(10))),
        Ok(true)
    );
    assert_eq!(
        tree.insert((Field::uint32(1), Field::uint32(10))),
        Ok(false)
    );
    let found = tree.get(&Field::uint32(1)).unwrap().unwrap();
    assert_eq!(numbers(&found), vec![10]);
}

#[test]
fn file_tree_rejects_key_of_other_type() {
    let mut tree = tree(4, false);
    assert_eq!(
        tree.insert((Field::string("a".to_string()), Field::uint32(1))),
        Err(Error::BTree(BTreeError::KeyTypeMismatch))
    );
    assert_eq!(
        tree.get(&Field::int32(1)),
        Err(Error::BTree(BTreeError::KeyTypeMismatch))
    );
}

#[test]
fn file_tree_without_root_finds_nothing() {
    let tree = tree(4, false);
    assert_eq!(tree.key_type(), Ok(FieldType::UInt32));
    assert_eq!(tree.get(&Field::uint32(1)), Ok(None));
}

#[test]
fn file_tree_survives_reopening() {
    let mut first = tree(4, false);
    for key in 0..10u32 {
        assert_eq!(
            first.insert((Field::uint32(key), Field::uint32(key + 100))),
            Ok(true)
        );
    }
    let mut data = PageFile::new(1024);
    for index in 0..first.data().page_count() {
        data.flush_page(index, first.data().load_page(index)).unwrap();
    }
    let mut metadata = PageFile::new(2);
    for index in 0..first.metadata().page_count() {
        metadata
            .flush_page(index, first.metadata().load_page(index))
            .unwrap();
    }
    let second = FileBTree::new(data, metadata, 4, false);
    for key in 0..10u32 {
        let found = second.get(&Field::uint32(key)).unwrap().unwrap();
        assert_eq!(numbers(&found), vec![key + 100]);
    }
}

#[test]
fn file_tree_reports_a_full_file() {
    let mut tree = FileBTree::new(PageFile::new(1), PageFile::new(2), 2, false);
    tree.set_key_type(FieldType::UInt32).unwrap();
    assert_eq!(tree.insert((Field::uint32(1), Field::uint32(1))), Ok(true));
    assert_eq!(
        tree.insert((Field::uint32(2), Field::uint32(2))),
        Err(Error::Io(comet::file::IoError::WriteFailed))
    );
}
