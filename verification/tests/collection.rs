use comet::codec::field::Field;
use comet::collection::Collection;
use comet::document::Document;
use comet::error::{CursorError, Error};
use comet::file::PageFile;

fn user(i: u32) -> Document {
    let mut document = Document::new();
    document.append_field("id".to_string(), Field::uint32(i));
    document.append_field("username".to_string(), Field::string(format!("user {i}")));
    document.append_field(
        "email".to_string(),
        Field::string(format!("user.{i}@example.com")),
    );
    document
}

fn users(count: u32) -> Collection {
    let mut collection = Collection::new("users".to_string(), PageFile::new(4096));
    for i in 0..count {
        collection.insert_document(&user(i)).unwrap();
    }
    collection
}

#[test]
fn documents_are_read_in_the_order_of_insertion() {
    let collection = users(1000);
    let mut cursor = collection.cursor();
    for i in 0..1000 {
        let document = cursor.read_current_document(&collection).unwrap();
        assert_eq!(document, user(i));
        assert_eq!(document.get_field("id"), Some(&Field::uint32(i)));
        cursor.next_document(&collection).unwrap();
    }
    assert_eq!(cursor.current_document_size(&collection), Ok(0));
    assert_eq!(
        cursor.read_current_document(&collection),
        Err(Error::Cursor(CursorError::EndOfStream))
    );
}

#[test]
fn the_hundredth_document_has_id_100() {
    let collection = users(1000);
    let mut cursor = collection.cursor();
    for _ in 0..100 {
        cursor.next_document(&collection).unwrap();
    }
    let document = cursor.read_current_document(&collection).unwrap();
    assert_eq!(document.get_field("id").unwrap().value_as_uint32(), 100);
}

#[test]
fn a_removed_document_leaves_a_gap_that_takes_a_smaller_one() {
    let mut collection = users(10);
    let mut cursor = collection.cursor();
    for _ in 0..4 {
        cursor.next_document(&collection).unwrap();
    }
    assert_eq!(cursor.is_current_document_removed(&collection), Ok(false));
    cursor.remove_current_document(&mut collection).unwrap();

    let mut again = collection.cursor();
    for _ in 0..4 {
        again.next_document(&collection).unwrap();
    }
    assert_eq!(again.is_current_document_removed(&collection), Ok(true));
    assert_eq!(
        again.current_document_size(&collection),
        Ok(user(4).size())
    );

    let mut fresh = Document::new();
    fresh.append_field("id".to_string(), Field::uint32(10));
    fresh.append_field(
        "username".to_string(),
        Field::string("new user 10".to_string()),
    );
    again.insert_document(&mut collection, &fresh).unwrap();

    let mut scan = collection.cursor();
    for i in 0..4 {
        assert_eq!(scan.read_current_document(&collection).unwrap(), user(i));
        scan.next_document(&collection).unwrap();
    }
    assert_eq!(scan.read_current_document(&collection).unwrap(), fresh);
    scan.next_document(&collection).unwrap();
    assert_eq!(scan.is_current_document_removed(&collection), Ok(true));
    scan.next_document(&collection).unwrap();
    for i in 5..10 {
        assert_eq!(scan.read_current_document(&collection).unwrap(), user(i));
        scan.next_document(&collection).unwrap();
    }
}

#[test]
fn a_gap_takes_a_document_of_its_own_size() {
    let mut collection = users(3);
    let mut cursor = collection.cursor();
    cursor.next_document(&collection).unwrap();
    cursor.remove_current_document(&mut collection).unwrap();
    let mut same_size = Document::new();
    same_size.append_field("id".to_string(), Field::uint32(7));
    same_size.append_field("username".to_string(), Field::string("USER 1".to_string()));
    same_size.append_field(
        "email".to_string(),
        Field::string("USER.1@example.com".to_string()),
    );
    cursor.insert_document(&mut collection, &same_size).unwrap();
    assert_eq!(
        cursor.read_current_document(&collection).unwrap(),
        same_size
    );
    cursor.next_document(&collection).unwrap();
    assert_eq!(cursor.read_current_document(&collection).unwrap(), user(2));
}

#[test]
fn a_document_is_only_put_where_one_was_removed() {
    let mut collection = users(3);
    let cursor = collection.cursor();
    assert_eq!(
        cursor.insert_document(&mut collection, &user(9)),
        Err(Error::Cursor(CursorError::CursorNotOnTombstone))
    );
}

#[test]
fn a_document_larger_than_the_gap_is_refused() {
    let mut collection = users(3);
    let cursor = collection.cursor();
    cursor.remove_current_document(&mut collection).unwrap();
    assert_eq!(
        cursor.insert_document(&mut collection, &user(1000)),
        Err(Error::Cursor(CursorError::DocumentTooLargeForGap))
    );
    let mut nearly = Document::new();
    nearly.append_field("id".to_string(), Field::uint32(7));
    nearly.append_field("username".to_string(), Field::string("user".to_string()));
    nearly.append_field(
        "email".to_string(),
        Field::string("user.0@example.com".to_string()),
    );
    assert_eq!(nearly.size() + 2, user(0).size());
    assert_eq!(
        cursor.insert_document(&mut collection, &nearly),
        Err(Error::Cursor(CursorError::DocumentTooLargeForGap))
    );
}

#[test]
fn a_full_file_refuses_a_document() {
    let mut collection = Collection::new("small".to_string(), PageFile::new(1));
    let mut written = 0;
    loop {
        match collection.insert_document(&user(written)) {
            Ok(()) => written += 1,
            Err(error) => {
                assert_eq!(error, Error::Io(comet::file::IoError::WriteFailed));
                break;
            }
        }
    }
    assert!(written > 10);
    assert_eq!(collection.name(), "small");
}

#[test]
fn document_fields_are_bound_by_name() {
    let mut document = user(1);
    assert_eq!(document.size(), 61);
    assert_eq!(document.serialize().unwrap().len(), 65);
    document.append_field("id".to_string(), Field::uint32(2));
    assert_eq!(document.get_field("id"), Some(&Field::uint32(2)));
    assert_eq!(document.fields().len(), 3);
    assert_eq!(document.remove_field("id"), Some(Field::uint32(2)));
    assert_eq!(document.get_field("id"), None);
    assert_eq!(document.remove_field("id"), None);

    let bytes = user(5).serialize().unwrap();
    assert_eq!(Document::deserialize(&bytes).unwrap(), user(5));
    assert_eq!(
        Document::deserialize(&bytes[..10]),
        Err(comet::codec::error::CodecError::ShortBuffer)
    );
}
