use comet::codec::compare::KeyOrder;
use comet::codec::deserialize::{decode_fields, Deserialize};
use comet::codec::error::CodecError;
use comet::codec::field::{Field, FieldType};
use comet::codec::serialize::{encode_fields, Serialize};
use comet::record_id::RecordId;

fn every_kind() -> Vec<Field> {
    vec![
        Field::string("héllo wörld ✓".to_string()),
        Field::string(String::new()),
        Field::byte(-128),
        Field::byte(127),
        Field::ubyte(255),
        Field::int32(i32::MIN),
        Field::int32(-1),
        Field::uint32(u32::MAX),
        Field::int64(i64::MIN),
        Field::int64(i64::MAX),
        Field::uint64(u64::MAX),
        Field::float32(1.5f32.to_bits()),
        Field::float64((-2.25f64).to_bits()),
        Field::map(vec![]),
        Field::map(vec![
            ("a".to_string(), Field::uint32(1)),
            (
                "inner".to_string(),
                Field::map(vec![("b".to_string(), Field::string("x".to_string()))]),
            ),
        ]),
    ]
}

#[test]
fn every_field_decodes_to_itself() {
    for field in every_kind() {
        let bytes = field.serialize().unwrap();
        assert_eq!(bytes.len() as u32, field.size());
        assert_eq!(bytes[0], field.field_type().to_tag());
        let back = Field::deserialize(&bytes).unwrap();
        assert_eq!(back, field);
        assert_eq!(back.serialize().unwrap(), bytes);
    }
}

#[test]
fn integers_are_little_endian_twos_complement() {
    assert_eq!(
        Field::int32(-2).serialize().unwrap(),
        vec![3, 4, 0, 0, 0, 0xfe, 0xff, 0xff, 0xff]
    );
    assert_eq!(
        Field::uint64(0x0102_0304_0506_0708).serialize().unwrap(),
        vec![6, 8, 0, 0, 0, 8, 7, 6, 5, 4, 3, 2, 1]
    );
    assert_eq!(Field::byte(-1).serialize().unwrap(), vec![1, 1, 0, 0, 0, 0xff]);
    assert_eq!(
        Field::float32(1.0f32.to_bits()).serialize().unwrap(),
        vec![7, 4, 0, 0, 0, 0, 0, 0x80, 0x3f]
    );
    assert_eq!((-2i16).serialize().unwrap(), vec![0xfe, 0xff]);
    assert_eq!(0x1234u16.serialize().unwrap(), vec![0x34, 0x12]);
    assert_eq!(i128::MIN.serialize().unwrap()[15], 0x80);
    assert_eq!(i128::deserialize(&i128::MIN.serialize().unwrap()), Ok(i128::MIN));
    assert_eq!(i128::deserialize(&(-5i128).serialize().unwrap()), Ok(-5));
    assert_eq!(u128::deserialize(&u128::MAX.serialize().unwrap()), Ok(u128::MAX));
    assert_eq!(i64::deserialize(&i64::MIN.serialize().unwrap()), Ok(i64::MIN));
    assert_eq!(i8::deserialize(&[0x80]), Ok(-128));
    assert_eq!(u32::deserialize(&[1, 2, 3, 4]), Ok(0x0403_0201));
    assert_eq!(7u64.size(), 8);
    assert_eq!(u32::deserialize(&[1, 2, 3]), Err(CodecError::ShortBuffer));
    assert_eq!(u32::deserialize(&[1, 2, 3, 4, 5]), Err(CodecError::BadLength));
}

#[test]
fn booleans_text_and_tags_are_encoded_bare() {
    assert_eq!(true.serialize().unwrap(), vec![1]);
    assert_eq!(false.serialize().unwrap(), vec![0]);
    assert_eq!(bool::deserialize(&[0]), Ok(false));
    assert_eq!(bool::deserialize(&[7, 0]), Ok(true));
    assert_eq!(bool::deserialize(&[]), Err(CodecError::ShortBuffer));
    assert_eq!("hé".to_string().serialize().unwrap(), vec![104, 0xc3, 0xa9]);
    assert_eq!("hé".to_string().size(), 3);
    assert_eq!(String::deserialize(&[104, 0xc3, 0xa9]), Ok("hé".to_string()));
    assert_eq!(String::deserialize(&[0xff]), Err(CodecError::InvalidUtf8));
    assert_eq!(FieldType::UInt32.serialize().unwrap(), vec![4]);
    assert_eq!(FieldType::deserialize(&[9, 0, 0, 0]), Ok(FieldType::Mapping));
    assert_eq!(FieldType::deserialize(&[10]), Err(CodecError::InvalidTag));
    assert_eq!(FieldType::deserialize(&[]), Err(CodecError::ShortBuffer));
    for tag in 0..=9u8 {
        assert_eq!(FieldType::from_tag(tag).unwrap().to_tag(), tag);
    }
    assert_eq!(FieldType::from_tag(10), None);
}

#[test]
fn malformed_fields_are_told_apart() {
    assert_eq!(Field::deserialize(&[]), Err(CodecError::ShortBuffer));
    assert_eq!(Field::deserialize(&[10, 0, 0, 0, 0]), Err(CodecError::InvalidTag));
    assert_eq!(Field::deserialize(&[10]), Err(CodecError::InvalidTag));
    assert_eq!(Field::deserialize(&[0, 5, 0]), Err(CodecError::ShortBuffer));
    assert_eq!(
        Field::deserialize(&[0, 5, 0, 0, 0, 119]),
        Err(CodecError::ShortBuffer)
    );
    assert_eq!(
        Field::deserialize(&[3, 2, 0, 0, 0, 1, 2]),
        Err(CodecError::BadLength)
    );
    assert_eq!(
        Field::deserialize(&[0, 1, 0, 0, 0, 0xff]),
        Err(CodecError::InvalidUtf8)
    );
    assert_eq!(
        Field::deserialize(&[9, 2, 0, 0, 0, 97, 98]),
        Err(CodecError::ShortBuffer)
    );
    assert_eq!(
        Field::deserialize(&[9, 6, 0, 0, 0, 0, 2, 1, 0, 0, 0, 7]),
        Err(CodecError::BadLength)
    );
    assert_eq!(
        Field::deserialize(&[9, 8, 0, 0, 0, 0xff, 0, 2, 1, 0, 0, 0, 7]),
        Err(CodecError::InvalidUtf8)
    );
    assert_eq!(
        Field::deserialize(&[9, 7, 0, 0, 0, 97, 0, 12, 0, 0, 0, 0]),
        Err(CodecError::InvalidTag)
    );
}

#[test]
fn what_follows_a_field_is_not_looked_at() {
    let field = Field::deserialize(&[2, 1, 0, 0, 0, 7, 99, 99]).unwrap();
    assert_eq!(field, Field::ubyte(7));
}

#[test]
fn a_later_entry_takes_the_place_of_an_earlier_one() {
    let bytes = [
        9, 16, 0, 0, 0, 97, 0, 2, 1, 0, 0, 0, 1, 97, 0, 2, 1, 0, 0, 0, 2,
    ];
    let field = Field::deserialize(&bytes).unwrap();
    assert_eq!(field.value_as_map().len(), 1);
    assert_eq!(field.entry("a"), Some(&Field::ubyte(2)));

    let built = Field::map(vec![
        ("a".to_string(), Field::ubyte(1)),
        ("b".to_string(), Field::ubyte(5)),
        ("a".to_string(), Field::ubyte(2)),
    ]);
    assert_eq!(built.value_as_map().len(), 2);
    assert_eq!(built.value_as_map()[0], ("a".to_string(), Field::ubyte(2)));
    assert_eq!(built.entry("b"), Some(&Field::ubyte(5)));
    assert_eq!(built.entry("c"), None);
}

#[test]
fn maps_are_equal_whatever_the_order_of_their_entries() {
    let one = Field::map_str(vec![("a", Field::ubyte(1)), ("b", Field::ubyte(2))]);
    let other = Field::map_str(vec![("b", Field::ubyte(2)), ("a", Field::ubyte(1))]);
    assert_eq!(one, other);
    assert_ne!(one.serialize().unwrap(), other.serialize().unwrap());
    assert_ne!(one, Field::map_str(vec![("a", Field::ubyte(1))]));
    assert_ne!(Field::ubyte(1), Field::byte(1));
    assert_eq!(one.duplicate(), one);
}

#[test]
fn floats_are_equal_as_numbers() {
    assert_eq!(Field::float32(0.0f32.to_bits()), Field::float32((-0.0f32).to_bits()));
    assert_ne!(Field::float32(f32::NAN.to_bits()), Field::float32(f32::NAN.to_bits()));
    assert_eq!(Field::float64(0.0f64.to_bits()), Field::float64((-0.0f64).to_bits()));
    assert_ne!(Field::float64(f64::NAN.to_bits()), Field::float64(f64::NAN.to_bits()));
    assert_ne!(Field::float64(1.0f64.to_bits()), Field::float64(2.0f64.to_bits()));
}

#[test]
fn keys_of_one_type_are_ordered() {
    let order = |a: Field, b: Field| a.compare(&b);
    assert_eq!(order(Field::uint32(1), Field::uint32(2)), Some(KeyOrder::Less));
    assert_eq!(order(Field::int64(-1), Field::int64(-2)), Some(KeyOrder::Greater));
    assert_eq!(order(Field::byte(3), Field::byte(3)), Some(KeyOrder::Equal));
    assert_eq!(
        order(Field::string("ab".to_string()), Field::string("abc".to_string())),
        Some(KeyOrder::Less)
    );
    assert_eq!(
        order(Field::string("b".to_string()), Field::string("abc".to_string())),
        Some(KeyOrder::Greater)
    );
    for (a, b) in [(-1.5f32, 2.0f32), (-3.0, -2.0), (0.5, 0.75), (-0.0, 0.0), (1.0, 1.0)] {
        let expected = if a < b {
            KeyOrder::Less
        } else if a > b {
            KeyOrder::Greater
        } else {
            KeyOrder::Equal
        };
        assert_eq!(
            order(Field::float32(a.to_bits()), Field::float32(b.to_bits())),
            Some(expected)
        );
        assert_eq!(
            order(
                Field::float64((a as f64).to_bits()),
                Field::float64((b as f64).to_bits())
            ),
            Some(expected)
        );
    }
    assert_eq!(order(Field::float32(f32::NAN.to_bits()), Field::float32(0)), None);
    assert_eq!(order(Field::uint32(1), Field::int32(1)), None);
    assert_eq!(order(Field::map(vec![]), Field::map(vec![])), None);
}

#[test]
fn lists_of_fields_come_with_and_without_their_length() {
    let fields = vec![Field::ubyte(1), Field::string("ab".to_string())];
    let bare = encode_fields(&fields).unwrap();
    assert_eq!(bare, vec![2, 1, 0, 0, 0, 1, 0, 2, 0, 0, 0, 97, 98]);
    assert_eq!(decode_fields(&bare).unwrap(), fields);
    let framed = fields.serialize().unwrap();
    assert_eq!(&framed[..4], [17, 0, 0, 0]);
    assert_eq!(&framed[4..], &bare[..]);
    assert_eq!(fields.size(), 17);
    let mut longer = framed.clone();
    longer.extend_from_slice(&[1, 2, 3]);
    assert_eq!(Vec::<Field>::deserialize(&longer).unwrap(), fields);
    assert_eq!(
        Vec::<Field>::deserialize(&framed[..10]),
        Err(CodecError::ShortBuffer)
    );
    assert_eq!(
        Vec::<Field>::deserialize(&[3, 0, 0, 0]),
        Err(CodecError::BadLength)
    );
    assert_eq!(Vec::<Field>::deserialize(&[4, 0, 0, 0]).unwrap(), vec![]);
}

#[test]
fn record_references_are_checked() {
    let id = RecordId::new(String::new(), u64::MAX);
    let bytes = id.serialize().unwrap();
    assert_eq!(bytes, vec![12, 0, 0, 0, 255, 255, 255, 255, 255, 255, 255, 255]);
    assert_eq!(id.size(), 12);
    let back = RecordId::deserialize(&bytes).unwrap();
    assert_eq!(back.path(), "");
    assert_eq!(back.offset(), u64::MAX);
    assert_eq!(back.cloned().offset(), u64::MAX);
    assert_eq!(
        RecordId::deserialize(&bytes[..3]).err(),
        Some(CodecError::ShortBuffer)
    );
    assert_eq!(
        RecordId::deserialize(&bytes[..11]).err(),
        Some(CodecError::ShortBuffer)
    );
    assert_eq!(
        RecordId::deserialize(&[11, 0, 0, 0, 0, 0, 0, 0, 0, 0, 0]).err(),
        Some(CodecError::BadLength)
    );
    assert_eq!(
        RecordId::deserialize(&[13, 0, 0, 0, 0xff, 0, 0, 0, 0, 0, 0, 0, 0]).err(),
        Some(CodecError::InvalidUtf8)
    );
    assert_eq!(CodecError::BadLength.message(), "bad length");
}

#[test]
fn a_map_of_thirty_two_entries_decodes_to_itself() {
    let entries: Vec<(String, Field)> = (0..32u32)
        .map(|i| {
            let value = if i % 2 == 0 {
                Field::uint32(i)
            } else {
                Field::string(format!("value {i}"))
            };
            (format!("name{i}"), value)
        })
        .collect();
    let names: Vec<String> = entries.iter().map(|(name, _)| name.clone()).collect();
    let field = Field::map(entries);
    let back = Field::deserialize(&field.serialize().unwrap()).unwrap();
    assert_eq!(back, field);
    let held: Vec<String> = back
        .value_as_map()
        .iter()
        .map(|(name, _)| name.clone())
        .collect();
    assert_eq!(held, names);
    assert_eq!(back.entry("name7"), Some(&Field::string("value 7".to_string())));
}

#[test]
fn a_list_of_sixteen_fields_decodes_in_order() {
    let fields: Vec<Field> = (0..16i64).map(|i| Field::int64(i * i - 50)).collect();
    let back = Vec::<Field>::deserialize(&fields.serialize().unwrap()).unwrap();
    assert_eq!(back, fields);
    assert_eq!(back[15], Field::int64(175));
}
