use comet::codec::deserialize::Deserialize;
use comet::codec::field::Field;
use comet::codec::serialize::Serialize;

#[test]
pub fn vec_serialization_works() {
    let vec = vec![
        Field::string("Hello, world!".to_string()),
        Field::uint32(10),
    ];
    let buffer = vec.serialize();
    assert!(buffer.is_ok());

    let buffer = buffer.unwrap();
    assert_eq!(
        buffer,
        vec![
            31, 0, 0, 0, 0, 13, 0, 0, 0, 72, 101, 108, 108, 111, 44, 32, 119, 111, 114, 108, 100,
            33, 4, 4, 0, 0, 0, 10, 0, 0, 0
        ]
    );
}

#[test]
pub fn vec_deserialization_works() {
    let buffer = vec![
        31, 0, 0, 0, 0, 13, 0, 0, 0, 72, 101, 108, 108, 111, 44, 32, 119, 111, 114, 108, 100, 33,
        4, 4, 0, 0, 0, 10, 0, 0, 0,
    ];

    let vec = Vec::<Field>::deserialize(&buffer);
    assert!(vec.is_ok());

    let vec = vec.unwrap();

    assert_eq!(vec[0].value_as_string(), &"Hello, world!".to_string());

    assert_eq!(vec[1].value_as_uint32(), 10);
}
