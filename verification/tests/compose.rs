use shadenbt::data::{
    ByteOrder, DataInputStream, DataOutputStream, DeserializeCopy, Deserializeable, Error, Invalid,
    Serializeable,
};
use shadenbt::compose::write_array;
use shadenbt::uuid::UUID;
use shadenbt::version::Version;

fn written<T: Serializeable>(value: &T, order: ByteOrder) -> Result<Vec<u8>, Error> {
    let mut out = DataOutputStream::new(Vec::new(), order);
    value.serialize(&mut out)?;
    Ok(out.into_inner())
}

fn read_back<T: DeserializeCopy>(bytes: Vec<u8>, order: ByteOrder) -> Result<T, Error> {
    let mut input = DataInputStream::new(bytes, order);
    T::deserialize_copy(&mut input)
}

#[test]
fn option_writes_what_is_there() {
    assert_eq!(written(&Some(0x0102u16), ByteOrder::BigEndian), Ok(vec![1, 2]));
    assert_eq!(written(&None::<u16>, ByteOrder::BigEndian), Ok(vec![]));
    let mut input = DataInputStream::new(vec![0, 7, 0, 8], ByteOrder::BigEndian);
    let mut some = Some(0u16);
    assert_eq!(some.deserialize(&mut input), Ok(()));
    assert_eq!(some, Some(7));
    let mut none: Option<u16> = None;
    assert_eq!(none.deserialize(&mut input), Ok(()));
    assert_eq!(none, None);
    assert_eq!(input.into_inner(), vec![0, 8]);
    let mut input = DataInputStream::new(vec![0], ByteOrder::BigEndian);
    assert_eq!(some.deserialize(&mut input), Err(Error::EndOfFile));
}

#[test]
fn boxed_value_is_its_value() {
    assert_eq!(written(&Box::new(0x0102u16), ByteOrder::LittleEndian), Ok(vec![2, 1]));
    assert_eq!(read_back::<Box<u16>>(vec![2, 1], ByteOrder::LittleEndian), Ok(Box::new(0x0102)));
    let mut boxed = Box::new(0i8);
    let mut input = DataInputStream::new(vec![0xFF], ByteOrder::BigEndian);
    assert_eq!(boxed.deserialize(&mut input), Ok(()));
    assert_eq!(*boxed, -1);
}

#[test]
fn vec_is_its_items_without_a_count() {
    assert_eq!(written(&vec![1u16, 2, 3], ByteOrder::BigEndian), Ok(vec![0, 1, 0, 2, 0, 3]));
    assert_eq!(written(&Vec::<u64>::new(), ByteOrder::BigEndian), Ok(vec![]));
    let mut items = vec![0u16; 2];
    let mut input = DataInputStream::new(vec![0, 9, 0, 8, 0, 7], ByteOrder::BigEndian);
    assert_eq!(items.deserialize(&mut input), Ok(()));
    assert_eq!(items, vec![9, 8]);
    assert_eq!(input.into_inner(), vec![0, 7]);
    let texts = vec!["a".to_string(), "x".repeat(65536)];
    let mut out = DataOutputStream::new(Vec::new(), ByteOrder::BigEndian);
    assert_eq!(
        texts.serialize(&mut out),
        Err(Error::ValidationError(Invalid::OutOfRange(65536)))
    );
    assert_eq!(out.into_inner(), vec![0, 1, b'a']);
}

#[test]
fn array_reads_as_many_items_as_it_has() {
    let magic: [u8; 4] = [0xAD, 0x4E, 0x42, 0x54];
    assert_eq!(written(&magic, ByteOrder::LittleEndian), Ok(vec![0xAD, 0x4E, 0x42, 0x54]));
    assert_eq!(read_back::<[u8; 4]>(vec![0xAD, 0x4E, 0x42, 0x54, 9], ByteOrder::BigEndian), Ok(magic));
    assert_eq!(read_back::<[u8; 4]>(vec![0xAD, 0x4E, 0x42], ByteOrder::BigEndian), Err(Error::EndOfFile));
    assert_eq!(read_back::<[u16; 2]>(vec![1, 0, 2, 0], ByteOrder::LittleEndian), Ok([1, 2]));
    assert_eq!(read_back::<[u16; 0]>(vec![], ByteOrder::LittleEndian), Ok([]));
    let mut pair = [0i32; 2];
    let mut input = DataInputStream::new(vec![0, 0, 0, 1, 0xFF, 0xFF, 0xFF, 0xFF], ByteOrder::BigEndian);
    assert_eq!(pair.deserialize(&mut input), Ok(()));
    assert_eq!(pair, [1, -1]);
    let mut out = DataOutputStream::new(vec![5], ByteOrder::BigEndian);
    assert_eq!(write_array(&[1u16, 2], &mut out), Ok(()));
    assert_eq!(out.into_inner(), vec![5, 0, 1, 0, 2]);
    let salt = [7u8; 32];
    assert_eq!(read_back::<[u8; 32]>(written(&salt, ByteOrder::BigEndian).unwrap(), ByteOrder::BigEndian), Ok(salt));
}

#[test]
fn unit_takes_no_bytes() {
    assert_eq!(written(&(), ByteOrder::BigEndian), Ok(vec![]));
    assert_eq!(read_back::<()>(vec![1], ByteOrder::BigEndian), Ok(()));
}

#[test]
fn tuples_are_their_parts_in_order() {
    assert_eq!(written(&(1u8,), ByteOrder::BigEndian), Ok(vec![1]));
    assert_eq!(written(&(1u8, 2u16), ByteOrder::BigEndian), Ok(vec![1, 0, 2]));
    assert_eq!(
        written(&(1u8, 2u16, "hp".to_string()), ByteOrder::LittleEndian),
        Ok(vec![1, 2, 0, 2, 0, b'h', b'p'])
    );
    assert_eq!(
        read_back::<(u8, u16, String)>(vec![1, 2, 0, 2, 0, b'h', b'p'], ByteOrder::LittleEndian),
        Ok((1, 2, "hp".to_string()))
    );
    assert_eq!(read_back::<(u8, u16)>(vec![1, 2], ByteOrder::BigEndian), Err(Error::EndOfFile));
    assert_eq!(
        read_back::<(u8, String, u8)>(vec![1, 0, 1, 0xFF, 3], ByteOrder::BigEndian),
        Err(Error::ValidationError(Invalid::BadUtf8))
    );
    let mut pair = (0u16, 0i8);
    let mut input = DataInputStream::new(vec![1, 2, 0xFE, 4], ByteOrder::BigEndian);
    assert_eq!(pair.deserialize(&mut input), Ok(()));
    assert_eq!(pair, (0x0102, -2));
    assert_eq!(input.into_inner(), vec![4]);
}

#[test]
fn tuple_stops_at_the_first_part_without_an_encoding() {
    let value = (1u8, "x".repeat(65536), 2u8, "y".repeat(70000));
    let mut out = DataOutputStream::new(Vec::new(), ByteOrder::BigEndian);
    assert_eq!(
        value.serialize(&mut out),
        Err(Error::ValidationError(Invalid::OutOfRange(65536)))
    );
    assert_eq!(out.into_inner(), vec![1]);
}

#[test]
fn twelve_parts_read_back() {
    let value = (
        1u8,
        -2i8,
        3u16,
        -4i16,
        5u32,
        -6i32,
        7u64,
        -8i64,
        9u128,
        -10i128,
        "eleven".to_string(),
        (UUID::new(12, 13), Version::from_encoded(0x0102)),
    );
    for order in [ByteOrder::BigEndian, ByteOrder::LittleEndian] {
        let bytes = written(&value, order).unwrap();
        assert_eq!(bytes.len(), 1 + 1 + 2 + 2 + 4 + 4 + 8 + 8 + 16 + 16 + 8 + 16 + 2);
        let back: (u8, i8, u16, i16, u32, i32, u64, i64, u128, i128, String, (UUID, Version)) =
            read_back(bytes, order).unwrap();
        assert_eq!(back, value);
    }
    let mut target = (0u8, 0u8, 0u8, 0u8, 0u8, 0u8, 0u8, 0u8, 0u8, 0u8, 0u8, 0u8);
    let mut input = DataInputStream::new((1..=13).collect(), ByteOrder::BigEndian);
    assert_eq!(target.deserialize(&mut input), Ok(()));
    assert_eq!(target, (1, 2, 3, 4, 5, 6, 7, 8, 9, 10, 11, 12));
    assert_eq!(input.into_inner(), vec![13]);
}
