use shadenbt::data::{
    ByteOrder, DataInputStream, DataOutputStream, DeserializeCopy, Error, Serializeable,
};
use shadenbt::uuid::UUID;

#[test]
fn fields_are_low_then_high() {
    let id = UUID::new(1, 2);
    assert_eq!(id.into_fields(), (1, 2));
    assert_eq!(UUID::nil().into_fields(), (0, 0));
    assert_eq!(UUID::default(), UUID::nil());
    assert_eq!(UUID::new(1, 2), UUID::new(1, 2));
    assert_ne!(UUID::new(1, 2), UUID::new(2, 1));
}

#[test]
fn u128_holds_the_high_field_in_its_high_half() {
    let id = UUID::from(0x0102030405060708_1112131415161718u128);
    assert_eq!(id.into_fields(), (0x1112131415161718, 0x0102030405060708));
    assert_eq!(u128::from(id), 0x0102030405060708_1112131415161718u128);
    assert_eq!(u128::from(UUID::new(u64::MAX, u64::MAX)), u128::MAX);
    assert_eq!(UUID::from(u128::MAX).into_fields(), (u64::MAX, u64::MAX));
}

#[test]
fn uuid_is_high_then_low_on_the_wire() {
    let id = UUID::new(0x1112131415161718, 0x0102030405060708);
    let mut out = DataOutputStream::new(Vec::new(), ByteOrder::BigEndian);
    id.serialize(&mut out).unwrap();
    let bytes = out.into_inner();
    assert_eq!(
        bytes,
        vec![1, 2, 3, 4, 5, 6, 7, 8, 0x11, 0x12, 0x13, 0x14, 0x15, 0x16, 0x17, 0x18]
    );
    let mut input = DataInputStream::new(bytes, ByteOrder::BigEndian);
    assert_eq!(UUID::deserialize_copy(&mut input), Ok(id));
    let mut out = DataOutputStream::new(Vec::new(), ByteOrder::LittleEndian);
    id.serialize(&mut out).unwrap();
    let bytes = out.into_inner();
    assert_eq!(
        bytes,
        vec![8, 7, 6, 5, 4, 3, 2, 1, 0x18, 0x17, 0x16, 0x15, 0x14, 0x13, 0x12, 0x11]
    );
    let mut input = DataInputStream::new(bytes, ByteOrder::LittleEndian);
    assert_eq!(UUID::deserialize_copy(&mut input), Ok(id));
    let mut input = DataInputStream::new(vec![0; 15], ByteOrder::BigEndian);
    assert_eq!(UUID::deserialize_copy(&mut input), Err(Error::EndOfFile));
}

#[test]
fn random_uuid_has_version_4() {
    let id = UUID::from_random(u64::MAX, u64::MAX);
    assert_eq!(id.into_fields(), (0x7FFF_FFFF_FFFF_FFFF, 0xFFFF_FFFF_FFFF_4FFF));
    let id = UUID::from_random(0, 0);
    assert_eq!(id.into_fields(), (0, 0x4000));
    for _ in 0..8 {
        let (low, high) = UUID::random().into_fields();
        assert_eq!(high & 0xF000, 0x4000);
        assert_eq!(low & 0x8000_0000_0000_0000, 0);
    }
    assert_ne!(UUID::random(), UUID::random());
}

#[test]
fn version_1_fields_fill_the_high_field() {
    let id = UUID::from_v1_fields(0x01020304, 0x0506, 0x1708, 0x1112131415161718);
    assert_eq!(id.into_fields(), (0x1112131415161718, 0x0102030405061708));
    assert_eq!(UUID::from_v1_fields(0, 0, 0, 0), UUID::nil());
    assert_eq!(
        UUID::from_v1_fields(u32::MAX, u16::MAX, u16::MAX, u64::MAX).into_fields(),
        (u64::MAX, u64::MAX)
    );
}
