use shadenbt::data::{
    ByteOrder, DataInputStream, DataOutputStream, DeserializeCopy, Error, OutOfRange, Serializeable,
};
use shadenbt::version::Version;

#[test]
fn from_pair_accepts_majors_from_1_to_256() {
    assert_eq!(Version::from_pair(0, 0), Err(OutOfRange(0)));
    assert_eq!(Version::from_pair(257, 3), Err(OutOfRange(257)));
    assert_eq!(Version::from_pair(u16::MAX, 3), Err(OutOfRange(u16::MAX)));
    let v = Version::from_pair(1, 0).unwrap();
    assert_eq!(v.into_encoded(), 0);
    let v = Version::from_pair(256, 255).unwrap();
    assert_eq!(v.into_encoded(), 0xFFFF);
    let v = Version::from_pair(2, 7).unwrap();
    assert_eq!(v.into_encoded(), 0x0107);
    assert_eq!(v.major(), 2);
    assert_eq!(v.major_encoded(), 1);
    assert_eq!(v.minor(), 7);
}

#[test]
fn from_pair_nonzero_refuses_majors_above_256() {
    assert_eq!(Version::from_pair_nonzero(257, 0), Err(OutOfRange(257)));
    assert_eq!(Version::from_pair_nonzero(256, 1).unwrap().into_encoded(), 0xFF01);
    assert_eq!(Version::from_pair_nonzero(1, 2).unwrap().into_encoded(), 0x0002);
}

#[test]
fn encoded_form_round_trips() {
    for v in [0u16, 1, 2, 4, 0x00FF, 0x0100, 0x1234, 0xFFFF] {
        assert_eq!(Version::from_encoded(v).into_encoded(), v);
    }
    assert_eq!(Version::v1_0().into_encoded(), 0);
    assert_eq!(Version::v256_255().into_encoded(), 0xFFFF);
}

#[test]
fn origin_zeroes_the_minor_part() {
    let v = Version::from_pair(3, 9).unwrap();
    let o = v.origin();
    assert_eq!(o.major(), 3);
    assert_eq!(o.minor(), 0);
    assert_eq!(o, Version::from_pair(3, 0).unwrap());
}

#[test]
fn versions_order_as_their_pairs() {
    let pairs: [(u16, u8); 7] = [(1, 0), (1, 1), (1, 255), (2, 0), (2, 3), (256, 0), (256, 255)];
    for a in pairs {
        for b in pairs {
            let x = Version::from_pair(a.0, a.1).unwrap();
            let y = Version::from_pair(b.0, b.1).unwrap();
            assert_eq!(x < y, a < b);
            assert_eq!(x <= y, a <= b);
            assert_eq!(x > y, a > b);
            assert_eq!(x == y, a == b);
            assert_eq!(x.partial_cmp(&y), a.partial_cmp(&b));
            assert_eq!(x.cmp(&y), a.cmp(&b));
            assert_eq!(x < y, x.into_encoded() < y.into_encoded());
        }
    }
}

#[test]
fn same_origin_is_the_range_from_the_origin() {
    let v = Version::from_pair(2, 3).unwrap();
    let range = v.same_origin();
    assert!(range.contains(&Version::from_pair(2, 0).unwrap()));
    assert!(range.contains(&Version::from_pair(2, 3).unwrap()));
    assert!(!range.contains(&Version::from_pair(2, 4).unwrap()));
    assert!(!range.contains(&Version::from_pair(1, 255).unwrap()));
    assert!(!range.contains(&Version::from_pair(3, 0).unwrap()));
    assert_eq!(*range.start(), v.origin());
    assert_eq!(*range.end(), v);
}

#[test]
fn version_is_two_raw_bytes_in_any_byte_order() {
    let v = Version::from_pair(2, 7).unwrap();
    for order in [ByteOrder::BigEndian, ByteOrder::LittleEndian] {
        let mut out = DataOutputStream::new(Vec::new(), order);
        v.serialize(&mut out).unwrap();
        let bytes = out.into_inner();
        assert_eq!(bytes, vec![1, 7]);
        let mut input = DataInputStream::new(bytes, order);
        assert_eq!(Version::deserialize_copy(&mut input), Ok(v));
    }
    let mut input = DataInputStream::new(vec![1], ByteOrder::BigEndian);
    assert_eq!(Version::deserialize_copy(&mut input), Err(Error::EndOfFile));
}
