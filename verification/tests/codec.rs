use shadenbt::data::{
    validate, ByteOrder, DataInput, DataInputStream, DataOutput, DataOutputStream,
    DeserializeCopy, Deserializeable, Error, Invalid, Serializeable,
};
use shadenbt::endian::{decode_unsigned, encode_unsigned, raw_to_signed, signed_to_raw};

fn written<T: Serializeable>(value: &T, order: ByteOrder) -> Vec<u8> {
    let mut out = DataOutputStream::new(Vec::new(), order);
    value.serialize(&mut out).unwrap();
    out.into_inner()
}

fn read_back<T: DeserializeCopy>(bytes: Vec<u8>, order: ByteOrder) -> Result<T, Error> {
    let mut input = DataInputStream::new(bytes, order);
    T::deserialize_copy(&mut input)
}

#[test]
fn u8_and_i8_take_one_byte() {
    assert_eq!(written(&0xABu8, ByteOrder::BigEndian), vec![0xAB]);
    assert_eq!(written(&0xABu8, ByteOrder::LittleEndian), vec![0xAB]);
    assert_eq!(written(&(-1i8), ByteOrder::BigEndian), vec![0xFF]);
    assert_eq!(written(&(-128i8), ByteOrder::LittleEndian), vec![0x80]);
    assert_eq!(read_back::<i8>(vec![0x80], ByteOrder::BigEndian), Ok(-128));
    assert_eq!(read_back::<i8>(vec![0x7F], ByteOrder::BigEndian), Ok(127));
    assert_eq!(read_back::<u8>(vec![0xFE], ByteOrder::LittleEndian), Ok(0xFE));
}

#[test]
fn u16_bytes_in_both_orders() {
    assert_eq!(written(&0x1234u16, ByteOrder::BigEndian), vec![0x12, 0x34]);
    assert_eq!(written(&0x1234u16, ByteOrder::LittleEndian), vec![0x34, 0x12]);
    assert_eq!(read_back::<u16>(vec![0x12, 0x34], ByteOrder::BigEndian), Ok(0x1234));
    assert_eq!(read_back::<u16>(vec![0x12, 0x34], ByteOrder::LittleEndian), Ok(0x3412));
}

#[test]
fn i16_negative_is_twos_complement() {
    assert_eq!(written(&(-2i16), ByteOrder::BigEndian), vec![0xFF, 0xFE]);
    assert_eq!(written(&(-2i16), ByteOrder::LittleEndian), vec![0xFE, 0xFF]);
    assert_eq!(read_back::<i16>(vec![0xFF, 0xFE], ByteOrder::BigEndian), Ok(-2));
    assert_eq!(read_back::<i16>(vec![0x80, 0x00], ByteOrder::BigEndian), Ok(i16::MIN));
}

#[test]
fn u32_and_i32_bytes() {
    assert_eq!(written(&0x01020304u32, ByteOrder::BigEndian), vec![1, 2, 3, 4]);
    assert_eq!(written(&0x01020304u32, ByteOrder::LittleEndian), vec![4, 3, 2, 1]);
    assert_eq!(written(&(-2i32), ByteOrder::LittleEndian), vec![0xFE, 0xFF, 0xFF, 0xFF]);
    assert_eq!(read_back::<i32>(vec![0xFE, 0xFF, 0xFF, 0xFF], ByteOrder::LittleEndian), Ok(-2));
    assert_eq!(read_back::<i32>(vec![0x80, 0, 0, 0], ByteOrder::BigEndian), Ok(i32::MIN));
    assert_eq!(read_back::<u32>(vec![0xFF, 0xFF, 0xFF, 0xFF], ByteOrder::BigEndian), Ok(u32::MAX));
}

#[test]
fn u64_and_i64_bytes() {
    let v = 0x0102030405060708u64;
    assert_eq!(written(&v, ByteOrder::BigEndian), v.to_be_bytes().to_vec());
    assert_eq!(written(&v, ByteOrder::LittleEndian), v.to_le_bytes().to_vec());
    let w = -0x0102030405060708i64;
    assert_eq!(written(&w, ByteOrder::BigEndian), w.to_be_bytes().to_vec());
    assert_eq!(written(&w, ByteOrder::LittleEndian), w.to_le_bytes().to_vec());
    assert_eq!(read_back::<i64>(w.to_le_bytes().to_vec(), ByteOrder::LittleEndian), Ok(w));
    assert_eq!(read_back::<i64>(i64::MIN.to_be_bytes().to_vec(), ByteOrder::BigEndian), Ok(i64::MIN));
}

#[test]
fn u128_and_i128_bytes() {
    let v = 0x0102030405060708090A0B0C0D0E0F10u128;
    assert_eq!(written(&v, ByteOrder::BigEndian), v.to_be_bytes().to_vec());
    assert_eq!(written(&v, ByteOrder::LittleEndian), v.to_le_bytes().to_vec());
    assert_eq!(written(&u128::MAX, ByteOrder::BigEndian), vec![0xFF; 16]);
    for w in [i128::MIN, -1, 0, 1, i128::MAX, -0x0102030405060708090A0B0C0D0E0F10i128] {
        assert_eq!(written(&w, ByteOrder::BigEndian), w.to_be_bytes().to_vec());
        assert_eq!(written(&w, ByteOrder::LittleEndian), w.to_le_bytes().to_vec());
        assert_eq!(read_back::<i128>(w.to_be_bytes().to_vec(), ByteOrder::BigEndian), Ok(w));
        assert_eq!(read_back::<i128>(w.to_le_bytes().to_vec(), ByteOrder::LittleEndian), Ok(w));
    }
    assert_eq!(read_back::<u128>(v.to_le_bytes().to_vec(), ByteOrder::LittleEndian), Ok(v));
}

#[test]
fn every_integer_reads_back_in_both_orders() {
    for order in [ByteOrder::BigEndian, ByteOrder::LittleEndian] {
        for v in [0u16, 1, 255, 256, 0x8000, u16::MAX] {
            assert_eq!(read_back::<u16>(written(&v, order), order), Ok(v));
        }
        for v in [i16::MIN, -1, 0, 1, i16::MAX] {
            assert_eq!(read_back::<i16>(written(&v, order), order), Ok(v));
        }
        for v in [0u32, 1, 0x8000_0000, u32::MAX] {
            assert_eq!(read_back::<u32>(written(&v, order), order), Ok(v));
        }
        for v in [i32::MIN, -1, 0, 1, i32::MAX] {
            assert_eq!(read_back::<i32>(written(&v, order), order), Ok(v));
        }
        for v in [0u64, 1, 0x8000_0000_0000_0000, u64::MAX] {
            assert_eq!(read_back::<u64>(written(&v, order), order), Ok(v));
        }
        for v in [i64::MIN, -1, 0, 1, i64::MAX] {
            assert_eq!(read_back::<i64>(written(&v, order), order), Ok(v));
        }
        for v in [0u8, 1, 127, 128, 255] {
            assert_eq!(read_back::<u8>(written(&v, order), order), Ok(v));
        }
        for v in [i8::MIN, -1, 0, 1, i8::MAX] {
            assert_eq!(read_back::<i8>(written(&v, order), order), Ok(v));
        }
    }
}

#[test]
fn float_bit_patterns_read_back() {
    for order in [ByteOrder::BigEndian, ByteOrder::LittleEndian] {
        let f = 1.5f32;
        let bits = read_back::<u32>(written(&f.to_bits(), order), order).unwrap();
        assert_eq!(f32::from_bits(bits), f);
        let d = -2.25f64;
        let bits = read_back::<u64>(written(&d.to_bits(), order), order).unwrap();
        assert_eq!(f64::from_bits(bits), d);
    }
    assert_eq!(written(&1.0f32.to_bits(), ByteOrder::BigEndian), vec![0x3F, 0x80, 0, 0]);
}

#[test]
fn truncated_input_is_end_of_file() {
    assert_eq!(read_back::<u8>(vec![], ByteOrder::BigEndian), Err(Error::EndOfFile));
    assert_eq!(read_back::<u16>(vec![1], ByteOrder::BigEndian), Err(Error::EndOfFile));
    assert_eq!(read_back::<i32>(vec![1, 2, 3], ByteOrder::LittleEndian), Err(Error::EndOfFile));
    assert_eq!(read_back::<u64>(vec![0; 7], ByteOrder::BigEndian), Err(Error::EndOfFile));
    assert_eq!(read_back::<i128>(vec![0; 15], ByteOrder::BigEndian), Err(Error::EndOfFile));
}

#[test]
fn deserialize_fills_an_existing_value() {
    let mut input = DataInputStream::new(vec![0x12, 0x34, 0xFF], ByteOrder::BigEndian);
    let mut v = 0u16;
    assert_eq!(v.deserialize(&mut input), Ok(()));
    assert_eq!(v, 0x1234);
    let mut w = 0i8;
    assert_eq!(w.deserialize(&mut input), Ok(()));
    assert_eq!(w, -1);
    assert_eq!(w.deserialize(&mut input), Err(Error::EndOfFile));
}

#[test]
fn read_fully_fills_or_fails() {
    let mut input = DataInputStream::new(vec![1, 2, 3, 4, 5], ByteOrder::BigEndian);
    let mut buffer = [0u8; 3];
    assert_eq!(input.read_fully(&mut buffer), Ok(()));
    assert_eq!(buffer, [1, 2, 3]);
    let mut large = [0u8; 3];
    assert_eq!(input.read_fully(&mut large), Err(Error::EndOfFile));
    let mut input = DataInputStream::new(vec![9, 8], ByteOrder::BigEndian);
    assert_eq!(input.read_byte(), Ok(9));
    assert_eq!(input.read_to_end(), vec![8]);
    assert_eq!(input.read_byte(), Err(Error::EndOfFile));
}

#[test]
fn streams_keep_and_change_their_byte_order() {
    let mut input = DataInputStream::new(vec![0, 1, 0, 1], ByteOrder::BigEndian);
    assert_eq!(input.byte_order(), ByteOrder::BigEndian);
    assert_eq!(u16::deserialize_copy(&mut input), Ok(1));
    input.set_byte_order(ByteOrder::LittleEndian);
    assert_eq!(input.byte_order(), ByteOrder::LittleEndian);
    assert_eq!(u16::deserialize_copy(&mut input), Ok(256));
    let mut out = DataOutputStream::new(vec![7], ByteOrder::LittleEndian);
    1u16.serialize(&mut out).unwrap();
    out.set_byte_order(ByteOrder::BigEndian);
    1u16.serialize(&mut out).unwrap();
    out.write_byte(9).unwrap();
    out.write_bytes(&[10, 11]).unwrap();
    assert_eq!(out.byte_order(), ByteOrder::BigEndian);
    assert_eq!(out.into_inner(), vec![7, 1, 0, 0, 1, 9, 10, 11]);
}

#[test]
fn into_inner_hands_back_what_was_not_read() {
    let mut input = DataInputStream::new(vec![1, 2, 3], ByteOrder::BigEndian);
    assert_eq!(input.read_byte(), Ok(1));
    assert_eq!(input.into_inner(), vec![2, 3]);
}

#[test]
fn unsigned_helpers_agree_with_std() {
    assert_eq!(encode_unsigned(0x010203, 3, ByteOrder::BigEndian), vec![1, 2, 3]);
    assert_eq!(encode_unsigned(0x010203, 3, ByteOrder::LittleEndian), vec![3, 2, 1]);
    assert_eq!(encode_unsigned(0x0102, 0, ByteOrder::BigEndian), Vec::<u8>::new());
    assert_eq!(decode_unsigned(&[1, 2, 3], ByteOrder::BigEndian), 0x010203);
    assert_eq!(decode_unsigned(&[1, 2, 3], ByteOrder::LittleEndian), 0x030201);
    assert_eq!(decode_unsigned(&[], ByteOrder::LittleEndian), 0);
    assert_eq!(signed_to_raw(-1, 2), 0xFFFF);
    assert_eq!(signed_to_raw(-32768, 2), 0x8000);
    assert_eq!(signed_to_raw(5, 2), 5);
    assert_eq!(raw_to_signed(0xFFFF, 2), -1);
    assert_eq!(raw_to_signed(0x7FFF, 2), 32767);
    assert_eq!(raw_to_signed(u128::MAX, 16), -1);
    assert_eq!(signed_to_raw(i128::MIN, 16), 1u128 << 127);
}

#[test]
fn validate_reports_a_refusal_as_validation_error() {
    let ok: Result<u8, Error> = validate(3u8, |v: u8| Ok::<u8, Invalid>(v + 1));
    assert_eq!(ok, Ok(4));
    let bad: Result<u8, Error> = validate(3u8, |_v: u8| Err::<u8, Invalid>(Invalid::BadUtf8));
    assert_eq!(bad, Err(Error::ValidationError(Invalid::BadUtf8)));
    assert_eq!(
        Error::validation_error(Invalid::EmbeddedEnd),
        Error::ValidationError(Invalid::EmbeddedEnd)
    );
}

#[test]
fn bool_is_one_byte_zero_or_one() {
    assert_eq!(written(&true, ByteOrder::BigEndian), vec![1]);
    assert_eq!(written(&false, ByteOrder::LittleEndian), vec![0]);
    assert_eq!(read_back::<bool>(vec![1], ByteOrder::BigEndian), Ok(true));
    assert_eq!(read_back::<bool>(vec![0], ByteOrder::BigEndian), Ok(false));
    assert_eq!(
        read_back::<bool>(vec![2], ByteOrder::BigEndian),
        Err(Error::ValidationError(Invalid::OutOfRange(2)))
    );
    assert_eq!(read_back::<bool>(vec![], ByteOrder::BigEndian), Err(Error::EndOfFile));
    let mut flag = false;
    let mut input = DataInputStream::new(vec![1], ByteOrder::BigEndian);
    assert_eq!(flag.deserialize(&mut input), Ok(()));
    assert!(flag);
}
