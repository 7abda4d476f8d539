use shadenbt::data::{
    ByteOrder, DataInputStream, DataOutputStream, DeserializeCopy, Deserializeable, Error, Invalid,
    Serializeable,
};
use shadenbt::strings::same_text;

#[test]
fn string_is_length_then_utf8() {
    let mut out = DataOutputStream::new(Vec::new(), ByteOrder::BigEndian);
    "Pikachu".to_string().serialize(&mut out).unwrap();
    assert_eq!(out.into_inner(), vec![0, 7, b'P', b'i', b'k', b'a', b'c', b'h', b'u']);
    let mut out = DataOutputStream::new(Vec::new(), ByteOrder::LittleEndian);
    "é".to_string().serialize(&mut out).unwrap();
    assert_eq!(out.into_inner(), vec![2, 0, 0xC3, 0xA9]);
}

#[test]
fn string_reads_back() {
    for order in [ByteOrder::BigEndian, ByteOrder::LittleEndian] {
        for text in ["", "a", "Pikachu", "日本語", "\u{10FFFF}"] {
            let mut out = DataOutputStream::new(Vec::new(), order);
            text.to_string().serialize(&mut out).unwrap();
            let mut input = DataInputStream::new(out.into_inner(), order);
            assert_eq!(String::deserialize_copy(&mut input), Ok(text.to_string()));
            assert_eq!(input.into_inner(), Vec::<u8>::new());
        }
    }
}

#[test]
fn string_deserialize_replaces_the_value() {
    let mut input = DataInputStream::new(vec![0, 2, b'h', b'p', 0xFF], ByteOrder::BigEndian);
    let mut s = "old".to_string();
    assert_eq!(s.deserialize(&mut input), Ok(()));
    assert_eq!(s, "hp");
    assert_eq!(input.into_inner(), vec![0xFF]);
}

#[test]
fn invalid_utf8_is_a_validation_error() {
    let mut input = DataInputStream::new(vec![0, 2, 0xC3, 0x28], ByteOrder::BigEndian);
    assert_eq!(
        String::deserialize_copy(&mut input),
        Err(Error::ValidationError(Invalid::BadUtf8))
    );
    let mut input = DataInputStream::new(vec![0, 1, 0xFF], ByteOrder::BigEndian);
    assert_eq!(
        String::deserialize_copy(&mut input),
        Err(Error::ValidationError(Invalid::BadUtf8))
    );
}

#[test]
fn truncated_string_is_end_of_file() {
    let mut input = DataInputStream::new(vec![0], ByteOrder::BigEndian);
    assert_eq!(String::deserialize_copy(&mut input), Err(Error::EndOfFile));
    let mut input = DataInputStream::new(vec![0, 3, b'a', b'b'], ByteOrder::BigEndian);
    assert_eq!(String::deserialize_copy(&mut input), Err(Error::EndOfFile));
}

#[test]
fn string_of_65535_bytes_is_the_longest() {
    let longest = "x".repeat(65535);
    let mut out = DataOutputStream::new(Vec::new(), ByteOrder::BigEndian);
    assert_eq!(longest.serialize(&mut out), Ok(()));
    let bytes = out.into_inner();
    assert_eq!(bytes.len(), 65537);
    assert_eq!(&bytes[..2], &[0xFF, 0xFF]);
    let too_long = "x".repeat(65536);
    let mut out = DataOutputStream::new(vec![1], ByteOrder::BigEndian);
    assert_eq!(
        too_long.serialize(&mut out),
        Err(Error::ValidationError(Invalid::OutOfRange(65536)))
    );
    assert_eq!(out.into_inner(), vec![1]);
}

#[test]
fn same_text_compares_characters() {
    assert!(same_text("hp", "hp"));
    assert!(same_text("", ""));
    assert!(!same_text("hp", "hP"));
    assert!(!same_text("hp", "hpp"));
    assert!(!same_text("é", "e"));
}
