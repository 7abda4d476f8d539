use shadenbt::data::{
    ByteOrder, DataInputStream, DataOutputStream, DeserializeCopy, Deserializeable, Error, Invalid,
    Serializeable,
};
use shadenbt::nbt::array::NbtArray;
use shadenbt::nbt::{
    read_compound, read_list, read_tag, write_compound, write_list, write_tag, NbtCompound,
    NbtList, NbtTag, TagType,
};
use shadenbt::uuid::UUID;

fn all_types() -> [TagType; 16] {
    [
        TagType::End,
        TagType::Byte,
        TagType::Short,
        TagType::Int,
        TagType::Long,
        TagType::Float,
        TagType::Double,
        TagType::ByteArray,
        TagType::String,
        TagType::List,
        TagType::Compound,
        TagType::IntArray,
        TagType::LongArray,
        TagType::FloatArray,
        TagType::DoubleArray,
        TagType::Uuid,
    ]
}

fn tag_bytes(tag: &NbtTag, order: ByteOrder) -> Vec<u8> {
    let mut out = DataOutputStream::new(Vec::new(), order);
    write_tag(tag, &mut out).unwrap();
    out.into_inner()
}

fn nested() -> NbtCompound {
    let mut inner = NbtCompound::new();
    inner.insert("id".to_string(), NbtTag::Uuid(UUID::new(7, 9)));
    inner.insert("ratio".to_string(), NbtTag::Double(0.25f64.to_bits()));
    let mut list = NbtList::new();
    list.insert(NbtTag::Compound(inner)).unwrap();
    list.insert(NbtTag::Compound(NbtCompound::new())).unwrap();
    let mut lists = NbtList::new();
    let mut numbers = NbtList::new();
    numbers.insert(NbtTag::Long(-5)).unwrap();
    numbers.insert(NbtTag::Long(i64::MAX)).unwrap();
    lists.insert(NbtTag::List(numbers)).unwrap();
    lists.insert(NbtTag::List(NbtList::new())).unwrap();
    let mut root = NbtCompound::new();
    root.insert("byte".to_string(), NbtTag::Byte(200));
    root.insert("short".to_string(), NbtTag::Short(-3));
    root.insert("int".to_string(), NbtTag::Int(i32::MIN));
    root.insert("long".to_string(), NbtTag::Long(1 << 40));
    root.insert("float".to_string(), NbtTag::Float(1.5f32.to_bits()));
    root.insert("bytes".to_string(), NbtTag::ByteArray(NbtArray::from(vec![1u8, 2, 255])));
    root.insert("ints".to_string(), NbtTag::IntArray(NbtArray::from(vec![-1i32, 0, 1])));
    root.insert("longs".to_string(), NbtTag::LongArray(NbtArray::from(vec![i64::MIN])));
    root.insert(
        "floats".to_string(),
        NbtTag::FloatArray(NbtArray::from(vec![0.5f32.to_bits(), 2.0f32.to_bits()])),
    );
    root.insert("doubles".to_string(), NbtTag::DoubleArray(NbtArray::from(Vec::<u64>::new())));
    root.insert("text".to_string(), NbtTag::String("Thunderbolt".to_string()));
    root.insert("list".to_string(), NbtTag::List(list));
    root.insert("lists".to_string(), NbtTag::List(lists));
    root
}

#[test]
fn tag_type_codes_are_0_to_15() {
    for (code, ty) in all_types().iter().enumerate() {
        assert_eq!(ty.code(), code as u8);
        assert_eq!(TagType::from_code(code as u8), Some(*ty));
    }
    for code in 16..=255u8 {
        assert_eq!(TagType::from_code(code), None);
    }
    assert_eq!(TagType::default(), TagType::End);
}

#[test]
fn unknown_tag_type_is_a_validation_error() {
    let mut input = DataInputStream::new(vec![16], ByteOrder::BigEndian);
    assert_eq!(
        TagType::deserialize_copy(&mut input),
        Err(Error::ValidationError(Invalid::UnknownTagType(16)))
    );
    let mut input = DataInputStream::new(vec![], ByteOrder::BigEndian);
    assert_eq!(TagType::deserialize_copy(&mut input), Err(Error::EndOfFile));
    let mut input = DataInputStream::new(vec![15], ByteOrder::BigEndian);
    assert_eq!(TagType::deserialize_copy(&mut input), Ok(TagType::Uuid));
    let mut out = DataOutputStream::new(Vec::new(), ByteOrder::BigEndian);
    TagType::Compound.serialize(&mut out).unwrap();
    assert_eq!(out.into_inner(), vec![10]);
}

#[test]
fn default_for_tag_is_the_zero_of_each_type() {
    for ty in all_types() {
        assert_eq!(NbtTag::default_for_tag(ty).tag_type(), ty);
    }
    assert_eq!(NbtTag::default_for_tag(TagType::Long), NbtTag::Long(0));
    assert_eq!(NbtTag::default_for_tag(TagType::Float), NbtTag::Float(0.0f32.to_bits()));
    assert_eq!(NbtTag::default_for_tag(TagType::String), NbtTag::String(String::new()));
    assert_eq!(NbtTag::default_for_tag(TagType::Uuid), NbtTag::Uuid(UUID::nil()));
    assert_eq!(NbtTag::default_for_tag(TagType::List), NbtTag::List(NbtList::new()));
    assert_eq!(NbtTag::default_for_tag(TagType::End), NbtTag::End);
}

#[test]
fn int_array_is_count_then_elements() {
    let array = NbtArray::from(vec![1i32, 2, 3]);
    let mut out = DataOutputStream::new(Vec::new(), ByteOrder::BigEndian);
    array.serialize(&mut out).unwrap();
    assert_eq!(out.into_inner(), vec![0, 0, 0, 3, 0, 0, 0, 1, 0, 0, 0, 2, 0, 0, 0, 3]);
    let tag = NbtTag::IntArray(NbtArray::from(vec![1i32, 2, 3]));
    assert_eq!(
        tag_bytes(&tag, ByteOrder::BigEndian),
        vec![0, 0, 0, 3, 0, 0, 0, 1, 0, 0, 0, 2, 0, 0, 0, 3]
    );
    assert_eq!(
        tag_bytes(&tag, ByteOrder::LittleEndian),
        vec![3, 0, 0, 0, 1, 0, 0, 0, 2, 0, 0, 0, 3, 0, 0, 0]
    );
}

#[test]
fn array_reads_back_and_refuses_a_negative_count() {
    let bytes = vec![0, 0, 0, 2, 0xFF, 0xFF, 0xFF, 0xFF, 0, 0, 0, 7, 9];
    let mut input = DataInputStream::new(bytes, ByteOrder::BigEndian);
    let array = NbtArray::<i32>::deserialize_copy(&mut input).unwrap();
    assert_eq!(array.as_slice(), &[-1, 7]);
    assert_eq!(input.into_inner(), vec![9]);
    let mut input = DataInputStream::new(vec![0xFF, 0xFF, 0xFF, 0xFE], ByteOrder::BigEndian);
    assert_eq!(
        NbtArray::<u8>::deserialize_copy(&mut input),
        Err(Error::ValidationError(Invalid::OutOfRange(-2)))
    );
    let mut input = DataInputStream::new(vec![0, 0, 0, 2, 1], ByteOrder::BigEndian);
    assert_eq!(NbtArray::<u8>::deserialize_copy(&mut input), Err(Error::EndOfFile));
    let mut input = DataInputStream::new(vec![0x7F, 0xFF, 0xFF, 0xFF], ByteOrder::BigEndian);
    assert_eq!(NbtArray::<i64>::deserialize_copy(&mut input), Err(Error::EndOfFile));
}

#[test]
fn array_access_and_owning_iteration() {
    let mut array = NbtArray::from(vec![10u8, 20, 30]);
    assert_eq!(array.len(), 3);
    assert_eq!(*array.get(1), 20);
    array.set(1, 21);
    assert_eq!(array.as_slice(), &[10, 21, 30]);
    assert_eq!(array.duplicate(), array);
    let mut iter = array.into_iter();
    assert_eq!(iter.len(), 3);
    assert_eq!(iter.next(), Some(10));
    assert_eq!(iter.next(), Some(21));
    assert_eq!(iter.len(), 1);
    assert_eq!(iter.next(), Some(30));
    assert_eq!(iter.next(), None);
    assert_eq!(iter.next(), None);
    let strings = NbtArray::from(vec!["a".to_string(), "b".to_string()]);
    let mut iter = strings.into_iter();
    assert_eq!(iter.next(), Some("a".to_string()));
    let empty = NbtArray::<i32>::default();
    assert_eq!(empty.len(), 0);
    assert_eq!(empty.into_vec(), Vec::<i32>::new());
    assert_eq!(NbtArray::from_vec(vec![4u8]).into_vec(), vec![4]);
}

#[test]
fn list_takes_the_type_of_its_first_tag() {
    let mut list = NbtList::new();
    assert_eq!(list.len(), 0);
    assert_eq!(list.element_type(), TagType::End);
    assert!(list.insert(NbtTag::Short(1)).is_ok());
    assert_eq!(list.element_type(), TagType::Short);
    assert!(list.insert(NbtTag::Short(2)).is_ok());
    assert_eq!(list.len(), 2);
    assert_eq!(*list.get(1), NbtTag::Short(2));
}

#[test]
fn list_hands_back_a_tag_of_another_type() {
    let mut list = NbtList::new();
    list.insert(NbtTag::Short(1)).unwrap();
    list.insert(NbtTag::Short(2)).unwrap();
    let refused = list.insert(NbtTag::String("x".to_string())).unwrap_err();
    assert_eq!(refused.expected_tag(), TagType::Short);
    assert_eq!(refused.into_tag(), NbtTag::String("x".to_string()));
    assert_eq!(list.len(), 2);
    assert_eq!(list.element_type(), TagType::Short);
    assert_eq!(*list.get(0), NbtTag::Short(1));
    assert_eq!(*list.get(1), NbtTag::Short(2));
    let refused = list.insert(NbtTag::Int(1)).unwrap_err();
    assert_eq!(refused.into_tag(), NbtTag::Int(1));
    assert_eq!(list.len(), 2);
}

#[test]
fn list_is_type_count_elements() {
    let mut list = NbtList::new();
    list.insert(NbtTag::String("Thunderbolt".to_string())).unwrap();
    list.insert(NbtTag::String("QuickAttack".to_string())).unwrap();
    let mut out = DataOutputStream::new(Vec::new(), ByteOrder::BigEndian);
    write_list(&list, &mut out).unwrap();
    let mut expected = vec![8, 0, 0, 0, 2, 0, 11];
    expected.extend_from_slice(b"Thunderbolt");
    expected.extend_from_slice(&[0, 11]);
    expected.extend_from_slice(b"QuickAttack");
    let bytes = out.into_inner();
    assert_eq!(bytes, expected);
    let mut input = DataInputStream::new(bytes, ByteOrder::BigEndian);
    assert_eq!(read_list(&mut input), Ok(list));
    let mut out = DataOutputStream::new(Vec::new(), ByteOrder::BigEndian);
    NbtList::new().serialize(&mut out).unwrap();
    assert_eq!(out.into_inner(), vec![0, 0, 0, 0, 0]);
}

#[test]
fn list_decoding_refuses_bad_input() {
    let mut input = DataInputStream::new(vec![1, 0xFF, 0xFF, 0xFF, 0xFF], ByteOrder::BigEndian);
    assert_eq!(
        NbtList::deserialize_copy(&mut input),
        Err(Error::ValidationError(Invalid::OutOfRange(-1)))
    );
    let mut input = DataInputStream::new(vec![99, 0, 0, 0, 0], ByteOrder::BigEndian);
    assert_eq!(
        NbtList::deserialize_copy(&mut input),
        Err(Error::ValidationError(Invalid::UnknownTagType(99)))
    );
    let mut input = DataInputStream::new(vec![1, 0, 0, 0, 2, 5], ByteOrder::BigEndian);
    assert_eq!(NbtList::deserialize_copy(&mut input), Err(Error::EndOfFile));
    let mut input = DataInputStream::new(vec![1, 0, 0], ByteOrder::BigEndian);
    assert_eq!(NbtList::deserialize_copy(&mut input), Err(Error::EndOfFile));
    let mut input = DataInputStream::new(vec![0, 0, 0, 0, 3, 7], ByteOrder::BigEndian);
    let list = NbtList::deserialize_copy(&mut input).unwrap();
    assert_eq!(list.len(), 3);
    assert_eq!(*list.get(2), NbtTag::End);
    assert_eq!(input.into_inner(), vec![7]);
}

#[test]
fn compound_insert_overwrites_and_hands_back() {
    let mut compound = NbtCompound::new();
    assert_eq!(compound.len(), 0);
    assert_eq!(compound.insert("hp".to_string(), NbtTag::Short(35)), None);
    assert_eq!(compound.insert("mp".to_string(), NbtTag::Short(5)), None);
    assert_eq!(compound.insert("hp".to_string(), NbtTag::Int(40)), Some(NbtTag::Short(35)));
    assert_eq!(compound.len(), 2);
    assert_eq!(compound.get("hp"), Some(&NbtTag::Int(40)));
    assert_eq!(compound.get("mp"), Some(&NbtTag::Short(5)));
    assert_eq!(compound.get("xp"), None);
    assert_eq!(compound.get(""), None);
}

#[test]
fn compound_is_triples_then_end() {
    let mut compound = NbtCompound::new();
    compound.insert("hp".to_string(), NbtTag::Short(35));
    compound.insert("b".to_string(), NbtTag::Byte(1));
    let mut out = DataOutputStream::new(Vec::new(), ByteOrder::BigEndian);
    write_compound(&compound, &mut out).unwrap();
    let bytes = out.into_inner();
    assert_eq!(bytes, vec![2, 0, 2, b'h', b'p', 0, 35, 1, 0, 1, b'b', 1, 0]);
    let mut out = DataOutputStream::new(Vec::new(), ByteOrder::LittleEndian);
    write_compound(&compound, &mut out).unwrap();
    assert_eq!(out.into_inner(), vec![2, 2, 0, b'h', b'p', 35, 0, 1, 1, 0, b'b', 1, 0]);
    let mut out = DataOutputStream::new(Vec::new(), ByteOrder::BigEndian);
    NbtCompound::new().serialize(&mut out).unwrap();
    assert_eq!(out.into_inner(), vec![0]);
}

#[test]
fn compound_refuses_an_end_entry_on_write() {
    let mut compound = NbtCompound::new();
    compound.insert("a".to_string(), NbtTag::Byte(1));
    compound.insert("end".to_string(), NbtTag::End);
    let mut out = DataOutputStream::new(Vec::new(), ByteOrder::BigEndian);
    assert_eq!(
        write_compound(&compound, &mut out),
        Err(Error::ValidationError(Invalid::EmbeddedEnd))
    );
    let mut long_name = NbtCompound::new();
    long_name.insert("n".repeat(65536), NbtTag::Byte(1));
    let mut out = DataOutputStream::new(Vec::new(), ByteOrder::BigEndian);
    assert_eq!(
        write_compound(&long_name, &mut out),
        Err(Error::ValidationError(Invalid::OutOfRange(65536)))
    );
}

#[test]
fn compound_decoding_keeps_the_later_of_two_entries() {
    let bytes = vec![1, 0, 1, b'a', 5, 1, 0, 1, b'b', 6, 1, 0, 1, b'a', 7, 0, 42];
    let mut input = DataInputStream::new(bytes, ByteOrder::BigEndian);
    let compound = read_compound(&mut input).unwrap();
    assert_eq!(compound.len(), 2);
    assert_eq!(compound.get("a"), Some(&NbtTag::Byte(7)));
    assert_eq!(compound.get("b"), Some(&NbtTag::Byte(6)));
    assert_eq!(input.into_inner(), vec![42]);
}

#[test]
fn compound_decoding_refuses_bad_input() {
    let mut input = DataInputStream::new(vec![], ByteOrder::BigEndian);
    assert_eq!(read_compound(&mut input), Err(Error::EndOfFile));
    let mut input = DataInputStream::new(vec![1, 0, 1, b'a', 5], ByteOrder::BigEndian);
    assert_eq!(read_compound(&mut input), Err(Error::EndOfFile));
    let mut input = DataInputStream::new(vec![77, 0, 0], ByteOrder::BigEndian);
    assert_eq!(
        read_compound(&mut input),
        Err(Error::ValidationError(Invalid::UnknownTagType(77)))
    );
    let mut input = DataInputStream::new(vec![1, 0, 1, 0xFF, 5, 0], ByteOrder::BigEndian);
    assert_eq!(read_compound(&mut input), Err(Error::ValidationError(Invalid::BadUtf8)));
}

#[test]
fn compound_deserialize_clears_what_was_there() {
    let mut compound = NbtCompound::new();
    compound.insert("old".to_string(), NbtTag::Byte(1));
    let mut input = DataInputStream::new(vec![1, 0, 1, b'n', 9, 0], ByteOrder::BigEndian);
    assert_eq!(compound.deserialize(&mut input), Ok(()));
    assert_eq!(compound.len(), 1);
    assert_eq!(compound.get("old"), None);
    assert_eq!(compound.get("n"), Some(&NbtTag::Byte(9)));
}

#[test]
fn tag_deserialize_reads_the_type_it_holds() {
    let mut tag = NbtTag::default_for_tag(TagType::Short);
    let mut input = DataInputStream::new(vec![0, 35, 0, 36], ByteOrder::BigEndian);
    assert_eq!(tag.deserialize(&mut input), Ok(()));
    assert_eq!(tag, NbtTag::Short(35));
    let mut end = NbtTag::End;
    assert_eq!(end.deserialize(&mut input), Ok(()));
    assert_eq!(end, NbtTag::End);
    assert_eq!(input.into_inner(), vec![0, 36]);
}

#[test]
fn scalar_tags_have_their_sizes() {
    assert_eq!(tag_bytes(&NbtTag::End, ByteOrder::BigEndian).len(), 0);
    assert_eq!(tag_bytes(&NbtTag::Byte(1), ByteOrder::BigEndian), vec![1]);
    assert_eq!(tag_bytes(&NbtTag::Short(35), ByteOrder::BigEndian), vec![0, 35]);
    assert_eq!(tag_bytes(&NbtTag::Int(1), ByteOrder::BigEndian), vec![0, 0, 0, 1]);
    assert_eq!(tag_bytes(&NbtTag::Long(1), ByteOrder::LittleEndian), vec![1, 0, 0, 0, 0, 0, 0, 0]);
    assert_eq!(
        tag_bytes(&NbtTag::Float(1.0f32.to_bits()), ByteOrder::BigEndian),
        1.0f32.to_be_bytes().to_vec()
    );
    assert_eq!(
        tag_bytes(&NbtTag::Double(1.0f64.to_bits()), ByteOrder::LittleEndian),
        1.0f64.to_le_bytes().to_vec()
    );
    assert_eq!(tag_bytes(&NbtTag::Uuid(UUID::new(1, 2)), ByteOrder::BigEndian).len(), 16);
}

#[test]
fn nested_compound_reads_back_in_both_orders() {
    for order in [ByteOrder::BigEndian, ByteOrder::LittleEndian] {
        let root = nested();
        let mut out = DataOutputStream::new(Vec::new(), order);
        root.serialize(&mut out).unwrap();
        let bytes = out.into_inner();
        let mut input = DataInputStream::new(bytes.clone(), order);
        let back = NbtCompound::deserialize_copy(&mut input).unwrap();
        assert_eq!(back, root);
        assert_eq!(back.len(), 13);
        assert_eq!(input.into_inner(), Vec::<u8>::new());
        let mut out = DataOutputStream::new(Vec::new(), order);
        back.serialize(&mut out).unwrap();
        assert_eq!(out.into_inner(), bytes);
    }
}

#[test]
fn every_tag_reads_back_as_its_type() {
    let root = nested();
    for name in ["byte", "short", "int", "long", "float", "bytes", "ints", "text", "list", "lists"]
    {
        let tag = root.get(name).unwrap();
        for order in [ByteOrder::BigEndian, ByteOrder::LittleEndian] {
            let bytes = tag_bytes(tag, order);
            let mut input = DataInputStream::new(bytes, order);
            let back = read_tag(tag.tag_type(), &mut input).unwrap();
            assert_eq!(&back, tag);
        }
    }
}

#[test]
fn duplicates_hold_the_same() {
    let root = nested();
    let copy = root.duplicate();
    assert_eq!(copy, root);
    let clone = root.clone();
    assert_eq!(clone, root);
    let tag = NbtTag::Compound(root);
    assert_eq!(tag.clone(), tag);
    assert_eq!(tag.duplicate(), tag);
    let mut list = NbtList::new();
    list.insert(NbtTag::String("a".to_string())).unwrap();
    let mut copy = list.clone();
    copy.insert(NbtTag::String("b".to_string())).unwrap();
    assert_eq!(list.len(), 1);
    assert_eq!(copy.len(), 2);
}

#[test]
fn refused_list_heads_leave_the_input_after_what_was_read() {
    let mut input =
        DataInputStream::new(vec![0x02, 0xFF, 0xFF, 0xFF, 0xFF, 0x00, 0x01], ByteOrder::BigEndian);
    assert_eq!(
        NbtList::deserialize_copy(&mut input),
        Err(Error::ValidationError(Invalid::OutOfRange(-1)))
    );
    assert_eq!(input.into_inner(), vec![0x00, 0x01]);
    let mut input = DataInputStream::new(vec![0x10, 0, 0, 0, 0], ByteOrder::BigEndian);
    assert_eq!(
        read_list(&mut input),
        Err(Error::ValidationError(Invalid::UnknownTagType(16)))
    );
    assert_eq!(input.into_inner(), vec![0, 0, 0, 0]);
    let mut list = NbtList::new();
    list.insert(NbtTag::Byte(1)).unwrap();
    let mut input = DataInputStream::new(vec![1, 0xFF, 0xFF, 0xFF, 0xFE], ByteOrder::BigEndian);
    assert!(list.deserialize(&mut input).is_err());
    assert_eq!(list.len(), 1);
    assert_eq!(*list.get(0), NbtTag::Byte(1));
}

#[test]
fn array_keeps_its_elements_where_reading_fails() {
    let mut array = NbtArray::from(vec![7i32, 8]);
    let mut input = DataInputStream::new(vec![0xFF, 0xFF, 0xFF, 0xFF, 1], ByteOrder::BigEndian);
    assert_eq!(
        array.deserialize(&mut input),
        Err(Error::ValidationError(Invalid::OutOfRange(-1)))
    );
    assert_eq!(array.as_slice(), &[7, 8]);
    let mut input = DataInputStream::new(vec![0, 0, 0, 2, 0, 0, 0, 1], ByteOrder::BigEndian);
    assert_eq!(array.deserialize(&mut input), Err(Error::EndOfFile));
    assert_eq!(array.as_slice(), &[7, 8]);
    let mut input = DataInputStream::new(vec![0, 0, 0, 1, 0, 0, 0, 9], ByteOrder::BigEndian);
    assert_eq!(array.deserialize(&mut input), Ok(()));
    assert_eq!(array.as_slice(), &[9]);
}
