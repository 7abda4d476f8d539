//! The tag model: typed values, homogeneous lists and named compounds.
//!
//! Every value carries one of sixteen tag types. On the wire a value has no
//! marker of its own: a list names the type of its elements once, and a
//! compound names the type of each entry before the entry's name.

pub mod array;

use crate::data::{
    lemma_prepend_one, prepend, ByteOrder, Codec, DataInput, DataOutput, Decoded, DeserializeCopy,
        Deserializeable,
    Error, Invalid, Serializeable,
};
use crate::nbt::array::NbtArray;
use crate::primitive::{
    byte_decoding, i16_decoding, i32_decoding, i64_decoding, u32_decoding, u64_decoding,
};
use crate::sequence::{
    count_decoding, count_encoding, counted_decoding, counted_encoding,
    lemma_count_decoding_fits, lemma_count_round_trip, lemma_counted_decoding_fits,
    lemma_counted_round_trip, lemma_prefix_chain, lemma_prefix_of_sum, lemma_prepend_nothing,
    read_count, write_count,
};
use crate::strings::{
    lemma_string_round_trip, read_string, same_text, string_decoding, string_encoding,
};
use crate::uuid::{lemma_uuid_round_trip, uuid_bytes, uuid_decoding, UUID};
use vstd::prelude::*;

verus! {

/// The type of a tag.
#[derive(Copy, Clone, Debug, PartialEq, Eq, Hash, Structural)]
pub enum TagType {
    /// The mark after the last entry of a compound.
    End,
    /// One byte.
    Byte,
    /// A signed 16-bit number.
    Short,
    /// A signed 32-bit number.
    Int,
    /// A signed 64-bit number.
    Long,
    /// A 32-bit floating point number.
    Float,
    /// A 64-bit floating point number.
    Double,
    /// An array of bytes.
    ByteArray,
    /// A string.
    String,
    /// A list of tags of one type.
    List,
    /// Named tags.
    Compound,
    /// An array of signed 32-bit numbers.
    IntArray,
    /// An array of signed 64-bit numbers.
    LongArray,
    /// An array of 32-bit floating point numbers.
    FloatArray,
    /// An array of 64-bit floating point numbers.
    DoubleArray,
    /// A universally unique identifier.
    Uuid,
}

impl TagType {
    /// The byte that stands for the type on the wire.
    pub open spec fn code_of(self) -> u8 {
        match self {
            TagType::End => 0,
            TagType::Byte => 1,
            TagType::Short => 2,
            TagType::Int => 3,
            TagType::Long => 4,
            TagType::Float => 5,
            TagType::Double => 6,
            TagType::ByteArray => 7,
            TagType::String => 8,
            TagType::List => 9,
            TagType::Compound => 10,
            TagType::IntArray => 11,
            TagType::LongArray => 12,
            TagType::FloatArray => 13,
            TagType::DoubleArray => 14,
            TagType::Uuid => 15,
        }
    }

    /// The type that `code` stands for, if it stands for one.
    pub open spec fn of_code(code: u8) -> Option<TagType> {
        if code == 0 {
            Some(TagType::End)
        } else if code == 1 {
            Some(TagType::Byte)
        } else if code == 2 {
            Some(TagType::Short)
        } else if code == 3 {
            Some(TagType::Int)
        } else if code == 4 {
            Some(TagType::Long)
        } else if code == 5 {
            Some(TagType::Float)
        } else if code == 6 {
            Some(TagType::Double)
        } else if code == 7 {
            Some(TagType::ByteArray)
        } else if code == 8 {
            Some(TagType::String)
        } else if code == 9 {
            Some(TagType::List)
        } else if code == 10 {
            Some(TagType::Compound)
        } else if code == 11 {
            Some(TagType::IntArray)
        } else if code == 12 {
            Some(TagType::LongArray)
        } else if code == 13 {
            Some(TagType::FloatArray)
        } else if code == 14 {
            Some(TagType::DoubleArray)
        } else if code == 15 {
            Some(TagType::Uuid)
        } else {
            None
        }
    }

    /// The codes are those from 0 to 15, and each stands for one type.
    pub proof fn lemma_codes(self, code: u8)
        ensures
            self.code_of() <= 15,
            TagType::of_code(self.code_of()) == Some(self),
            TagType::of_code(code) is Some <==> code <= 15,
            TagType::of_code(code) is Some ==> TagType::of_code(code)->Some_0.code_of() == code,
    {
    }

    /// The byte that stands for the type on the wire.
    pub fn code(self) -> (code: u8)
        ensures
            code == self.code_of(),
    {
        match self {
            TagType::End => 0,
            TagType::Byte => 1,
            TagType::Short => 2,
            TagType::Int => 3,
            TagType::Long => 4,
            TagType::Float => 5,
            TagType::Double => 6,
            TagType::ByteArray => 7,
            TagType::String => 8,
            TagType::List => 9,
            TagType::Compound => 10,
            TagType::IntArray => 11,
            TagType::LongArray => 12,
            TagType::FloatArray => 13,
            TagType::DoubleArray => 14,
            TagType::Uuid => 15,
        }
    }

    /// The type that `code` stands for, if it stands for one.
    pub fn from_code(code: u8) -> (ty: Option<TagType>)
        ensures
            ty == TagType::of_code(code),
    {
        match code {
            0 => Some(TagType::End),
            1 => Some(TagType::Byte),
            2 => Some(TagType::Short),
            3 => Some(TagType::Int),
            4 => Some(TagType::Long),
            5 => Some(TagType::Float),
            6 => Some(TagType::Double),
            7 => Some(TagType::ByteArray),
            8 => Some(TagType::String),
            9 => Some(TagType::List),
            10 => Some(TagType::Compound),
            11 => Some(TagType::IntArray),
            12 => Some(TagType::LongArray),
            13 => Some(TagType::FloatArray),
            14 => Some(TagType::DoubleArray),
            15 => Some(TagType::Uuid),
            _ => None,
        }
    }
}

impl Default for TagType {
    fn default() -> (ty: Self)
        ensures
            ty == TagType::End,
    {
        TagType::End
    }
}

impl DeepView for TagType {
    type V = TagType;

    open spec fn deep_view(&self) -> TagType {
        *self
    }
}

/// What reading a tag type makes of `bytes`: one byte, refused where it is
/// not the code of a type.
pub open spec fn tag_type_decoding(bytes: Seq<u8>) -> Decoded<TagType> {
    if bytes.len() < 1 {
        Decoded::Failed(Error::EndOfFile)
    } else {
        match TagType::of_code(bytes[0]) {
            Some(ty) => Decoded::Value(ty, 1),
            None => Decoded::Failed(Error::ValidationError(Invalid::UnknownTagType(bytes[0]))),
        }
    }
}

/// Reads a tag type. A byte that is the code of no type is refused after it
/// was read.
pub fn read_tag_type<R: DataInput>(input: &mut R) -> (r: Result<TagType, Error>)
    ensures
        final(input).order() == old(input).order(),
        match tag_type_decoding(old(input).remaining()) {
            Decoded::Value(ty, used) => r is Ok && r->Ok_0 == ty
                && final(input).remaining() == old(input).remaining().skip(used as int),
            Decoded::Failed(e) => r is Err && r->Err_0 == e,
        },
        tag_type_decoding(old(input).remaining()) matches Decoded::Failed(
            Error::ValidationError(_),
        ) ==> final(input).remaining() == old(input).remaining().skip(1),
{
    match input.read_byte() {
        Ok(code) => match TagType::from_code(code) {
            Some(ty) => Ok(ty),
            None => Err(Error::validation_error(Invalid::UnknownTagType(code))),
        },
        Err(e) => Err(e),
    }
}

impl Serializeable for TagType {
    open spec fn encoding(value: TagType, order: ByteOrder) -> Result<Seq<u8>, Invalid> {
        Ok(seq![value.code_of()])
    }

    fn serialize<W: DataOutput>(&self, output: &mut W) -> (r: Result<(), Error>) {
        let r = output.write_byte(self.code());
        assert(output.written() =~= old(output).written() + seq![self.code_of()]);
        r
    }
}

impl Deserializeable for TagType {
    open spec fn decoding_into(current: TagType, bytes: Seq<u8>, order: ByteOrder) -> Decoded<
        TagType,
    > {
        tag_type_decoding(bytes)
    }

    fn deserialize<R: DataInput>(&mut self, input: &mut R) -> (r: Result<(), Error>) {
        match read_tag_type(input) {
            Ok(ty) => {
                *self = ty;
                Ok(())
            },
            Err(e) => Err(e),
        }
    }
}

impl DeserializeCopy for TagType {
    open spec fn decoding(bytes: Seq<u8>, order: ByteOrder) -> Decoded<TagType> {
        tag_type_decoding(bytes)
    }

    proof fn lemma_decoding_fits(bytes: Seq<u8>, order: ByteOrder) {
    }

    fn deserialize_copy<R: DataInput>(input: &mut R) -> (r: Result<Self, Error>) {
        read_tag_type(input)
    }
}

impl Codec for TagType {
    open spec fn valid(value: TagType) -> bool {
        true
    }

    proof fn lemma_round_trip(value: TagType, order: ByteOrder, rest: Seq<u8>) {
    }
}

/// What a tag holds.
pub enum TagValue {
    End,
    Byte(u8),
    Short(i16),
    Int(i32),
    Long(i64),
    /// The bit pattern of a 32-bit floating point number.
    Float(u32),
    /// The bit pattern of a 64-bit floating point number.
    Double(u64),
    ByteArray(Seq<u8>),
    String(Seq<char>),
    List(ListValue),
    Compound(CompoundValue),
    IntArray(Seq<i32>),
    LongArray(Seq<i64>),
    /// The bit patterns of 32-bit floating point numbers.
    FloatArray(Seq<u32>),
    /// The bit patterns of 64-bit floating point numbers.
    DoubleArray(Seq<u64>),
    Uuid(UUID),
}

/// What a list holds: the type of its elements, and the elements.
pub struct ListValue {
    pub tag: TagType,
    pub elements: Seq<TagValue>,
}

/// What a compound holds: names with their tags, in the order in which the
/// names came in.
pub struct CompoundValue {
    pub entries: Seq<(Seq<char>, TagValue)>,
}

impl TagValue {
    /// The type of the tag.
    pub open spec fn tag_type(self) -> TagType {
        match self {
            TagValue::End => TagType::End,
            TagValue::Byte(_) => TagType::Byte,
            TagValue::Short(_) => TagType::Short,
            TagValue::Int(_) => TagType::Int,
            TagValue::Long(_) => TagType::Long,
            TagValue::Float(_) => TagType::Float,
            TagValue::Double(_) => TagType::Double,
            TagValue::ByteArray(_) => TagType::ByteArray,
            TagValue::String(_) => TagType::String,
            TagValue::List(_) => TagType::List,
            TagValue::Compound(_) => TagType::Compound,
            TagValue::IntArray(_) => TagType::IntArray,
            TagValue::LongArray(_) => TagType::LongArray,
            TagValue::FloatArray(_) => TagType::FloatArray,
            TagValue::DoubleArray(_) => TagType::DoubleArray,
            TagValue::Uuid(_) => TagType::Uuid,
        }
    }

    /// The zero or empty value of the given type.
    pub open spec fn default_for(ty: TagType) -> TagValue {
        match ty {
            TagType::End => TagValue::End,
            TagType::Byte => TagValue::Byte(0),
            TagType::Short => TagValue::Short(0),
            TagType::Int => TagValue::Int(0),
            TagType::Long => TagValue::Long(0),
            TagType::Float => TagValue::Float(0),
            TagType::Double => TagValue::Double(0),
            TagType::ByteArray => TagValue::ByteArray(Seq::empty()),
            TagType::String => TagValue::String(Seq::empty()),
            TagType::List => TagValue::List(ListValue { tag: TagType::End,
                elements: Seq::empty() }),
            TagType::Compound => TagValue::Compound(CompoundValue { entries: Seq::empty() }),
            TagType::IntArray => TagValue::IntArray(Seq::empty()),
            TagType::LongArray => TagValue::LongArray(Seq::empty()),
            TagType::FloatArray => TagValue::FloatArray(Seq::empty()),
            TagType::DoubleArray => TagValue::DoubleArray(Seq::empty()),
            TagType::Uuid => TagValue::Uuid(UUID::of_fields(0, 0)),
        }
    }

    /// Whether the lists in the tag hold elements of their type only and
    /// the compounds in it hold each name once.
    pub open spec fn valid(self) -> bool
        decreases self,
    {
        match self {
            TagValue::List(list) => list.valid(),
            TagValue::Compound(compound) => compound.valid(),
            _ => true,
        }
    }
}

impl ListValue {
    /// Whether every element has the type of the list, and is valid.
    pub open spec fn valid(self) -> bool
        decreases self,
    {
        forall|i: int|
            0 <= i < self.elements.len() ==> (#[trigger] self.elements[i]).tag_type() == self.tag
                && self.elements[i].valid()
    }
}

/// Whether an entry of `entries` has the name `name`.
pub open spec fn has_name(entries: Seq<(Seq<char>, TagValue)>, name: Seq<char>) -> bool {
    exists|i: int| 0 <= i < entries.len() && (#[trigger] entries[i]).0 == name
}

/// The place of the first entry of `entries` with the name `name`.
pub open spec fn first_named(entries: Seq<(Seq<char>, TagValue)>, name: Seq<char>) -> int {
    choose|i: int|
        0 <= i < entries.len() && (#[trigger] entries[i]).0 == name && forall|j: int|
            0 <= j < i ==> (#[trigger] entries[j]).0 != name
}

/// The entries after `value` was put under `name`: in the place of the entry
/// of that name, or after the last entry where no entry has the name.
pub open spec fn put(entries: Seq<(Seq<char>, TagValue)>, name: Seq<char>, value: TagValue) -> Seq<
    (Seq<char>, TagValue),
> {
    if has_name(entries, name) {
        entries.update(first_named(entries, name), (name, value))
    } else {
        entries.push((name, value))
    }
}

/// The entries that are left when `raw` entries are put one after the other,
/// the first one first.
pub open spec fn collect(raw: Seq<(Seq<char>, TagValue)>) -> Seq<(Seq<char>, TagValue)>
    decreases raw.len(),
{
    if raw.len() == 0 {
        Seq::empty()
    } else {
        put(collect(raw.drop_last()), raw.last().0, raw.last().1)
    }
}

/// Whether no two entries have the same name.
pub open spec fn distinct_names(entries: Seq<(Seq<char>, TagValue)>) -> bool {
    forall|i: int, j: int|
        0 <= i < j < entries.len() ==> (#[trigger] entries[i]).0 != (#[trigger] entries[j]).0
}

impl CompoundValue {
    /// Whether no two entries have the same name, and every tag is valid.
    pub open spec fn valid(self) -> bool
        decreases self,
    {
        distinct_names(self.entries) && forall|i: int|
            0 <= i < self.entries.len() ==> (#[trigger] self.entries[i]).1.valid()
    }

    /// The tags by their names.
    pub open spec fn as_map(self) -> Map<Seq<char>, TagValue> {
        Map::new(
            |name: Seq<char>| has_name(self.entries, name),
            |name: Seq<char>| self.entries[first_named(self.entries, name)].1,
        )
    }
}

/// A tag: a value with its type.
#[derive(Debug, PartialEq, Eq)]
pub enum NbtTag {
    /// The mark after the last entry of a compound. It holds nothing.
    End,
    /// One byte.
    Byte(u8),
    /// A signed 16-bit number.
    Short(i16),
    /// A signed 32-bit number.
    Int(i32),
    /// A signed 64-bit number.
    Long(i64),
    /// A 32-bit floating point number, as its bit pattern.
    Float(u32),
    /// A 64-bit floating point number, as its bit pattern.
    Double(u64),
    /// An array of bytes.
    ByteArray(NbtArray<u8>),
    /// A string.
    String(String),
    /// A list of tags of one type.
    List(NbtList),
    /// Named tags.
    Compound(NbtCompound),
    /// An array of signed 32-bit numbers.
    IntArray(NbtArray<i32>),
    /// An array of signed 64-bit numbers.
    LongArray(NbtArray<i64>),
    /// An array of 32-bit floating point numbers, as their bit patterns.
    FloatArray(NbtArray<u32>),
    /// An array of 64-bit floating point numbers, as their bit patterns.
    DoubleArray(NbtArray<u64>),
    /// A universally unique identifier.
    Uuid(UUID),
}

/// A list of tags of one type. The type is that of the first tag that came in.
#[derive(Debug, PartialEq, Eq)]
pub struct NbtList {
    tag: TagType,
    elements: Vec<NbtTag>,
}

/// The refusal of a tag whose type is not that of the list, with the tag.
#[derive(Debug)]
pub struct WrongTagType {
    tag: NbtTag,
    expected: TagType,
}

/// Named tags. Each name stands once; the entries keep the order in which
/// their names came in.
#[derive(Debug, PartialEq, Eq)]
pub struct NbtCompound {
    entries: Vec<(String, NbtTag)>,
}

/// What the tags of a run hold.
pub closed spec fn tag_values(tags: Seq<NbtTag>) -> Seq<TagValue>
    decreases tags, 0int,
{
    if tags.len() == 0 {
        Seq::empty()
    } else {
        tag_values(tags.drop_last()).push(tags.last().deep_view())
    }
}

/// What the entries of a run hold.
pub closed spec fn entry_values(entries: Seq<(String, NbtTag)>) -> Seq<(Seq<char>, TagValue)>
    decreases entries, 0int,
{
    if entries.len() == 0 {
        Seq::empty()
    } else {
        entry_values(entries.drop_last()).push((entries.last().0@, entries.last().1.deep_view()))
    }
}

/// `tag_values` goes element by element.
pub proof fn lemma_tag_values(tags: Seq<NbtTag>)
    ensures
        tag_values(tags).len() == tags.len(),
        forall|i: int|
            0 <= i < tags.len() ==> #[trigger] tag_values(tags)[i] == tags[i].deep_view(),
    decreases tags.len(),
{
    if tags.len() > 0 {
        lemma_tag_values(tags.drop_last());
        assert(tag_values(tags) == tag_values(tags.drop_last()).push(tags.last().deep_view()));
        assert forall|i: int| 0 <= i < tags.len() implies #[trigger] tag_values(tags)[i]
            == tags[i].deep_view() by {
            if i < tags.len() - 1 {
                assert(tags.drop_last()[i] == tags[i]);
            }
        }
    }
}

/// `entry_values` goes entry by entry.
pub proof fn lemma_entry_values(entries: Seq<(String, NbtTag)>)
    ensures
        entry_values(entries).len() == entries.len(),
        forall|i: int|
            0 <= i < entries.len() ==> #[trigger] entry_values(entries)[i] == (
                entries[i].0@,
                entries[i].1.deep_view(),
            ),
    decreases entries.len(),
{
    if entries.len() > 0 {
        lemma_entry_values(entries.drop_last());
        assert(entry_values(entries) == entry_values(entries.drop_last()).push(
            (entries.last().0@, entries.last().1.deep_view()),
        ));
        assert forall|i: int| 0 <= i < entries.len() implies #[trigger] entry_values(entries)[i]
            == (entries[i].0@, entries[i].1.deep_view()) by {
            if i < entries.len() - 1 {
                assert(entries.drop_last()[i] == entries[i]);
            }
        }
    }
}

impl DeepView for NbtTag {
    type V = TagValue;

    open spec fn deep_view(&self) -> TagValue
        decreases self, 1int,
    {
        match self {
            NbtTag::End => TagValue::End,
            NbtTag::Byte(v) => TagValue::Byte(*v),
            NbtTag::Short(v) => TagValue::Short(*v),
            NbtTag::Int(v) => TagValue::Int(*v),
            NbtTag::Long(v) => TagValue::Long(*v),
            NbtTag::Float(v) => TagValue::Float(*v),
            NbtTag::Double(v) => TagValue::Double(*v),
            NbtTag::ByteArray(v) => TagValue::ByteArray(v@),
            NbtTag::String(v) => TagValue::String(v@),
            NbtTag::List(v) => TagValue::List(v.deep_view()),
            NbtTag::Compound(v) => TagValue::Compound(v.deep_view()),
            NbtTag::IntArray(v) => TagValue::IntArray(v@),
            NbtTag::LongArray(v) => TagValue::LongArray(v@),
            NbtTag::FloatArray(v) => TagValue::FloatArray(v@),
            NbtTag::DoubleArray(v) => TagValue::DoubleArray(v@),
            NbtTag::Uuid(v) => TagValue::Uuid(*v),
        }
    }
}

impl DeepView for NbtList {
    type V = ListValue;

    closed spec fn deep_view(&self) -> ListValue
        decreases self, 1int,
    {
        ListValue { tag: self.tag, elements: tag_values(self.elements@) }
    }
}

impl DeepView for NbtCompound {
    type V = CompoundValue;

    closed spec fn deep_view(&self) -> CompoundValue
        decreases self, 1int,
    {
        CompoundValue { entries: entry_values(self.entries@) }
    }
}

impl NbtTag {
    /// The type of the tag.
    pub fn tag_type(&self) -> (ty: TagType)
        ensures
            ty == self.deep_view().tag_type(),
    {
        match self {
            NbtTag::End => TagType::End,
            NbtTag::Byte(_) => TagType::Byte,
            NbtTag::Short(_) => TagType::Short,
            NbtTag::Int(_) => TagType::Int,
            NbtTag::Long(_) => TagType::Long,
            NbtTag::Float(_) => TagType::Float,
            NbtTag::Double(_) => TagType::Double,
            NbtTag::ByteArray(_) => TagType::ByteArray,
            NbtTag::String(_) => TagType::String,
            NbtTag::List(_) => TagType::List,
            NbtTag::Compound(_) => TagType::Compound,
            NbtTag::IntArray(_) => TagType::IntArray,
            NbtTag::LongArray(_) => TagType::LongArray,
            NbtTag::FloatArray(_) => TagType::FloatArray,
            NbtTag::DoubleArray(_) => TagType::DoubleArray,
            NbtTag::Uuid(_) => TagType::Uuid,
        }
    }

    /// The zero or empty tag of the given type.
    pub fn default_for_tag(ty: TagType) -> (tag: Self)
        ensures
            tag.deep_view() == TagValue::default_for(ty),
            tag.deep_view().tag_type() == ty,
            tag.deep_view().valid(),
    {
        match ty {
            TagType::End => NbtTag::End,
            TagType::Byte => NbtTag::Byte(0),
            TagType::Short => NbtTag::Short(0),
            TagType::Int => NbtTag::Int(0),
            TagType::Long => NbtTag::Long(0),
            TagType::Float => NbtTag::Float(0),
            TagType::Double => NbtTag::Double(0),
            TagType::ByteArray => NbtTag::ByteArray(NbtArray::default()),
            TagType::String => NbtTag::String(String::new()),
            TagType::List => NbtTag::List(NbtList::new()),
            TagType::Compound => NbtTag::Compound(NbtCompound::new()),
            TagType::IntArray => NbtTag::IntArray(NbtArray::default()),
            TagType::LongArray => NbtTag::LongArray(NbtArray::default()),
            TagType::FloatArray => NbtTag::FloatArray(NbtArray::default()),
            TagType::DoubleArray => NbtTag::DoubleArray(NbtArray::default()),
            TagType::Uuid => {
                let id = UUID::nil();
                proof {
                    id.lemma_fields(0, 0);
                }
                NbtTag::Uuid(id)
            },
        }
    }
}

impl WrongTagType {
    /// The tag that was refused.
    pub closed spec fn refused(&self) -> NbtTag {
        self.tag
    }

    /// The type that the list takes.
    pub closed spec fn expected(&self) -> TagType {
        self.expected
    }

    /// Hands back the tag that was refused.
    pub fn into_tag(self) -> (tag: NbtTag)
        ensures
            tag == self.refused(),
    {
        self.tag
    }

    /// The type that the list takes.
    pub fn expected_tag(&self) -> (ty: TagType)
        ensures
            ty == self.expected(),
    {
        self.expected
    }
}

impl NbtList {
    /// An empty list. Its type is End until the first tag comes in.
    pub fn new() -> (list: Self)
        ensures
            list.deep_view() == (ListValue { tag: TagType::End, elements: Seq::empty() }),
            list.deep_view().valid(),
    {
        NbtList { tag: TagType::End, elements: Vec::new() }
    }

    /// The number of elements.
    pub fn len(&self) -> (n: usize)
        ensures
            n == self.deep_view().elements.len(),
    {
        proof {
            lemma_tag_values(self.elements@);
        }
        self.elements.len()
    }

    /// The type of the elements.
    pub fn element_type(&self) -> (ty: TagType)
        ensures
            ty == self.deep_view().tag,
    {
        self.tag
    }

    /// The element at `index`.
    pub fn get(&self, index: usize) -> (element: &NbtTag)
        requires
            index < self.deep_view().elements.len(),
        ensures
            element.deep_view() == self.deep_view().elements[index as int],
    {
        proof {
            lemma_tag_values(self.elements@);
        }
        &self.elements[index]
    }

    /// Appends `tag` where the list is empty, which makes the type of `tag`
    /// the type of the list, or where `tag` has the type of the list. A tag
    /// of another type is handed back, and the list stays as it is.
    pub fn insert(&mut self, tag: NbtTag) -> (r: Result<(), WrongTagType>)
        ensures
            r is Ok <==> old(self).deep_view().elements.len() == 0 || tag.deep_view().tag_type()
                == old(self).deep_view().tag,
            r is Ok ==> final(self).deep_view() == (ListValue {
                tag: tag.deep_view().tag_type(),
                elements: old(self).deep_view().elements.push(tag.deep_view()),
            }),
            r is Ok && old(self).deep_view().valid()
                && tag.deep_view().valid() ==> final(self).deep_view().valid(),
            r is Err ==> *final(self) == *old(self) && r->Err_0.refused() == tag
                && r->Err_0.expected() == old(self).deep_view().tag,
    {
        proof {
            lemma_tag_values(self.elements@);
        }
        if self.elements.len() == 0 {
            self.tag = tag.tag_type();
            self.elements.push(tag);
            proof {
                assert(self.elements@.drop_last() =~= old(self).elements@);
                assert(final(self).deep_view().elements =~= old(self).deep_view().elements.push(
                    tag.deep_view(),
                ));
            }
            Ok(())
        } else if self.tag == tag.tag_type() {
            self.elements.push(tag);
            proof {
                assert(self.elements@.drop_last() =~= old(self).elements@);
            }
            Ok(())
        } else {
            Err(WrongTagType { tag, expected: self.tag })
        }
    }
}

impl Default for NbtList {
    fn default() -> (list: Self)
        ensures
            list.deep_view() == (ListValue { tag: TagType::End, elements: Seq::empty() }),
    {
        NbtList::new()
    }
}

impl NbtCompound {
    /// A compound without entries.
    pub fn new() -> (compound: Self)
        ensures
            compound.deep_view() == (CompoundValue { entries: Seq::empty() }),
            compound.deep_view().valid(),
    {
        NbtCompound { entries: Vec::new() }
    }

    /// The number of entries.
    pub fn len(&self) -> (n: usize)
        ensures
            n == self.deep_view().entries.len(),
    {
        proof {
            lemma_entry_values(self.entries@);
        }
        self.entries.len()
    }

    /// The place of the first entry with the given name.
    fn find(&self, name: &str) -> (place: Option<usize>)
        ensures
            place is Some <==> has_name(self.deep_view().entries, name@),
            place is Some ==> place->Some_0 == first_named(self.deep_view().entries, name@)
                && place->Some_0 < self.entries@.len(),
    {
        proof {
            lemma_entry_values(self.entries@);
        }
        let ghost held = self.deep_view().entries;
        let n = self.entries.len();
        let mut i: usize = 0;
        while i < n
            invariant
                i <= n,
                n == self.entries@.len(),
                held == self.deep_view().entries,
                held.len() == n,
                forall|k: int|
                    0 <= k < n ==> #[trigger] held[k] == (
                        self.entries@[k].0@,
                        self.entries@[k].1.deep_view(),
                    ),
                forall|k: int| 0 <= k < i ==> (#[trigger] held[k]).0 != name@,
            decreases n - i,
        {
            if same_text(self.entries[i].0.as_str(), name) {
                proof {
                    let at = i as int;
                    assert(held[at].0 == name@);
                    assert(has_name(held, name@));
                    let chosen = first_named(held, name@);
                    assert(chosen == at) by {
                        if chosen < at {
                            assert(held[chosen].0 != name@);
                        } else if at < chosen {
                            assert(held[at].0 == name@);
                        }
                    }
                }
                return Some(i);
            }
            i = i + 1;
        }
        None
    }

    /// The tag under the given name.
    pub fn get(&self, name: &str) -> (tag: Option<&NbtTag>)
        ensures
            tag is Some <==> has_name(self.deep_view().entries, name@),
            tag is Some ==> tag->Some_0.deep_view() == self.deep_view().entries[first_named(
                self.deep_view().entries,
                name@,
            )].1,
    {
        proof {
            lemma_entry_values(self.entries@);
        }
        match self.find(name) {
            Some(place) => Some(&self.entries[place].1),
            None => None,
        }
    }

    /// Puts `value` under `name`. Where the name stood already, the new tag
    /// takes the place of the old one, which is handed back.
    #[verifier::rlimit(30)]
    pub fn insert(&mut self, name: String, value: NbtTag) -> (previous: Option<NbtTag>)
        ensures
            final(self).deep_view().entries == put(
                old(self).deep_view().entries,
                name@,
                value.deep_view(),
            ),
            previous is Some <==> has_name(old(self).deep_view().entries, name@),
            previous is Some ==> previous->Some_0.deep_view() == old(self).deep_view().entries[
                first_named(old(self).deep_view().entries, name@)
            ].1,
            old(self).deep_view().valid()
                && value.deep_view().valid() ==> final(self).deep_view().valid(),
    {
        proof {
            lemma_entry_values(self.entries@);
        }
        let ghost before = self.deep_view().entries;
        match self.find(name.as_str()) {
            Some(place) => {
                let (_, previous) = self.entries.remove(place);
                self.entries.insert(place, (name, value));
                proof {
                    lemma_entry_values(self.entries@);
                    assert(self.entries@ =~= old(self).entries@.update(
                        place as int,
                        (name, value),
                    ));
                    assert(self.deep_view().entries =~= before.update(
                        place as int,
                        (name@, value.deep_view()),
                    ));
                    lemma_put_keeps_valid(before, name@, value.deep_view());
                }
                Some(previous)
            },
            None => {
                self.entries.push((name, value));
                proof {
                    lemma_entry_values(self.entries@);
                    assert(self.entries@ =~= old(self).entries@.push((name, value)));
                    assert(self.deep_view().entries =~= before.push((name@, value.deep_view())));
                    lemma_put_keeps_valid(before, name@, value.deep_view());
                }
                None
            },
        }
    }
}

impl Default for NbtCompound {
    fn default() -> (compound: Self)
        ensures
            compound.deep_view() == (CompoundValue { entries: Seq::empty() }),
    {
        NbtCompound::new()
    }
}

/// Putting a valid tag into valid entries leaves them valid, and entries
/// with distinct names keep distinct names.
pub proof fn lemma_put_keeps_valid(
    entries: Seq<(Seq<char>, TagValue)>,
    name: Seq<char>,
    value: TagValue,
)
    ensures
        distinct_names(entries) ==> distinct_names(put(entries, name, value)),
        (CompoundValue { entries }).valid() && value.valid() ==> (CompoundValue {
            entries: put(entries, name, value),
        }).valid(),
{
    let after = put(entries, name, value);
    if distinct_names(entries) {
        if has_name(entries, name) {
            let at = first_named(entries, name);
            assert forall|i: int, j: int| 0 <= i < j < after.len() implies (#[trigger] after[i]).0
                != (#[trigger] after[j]).0 by {
                assert(after[i].0 == entries[i].0);
                assert(after[j].0 == entries[j].0);
            }
        } else {
            assert forall|i: int, j: int| 0 <= i < j < after.len() implies (#[trigger] after[i]).0
                != (#[trigger] after[j]).0 by {
                if j == entries.len() {
                    assert(entries[i].0 != name);
                }
            }
        }
    }
    if (CompoundValue { entries }).valid() && value.valid() {
        assert forall|i: int| 0 <= i < after.len() implies (#[trigger] after[i]).1.valid() by {
            if has_name(entries, name) {
                if i != first_named(entries, name) {
                    assert(after[i] == entries[i]);
                }
            } else {
                if i < entries.len() {
                    assert(after[i] == entries[i]);
                }
            }
        }
    }
}

/// The bytes that stand for a tag that holds no other tags.
#[verifier::opaque]
pub open spec fn plain_encoding(value: TagValue, order: ByteOrder) -> Result<Seq<u8>, Invalid> {
    match value {
        TagValue::Byte(v) => <u8 as Serializeable>::encoding(v, order),
        TagValue::Short(v) => <i16 as Serializeable>::encoding(v, order),
        TagValue::Int(v) => <i32 as Serializeable>::encoding(v, order),
        TagValue::Long(v) => <i64 as Serializeable>::encoding(v, order),
        TagValue::Float(v) => <u32 as Serializeable>::encoding(v, order),
        TagValue::Double(v) => <u64 as Serializeable>::encoding(v, order),
        TagValue::ByteArray(v) => counted_encoding::<u8>(v, order),
        TagValue::String(v) => string_encoding(v, order),
        TagValue::IntArray(v) => counted_encoding::<i32>(v, order),
        TagValue::LongArray(v) => counted_encoding::<i64>(v, order),
        TagValue::FloatArray(v) => counted_encoding::<u32>(v, order),
        TagValue::DoubleArray(v) => counted_encoding::<u64>(v, order),
        TagValue::Uuid(v) => Ok(uuid_bytes(v, order)),
        _ => Ok(Seq::empty()),
    }
}

/// The bytes that stand for a tag, without a marker of its type, or the
/// reason why it has no encoding.
pub open spec fn tag_encoding(value: TagValue, order: ByteOrder) -> Result<Seq<u8>, Invalid>
    decreases value, 0int,
{
    match value {
        TagValue::List(v) => list_encoding(v, order),
        TagValue::Compound(v) => compound_encoding(v, order),
        _ => plain_encoding(value, order),
    }
}

/// The encodings of `elements`, one after the other.
pub open spec fn elements_encoding(elements: Seq<TagValue>, order: ByteOrder) -> Result<
    Seq<u8>,
    Invalid,
>
    decreases elements, 0int,
{
    if elements.len() == 0 {
        Ok(Seq::empty())
    } else {
        match elements_encoding(elements.drop_last(), order) {
            Err(reason) => Err(reason),
            Ok(front) => match tag_encoding(elements.last(), order) {
                Err(reason) => Err(reason),
                Ok(back) => Ok(front + back),
            },
        }
    }
}

/// The bytes that stand for a list: the code of the type of its elements,
/// their number, and the elements.
pub open spec fn list_encoding(list: ListValue, order: ByteOrder) -> Result<Seq<u8>, Invalid>
    decreases list, 0int,
{
    match count_encoding(list.elements.len(), order) {
        Err(reason) => Err(reason),
        Ok(count) => match elements_encoding(list.elements, order) {
            Err(reason) => Err(reason),
            Ok(body) => Ok(seq![list.tag.code_of()] + count + body),
        },
    }
}

/// The bytes that stand for one entry of a compound: the code of the type
/// of the tag, the name, and the tag. An End tag has no encoding as an entry.
pub open spec fn entry_encoding(name: Seq<char>, value: TagValue, order: ByteOrder) -> Result<
    Seq<u8>,
    Invalid,
>
    decreases value, 1int,
{
    if value.tag_type() == TagType::End {
        Err(Invalid::EmbeddedEnd)
    } else {
        match string_encoding(name, order) {
            Err(reason) => Err(reason),
            Ok(head) => match tag_encoding(value, order) {
                Err(reason) => Err(reason),
                Ok(body) => Ok(seq![value.tag_type().code_of()] + head + body),
            },
        }
    }
}

/// The encodings of `entries`, one after the other.
pub open spec fn entries_encoding(entries: Seq<(Seq<char>, TagValue)>, order: ByteOrder) -> Result<
    Seq<u8>,
    Invalid,
>
    decreases entries, 0int,
{
    if entries.len() == 0 {
        Ok(Seq::empty())
    } else {
        match entries_encoding(entries.drop_last(), order) {
            Err(reason) => Err(reason),
            Ok(front) => match entry_encoding(entries.last().0, entries.last().1, order) {
                Err(reason) => Err(reason),
                Ok(back) => Ok(front + back),
            },
        }
    }
}

/// The bytes that stand for a compound: its entries, then the code of End.
pub open spec fn compound_encoding(compound: CompoundValue, order: ByteOrder) -> Result<
    Seq<u8>,
    Invalid,
>
    decreases compound, 0int,
{
    match entries_encoding(compound.entries, order) {
        Err(reason) => Err(reason),
        Ok(body) => Ok(body.push(TagType::End.code_of())),
    }
}

/// What reading a tag of a type that holds no other tags makes of `bytes`.
#[verifier::opaque]
pub open spec fn plain_decoding(ty: TagType, bytes: Seq<u8>, order: ByteOrder) -> Decoded<
    TagValue,
> {
    match ty {
        TagType::Byte => byte_decoding(bytes).map(|v: u8| TagValue::Byte(v)),
        TagType::Short => i16_decoding(bytes, order).map(|v: i16| TagValue::Short(v)),
        TagType::Int => i32_decoding(bytes, order).map(|v: i32| TagValue::Int(v)),
        TagType::Long => i64_decoding(bytes, order).map(|v: i64| TagValue::Long(v)),
        TagType::Float => u32_decoding(bytes, order).map(|v: u32| TagValue::Float(v)),
        TagType::Double => u64_decoding(bytes, order).map(|v: u64| TagValue::Double(v)),
        TagType::ByteArray => counted_decoding::<u8>(bytes, order).map(
            |v: Seq<u8>| TagValue::ByteArray(v),
        ),
        TagType::String => string_decoding(bytes, order).map(|v: Seq<char>| TagValue::String(v)),
        TagType::IntArray => counted_decoding::<i32>(bytes, order).map(
            |v: Seq<i32>| TagValue::IntArray(v),
        ),
        TagType::LongArray => counted_decoding::<i64>(bytes, order).map(
            |v: Seq<i64>| TagValue::LongArray(v),
        ),
        TagType::FloatArray => counted_decoding::<u32>(bytes, order).map(
            |v: Seq<u32>| TagValue::FloatArray(v),
        ),
        TagType::DoubleArray => counted_decoding::<u64>(bytes, order).map(
            |v: Seq<u64>| TagValue::DoubleArray(v),
        ),
        TagType::Uuid => uuid_decoding(bytes, order).map(|v: UUID| TagValue::Uuid(v)),
        _ => Decoded::Value(TagValue::End, 0),
    }
}

/// What reading a tag of type `ty` makes of `bytes`.
pub open spec fn tag_decoding(ty: TagType, bytes: Seq<u8>, order: ByteOrder) -> Decoded<TagValue>
    decreases bytes.len(), 2nat,
{
    match ty {
        TagType::List => match list_decoding(bytes, order) {
            Decoded::Value(list, used) => Decoded::Value(TagValue::List(list), used),
            Decoded::Failed(e) => Decoded::Failed(e),
        },
        TagType::Compound => match compound_decoding(bytes, order) {
            Decoded::Value(compound, used) => Decoded::Value(TagValue::Compound(compound), used),
            Decoded::Failed(e) => Decoded::Failed(e),
        },
        _ => plain_decoding(ty, bytes, order),
    }
}

/// What reading `count` tags of type `ty`, one after the other, makes of
/// `bytes`.
pub open spec fn elements_decoding(
    ty: TagType,
    count: nat,
    bytes: Seq<u8>,
    order: ByteOrder,
) -> Decoded<Seq<TagValue>>
    decreases bytes.len(), count + 3,
{
    if count == 0 {
        Decoded::Value(Seq::empty(), 0)
    } else {
        match tag_decoding(ty, bytes, order) {
            Decoded::Failed(e) => Decoded::Failed(e),
            Decoded::Value(first, used) => if used > bytes.len() {
                Decoded::Failed(Error::EndOfFile)
            } else {
                prepend(
                    seq![first],
                    used,
                    elements_decoding(ty, (count - 1) as nat, bytes.skip(used as int), order),
                )
            },
        }
    }
}

/// What reading a list makes of `bytes`.
pub open spec fn list_decoding(bytes: Seq<u8>, order: ByteOrder) -> Decoded<ListValue>
    decreases bytes.len(), 0nat,
{
    match tag_type_decoding(bytes) {
        Decoded::Failed(e) => Decoded::Failed(e),
        Decoded::Value(tag, _) => match count_decoding(bytes.skip(1), order) {
            Decoded::Failed(e) => Decoded::Failed(e),
            Decoded::Value(count, _) => if bytes.len() < 5 {
                Decoded::Failed(Error::EndOfFile)
            } else {
                match elements_decoding(tag, count, bytes.skip(5), order) {
                    Decoded::Failed(e) => Decoded::Failed(e),
                    Decoded::Value(elements, used) => Decoded::Value(
                        ListValue { tag, elements },
                        5 + used,
                    ),
                }
            },
        },
    }
}

/// What reading entries up to the code of End makes of `bytes`: the entries
/// as they stand on the wire.
pub open spec fn entries_decoding(bytes: Seq<u8>, order: ByteOrder) -> Decoded<
    Seq<(Seq<char>, TagValue)>,
>
    decreases bytes.len(), 0nat,
{
    match tag_type_decoding(bytes) {
        Decoded::Failed(e) => Decoded::Failed(e),
        Decoded::Value(ty, _) => if ty == TagType::End {
            Decoded::Value(Seq::empty(), 1)
        } else {
            match string_decoding(bytes.skip(1), order) {
                Decoded::Failed(e) => Decoded::Failed(e),
                Decoded::Value(name, named) => if 1 + named > bytes.len() {
                    Decoded::Failed(Error::EndOfFile)
                } else {
                    match tag_decoding(ty, bytes.skip(1 + named as int), order) {
                        Decoded::Failed(e) => Decoded::Failed(e),
                        Decoded::Value(value, used) => if 1 + named + used > bytes.len() {
                            Decoded::Failed(Error::EndOfFile)
                        } else {
                            prepend(
                                seq![(name, value)],
                                1 + named + used,
                                entries_decoding(bytes.skip(1 + named + used as int), order),
                            )
                        },
                    }
                },
            }
        },
    }
}

/// What reading a compound makes of `bytes`: the entries on the wire, put
/// one after the other, so that of two entries of one name the later one
/// stays.
pub open spec fn compound_decoding(bytes: Seq<u8>, order: ByteOrder) -> Decoded<CompoundValue>
    decreases bytes.len(), 1nat,
{
    match entries_decoding(bytes, order) {
        Decoded::Failed(e) => Decoded::Failed(e),
        Decoded::Value(raw, used) => Decoded::Value(CompoundValue { entries: collect(raw) }, used),
    }
}

/// Where the encoding of a front part of a run of tags fails, that of the
/// run fails for the same reason.
pub proof fn lemma_elements_encoding_stops(elements: Seq<TagValue>, front: int, order: ByteOrder)
    requires
        0 <= front <= elements.len(),
        elements_encoding(elements.take(front), order) is Err,
    ensures
        elements_encoding(elements, order) == elements_encoding(elements.take(front), order),
    decreases elements.len() - front,
{
    if front < elements.len() {
        assert(elements.take(front + 1).drop_last() =~= elements.take(front));
        lemma_elements_encoding_stops(elements, front + 1, order);
    } else {
        assert(elements.take(front) =~= elements);
    }
}

/// Where the encoding of a front part of a run of entries fails, that of
/// the run fails for the same reason.
pub proof fn lemma_entries_encoding_stops(
    entries: Seq<(Seq<char>, TagValue)>,
    front: int,
    order: ByteOrder,
)
    requires
        0 <= front <= entries.len(),
        entries_encoding(entries.take(front), order) is Err,
    ensures
        entries_encoding(entries, order) == entries_encoding(entries.take(front), order),
    decreases entries.len() - front,
{
    if front < entries.len() {
        assert(entries.take(front + 1).drop_last() =~= entries.take(front));
        lemma_entries_encoding_stops(entries, front + 1, order);
    } else {
        assert(entries.take(front) =~= entries);
    }
}

/// Writes a tag, without a marker of its type.
pub fn write_tag<W: DataOutput>(tag: &NbtTag, output: &mut W) -> (r: Result<(), Error>)
    ensures
        final(output).order() == old(output).order(),
        match tag_encoding(tag.deep_view(), old(output).order()) {
            Ok(bytes) => r is Ok && final(output).written() == old(output).written() + bytes,
            Err(reason) => r == Err::<(), Error>(Error::ValidationError(reason))
                && old(output).written().is_prefix_of(final(output).written()),
        },
    decreases tag, 1int,
{
    reveal(plain_encoding);
    match tag {
        NbtTag::End => {
            assert(output.written() + Seq::<u8>::empty() =~= output.written());
            Ok(())
        },
        NbtTag::Byte(v) => v.serialize(output),
        NbtTag::Short(v) => v.serialize(output),
        NbtTag::Int(v) => v.serialize(output),
        NbtTag::Long(v) => v.serialize(output),
        NbtTag::Float(v) => v.serialize(output),
        NbtTag::Double(v) => v.serialize(output),
        NbtTag::ByteArray(v) => {
            proof {
                v.lemma_deep_view();
                assert(v.deep_view() =~= v@);
            }
            v.serialize(output)
        },
        NbtTag::String(v) => v.serialize(output),
        NbtTag::List(v) => write_list(v, output),
        NbtTag::Compound(v) => write_compound(v, output),
        NbtTag::IntArray(v) => {
            proof {
                v.lemma_deep_view();
                assert(v.deep_view() =~= v@);
            }
            v.serialize(output)
        },
        NbtTag::LongArray(v) => {
            proof {
                v.lemma_deep_view();
                assert(v.deep_view() =~= v@);
            }
            v.serialize(output)
        },
        NbtTag::FloatArray(v) => {
            proof {
                v.lemma_deep_view();
                assert(v.deep_view() =~= v@);
            }
            v.serialize(output)
        },
        NbtTag::DoubleArray(v) => {
            proof {
                v.lemma_deep_view();
                assert(v.deep_view() =~= v@);
            }
            v.serialize(output)
        },
        NbtTag::Uuid(v) => v.serialize(output),
    }
}

/// Writes a list: the code of the type of its elements, their number, and
/// the elements.
pub fn write_list<W: DataOutput>(list: &NbtList, output: &mut W) -> (r: Result<(), Error>)
    ensures
        final(output).order() == old(output).order(),
        match list_encoding(list.deep_view(), old(output).order()) {
            Ok(bytes) => r is Ok && final(output).written() == old(output).written() + bytes,
            Err(reason) => r == Err::<(), Error>(Error::ValidationError(reason))
                && old(output).written().is_prefix_of(final(output).written()),
        },
    decreases list, 0int,
{
    let ghost order = output.order();
    let ghost start = output.written();
    let ghost values = list.deep_view().elements;
    proof {
        lemma_tag_values(list.elements@);
    }
    let _ = output.write_byte(list.tag.code());
    let n = list.elements.len();
    proof {
        lemma_prefix_of_sum(start, seq![list.tag.code_of()]);
        assert(start.push(list.tag.code_of()) =~= start + seq![list.tag.code_of()]);
    }
    match write_count(n, output) {
        Ok(()) => {},
        Err(e) => {
            return Err(e);
        },
    }
    let ghost head = seq![list.tag.code_of()] + count_encoding(n as nat, order)->Ok_0;
    let mut i: usize = 0;
    proof {
        assert(values.take(0) =~= Seq::<TagValue>::empty());
        assert(output.written() =~= start + (head + Seq::<u8>::empty()));
    }
    while i < n
        invariant
            i <= n,
            n == list.elements@.len(),
            values == list.deep_view().elements,
            values.len() == n,
            forall|k: int| 0 <= k < n ==> #[trigger] values[k] == list.elements@[k].deep_view(),
            output.order() == order,
            order == old(output).order(),
            start == old(output).written(),
            count_encoding(n as nat, order) is Ok,
            head == seq![list.tag.code_of()] + count_encoding(n as nat, order)->Ok_0,
            elements_encoding(values.take(i as int), order) is Ok,
            output.written() == start + (head + elements_encoding(
                values.take(i as int),
                order,
            )->Ok_0),
        decreases n - i,
    {
        let ghost before = output.written();
        let ghost done = elements_encoding(values.take(i as int), order)->Ok_0;
        proof {
            assert(values.take(i + 1).drop_last() =~= values.take(i as int));
            assert(values.take(i + 1).last() == values[i as int]);
            assert(decreases_to!(list.elements => list.elements[i as int])) by {
                vstd::std_specs::vec::axiom_vec_index_decreases(list.elements, i as int);
            }
            assert(decreases_to!(*list => list.elements));
        }
        match write_tag(&list.elements[i], output) {
            Ok(()) => {
                proof {
                    let back = tag_encoding(values[i as int], order)->Ok_0;
                    assert(start + (head + done) + back =~= start + (head + (done + back)));
                }
            },
            Err(e) => {
                proof {
                    lemma_elements_encoding_stops(values, i + 1, order);
                    lemma_prefix_of_sum(start, head + done);
                    lemma_prefix_chain(start, before, output.written());
                }
                return Err(e);
            },
        }
        i = i + 1;
    }
    proof {
        assert(values.take(n as int) =~= values);
        let body = elements_encoding(values, order)->Ok_0;
        assert(start + (head + body) =~= start + (seq![list.tag.code_of()] + count_encoding(
            n as nat,
            order,
        )->Ok_0 + body));
    }
    Ok(())
}

/// Writes a compound: for each entry the code of the type of its tag, its
/// name and its tag, and after the last entry the code of End. An entry
/// that holds an End tag is refused.
pub fn write_compound<W: DataOutput>(compound: &NbtCompound, output: &mut W) -> (r: Result<
    (),
    Error,
>)
    ensures
        final(output).order() == old(output).order(),
        match compound_encoding(compound.deep_view(), old(output).order()) {
            Ok(bytes) => r is Ok && final(output).written() == old(output).written() + bytes,
            Err(reason) => r == Err::<(), Error>(Error::ValidationError(reason))
                && old(output).written().is_prefix_of(final(output).written()),
        },
    decreases compound, 0int,
{
    let ghost order = output.order();
    let ghost start = output.written();
    let ghost values = compound.deep_view().entries;
    proof {
        lemma_entry_values(compound.entries@);
        assert(values.take(0) =~= Seq::<(Seq<char>, TagValue)>::empty());
        assert(output.written() =~= start + Seq::<u8>::empty());
    }
    let n = compound.entries.len();
    let mut i: usize = 0;
    while i < n
        invariant
            i <= n,
            n == compound.entries@.len(),
            values == compound.deep_view().entries,
            values.len() == n,
            forall|k: int|
                0 <= k < n ==> #[trigger] values[k] == (
                    compound.entries@[k].0@,
                    compound.entries@[k].1.deep_view(),
                ),
            output.order() == order,
            order == old(output).order(),
            start == old(output).written(),
            entries_encoding(values.take(i as int), order) is Ok,
            output.written() == start + entries_encoding(values.take(i as int), order)->Ok_0,
        decreases n - i,
    {
        let ghost before = output.written();
        let ghost done = entries_encoding(values.take(i as int), order)->Ok_0;
        let name = &compound.entries[i].0;
        let tag = &compound.entries[i].1;
        proof {
            assert(values.take(i + 1).drop_last() =~= values.take(i as int));
            assert(values.take(i + 1).last() == values[i as int]);
            assert(values[i as int] == (name@, tag.deep_view()));
            lemma_prefix_of_sum(start, done);
        }
        let ty = tag.tag_type();
        if ty == TagType::End {
            proof {
                assert(entry_encoding(name@, tag.deep_view(), order) == Err::<Seq<u8>, Invalid>(
                    Invalid::EmbeddedEnd,
                ));
                assert(entries_encoding(values.take(i + 1), order) is Err);
                lemma_entries_encoding_stops(values, i + 1, order);
            }
            return Err(Error::validation_error(Invalid::EmbeddedEnd));
        }
        let _ = output.write_byte(ty.code());
        let ghost coded = output.written();
        proof {
            assert(coded =~= before + seq![ty.code_of()]);
            lemma_prefix_of_sum(before, seq![ty.code_of()]);
            lemma_prefix_chain(start, before, coded);
        }
        match name.serialize(output) {
            Ok(()) => {},
            Err(e) => {
                proof {
                    lemma_entries_encoding_stops(values, i + 1, order);
                    lemma_prefix_chain(start, coded, output.written());
                }
                return Err(e);
            },
        }
        let ghost named = output.written();
        proof {
            lemma_prefix_of_sum(coded, string_encoding(name@, order)->Ok_0);
            lemma_prefix_chain(start, coded, named);
            assert(decreases_to!(compound.entries => compound.entries[i as int])) by {
                vstd::std_specs::vec::axiom_vec_index_decreases(compound.entries, i as int);
            }
            assert(decreases_to!(*compound => compound.entries));
            assert(decreases_to!(compound.entries[i as int] => compound.entries[i as int].1));
        }
        match write_tag(tag, output) {
            Ok(()) => {
                proof {
                    let head = string_encoding(name@, order)->Ok_0;
                    let body = tag_encoding(tag.deep_view(), order)->Ok_0;
                    assert(start + done + seq![ty.code_of()] + head + body =~= start + (done + (
                    seq![ty.code_of()] + head + body)));
                }
            },
            Err(e) => {
                proof {
                    lemma_entries_encoding_stops(values, i + 1, order);
                    lemma_prefix_chain(start, named, output.written());
                }
                return Err(e);
            },
        }
        i = i + 1;
    }
    proof {
        assert(values.take(n as int) =~= values);
    }
    let r = output.write_byte(TagType::End.code());
    proof {
        let body = entries_encoding(values, order)->Ok_0;
        assert((start + body).push(0u8) =~= start + body.push(0u8));
    }
    r
}

/// Reads a tag of type `ty`.
pub fn read_tag<R: DataInput>(ty: TagType, input: &mut R) -> (r: Result<NbtTag, Error>)
    ensures
        final(input).order() == old(input).order(),
        match tag_decoding(ty, old(input).remaining(), old(input).order()) {
            Decoded::Value(value, used) => r is Ok && r->Ok_0.deep_view() == value
                && used <= old(input).remaining().len()
                    && final(input).remaining() == old(input).remaining().skip(
                used as int,
            ),
            Decoded::Failed(e) => r is Err && r->Err_0 == e,
        },
    decreases old(input).remaining().len(), 2nat,
{
    let ghost bytes = input.remaining();
    let ghost order = input.order();
    reveal(plain_decoding);
    match ty {
        TagType::End => {
            assert(bytes.skip(0) =~= bytes);
            Ok(NbtTag::End)
        },
        TagType::Byte => match u8::deserialize_copy(input) {
            Ok(v) => Ok(NbtTag::Byte(v)),
            Err(e) => Err(e),
        },
        TagType::Short => match i16::deserialize_copy(input) {
            Ok(v) => Ok(NbtTag::Short(v)),
            Err(e) => Err(e),
        },
        TagType::Int => match i32::deserialize_copy(input) {
            Ok(v) => Ok(NbtTag::Int(v)),
            Err(e) => Err(e),
        },
        TagType::Long => match i64::deserialize_copy(input) {
            Ok(v) => Ok(NbtTag::Long(v)),
            Err(e) => Err(e),
        },
        TagType::Float => match u32::deserialize_copy(input) {
            Ok(v) => Ok(NbtTag::Float(v)),
            Err(e) => Err(e),
        },
        TagType::Double => match u64::deserialize_copy(input) {
            Ok(v) => Ok(NbtTag::Double(v)),
            Err(e) => Err(e),
        },
        TagType::ByteArray => {
            proof {
                lemma_counted_decoding_fits::<u8>(bytes, order);
            }
            match NbtArray::<u8>::deserialize_copy(input) {
                Ok(v) => {
                    proof {
                        v.lemma_deep_view();
                        assert(v.deep_view() =~= v@);
                    }
                    Ok(NbtTag::ByteArray(v))
                },
                Err(e) => Err(e),
            }
        },
        TagType::String => match read_string(input) {
            Ok(v) => Ok(NbtTag::String(v)),
            Err(e) => Err(e),
        },
        TagType::List => match read_list(input) {
            Ok(v) => Ok(NbtTag::List(v)),
            Err(e) => Err(e),
        },
        TagType::Compound => match read_compound(input) {
            Ok(v) => Ok(NbtTag::Compound(v)),
            Err(e) => Err(e),
        },
        TagType::IntArray => {
            proof {
                lemma_counted_decoding_fits::<i32>(bytes, order);
            }
            match NbtArray::<i32>::deserialize_copy(input) {
                Ok(v) => {
                    proof {
                        v.lemma_deep_view();
                        assert(v.deep_view() =~= v@);
                    }
                    Ok(NbtTag::IntArray(v))
                },
                Err(e) => Err(e),
            }
        },
        TagType::LongArray => {
            proof {
                lemma_counted_decoding_fits::<i64>(bytes, order);
            }
            match NbtArray::<i64>::deserialize_copy(input) {
                Ok(v) => {
                    proof {
                        v.lemma_deep_view();
                        assert(v.deep_view() =~= v@);
                    }
                    Ok(NbtTag::LongArray(v))
                },
                Err(e) => Err(e),
            }
        },
        TagType::FloatArray => {
            proof {
                lemma_counted_decoding_fits::<u32>(bytes, order);
            }
            match NbtArray::<u32>::deserialize_copy(input) {
                Ok(v) => {
                    proof {
                        v.lemma_deep_view();
                        assert(v.deep_view() =~= v@);
                    }
                    Ok(NbtTag::FloatArray(v))
                },
                Err(e) => Err(e),
            }
        },
        TagType::DoubleArray => {
            proof {
                lemma_counted_decoding_fits::<u64>(bytes, order);
            }
            match NbtArray::<u64>::deserialize_copy(input) {
                Ok(v) => {
                    proof {
                        v.lemma_deep_view();
                        assert(v.deep_view() =~= v@);
                    }
                    Ok(NbtTag::DoubleArray(v))
                },
                Err(e) => Err(e),
            }
        },
        TagType::Uuid => match UUID::deserialize_copy(input) {
            Ok(v) => Ok(NbtTag::Uuid(v)),
            Err(e) => Err(e),
        },
    }
}

/// The number of bytes that were read when the head of a list was refused:
/// one for a byte that is the code of no type, five for a negative count.
pub open spec fn list_refusal_taken(bytes: Seq<u8>, order: ByteOrder) -> Option<nat> {
    match tag_type_decoding(bytes) {
        Decoded::Failed(Error::ValidationError(_)) => Some(1nat),
        Decoded::Failed(_) => None,
        Decoded::Value(_, _) => match count_decoding(bytes.skip(1), order) {
            Decoded::Failed(Error::ValidationError(_)) => Some(5nat),
            _ => None,
        },
    }
}

/// Reads a list. Where the type of the elements or their number is refused,
/// no byte after it is read.
pub fn read_list<R: DataInput>(input: &mut R) -> (r: Result<NbtList, Error>)
    ensures
        final(input).order() == old(input).order(),
        match list_decoding(old(input).remaining(), old(input).order()) {
            Decoded::Value(value, used) => r is Ok && r->Ok_0.deep_view() == value
                && used <= old(input).remaining().len()
                    && final(input).remaining() == old(input).remaining().skip(
                used as int,
            ),
            Decoded::Failed(e) => r is Err && r->Err_0 == e,
        },
        list_refusal_taken(old(input).remaining(), old(input).order()) matches Some(taken)
            ==> final(input).remaining() == old(input).remaining().skip(taken as int),
    decreases old(input).remaining().len(), 0nat,
{
    let ghost bytes = input.remaining();
    let ghost order = input.order();
    let tag = match read_tag_type(input) {
        Ok(tag) => tag,
        Err(e) => {
            return Err(e);
        },
    };
    proof {
        lemma_count_decoding_fits(bytes.skip(1), order);
    }
    let count = match read_count(input) {
        Ok(count) => count,
        Err(e) => {
            return Err(e);
        },
    };
    let ghost base = bytes.skip(5);
    let ghost mut used: nat = 0;
    let ghost mut values: Seq<TagValue> = Seq::empty();
    let mut elements: Vec<NbtTag> = Vec::new();
    let mut i: usize = 0;
    proof {
        assert(bytes.skip(1).skip(4) =~= base);
        assert(base.skip(0) =~= base);
        lemma_prepend_nothing(elements_decoding(tag, count as nat, base, order));
    }
    while i < count
        invariant
            i <= count,
            input.order() == order,
            order == old(input).order(),
            bytes == old(input).remaining(),
            bytes.len() >= 5,
            tag_type_decoding(bytes) == Decoded::Value(tag, 1),
            count_decoding(bytes.skip(1), order) == Decoded::Value(count as nat, 4),
            base == bytes.skip(5),
            used <= base.len(),
            input.remaining() == base.skip(used as int),
            values == tag_values(elements@),
            elements_decoding(tag, count as nat, base, order) == prepend(
                values,
                used,
                elements_decoding(tag, (count - i) as nat, input.remaining(), order),
            ),
        decreases count - i,
    {
        let ghost now = input.remaining();
        match read_tag(tag, input) {
            Ok(element) => {
                let ghost taken = tag_decoding(tag, now, order)->Value_1;
                let ghost value = tag_decoding(tag, now, order)->Value_0;
                let ghost before = elements@;
                elements.push(element);
                proof {
                    assert(elements@.drop_last() =~= before);
                    assert(base.skip(used as int).skip(taken as int) =~= base.skip(
                        (used + taken) as int,
                    ));
                    lemma_prepend_one(
                        values,
                        used,
                        value,
                        taken,
                        elements_decoding(
                            tag,
                            (count - i - 1) as nat,
                            now.skip(taken as int),
                            order,
                        ),
                    );
                    values = values.push(value);
                    used = used + taken;
                }
            },
            Err(e) => {
                return Err(e);
            },
        }
        i = i + 1;
    }
    proof {
        assert(values + Seq::<TagValue>::empty() =~= values);
        assert(bytes.skip(5).skip(used as int) =~= bytes.skip(5 + used as int));
    }
    Ok(NbtList { tag, elements })
}

/// Entries start with the entry that the bytes start with.
pub proof fn lemma_entries_decoding_step(
    bytes: Seq<u8>,
    order: ByteOrder,
    ty: TagType,
    name: Seq<char>,
    named: nat,
    value: TagValue,
    taken: nat,
)
    requires
        tag_type_decoding(bytes) == Decoded::Value(ty, 1),
        ty != TagType::End,
        string_decoding(bytes.skip(1), order) == Decoded::Value(name, named),
        tag_decoding(ty, bytes.skip(1 + named as int), order) == Decoded::Value(value, taken),
        1 + named + taken <= bytes.len(),
    ensures
        entries_decoding(bytes, order) == prepend(
            seq![(name, value)],
            1 + named + taken,
            entries_decoding(bytes.skip(1 + named + taken as int), order),
        ),
{
}

/// Reads a compound: entries up to the code of End. Of two entries of one
/// name the later one stays.
#[verifier::spinoff_prover]
#[verifier::rlimit(30)]
pub fn read_compound<R: DataInput>(input: &mut R) -> (r: Result<NbtCompound, Error>)
    ensures
        final(input).order() == old(input).order(),
        match compound_decoding(old(input).remaining(), old(input).order()) {
            Decoded::Value(value, used) => r is Ok && r->Ok_0.deep_view() == value
                && used <= old(input).remaining().len()
                && final(input).remaining() == old(input).remaining().skip(used as int),
            Decoded::Failed(e) => r is Err && r->Err_0 == e,
        },
    decreases old(input).remaining().len(), 1nat,
{
    let ghost bytes = input.remaining();
    let ghost order = input.order();
    let ghost mut used: nat = 0;
    let ghost mut raw: Seq<(Seq<char>, TagValue)> = Seq::empty();
    let mut compound = NbtCompound::new();
    proof {
        assert(bytes.skip(0) =~= bytes);
        lemma_prepend_nothing(entries_decoding(bytes, order));
    }
    loop
        invariant
            input.order() == order,
            order == old(input).order(),
            bytes == old(input).remaining(),
            used <= bytes.len(),
            input.remaining() == bytes.skip(used as int),
            compound.deep_view().entries == collect(raw),
            entries_decoding(bytes, order) == prepend(
                raw,
                used,
                entries_decoding(input.remaining(), order),
            ),
        decreases input.remaining().len(),
    {
        let ghost now = input.remaining();
        let ty = match read_tag_type(input) {
            Ok(ty) => ty,
            Err(e) => {
                assert(entries_decoding(now, order) == Decoded::<
                    Seq<(Seq<char>, TagValue)>,
                >::Failed(e));
                return Err(e);
            },
        };
        if ty == TagType::End {
            proof {
                assert(entries_decoding(now, order) == Decoded::Value(
                    Seq::<(Seq<char>, TagValue)>::empty(),
                    1,
                ));
                assert(raw + Seq::<(Seq<char>, TagValue)>::empty() =~= raw);
                assert(bytes.skip(used as int).skip(1) =~= bytes.skip(used as int + 1));
            }
            return Ok(compound);
        }
        let name = match read_string(input) {
            Ok(name) => name,
            Err(e) => {
                assert(entries_decoding(now, order) == Decoded::<
                    Seq<(Seq<char>, TagValue)>,
                >::Failed(e));
                return Err(e);
            },
        };
        let ghost named = string_decoding(now.skip(1), order)->Value_1;
        proof {
            assert(1 + named <= now.len());
            assert(now.skip(1).skip(named as int) =~= now.skip(1 + named as int));
        }
        let tag = match read_tag(ty, input) {
            Ok(tag) => tag,
            Err(e) => {
                assert(entries_decoding(now, order) == Decoded::<
                    Seq<(Seq<char>, TagValue)>,
                >::Failed(e));
                return Err(e);
            },
        };
        let ghost taken = tag_decoding(ty, now.skip(1 + named as int), order)->Value_1;
        let ghost value = tag.deep_view();
        let ghost entry = (name@, value);
        let ghost step = 1 + named + taken;
        proof {
            assert(now.skip(1 + named as int).skip(taken as int) =~= now.skip(step as int));
            assert(bytes.skip(used as int).skip(step as int) =~= bytes.skip((used + step) as int));
            lemma_entries_decoding_step(now, order, ty, name@, named, value, taken);
            lemma_prepend_one(
                raw,
                used,
                entry,
                step,
                entries_decoding(now.skip(step as int), order),
            );
            assert(raw.push(entry).drop_last() =~= raw);
        }
        let _ = compound.insert(name, tag);
        proof {
            raw = raw.push(entry);
            used = used + step;
        }
    }
}

/// The encoding of a run of tags that starts with `first` is the encoding
/// of `first`, then that of the others.
pub proof fn lemma_elements_encoding_first(elements: Seq<TagValue>, order: ByteOrder)
    requires
        elements.len() > 0,
    ensures
        elements_encoding(elements, order) == match tag_encoding(elements[0], order) {
            Err(reason) => Err(reason),
            Ok(first) => match elements_encoding(elements.drop_first(), order) {
                Err(reason) => Err(reason),
                Ok(others) => Ok(first + others),
            },
        },
    decreases elements.len(),
{
    if elements.len() == 1 {
        assert(elements.drop_last() =~= Seq::<TagValue>::empty());
        assert(elements.drop_first() =~= Seq::<TagValue>::empty());
        match tag_encoding(elements[0], order) {
            Err(reason) => {},
            Ok(first) => {
                assert(Seq::<u8>::empty() + first =~= first + Seq::<u8>::empty());
            },
        }
    } else {
        lemma_elements_encoding_first(elements.drop_last(), order);
        assert(elements.drop_last().drop_first() =~= elements.drop_first().drop_last());
        assert(elements.drop_last()[0] == elements[0]);
        assert(elements.drop_first().last() == elements.last());
        match tag_encoding(elements[0], order) {
            Err(reason) => {},
            Ok(first) => {
                match elements_encoding(elements.drop_first().drop_last(), order) {
                    Err(reason) => {},
                    Ok(middle) => {
                        match tag_encoding(elements.last(), order) {
                            Err(reason) => {},
                            Ok(back) => {
                                assert((first + middle) + back =~= first + (middle + back));
                            },
                        }
                    },
                }
            },
        }
    }
}

/// The encoding of a run of entries that starts with `first` is the
/// encoding of `first`, then that of the others.
pub proof fn lemma_entries_encoding_first(entries: Seq<(Seq<char>, TagValue)>, order: ByteOrder)
    requires
        entries.len() > 0,
    ensures
        entries_encoding(entries, order) == match entry_encoding(
            entries[0].0,
            entries[0].1,
            order,
        ) {
            Err(reason) => Err(reason),
            Ok(first) => match entries_encoding(entries.drop_first(), order) {
                Err(reason) => Err(reason),
                Ok(others) => Ok(first + others),
            },
        },
    decreases entries.len(),
{
    if entries.len() == 1 {
        assert(entries.drop_last() =~= Seq::<(Seq<char>, TagValue)>::empty());
        assert(entries.drop_first() =~= Seq::<(Seq<char>, TagValue)>::empty());
        match entry_encoding(entries[0].0, entries[0].1, order) {
            Err(reason) => {},
            Ok(first) => {
                assert(Seq::<u8>::empty() + first =~= first + Seq::<u8>::empty());
            },
        }
    } else {
        lemma_entries_encoding_first(entries.drop_last(), order);
        assert(entries.drop_last().drop_first() =~= entries.drop_first().drop_last());
        assert(entries.drop_last()[0] == entries[0]);
        assert(entries.drop_first().last() == entries.last());
        match entry_encoding(entries[0].0, entries[0].1, order) {
            Err(reason) => {},
            Ok(first) => {
                match entries_encoding(entries.drop_first().drop_last(), order) {
                    Err(reason) => {},
                    Ok(middle) => {
                        match entry_encoding(entries.last().0, entries.last().1, order) {
                            Err(reason) => {},
                            Ok(back) => {
                                assert((first + middle) + back =~= first + (middle + back));
                            },
                        }
                    },
                }
            },
        }
    }
}

/// Entries with distinct names stay as they are when they are put one
/// after the other.
pub proof fn lemma_collect_distinct(entries: Seq<(Seq<char>, TagValue)>)
    requires
        distinct_names(entries),
    ensures
        collect(entries) == entries,
    decreases entries.len(),
{
    if entries.len() > 0 {
        let front = entries.drop_last();
        assert forall|i: int, j: int| 0 <= i < j < front.len() implies (#[trigger] front[i]).0 != (
        #[trigger] front[j]).0 by {
            assert(front[i] == entries[i]);
            assert(front[j] == entries[j]);
        }
        lemma_collect_distinct(front);
        if has_name(front, entries.last().0) {
            let i = choose|i: int| 0 <= i < front.len()
                && (#[trigger] front[i]).0 == entries.last().0;
            assert(front[i] == entries[i]);
            assert(entries[i].0 != entries[entries.len() - 1].0);
        }
        assert(front.push(entries.last()) =~= entries);
    } else {
        assert(entries =~= Seq::<(Seq<char>, TagValue)>::empty());
    }
}

/// A valid tag is read back from its encoding, with or without bytes
/// after it.
pub proof fn lemma_tag_round_trip(value: TagValue, order: ByteOrder, rest: Seq<u8>)
    requires
        value.valid(),
        tag_encoding(value, order) is Ok,
    ensures
        tag_decoding(value.tag_type(), tag_encoding(value, order)->Ok_0 + rest, order)
            == Decoded::Value(value, tag_encoding(value, order)->Ok_0.len()),
    decreases value, 2int,
{
    reveal(plain_encoding);
    reveal(plain_decoding);
    match value {
        TagValue::End => {
            assert(Seq::<u8>::empty() + rest =~= rest);
        },
        TagValue::Byte(v) => {
            <u8 as Codec>::lemma_round_trip(v, order, rest);
        },
        TagValue::Short(v) => {
            <i16 as Codec>::lemma_round_trip(v, order, rest);
        },
        TagValue::Int(v) => {
            <i32 as Codec>::lemma_round_trip(v, order, rest);
        },
        TagValue::Long(v) => {
            <i64 as Codec>::lemma_round_trip(v, order, rest);
        },
        TagValue::Float(v) => {
            <u32 as Codec>::lemma_round_trip(v, order, rest);
        },
        TagValue::Double(v) => {
            <u64 as Codec>::lemma_round_trip(v, order, rest);
        },
        TagValue::ByteArray(v) => {
            lemma_counted_round_trip::<u8>(v, order, rest);
        },
        TagValue::String(v) => {
            lemma_string_round_trip(v, order, rest);
        },
        TagValue::List(v) => {
            lemma_list_round_trip(v, order, rest);
        },
        TagValue::Compound(v) => {
            lemma_compound_round_trip(v, order, rest);
        },
        TagValue::IntArray(v) => {
            lemma_counted_round_trip::<i32>(v, order, rest);
        },
        TagValue::LongArray(v) => {
            lemma_counted_round_trip::<i64>(v, order, rest);
        },
        TagValue::FloatArray(v) => {
            lemma_counted_round_trip::<u32>(v, order, rest);
        },
        TagValue::DoubleArray(v) => {
            lemma_counted_round_trip::<u64>(v, order, rest);
        },
        TagValue::Uuid(v) => {
            lemma_uuid_round_trip(v, order, rest);
        },
    }
}

/// A run of tags starts with the tag that the bytes start with.
pub proof fn lemma_elements_decoding_step(
    ty: TagType,
    count: nat,
    bytes: Seq<u8>,
    order: ByteOrder,
    first: TagValue,
    used: nat,
)
    requires
        count > 0,
        tag_decoding(ty, bytes, order) == Decoded::Value(first, used),
        used <= bytes.len(),
    ensures
        elements_decoding(ty, count, bytes, order) == prepend(
            seq![first],
            used,
            elements_decoding(ty, (count - 1) as nat, bytes.skip(used as int), order),
        ),
{
}

/// A run of valid tags of one type is read back from its encoding.
#[verifier::spinoff_prover]
#[verifier::rlimit(30)]
pub proof fn lemma_elements_round_trip(
    ty: TagType,
    elements: Seq<TagValue>,
    order: ByteOrder,
    rest: Seq<u8>,
)
    requires
        forall|i: int|
            0 <= i < elements.len() ==> (#[trigger] elements[i]).tag_type() == ty
                && elements[i].valid(),
        elements_encoding(elements, order) is Ok,
    ensures
        elements_decoding(ty, elements.len(), elements_encoding(elements, order)->Ok_0
            + rest, order)
            == Decoded::Value(elements, elements_encoding(elements, order)->Ok_0.len()),
    decreases elements, 1int,
{
    if elements.len() > 0 {
        lemma_elements_encoding_first(elements, order);
        let first = tag_encoding(elements[0], order)->Ok_0;
        let others = elements_encoding(elements.drop_first(), order)->Ok_0;
        let all = first + others + rest;
        assert(all == first + (others + rest)) by {
            assert(all =~= first + (others + rest));
        }
        lemma_tag_round_trip(elements[0], order, others + rest);
        assert(all.skip(first.len() as int) == others + rest) by {
            assert(all.skip(first.len() as int) =~= others + rest);
        }
        assert forall|i: int| 0 <= i < elements.drop_first().len() implies (
        #[trigger] elements.drop_first()[i]).tag_type() == ty
            && elements.drop_first()[i].valid() by {
            assert(elements.drop_first()[i] == elements[i + 1]);
        }
        lemma_elements_round_trip(ty, elements.drop_first(), order, rest);
        lemma_elements_decoding_step(ty, elements.len(), all, order, elements[0], first.len());
        assert(seq![elements[0]] + elements.drop_first() =~= elements);
    } else {
        assert(elements =~= Seq::<TagValue>::empty());
    }
}

/// A list is read from the code of a type, a count and as many elements.
pub proof fn lemma_list_decoding_parts(
    bytes: Seq<u8>,
    order: ByteOrder,
    tag: TagType,
    count: nat,
    elements: Seq<TagValue>,
    used: nat,
)
    requires
        bytes.len() >= 5,
        tag_type_decoding(bytes) == Decoded::Value(tag, 1),
        count_decoding(bytes.skip(1), order) == Decoded::Value(count, 4),
        elements_decoding(tag, count, bytes.skip(5), order) == Decoded::Value(elements, used),
    ensures
        list_decoding(bytes, order) == Decoded::Value(ListValue { tag, elements }, 5 + used),
{
}

/// A valid list is read back from its encoding.
#[verifier::spinoff_prover]
#[verifier::rlimit(30)]
pub proof fn lemma_list_round_trip(list: ListValue, order: ByteOrder, rest: Seq<u8>)
    requires
        list.valid(),
        list_encoding(list, order) is Ok,
    ensures
        list_decoding(list_encoding(list, order)->Ok_0 + rest, order) == Decoded::Value(
            list,
            list_encoding(list, order)->Ok_0.len(),
        ),
    decreases list, 2int,
{
    let count = count_encoding(list.elements.len(), order)->Ok_0;
    let body = elements_encoding(list.elements, order)->Ok_0;
    let all = seq![list.tag.code_of()] + count + body + rest;
    assert(list_encoding(list, order)->Ok_0 + rest == all);
    lemma_count_round_trip(list.elements.len(), order, body + rest);
    lemma_elements_round_trip(list.tag, list.elements, order, rest);
    assert(tag_type_decoding(all) == Decoded::Value(list.tag, 1)) by {
        list.tag.lemma_codes(0);
        assert(all[0] == list.tag.code_of());
    }
    assert(all.skip(1) == count + (body + rest)) by {
        assert(all.skip(1) =~= count + (body + rest));
    }
    assert(all.skip(5) == body + rest) by {
        assert(all.skip(5) =~= body + rest);
    }
    lemma_list_decoding_parts(all, order, list.tag, list.elements.len(), list.elements, body.len());
}

/// An entry with a valid tag is read back part by part from its encoding:
/// the type of the tag, the name, and the tag.
#[verifier::spinoff_prover]
#[verifier::rlimit(30)]
pub proof fn lemma_entry_round_trip(
    name: Seq<char>,
    value: TagValue,
    order: ByteOrder,
    tail: Seq<u8>,
)
    requires
        value.valid(),
        entry_encoding(name, value, order) is Ok,
    ensures
        ({
            let entry = entry_encoding(name, value, order)->Ok_0;
            let head = string_encoding(name, order)->Ok_0;
            let inner = tag_encoding(value, order)->Ok_0;
            let all = entry + tail;
            &&& value.tag_type() != TagType::End
            &&& entry.len() == 1 + head.len() + inner.len()
            &&& tag_type_decoding(all) == Decoded::Value(value.tag_type(), 1)
            &&& string_decoding(all.skip(1), order) == Decoded::Value(name, head.len())
            &&& tag_decoding(value.tag_type(), all.skip(1 + head.len() as int), order)
                == Decoded::Value(value, inner.len())
            &&& all.skip(entry.len() as int) == tail
        }),
    decreases value, 3int,
{
    let ty = value.tag_type();
    let head = string_encoding(name, order)->Ok_0;
    let inner = tag_encoding(value, order)->Ok_0;
    let entry = entry_encoding(name, value, order)->Ok_0;
    let all = entry + tail;
    ty.lemma_codes(0);
    assert(entry == seq![ty.code_of()] + head + inner);
    assert(all[0] == ty.code_of());
    assert(all.skip(1) == head + (inner + tail)) by {
        assert(all.skip(1) =~= head + (inner + tail));
    }
    lemma_string_round_trip(name, order, inner + tail);
    assert(all.skip(1 + head.len() as int) == inner + tail) by {
        assert(all.skip(1 + head.len() as int) =~= inner + tail);
    }
    lemma_tag_round_trip(value, order, tail);
    assert(all.skip(entry.len() as int) == tail) by {
        assert(all.skip(entry.len() as int) =~= tail);
    }
}

/// A run of entries with valid tags is read back from its encoding and the
/// code of End.
#[verifier::spinoff_prover]
#[verifier::rlimit(30)]
pub proof fn lemma_entries_round_trip(
    entries: Seq<(Seq<char>, TagValue)>,
    order: ByteOrder,
    rest: Seq<u8>,
)
    requires
        forall|i: int| 0 <= i < entries.len() ==> (#[trigger] entries[i]).1.valid(),
        entries_encoding(entries, order) is Ok,
    ensures
        entries_decoding(entries_encoding(entries, order)->Ok_0.push(0u8) + rest, order)
            == Decoded::Value(entries, entries_encoding(entries, order)->Ok_0.len() + 1),
    decreases entries, 4int,
{
    let body = entries_encoding(entries, order)->Ok_0;
    let all = body.push(0u8) + rest;
    if entries.len() > 0 {
        lemma_entries_encoding_first(entries, order);
        let name = entries[0].0;
        let value = entries[0].1;
        let entry = entry_encoding(name, value, order)->Ok_0;
        let head = string_encoding(name, order)->Ok_0;
        let inner = tag_encoding(value, order)->Ok_0;
        let others = entries_encoding(entries.drop_first(), order)->Ok_0;
        let tail = others.push(0u8) + rest;
        assert(all == entry + tail) by {
            assert(all =~= entry + tail);
        }
        lemma_entry_round_trip(name, value, order, tail);
        assert forall|i: int| 0 <= i < entries.drop_first().len() implies (
        #[trigger] entries.drop_first()[i]).1.valid() by {
            assert(entries.drop_first()[i] == entries[i + 1]);
        }
        lemma_entries_round_trip(entries.drop_first(), order, rest);
        lemma_entries_decoding_step(
            all,
            order,
            value.tag_type(),
            name,
            head.len(),
            value,
            inner.len(),
        );
        assert(seq![(name, value)] + entries.drop_first() =~= entries);
    } else {
        assert(entries =~= Seq::<(Seq<char>, TagValue)>::empty());
        assert(all[0] == 0u8);
    }
}

/// A valid compound is read back from its encoding.
pub proof fn lemma_compound_round_trip(compound: CompoundValue, order: ByteOrder, rest: Seq<u8>)
    requires
        compound.valid(),
        compound_encoding(compound, order) is Ok,
    ensures
        compound_decoding(compound_encoding(compound, order)->Ok_0 + rest, order)
            == Decoded::Value(compound, compound_encoding(compound, order)->Ok_0.len()),
    decreases compound, 2int,
{
    lemma_entries_round_trip(compound.entries, order, rest);
    lemma_collect_distinct(compound.entries);
}

/// A tag takes no more bytes than there are.
pub proof fn lemma_tag_decoding_fits(ty: TagType, bytes: Seq<u8>, order: ByteOrder)
    ensures
        tag_decoding(ty, bytes, order) matches Decoded::Value(_, used) ==> used <= bytes.len(),
    decreases bytes.len(), 2nat,
{
    reveal(plain_decoding);
    match ty {
        TagType::ByteArray => {
            lemma_counted_decoding_fits::<u8>(bytes, order);
        },
        TagType::List => {
            lemma_list_decoding_fits(bytes, order);
        },
        TagType::Compound => {
            lemma_entries_decoding_fits(bytes, order);
        },
        TagType::IntArray => {
            lemma_counted_decoding_fits::<i32>(bytes, order);
        },
        TagType::LongArray => {
            lemma_counted_decoding_fits::<i64>(bytes, order);
        },
        TagType::FloatArray => {
            lemma_counted_decoding_fits::<u32>(bytes, order);
        },
        TagType::DoubleArray => {
            lemma_counted_decoding_fits::<u64>(bytes, order);
        },
        _ => {},
    }
}

/// A run of tags takes no more bytes than there are, and has as many tags
/// as were asked for.
pub proof fn lemma_elements_decoding_fits(
    ty: TagType,
    count: nat,
    bytes: Seq<u8>,
    order: ByteOrder,
)
    ensures
        elements_decoding(ty, count, bytes, order) matches Decoded::Value(elements, used) ==> used
            <= bytes.len() && elements.len() == count,
    decreases bytes.len(), count + 3,
{
    if count > 0 {
        match tag_decoding(ty, bytes, order) {
            Decoded::Failed(e) => {},
            Decoded::Value(first, used) => {
                if used <= bytes.len() {
                    lemma_elements_decoding_fits(
                        ty,
                        (count - 1) as nat,
                        bytes.skip(used as int),
                        order,
                    );
                }
            },
        }
    }
}

/// A list takes no more bytes than there are.
pub proof fn lemma_list_decoding_fits(bytes: Seq<u8>, order: ByteOrder)
    ensures
        list_decoding(bytes, order) matches Decoded::Value(_, used) ==> used <= bytes.len(),
    decreases bytes.len(), 0nat,
{
    match tag_type_decoding(bytes) {
        Decoded::Failed(e) => {},
        Decoded::Value(tag, _) => {
            match count_decoding(bytes.skip(1), order) {
                Decoded::Failed(e) => {},
                Decoded::Value(count, _) => {
                    if bytes.len() >= 5 {
                        lemma_elements_decoding_fits(tag, count, bytes.skip(5), order);
                    }
                },
            }
        },
    }
}

/// The entries of a compound take no more bytes than there are.
pub proof fn lemma_entries_decoding_fits(bytes: Seq<u8>, order: ByteOrder)
    ensures
        entries_decoding(bytes, order) matches Decoded::Value(_, used) ==> used <= bytes.len(),
        compound_decoding(bytes, order) matches Decoded::Value(_, used) ==> used <= bytes.len(),
    decreases bytes.len(), 0nat,
{
    match tag_type_decoding(bytes) {
        Decoded::Failed(e) => {},
        Decoded::Value(ty, _) => {
            if ty != TagType::End {
                match string_decoding(bytes.skip(1), order) {
                    Decoded::Failed(e) => {},
                    Decoded::Value(name, named) => {
                        if 1 + named <= bytes.len() {
                            match tag_decoding(ty, bytes.skip(1 + named as int), order) {
                                Decoded::Failed(e) => {},
                                Decoded::Value(value, used) => {
                                    if 1 + named + used <= bytes.len() {
                                        lemma_entries_decoding_fits(
                                            bytes.skip(1 + named + used as int),
                                            order,
                                        );
                                    }
                                },
                            }
                        }
                    },
                }
            }
        },
    }
}

/// Whether no entry holds an End tag.
pub open spec fn no_end_entries(entries: Seq<(Seq<char>, TagValue)>) -> bool {
    forall|i: int| 0 <= i < entries.len() ==> (#[trigger] entries[i]).1.tag_type() != TagType::End
}

/// Where an entry has the name, one of the entries with the name is the
/// first of them.
pub proof fn lemma_first_named(entries: Seq<(Seq<char>, TagValue)>, name: Seq<char>, at: int)
    requires
        0 <= at < entries.len(),
        entries[at].0 == name,
    ensures
        0 <= first_named(entries, name) <= at,
        entries[first_named(entries, name)].0 == name,
        forall|j: int| 0 <= j < first_named(entries, name) ==> (#[trigger] entries[j]).0 != name,
    decreases at,
{
    if exists|j: int| 0 <= j < at && (#[trigger] entries[j]).0 == name {
        let j = choose|j: int| 0 <= j < at && (#[trigger] entries[j]).0 == name;
        lemma_first_named(entries, name, j);
    } else {
        assert(0 <= at < entries.len() && entries[at].0 == name && forall|j: int|
            0 <= j < at ==> (#[trigger] entries[j]).0 != name);
        let chosen = first_named(entries, name);
        if chosen > at {
            assert(entries[at].0 != name);
        }
    }
}

/// Putting a tag that is no End tag into entries without End tags leaves
/// them without End tags.
pub proof fn lemma_put_keeps_no_end(
    entries: Seq<(Seq<char>, TagValue)>,
    name: Seq<char>,
    value: TagValue,
)
    requires
        no_end_entries(entries),
        value.tag_type() != TagType::End,
    ensures
        no_end_entries(put(entries, name, value)),
{
    let after = put(entries, name, value);
    if has_name(entries, name) {
        let at = choose|i: int| 0 <= i < entries.len() && (#[trigger] entries[i]).0 == name;
        lemma_first_named(entries, name, at);
    }
    assert forall|i: int| 0 <= i < after.len() implies (#[trigger] after[i]).1.tag_type()
        != TagType::End by {
        if has_name(entries, name) {
            if i != first_named(entries, name) {
                assert(after[i] == entries[i]);
            }
        } else {
            if i < entries.len() {
                assert(after[i] == entries[i]);
            }
        }
    }
}

/// Entries with valid tags that are put one after the other make a valid
/// compound, and one without End tags where none of them is an End tag.
pub proof fn lemma_collect_valid(raw: Seq<(Seq<char>, TagValue)>)
    requires
        forall|i: int| 0 <= i < raw.len() ==> (#[trigger] raw[i]).1.valid(),
    ensures
        (CompoundValue { entries: collect(raw) }).valid(),
        no_end_entries(raw) ==> no_end_entries(collect(raw)),
    decreases raw.len(),
{
    if raw.len() > 0 {
        let front = raw.drop_last();
        assert forall|i: int| 0 <= i < front.len() implies (#[trigger] front[i]).1.valid() by {
            assert(front[i] == raw[i]);
        }
        lemma_collect_valid(front);
        lemma_put_keeps_valid(collect(front), raw.last().0, raw.last().1);
        if no_end_entries(raw) {
            assert forall|i: int| 0 <= i < front.len() implies (#[trigger] front[i]).1.tag_type()
                != TagType::End by {
                assert(front[i] == raw[i]);
            }
            lemma_put_keeps_no_end(collect(front), raw.last().0, raw.last().1);
        }
    }
}

/// What is read as a tag of a type is a valid tag of that type.
pub proof fn lemma_tag_decoding_valid(ty: TagType, bytes: Seq<u8>, order: ByteOrder)
    ensures
        tag_decoding(ty, bytes, order) matches Decoded::Value(value, _) ==> value.tag_type() == ty
            && value.valid(),
    decreases bytes.len(), 2nat,
{
    reveal(plain_decoding);
    match ty {
        TagType::List => {
            lemma_list_decoding_valid(bytes, order);
        },
        TagType::Compound => {
            lemma_entries_decoding_valid(bytes, order);
        },
        _ => {},
    }
}

/// What is read as a run of tags of a type are valid tags of that type.
pub proof fn lemma_elements_decoding_valid(
    ty: TagType,
    count: nat,
    bytes: Seq<u8>,
    order: ByteOrder,
)
    ensures
        elements_decoding(ty, count, bytes, order) matches Decoded::Value(elements, _) ==> forall|
            i: int,
        |
            0 <= i < elements.len() ==> (#[trigger] elements[i]).tag_type() == ty
                && elements[i].valid(),
    decreases bytes.len(), count + 3,
{
    if count > 0 {
        lemma_tag_decoding_valid(ty, bytes, order);
        match tag_decoding(ty, bytes, order) {
            Decoded::Failed(e) => {},
            Decoded::Value(first, used) => {
                if used <= bytes.len() {
                    lemma_elements_decoding_valid(
                        ty,
                        (count - 1) as nat,
                        bytes.skip(used as int),
                        order,
                    );
                }
            },
        }
    }
}

/// What is read as a list is a valid list.
pub proof fn lemma_list_decoding_valid(bytes: Seq<u8>, order: ByteOrder)
    ensures
        list_decoding(bytes, order) matches Decoded::Value(list, _) ==> list.valid(),
    decreases bytes.len(), 0nat,
{
    match tag_type_decoding(bytes) {
        Decoded::Failed(e) => {},
        Decoded::Value(tag, _) => {
            match count_decoding(bytes.skip(1), order) {
                Decoded::Failed(e) => {},
                Decoded::Value(count, _) => {
                    if bytes.len() >= 5 {
                        lemma_elements_decoding_valid(tag, count, bytes.skip(5), order);
                    }
                },
            }
        },
    }
}

/// What is read as a compound is a valid compound without End tags.
pub proof fn lemma_entries_decoding_valid(bytes: Seq<u8>, order: ByteOrder)
    ensures
        entries_decoding(bytes, order) matches Decoded::Value(raw, _) ==> no_end_entries(raw)
            && forall|i: int| 0 <= i < raw.len() ==> (#[trigger] raw[i]).1.valid(),
        compound_decoding(bytes, order) matches Decoded::Value(compound, _) ==> compound.valid()
            && no_end_entries(compound.entries),
    decreases bytes.len(), 0nat,
{
    match tag_type_decoding(bytes) {
        Decoded::Failed(e) => {},
        Decoded::Value(ty, _) => {
            if ty != TagType::End {
                match string_decoding(bytes.skip(1), order) {
                    Decoded::Failed(e) => {},
                    Decoded::Value(name, named) => {
                        if 1 + named <= bytes.len() {
                            lemma_tag_decoding_valid(ty, bytes.skip(1 + named as int), order);
                            match tag_decoding(ty, bytes.skip(1 + named as int), order) {
                                Decoded::Failed(e) => {},
                                Decoded::Value(value, used) => {
                                    if 1 + named + used <= bytes.len() {
                                        lemma_entries_decoding_valid(
                                            bytes.skip(1 + named + used as int),
                                            order,
                                        );
                                    }
                                },
                            }
                        }
                    },
                }
            }
        },
    }
    match entries_decoding(bytes, order) {
        Decoded::Failed(e) => {},
        Decoded::Value(raw, _) => {
            lemma_collect_valid(raw);
        },
    }
}

impl NbtTag {
    /// A tag that holds the same as this one.
    pub fn duplicate(&self) -> (copy: Self)
        ensures
            copy.deep_view() == self.deep_view(),
        decreases self, 1int,
    {
        match self {
            NbtTag::End => NbtTag::End,
            NbtTag::Byte(v) => NbtTag::Byte(*v),
            NbtTag::Short(v) => NbtTag::Short(*v),
            NbtTag::Int(v) => NbtTag::Int(*v),
            NbtTag::Long(v) => NbtTag::Long(*v),
            NbtTag::Float(v) => NbtTag::Float(*v),
            NbtTag::Double(v) => NbtTag::Double(*v),
            NbtTag::ByteArray(v) => NbtTag::ByteArray(v.duplicate()),
            NbtTag::String(v) => NbtTag::String(v.clone()),
            NbtTag::List(v) => NbtTag::List(v.duplicate()),
            NbtTag::Compound(v) => NbtTag::Compound(v.duplicate()),
            NbtTag::IntArray(v) => NbtTag::IntArray(v.duplicate()),
            NbtTag::LongArray(v) => NbtTag::LongArray(v.duplicate()),
            NbtTag::FloatArray(v) => NbtTag::FloatArray(v.duplicate()),
            NbtTag::DoubleArray(v) => NbtTag::DoubleArray(v.duplicate()),
            NbtTag::Uuid(v) => NbtTag::Uuid(*v),
        }
    }
}

impl NbtList {
    /// A list that holds the same as this one.
    pub fn duplicate(&self) -> (copy: Self)
        ensures
            copy.deep_view() == self.deep_view(),
        decreases self, 0int,
    {
        let n = self.elements.len();
        let mut elements: Vec<NbtTag> = Vec::with_capacity(n);
        let mut i: usize = 0;
        proof {
            assert(self.elements@.take(0) =~= Seq::<NbtTag>::empty());
        }
        while i < n
            invariant
                i <= n,
                n == self.elements@.len(),
                tag_values(elements@) == tag_values(self.elements@.take(i as int)),
                elements@.len() == i,
            decreases n - i,
        {
            proof {
                assert(decreases_to!(self.elements => self.elements[i as int])) by {
                    vstd::std_specs::vec::axiom_vec_index_decreases(self.elements, i as int);
                }
                assert(decreases_to!(*self => self.elements));
            }
            let ghost before = elements@;
            elements.push(self.elements[i].duplicate());
            proof {
                assert(elements@.drop_last() =~= before);
                assert(self.elements@.take(i + 1).drop_last() =~= self.elements@.take(i as int));
                assert(self.elements@.take(i + 1).last() == self.elements@[i as int]);
            }
            i = i + 1;
        }
        proof {
            assert(self.elements@.take(n as int) =~= self.elements@);
        }
        NbtList { tag: self.tag, elements }
    }
}

impl NbtCompound {
    /// A compound that holds the same as this one.
    pub fn duplicate(&self) -> (copy: Self)
        ensures
            copy.deep_view() == self.deep_view(),
        decreases self, 0int,
    {
        let n = self.entries.len();
        let mut entries: Vec<(String, NbtTag)> = Vec::with_capacity(n);
        let mut i: usize = 0;
        proof {
            assert(self.entries@.take(0) =~= Seq::<(String, NbtTag)>::empty());
        }
        while i < n
            invariant
                i <= n,
                n == self.entries@.len(),
                entry_values(entries@) == entry_values(self.entries@.take(i as int)),
                entries@.len() == i,
            decreases n - i,
        {
            proof {
                assert(decreases_to!(self.entries => self.entries[i as int])) by {
                    vstd::std_specs::vec::axiom_vec_index_decreases(self.entries, i as int);
                }
                assert(decreases_to!(*self => self.entries));
                assert(decreases_to!(self.entries[i as int] => self.entries[i as int].1));
            }
            let ghost before = entries@;
            let name = self.entries[i].0.clone();
            let tag = self.entries[i].1.duplicate();
            entries.push((name, tag));
            proof {
                assert(entries@.drop_last() =~= before);
                assert(self.entries@.take(i + 1).drop_last() =~= self.entries@.take(i as int));
                assert(self.entries@.take(i + 1).last() == self.entries@[i as int]);
            }
            i = i + 1;
        }
        proof {
            assert(self.entries@.take(n as int) =~= self.entries@);
        }
        NbtCompound { entries }
    }
}

impl Clone for NbtTag {
    fn clone(&self) -> (copy: Self)
        ensures
            copy.deep_view() == self.deep_view(),
    {
        self.duplicate()
    }
}

impl Clone for NbtList {
    fn clone(&self) -> (copy: Self)
        ensures
            copy.deep_view() == self.deep_view(),
    {
        self.duplicate()
    }
}

impl Clone for NbtCompound {
    fn clone(&self) -> (copy: Self)
        ensures
            copy.deep_view() == self.deep_view(),
    {
        self.duplicate()
    }
}

impl Serializeable for NbtTag {
    open spec fn encoding(value: TagValue, order: ByteOrder) -> Result<Seq<u8>, Invalid> {
        tag_encoding(value, order)
    }

    fn serialize<W: DataOutput>(&self, output: &mut W) -> (r: Result<(), Error>) {
        write_tag(self, output)
    }
}

impl Deserializeable for NbtTag {
    /// A tag is read as a tag of the type that the destination holds.
    open spec fn decoding_into(current: TagValue, bytes: Seq<u8>, order: ByteOrder) -> Decoded<
        TagValue,
    > {
        tag_decoding(current.tag_type(), bytes, order)
    }

    fn deserialize<R: DataInput>(&mut self, input: &mut R) -> (r: Result<(), Error>) {
        match read_tag(self.tag_type(), input) {
            Ok(tag) => {
                *self = tag;
                Ok(())
            },
            Err(e) => Err(e),
        }
    }
}

impl Serializeable for NbtList {
    open spec fn encoding(value: ListValue, order: ByteOrder) -> Result<Seq<u8>, Invalid> {
        list_encoding(value, order)
    }

    fn serialize<W: DataOutput>(&self, output: &mut W) -> (r: Result<(), Error>) {
        write_list(self, output)
    }
}

impl Deserializeable for NbtList {
    open spec fn decoding_into(current: ListValue, bytes: Seq<u8>, order: ByteOrder) -> Decoded<
        ListValue,
    > {
        list_decoding(bytes, order)
    }

    fn deserialize<R: DataInput>(&mut self, input: &mut R) -> (r: Result<(), Error>)
        ensures
            list_refusal_taken(old(input).remaining(), old(input).order()) matches Some(taken)
                ==> final(input).remaining() == old(input).remaining().skip(taken as int),
            r is Err ==> final(self).deep_view() == old(self).deep_view(),
    {
        match read_list(input) {
            Ok(list) => {
                *self = list;
                Ok(())
            },
            Err(e) => Err(e),
        }
    }
}

impl DeserializeCopy for NbtList {
    open spec fn decoding(bytes: Seq<u8>, order: ByteOrder) -> Decoded<ListValue> {
        list_decoding(bytes, order)
    }

    proof fn lemma_decoding_fits(bytes: Seq<u8>, order: ByteOrder) {
        lemma_list_decoding_fits(bytes, order);
    }

    fn deserialize_copy<R: DataInput>(input: &mut R) -> (r: Result<Self, Error>)
        ensures
            list_refusal_taken(old(input).remaining(), old(input).order()) matches Some(taken)
                ==> final(input).remaining() == old(input).remaining().skip(taken as int),
    {
        read_list(input)
    }
}

impl Codec for NbtList {
    open spec fn valid(value: ListValue) -> bool {
        value.valid()
    }

    proof fn lemma_round_trip(value: ListValue, order: ByteOrder, rest: Seq<u8>) {
        lemma_list_round_trip(value, order, rest);
    }
}

impl Serializeable for NbtCompound {
    open spec fn encoding(value: CompoundValue, order: ByteOrder) -> Result<Seq<u8>, Invalid> {
        compound_encoding(value, order)
    }

    fn serialize<W: DataOutput>(&self, output: &mut W) -> (r: Result<(), Error>) {
        write_compound(self, output)
    }
}

impl Deserializeable for NbtCompound {
    /// What the destination held is dropped before the entries are read.
    open spec fn decoding_into(current: CompoundValue, bytes: Seq<u8>, order: ByteOrder) -> Decoded<
        CompoundValue,
    > {
        compound_decoding(bytes, order)
    }

    fn deserialize<R: DataInput>(&mut self, input: &mut R) -> (r: Result<(), Error>) {
        match read_compound(input) {
            Ok(compound) => {
                *self = compound;
                Ok(())
            },
            Err(e) => Err(e),
        }
    }
}

impl DeserializeCopy for NbtCompound {
    open spec fn decoding(bytes: Seq<u8>, order: ByteOrder) -> Decoded<CompoundValue> {
        compound_decoding(bytes, order)
    }

    proof fn lemma_decoding_fits(bytes: Seq<u8>, order: ByteOrder) {
        lemma_entries_decoding_fits(bytes, order);
    }

    fn deserialize_copy<R: DataInput>(input: &mut R) -> (r: Result<Self, Error>) {
        read_compound(input)
    }
}

impl Codec for NbtCompound {
    open spec fn valid(value: CompoundValue) -> bool {
        value.valid()
    }

    proof fn lemma_round_trip(value: CompoundValue, order: ByteOrder, rest: Seq<u8>) {
        lemma_compound_round_trip(value, order, rest);
    }
}

} // verus!
