//! The integer types on the wire: one byte for the 8-bit types, and for the
//! wider ones their bytes in the byte order of the stream. Signed numbers
//! travel in two's complement.

use crate::data::{
    ByteOrder, Codec, DataInput, DataOutput, Decoded, DeserializeCopy, Deserializeable, Error,
    Invalid, Serializeable,
};
use crate::endian::{
    from_twos_complement, lemma_bytes_round_trip, lemma_from_twos_complement_round_trip,
    lemma_spans, lemma_twos_complement_round_trip, lemma_unsigned_round_trip, raw_to_signed,
    read_unsigned, signed_to_raw, twos_complement, unsigned_bytes, unsigned_decoding,
    unsigned_value, write_unsigned,
};
use vstd::prelude::*;

verus! {

/// What reading one byte makes of `bytes`.
pub open spec fn byte_decoding(bytes: Seq<u8>) -> Decoded<u8> {
    if bytes.len() < 1 {
        Decoded::Failed(Error::EndOfFile)
    } else {
        Decoded::Value(bytes[0], 1)
    }
}

impl Serializeable for u8 {
    open spec fn encoding(value: u8, order: ByteOrder) -> Result<Seq<u8>, Invalid> {
        Ok(seq![value])
    }

    fn serialize<W: DataOutput>(&self, output: &mut W) -> (r: Result<(), Error>) {
        let r = output.write_byte(*self);
        assert(output.written() =~= old(output).written() + seq![*self]);
        r
    }
}

impl Deserializeable for u8 {
    open spec fn decoding_into(current: u8, bytes: Seq<u8>, order: ByteOrder) -> Decoded<u8> {
        byte_decoding(bytes)
    }

    fn deserialize<R: DataInput>(&mut self, input: &mut R) -> (r: Result<(), Error>) {
        match input.read_byte() {
            Ok(value) => {
                *self = value;
                Ok(())
            },
            Err(e) => Err(e),
        }
    }
}

impl DeserializeCopy for u8 {
    open spec fn decoding(bytes: Seq<u8>, order: ByteOrder) -> Decoded<u8> {
        byte_decoding(bytes)
    }

    proof fn lemma_decoding_fits(bytes: Seq<u8>, order: ByteOrder) {
    }

    fn deserialize_copy<R: DataInput>(input: &mut R) -> (r: Result<Self, Error>) {
        input.read_byte()
    }
}

impl Codec for u8 {
    open spec fn valid(value: u8) -> bool {
        true
    }

    proof fn lemma_round_trip(value: u8, order: ByteOrder, rest: Seq<u8>) {
    }
}

/// The signed number with the bit pattern of `raw`.
pub fn byte_to_signed(raw: u8) -> (value: i8)
    ensures
        value == from_twos_complement(raw as nat, 1),
{
    proof {
        lemma_spans();
    }
    raw_to_signed(raw as u128, 1) as i8
}

/// The byte with the bit pattern of `value`.
pub fn signed_to_byte(value: i8) -> (raw: u8)
    ensures
        raw == twos_complement(value as int, 1),
{
    proof {
        lemma_spans();
    }
    signed_to_raw(value as i128, 1) as u8
}

/// What reading a signed byte makes of `bytes`.
pub open spec fn signed_byte_decoding(bytes: Seq<u8>) -> Decoded<i8> {
    match byte_decoding(bytes) {
        Decoded::Value(raw, used) => Decoded::Value(from_twos_complement(raw as nat, 1) as i8, used),
        Decoded::Failed(e) => Decoded::Failed(e),
    }
}

impl Serializeable for i8 {
    open spec fn encoding(value: i8, order: ByteOrder) -> Result<Seq<u8>, Invalid> {
        Ok(seq![twos_complement(value as int, 1) as u8])
    }

    fn serialize<W: DataOutput>(&self, output: &mut W) -> (r: Result<(), Error>) {
        let r = output.write_byte(signed_to_byte(*self));
        assert(output.written() =~= old(output).written() + seq![
            twos_complement(*self as int, 1) as u8,
        ]);
        r
    }
}

impl Deserializeable for i8 {
    open spec fn decoding_into(current: i8, bytes: Seq<u8>, order: ByteOrder) -> Decoded<i8> {
        signed_byte_decoding(bytes)
    }

    fn deserialize<R: DataInput>(&mut self, input: &mut R) -> (r: Result<(), Error>) {
        match input.read_byte() {
            Ok(raw) => {
                *self = byte_to_signed(raw);
                Ok(())
            },
            Err(e) => Err(e),
        }
    }
}

impl DeserializeCopy for i8 {
    open spec fn decoding(bytes: Seq<u8>, order: ByteOrder) -> Decoded<i8> {
        signed_byte_decoding(bytes)
    }

    proof fn lemma_decoding_fits(bytes: Seq<u8>, order: ByteOrder) {
    }

    fn deserialize_copy<R: DataInput>(input: &mut R) -> (r: Result<Self, Error>) {
        match input.read_byte() {
            Ok(raw) => Ok(byte_to_signed(raw)),
            Err(e) => Err(e),
        }
    }
}

impl Codec for i8 {
    open spec fn valid(value: i8) -> bool {
        true
    }

    proof fn lemma_round_trip(value: i8, order: ByteOrder, rest: Seq<u8>) {
        lemma_spans();
        lemma_twos_complement_round_trip(value as int, 1);
    }
}

/// What reading an unsigned number of 2 bytes makes of `bytes`.
pub open spec fn u16_decoding(bytes: Seq<u8>, order: ByteOrder) -> Decoded<u16> {
    match unsigned_decoding(bytes, 2, order) {
        Decoded::Value(raw, used) => Decoded::Value(raw as u16, used),
        Decoded::Failed(e) => Decoded::Failed(e),
    }
}

impl Serializeable for u16 {
    open spec fn encoding(value: u16, order: ByteOrder) -> Result<Seq<u8>, Invalid> {
        Ok(unsigned_bytes(value as nat, 2, order))
    }

    fn serialize<W: DataOutput>(&self, output: &mut W) -> (r: Result<(), Error>) {
        write_unsigned(output, *self as u128, 2)
    }
}

impl Deserializeable for u16 {
    open spec fn decoding_into(current: u16, bytes: Seq<u8>, order: ByteOrder) -> Decoded<u16> {
        u16_decoding(bytes, order)
    }

    fn deserialize<R: DataInput>(&mut self, input: &mut R) -> (r: Result<(), Error>) {
        proof {
            lemma_spans();
        }
        match read_unsigned(input, 2) {
            Ok(raw) => {
                *self = raw as u16;
                Ok(())
            },
            Err(e) => Err(e),
        }
    }
}

impl DeserializeCopy for u16 {
    open spec fn decoding(bytes: Seq<u8>, order: ByteOrder) -> Decoded<u16> {
        u16_decoding(bytes, order)
    }

    proof fn lemma_decoding_fits(bytes: Seq<u8>, order: ByteOrder) {
    }

    fn deserialize_copy<R: DataInput>(input: &mut R) -> (r: Result<Self, Error>) {
        proof {
            lemma_spans();
        }
        match read_unsigned(input, 2) {
            Ok(raw) => Ok(raw as u16),
            Err(e) => Err(e),
        }
    }
}

impl Codec for u16 {
    open spec fn valid(value: u16) -> bool {
        true
    }

    proof fn lemma_round_trip(value: u16, order: ByteOrder, rest: Seq<u8>) {
        lemma_spans();
        lemma_unsigned_round_trip(value as nat, 2, order);
        let bytes = unsigned_bytes(value as nat, 2, order);
        assert((bytes + rest).take(2) =~= bytes);
    }
}

/// What reading a signed number of 2 bytes makes of `bytes`.
pub open spec fn i16_decoding(bytes: Seq<u8>, order: ByteOrder) -> Decoded<i16> {
    match unsigned_decoding(bytes, 2, order) {
        Decoded::Value(raw, used) => Decoded::Value(from_twos_complement(raw, 2) as i16, used),
        Decoded::Failed(e) => Decoded::Failed(e),
    }
}

impl Serializeable for i16 {
    open spec fn encoding(value: i16, order: ByteOrder) -> Result<Seq<u8>, Invalid> {
        Ok(unsigned_bytes(twos_complement(value as int, 2), 2, order))
    }

    fn serialize<W: DataOutput>(&self, output: &mut W) -> (r: Result<(), Error>) {
        proof {
            lemma_spans();
        }
        write_unsigned(output, signed_to_raw(*self as i128, 2), 2)
    }
}

impl Deserializeable for i16 {
    open spec fn decoding_into(current: i16, bytes: Seq<u8>, order: ByteOrder) -> Decoded<i16> {
        i16_decoding(bytes, order)
    }

    fn deserialize<R: DataInput>(&mut self, input: &mut R) -> (r: Result<(), Error>) {
        proof {
            lemma_spans();
        }
        match read_unsigned(input, 2) {
            Ok(raw) => {
                *self = raw_to_signed(raw, 2) as i16;
                Ok(())
            },
            Err(e) => Err(e),
        }
    }
}

impl DeserializeCopy for i16 {
    open spec fn decoding(bytes: Seq<u8>, order: ByteOrder) -> Decoded<i16> {
        i16_decoding(bytes, order)
    }

    proof fn lemma_decoding_fits(bytes: Seq<u8>, order: ByteOrder) {
    }

    fn deserialize_copy<R: DataInput>(input: &mut R) -> (r: Result<Self, Error>) {
        proof {
            lemma_spans();
        }
        match read_unsigned(input, 2) {
            Ok(raw) => Ok(raw_to_signed(raw, 2) as i16),
            Err(e) => Err(e),
        }
    }
}

impl Codec for i16 {
    open spec fn valid(value: i16) -> bool {
        true
    }

    proof fn lemma_round_trip(value: i16, order: ByteOrder, rest: Seq<u8>) {
        lemma_spans();
        lemma_twos_complement_round_trip(value as int, 2);
        let raw = twos_complement(value as int, 2);
        lemma_unsigned_round_trip(raw, 2, order);
        let bytes = unsigned_bytes(raw, 2, order);
        assert((bytes + rest).take(2) =~= bytes);
    }
}

/// What reading an unsigned number of 4 bytes makes of `bytes`.
pub open spec fn u32_decoding(bytes: Seq<u8>, order: ByteOrder) -> Decoded<u32> {
    match unsigned_decoding(bytes, 4, order) {
        Decoded::Value(raw, used) => Decoded::Value(raw as u32, used),
        Decoded::Failed(e) => Decoded::Failed(e),
    }
}

impl Serializeable for u32 {
    open spec fn encoding(value: u32, order: ByteOrder) -> Result<Seq<u8>, Invalid> {
        Ok(unsigned_bytes(value as nat, 4, order))
    }

    fn serialize<W: DataOutput>(&self, output: &mut W) -> (r: Result<(), Error>) {
        write_unsigned(output, *self as u128, 4)
    }
}

impl Deserializeable for u32 {
    open spec fn decoding_into(current: u32, bytes: Seq<u8>, order: ByteOrder) -> Decoded<u32> {
        u32_decoding(bytes, order)
    }

    fn deserialize<R: DataInput>(&mut self, input: &mut R) -> (r: Result<(), Error>) {
        proof {
            lemma_spans();
        }
        match read_unsigned(input, 4) {
            Ok(raw) => {
                *self = raw as u32;
                Ok(())
            },
            Err(e) => Err(e),
        }
    }
}

impl DeserializeCopy for u32 {
    open spec fn decoding(bytes: Seq<u8>, order: ByteOrder) -> Decoded<u32> {
        u32_decoding(bytes, order)
    }

    proof fn lemma_decoding_fits(bytes: Seq<u8>, order: ByteOrder) {
    }

    fn deserialize_copy<R: DataInput>(input: &mut R) -> (r: Result<Self, Error>) {
        proof {
            lemma_spans();
        }
        match read_unsigned(input, 4) {
            Ok(raw) => Ok(raw as u32),
            Err(e) => Err(e),
        }
    }
}

impl Codec for u32 {
    open spec fn valid(value: u32) -> bool {
        true
    }

    proof fn lemma_round_trip(value: u32, order: ByteOrder, rest: Seq<u8>) {
        lemma_spans();
        lemma_unsigned_round_trip(value as nat, 4, order);
        let bytes = unsigned_bytes(value as nat, 4, order);
        assert((bytes + rest).take(4) =~= bytes);
    }
}

/// What reading a signed number of 4 bytes makes of `bytes`.
pub open spec fn i32_decoding(bytes: Seq<u8>, order: ByteOrder) -> Decoded<i32> {
    match unsigned_decoding(bytes, 4, order) {
        Decoded::Value(raw, used) => Decoded::Value(from_twos_complement(raw, 4) as i32, used),
        Decoded::Failed(e) => Decoded::Failed(e),
    }
}

impl Serializeable for i32 {
    open spec fn encoding(value: i32, order: ByteOrder) -> Result<Seq<u8>, Invalid> {
        Ok(unsigned_bytes(twos_complement(value as int, 4), 4, order))
    }

    fn serialize<W: DataOutput>(&self, output: &mut W) -> (r: Result<(), Error>) {
        proof {
            lemma_spans();
        }
        write_unsigned(output, signed_to_raw(*self as i128, 4), 4)
    }
}

impl Deserializeable for i32 {
    open spec fn decoding_into(current: i32, bytes: Seq<u8>, order: ByteOrder) -> Decoded<i32> {
        i32_decoding(bytes, order)
    }

    fn deserialize<R: DataInput>(&mut self, input: &mut R) -> (r: Result<(), Error>) {
        proof {
            lemma_spans();
        }
        match read_unsigned(input, 4) {
            Ok(raw) => {
                *self = raw_to_signed(raw, 4) as i32;
                Ok(())
            },
            Err(e) => Err(e),
        }
    }
}

impl DeserializeCopy for i32 {
    open spec fn decoding(bytes: Seq<u8>, order: ByteOrder) -> Decoded<i32> {
        i32_decoding(bytes, order)
    }

    proof fn lemma_decoding_fits(bytes: Seq<u8>, order: ByteOrder) {
    }

    fn deserialize_copy<R: DataInput>(input: &mut R) -> (r: Result<Self, Error>) {
        proof {
            lemma_spans();
        }
        match read_unsigned(input, 4) {
            Ok(raw) => Ok(raw_to_signed(raw, 4) as i32),
            Err(e) => Err(e),
        }
    }
}

impl Codec for i32 {
    open spec fn valid(value: i32) -> bool {
        true
    }

    proof fn lemma_round_trip(value: i32, order: ByteOrder, rest: Seq<u8>) {
        lemma_spans();
        lemma_twos_complement_round_trip(value as int, 4);
        let raw = twos_complement(value as int, 4);
        lemma_unsigned_round_trip(raw, 4, order);
        let bytes = unsigned_bytes(raw, 4, order);
        assert((bytes + rest).take(4) =~= bytes);
    }
}

/// What reading an unsigned number of 8 bytes makes of `bytes`.
pub open spec fn u64_decoding(bytes: Seq<u8>, order: ByteOrder) -> Decoded<u64> {
    match unsigned_decoding(bytes, 8, order) {
        Decoded::Value(raw, used) => Decoded::Value(raw as u64, used),
        Decoded::Failed(e) => Decoded::Failed(e),
    }
}

impl Serializeable for u64 {
    open spec fn encoding(value: u64, order: ByteOrder) -> Result<Seq<u8>, Invalid> {
        Ok(unsigned_bytes(value as nat, 8, order))
    }

    fn serialize<W: DataOutput>(&self, output: &mut W) -> (r: Result<(), Error>) {
        write_unsigned(output, *self as u128, 8)
    }
}

impl Deserializeable for u64 {
    open spec fn decoding_into(current: u64, bytes: Seq<u8>, order: ByteOrder) -> Decoded<u64> {
        u64_decoding(bytes, order)
    }

    fn deserialize<R: DataInput>(&mut self, input: &mut R) -> (r: Result<(), Error>) {
        proof {
            lemma_spans();
        }
        match read_unsigned(input, 8) {
            Ok(raw) => {
                *self = raw as u64;
                Ok(())
            },
            Err(e) => Err(e),
        }
    }
}

impl DeserializeCopy for u64 {
    open spec fn decoding(bytes: Seq<u8>, order: ByteOrder) -> Decoded<u64> {
        u64_decoding(bytes, order)
    }

    proof fn lemma_decoding_fits(bytes: Seq<u8>, order: ByteOrder) {
    }

    fn deserialize_copy<R: DataInput>(input: &mut R) -> (r: Result<Self, Error>) {
        proof {
            lemma_spans();
        }
        match read_unsigned(input, 8) {
            Ok(raw) => Ok(raw as u64),
            Err(e) => Err(e),
        }
    }
}

impl Codec for u64 {
    open spec fn valid(value: u64) -> bool {
        true
    }

    proof fn lemma_round_trip(value: u64, order: ByteOrder, rest: Seq<u8>) {
        lemma_spans();
        lemma_unsigned_round_trip(value as nat, 8, order);
        let bytes = unsigned_bytes(value as nat, 8, order);
        assert((bytes + rest).take(8) =~= bytes);
    }
}

/// What reading a signed number of 8 bytes makes of `bytes`.
pub open spec fn i64_decoding(bytes: Seq<u8>, order: ByteOrder) -> Decoded<i64> {
    match unsigned_decoding(bytes, 8, order) {
        Decoded::Value(raw, used) => Decoded::Value(from_twos_complement(raw, 8) as i64, used),
        Decoded::Failed(e) => Decoded::Failed(e),
    }
}

impl Serializeable for i64 {
    open spec fn encoding(value: i64, order: ByteOrder) -> Result<Seq<u8>, Invalid> {
        Ok(unsigned_bytes(twos_complement(value as int, 8), 8, order))
    }

    fn serialize<W: DataOutput>(&self, output: &mut W) -> (r: Result<(), Error>) {
        proof {
            lemma_spans();
        }
        write_unsigned(output, signed_to_raw(*self as i128, 8), 8)
    }
}

impl Deserializeable for i64 {
    open spec fn decoding_into(current: i64, bytes: Seq<u8>, order: ByteOrder) -> Decoded<i64> {
        i64_decoding(bytes, order)
    }

    fn deserialize<R: DataInput>(&mut self, input: &mut R) -> (r: Result<(), Error>) {
        proof {
            lemma_spans();
        }
        match read_unsigned(input, 8) {
            Ok(raw) => {
                *self = raw_to_signed(raw, 8) as i64;
                Ok(())
            },
            Err(e) => Err(e),
        }
    }
}

impl DeserializeCopy for i64 {
    open spec fn decoding(bytes: Seq<u8>, order: ByteOrder) -> Decoded<i64> {
        i64_decoding(bytes, order)
    }

    proof fn lemma_decoding_fits(bytes: Seq<u8>, order: ByteOrder) {
    }

    fn deserialize_copy<R: DataInput>(input: &mut R) -> (r: Result<Self, Error>) {
        proof {
            lemma_spans();
        }
        match read_unsigned(input, 8) {
            Ok(raw) => Ok(raw_to_signed(raw, 8) as i64),
            Err(e) => Err(e),
        }
    }
}

impl Codec for i64 {
    open spec fn valid(value: i64) -> bool {
        true
    }

    proof fn lemma_round_trip(value: i64, order: ByteOrder, rest: Seq<u8>) {
        lemma_spans();
        lemma_twos_complement_round_trip(value as int, 8);
        let raw = twos_complement(value as int, 8);
        lemma_unsigned_round_trip(raw, 8, order);
        let bytes = unsigned_bytes(raw, 8, order);
        assert((bytes + rest).take(8) =~= bytes);
    }
}

/// What reading an unsigned number of 16 bytes makes of `bytes`.
pub open spec fn u128_decoding(bytes: Seq<u8>, order: ByteOrder) -> Decoded<u128> {
    match unsigned_decoding(bytes, 16, order) {
        Decoded::Value(raw, used) => Decoded::Value(raw as u128, used),
        Decoded::Failed(e) => Decoded::Failed(e),
    }
}

impl Serializeable for u128 {
    open spec fn encoding(value: u128, order: ByteOrder) -> Result<Seq<u8>, Invalid> {
        Ok(unsigned_bytes(value as nat, 16, order))
    }

    fn serialize<W: DataOutput>(&self, output: &mut W) -> (r: Result<(), Error>) {
        write_unsigned(output, *self as u128, 16)
    }
}

impl Deserializeable for u128 {
    open spec fn decoding_into(current: u128, bytes: Seq<u8>, order: ByteOrder) -> Decoded<u128> {
        u128_decoding(bytes, order)
    }

    fn deserialize<R: DataInput>(&mut self, input: &mut R) -> (r: Result<(), Error>) {
        proof {
            lemma_spans();
        }
        match read_unsigned(input, 16) {
            Ok(raw) => {
                *self = raw as u128;
                Ok(())
            },
            Err(e) => Err(e),
        }
    }
}

impl DeserializeCopy for u128 {
    open spec fn decoding(bytes: Seq<u8>, order: ByteOrder) -> Decoded<u128> {
        u128_decoding(bytes, order)
    }

    proof fn lemma_decoding_fits(bytes: Seq<u8>, order: ByteOrder) {
    }

    fn deserialize_copy<R: DataInput>(input: &mut R) -> (r: Result<Self, Error>) {
        proof {
            lemma_spans();
        }
        match read_unsigned(input, 16) {
            Ok(raw) => Ok(raw as u128),
            Err(e) => Err(e),
        }
    }
}

impl Codec for u128 {
    open spec fn valid(value: u128) -> bool {
        true
    }

    proof fn lemma_round_trip(value: u128, order: ByteOrder, rest: Seq<u8>) {
        lemma_spans();
        lemma_unsigned_round_trip(value as nat, 16, order);
        let bytes = unsigned_bytes(value as nat, 16, order);
        assert((bytes + rest).take(16) =~= bytes);
    }
}

/// What reading a signed number of 16 bytes makes of `bytes`.
pub open spec fn i128_decoding(bytes: Seq<u8>, order: ByteOrder) -> Decoded<i128> {
    match unsigned_decoding(bytes, 16, order) {
        Decoded::Value(raw, used) => Decoded::Value(from_twos_complement(raw, 16) as i128, used),
        Decoded::Failed(e) => Decoded::Failed(e),
    }
}

impl Serializeable for i128 {
    open spec fn encoding(value: i128, order: ByteOrder) -> Result<Seq<u8>, Invalid> {
        Ok(unsigned_bytes(twos_complement(value as int, 16), 16, order))
    }

    fn serialize<W: DataOutput>(&self, output: &mut W) -> (r: Result<(), Error>) {
        proof {
            lemma_spans();
        }
        write_unsigned(output, signed_to_raw(*self as i128, 16), 16)
    }
}

impl Deserializeable for i128 {
    open spec fn decoding_into(current: i128, bytes: Seq<u8>, order: ByteOrder) -> Decoded<i128> {
        i128_decoding(bytes, order)
    }

    fn deserialize<R: DataInput>(&mut self, input: &mut R) -> (r: Result<(), Error>) {
        proof {
            lemma_spans();
        }
        match read_unsigned(input, 16) {
            Ok(raw) => {
                *self = raw_to_signed(raw, 16) as i128;
                Ok(())
            },
            Err(e) => Err(e),
        }
    }
}

impl DeserializeCopy for i128 {
    open spec fn decoding(bytes: Seq<u8>, order: ByteOrder) -> Decoded<i128> {
        i128_decoding(bytes, order)
    }

    proof fn lemma_decoding_fits(bytes: Seq<u8>, order: ByteOrder) {
    }

    fn deserialize_copy<R: DataInput>(input: &mut R) -> (r: Result<Self, Error>) {
        proof {
            lemma_spans();
        }
        match read_unsigned(input, 16) {
            Ok(raw) => Ok(raw_to_signed(raw, 16) as i128),
            Err(e) => Err(e),
        }
    }
}

impl Codec for i128 {
    open spec fn valid(value: i128) -> bool {
        true
    }

    proof fn lemma_round_trip(value: i128, order: ByteOrder, rest: Seq<u8>) {
        lemma_spans();
        lemma_twos_complement_round_trip(value as int, 16);
        let raw = twos_complement(value as int, 16);
        lemma_unsigned_round_trip(raw, 16, order);
        let bytes = unsigned_bytes(raw, 16, order);
        assert((bytes + rest).take(16) =~= bytes);
    }
}

/// What reading a truth value makes of `bytes`: one byte, 0 for false and 1
/// for true, refused where it is another.
pub open spec fn bool_decoding(bytes: Seq<u8>) -> Decoded<bool> {
    if bytes.len() < 1 {
        Decoded::Failed(Error::EndOfFile)
    } else if bytes[0] == 0 {
        Decoded::Value(false, 1)
    } else if bytes[0] == 1 {
        Decoded::Value(true, 1)
    } else {
        Decoded::Failed(Error::ValidationError(Invalid::OutOfRange(bytes[0] as i128)))
    }
}

/// Reads a truth value.
pub fn read_bool<R: DataInput>(input: &mut R) -> (r: Result<bool, Error>)
    ensures
        final(input).order() == old(input).order(),
        match bool_decoding(old(input).remaining()) {
            Decoded::Value(value, used) => r is Ok && r->Ok_0 == value
                && used <= old(input).remaining().len()
                && final(input).remaining() == old(input).remaining().skip(used as int),
            Decoded::Failed(e) => r is Err && r->Err_0 == e,
        },
{
    match input.read_byte() {
        Ok(byte) => {
            if byte == 0 {
                Ok(false)
            } else if byte == 1 {
                Ok(true)
            } else {
                Err(Error::validation_error(Invalid::OutOfRange(byte as i128)))
            }
        },
        Err(e) => Err(e),
    }
}

impl Serializeable for bool {
    open spec fn encoding(value: bool, order: ByteOrder) -> Result<Seq<u8>, Invalid> {
        Ok(seq![if value { 1u8 } else { 0u8 }])
    }

    fn serialize<W: DataOutput>(&self, output: &mut W) -> (r: Result<(), Error>) {
        let byte: u8 = if *self {
            1
        } else {
            0
        };
        let r = output.write_byte(byte);
        assert(output.written() =~= old(output).written() + seq![byte]);
        r
    }
}

impl Deserializeable for bool {
    open spec fn decoding_into(current: bool, bytes: Seq<u8>, order: ByteOrder) -> Decoded<bool> {
        bool_decoding(bytes)
    }

    fn deserialize<R: DataInput>(&mut self, input: &mut R) -> (r: Result<(), Error>) {
        match read_bool(input) {
            Ok(value) => {
                *self = value;
                Ok(())
            },
            Err(e) => Err(e),
        }
    }
}

impl DeserializeCopy for bool {
    open spec fn decoding(bytes: Seq<u8>, order: ByteOrder) -> Decoded<bool> {
        bool_decoding(bytes)
    }

    proof fn lemma_decoding_fits(bytes: Seq<u8>, order: ByteOrder) {
    }

    fn deserialize_copy<R: DataInput>(input: &mut R) -> (r: Result<Self, Error>) {
        read_bool(input)
    }
}

impl Codec for bool {
    open spec fn valid(value: bool) -> bool {
        true
    }

    proof fn lemma_round_trip(value: bool, order: ByteOrder, rest: Seq<u8>) {
    }
}

} // verus!
