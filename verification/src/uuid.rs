//! A 128-bit identifier held as two 64-bit fields.
//!
//! On the wire the high field comes first and the low field second, each as
//! an unsigned 64-bit number in the byte order of the stream.

use crate::data::{
    ByteOrder, Codec, DataInput, DataOutput, Decoded, DeserializeCopy, Deserializeable, Error,
    Invalid, Serializeable,
};
use crate::endian::{
    lemma_spans, lemma_unsigned_round_trip, read_unsigned, unsigned_bytes, unsigned_decoding,
    write_unsigned,
};
use vstd::prelude::*;
use vstd::std_specs::convert::{FromSpec, FromSpecImpl};

verus! {

/// A universally unique identifier.
#[allow(clippy::upper_case_acronyms)]
#[derive(Copy, Clone, Debug, PartialEq, Eq, Hash, Structural)]
pub struct UUID {
    low: u64,
    high: u64,
}

/// `rand::thread_rng` and `rand::Rng::gen`: two numbers drawn from the
/// thread's random generator. Nothing is known of them.
#[verifier::external_body]
fn random_fields() -> (u64, u64) {
    rand::Rng::gen::<(u64, u64)>(&mut rand::thread_rng())
}

impl DeepView for UUID {
    type V = UUID;

    open spec fn deep_view(&self) -> UUID {
        *self
    }
}

impl UUID {
    /// The low and the high field, in this order.
    pub closed spec fn fields(self) -> (u64, u64) {
        (self.low, self.high)
    }

    /// The identifier with the given fields.
    pub closed spec fn of_fields(low: u64, high: u64) -> UUID {
        UUID { low, high }
    }

    /// An identifier is its two fields.
    pub proof fn lemma_fields(self, low: u64, high: u64)
        ensures
            UUID::of_fields(self.fields().0, self.fields().1) == self,
            UUID::of_fields(low, high).fields() == (low, high),
    {
    }

    /// The identifier with the given fields.
    pub fn new(low: u64, high: u64) -> (id: Self)
        ensures
            id == UUID::of_fields(low, high),
            id.fields() == (low, high),
    {
        UUID { low, high }
    }

    /// The low and the high field, in this order.
    pub fn into_fields(self) -> (fields: (u64, u64))
        ensures
            fields == self.fields(),
    {
        (self.low, self.high)
    }

    /// The nil identifier: both fields 0.
    pub fn nil() -> (id: Self)
        ensures
            id.fields() == (0u64, 0u64),
    {
        UUID { low: 0, high: 0 }
    }

    /// The version 4 identifier made of two random numbers: the version
    /// digit of the high field is set to 4 and the top bit of the low field
    /// is cleared.
    pub fn from_random(high: u64, low: u64) -> (id: Self)
        ensures
            id.fields() == (low & !0x8000_0000_0000_0000u64, (high & !0xF000u64) | 0x4000u64),
            id.fields().1 & 0xF000 == 0x4000,
            id.fields().0 & 0x8000_0000_0000_0000 == 0,
    {
        let h: u64 = (high & !0xF000u64) | 0x4000u64;
        let l: u64 = low & !0x8000_0000_0000_0000u64;
        assert(h & 0xF000 == 0x4000) by (bit_vector)
            requires
                h == (high & !0xF000u64) | 0x4000u64,
        ;
        assert(l & 0x8000_0000_0000_0000 == 0) by (bit_vector)
            requires
                l == low & !0x8000_0000_0000_0000u64,
        ;
        UUID { low: l, high: h }
    }

    /// The version 1 identifier of the given fields: the high field holds
    /// the low, the middle and the high part of the time, the first in its
    /// upper half, and the low field holds the clock sequence and the node.
    pub fn from_v1_fields(time_low: u32, time_mid: u16, time_high: u16, low: u64) -> (id: Self)
        ensures
            id.fields() == (
                low,
                ((time_low as u64) << 32) | ((time_mid as u64) << 16) | (time_high as u64),
            ),
    {
        let high: u64 = ((time_low as u64) << 32) | ((time_mid as u64) << 16) | (time_high as u64);
        UUID { low, high }
    }

    /// A random version 4 identifier.
    pub fn random() -> (id: Self)
        ensures
            id.fields().1 & 0xF000 == 0x4000,
            id.fields().0 & 0x8000_0000_0000_0000 == 0,
    {
        let (high, low) = random_fields();
        UUID::from_random(high, low)
    }
}

impl Default for UUID {
    fn default() -> (id: Self)
        ensures
            id.fields() == (0u64, 0u64),
    {
        UUID::nil()
    }
}

impl From<u128> for UUID {
    fn from(v: u128) -> (id: Self) {
        UUID {
            low: (v % 0x1_0000_0000_0000_0000) as u64,
            high: (v / 0x1_0000_0000_0000_0000) as u64,
        }
    }
}

impl FromSpecImpl<u128> for UUID {
    open spec fn obeys_from_spec() -> bool {
        true
    }

    open spec fn from_spec(v: u128) -> Self {
        UUID::of_fields(
            (v % 0x1_0000_0000_0000_0000) as u64,
            (v / 0x1_0000_0000_0000_0000) as u64,
        )
    }
}

impl From<UUID> for u128 {
    fn from(id: UUID) -> (v: u128) {
        id.high as u128 * 0x1_0000_0000_0000_0000 + id.low as u128
    }
}

impl FromSpecImpl<UUID> for u128 {
    open spec fn obeys_from_spec() -> bool {
        true
    }

    open spec fn from_spec(id: UUID) -> u128 {
        (id.fields().1 * 0x1_0000_0000_0000_0000 + id.fields().0) as u128
    }
}

/// The 128-bit number of an identifier names that identifier.
pub proof fn lemma_u128_round_trip(id: UUID, v: u128)
    ensures
        <UUID as FromSpec<u128>>::from_spec(<u128 as FromSpec<UUID>>::from_spec(id)) == id,
        <u128 as FromSpec<UUID>>::from_spec(<UUID as FromSpec<u128>>::from_spec(v)) == v,
{
    id.lemma_fields(0, 0);
}

/// The sixteen bytes of an identifier: the high field, then the low field.
pub open spec fn uuid_bytes(id: UUID, order: ByteOrder) -> Seq<u8> {
    unsigned_bytes(id.fields().1 as nat, 8, order) + unsigned_bytes(id.fields().0 as nat, 8, order)
}

/// What reading an identifier makes of `bytes`.
pub open spec fn uuid_decoding(bytes: Seq<u8>, order: ByteOrder) -> Decoded<UUID> {
    match unsigned_decoding(bytes, 8, order) {
        Decoded::Failed(e) => Decoded::Failed(e),
        Decoded::Value(high, _) => match unsigned_decoding(bytes.skip(8), 8, order) {
            Decoded::Failed(e) => Decoded::Failed(e),
            Decoded::Value(low, _) => Decoded::Value(UUID::of_fields(low as u64, high as u64), 16),
        },
    }
}

/// Reads an identifier.
pub fn read_uuid<R: DataInput>(input: &mut R) -> (r: Result<UUID, Error>)
    ensures
        final(input).order() == old(input).order(),
        match uuid_decoding(old(input).remaining(), old(input).order()) {
            Decoded::Value(id, used) => r is Ok && r->Ok_0 == id
                && final(input).remaining() == old(input).remaining().skip(used as int),
            Decoded::Failed(e) => r is Err && r->Err_0 == e,
        },
{
    proof {
        lemma_spans();
    }
    let high = match read_unsigned(input, 8) {
        Ok(v) => v as u64,
        Err(e) => {
            return Err(e);
        },
    };
    let low = match read_unsigned(input, 8) {
        Ok(v) => v as u64,
        Err(e) => {
            return Err(e);
        },
    };
    assert(input.remaining() =~= old(input).remaining().skip(16));
    Ok(UUID { low, high })
}

impl Serializeable for UUID {
    open spec fn encoding(value: UUID, order: ByteOrder) -> Result<Seq<u8>, Invalid> {
        Ok(uuid_bytes(value, order))
    }

    fn serialize<W: DataOutput>(&self, output: &mut W) -> (r: Result<(), Error>) {
        let _ = write_unsigned(output, self.high as u128, 8);
        let r = write_unsigned(output, self.low as u128, 8);
        assert(output.written() =~= old(output).written() + uuid_bytes(*self, old(output).order()));
        r
    }
}

impl Deserializeable for UUID {
    open spec fn decoding_into(current: UUID, bytes: Seq<u8>, order: ByteOrder) -> Decoded<UUID> {
        uuid_decoding(bytes, order)
    }

    fn deserialize<R: DataInput>(&mut self, input: &mut R) -> (r: Result<(), Error>) {
        match read_uuid(input) {
            Ok(id) => {
                *self = id;
                Ok(())
            },
            Err(e) => Err(e),
        }
    }
}

impl DeserializeCopy for UUID {
    open spec fn decoding(bytes: Seq<u8>, order: ByteOrder) -> Decoded<UUID> {
        uuid_decoding(bytes, order)
    }

    proof fn lemma_decoding_fits(bytes: Seq<u8>, order: ByteOrder) {
    }

    fn deserialize_copy<R: DataInput>(input: &mut R) -> (r: Result<Self, Error>) {
        read_uuid(input)
    }
}

/// An identifier is read back from its sixteen bytes.
pub proof fn lemma_uuid_round_trip(id: UUID, order: ByteOrder, rest: Seq<u8>)
    ensures
        uuid_bytes(id, order).len() == 16,
        uuid_decoding(uuid_bytes(id, order) + rest, order) == Decoded::Value(id, 16),
{
    lemma_spans();
    let high = unsigned_bytes(id.fields().1 as nat, 8, order);
    let low = unsigned_bytes(id.fields().0 as nat, 8, order);
    lemma_unsigned_round_trip(id.fields().1 as nat, 8, order);
    lemma_unsigned_round_trip(id.fields().0 as nat, 8, order);
    let all = high + low + rest;
    assert(all.take(8) =~= high);
    assert(all.skip(8).take(8) =~= low);
    id.lemma_fields(0, 0);
}

impl Codec for UUID {
    open spec fn valid(value: UUID) -> bool {
        true
    }

    proof fn lemma_round_trip(value: UUID, order: ByteOrder, rest: Seq<u8>) {
        lemma_uuid_round_trip(value, order, rest);
    }
}

} // verus!
