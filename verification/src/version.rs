//! The two-component version of a container format.
//!
//! A version is written as `major.minor`, with a major part from 1 to 256 and
//! a minor part from 0 to 255. Its encoded form is the 16-bit number whose
//! high byte is the major part less one and whose low byte is the minor part;
//! versions are ordered as their encoded forms are.

use crate::data::{
    ByteOrder, Codec, DataInput, DataOutput, Decoded, DeserializeCopy, Deserializeable, Error,
    Invalid, OutOfRange, Serializeable,
};
use std::cmp::Ordering;
use std::ops::RangeInclusive;
use vstd::prelude::*;
use vstd::std_specs::cmp::{PartialOrdIs, PartialOrdSpecImpl};
use vstd::std_specs::range::ContainsSpec;

verus! {

/// A version `major.minor`.
#[derive(Copy, Clone, Debug, PartialEq, Eq, Ord, Hash, Structural)]
pub struct Version {
    major_encoded: u8,
    minor: u8,
}

impl PartialOrd for Version {
    fn partial_cmp(&self, other: &Self) -> (r: Option<Ordering>) {
        if self.major_encoded < other.major_encoded {
            Some(Ordering::Less)
        } else if self.major_encoded > other.major_encoded {
            Some(Ordering::Greater)
        } else if self.minor < other.minor {
            Some(Ordering::Less)
        } else if self.minor > other.minor {
            Some(Ordering::Greater)
        } else {
            Some(Ordering::Equal)
        }
    }
}

impl PartialOrdSpecImpl for Version {
    open spec fn obeys_partial_cmp_spec() -> bool {
        true
    }

    open spec fn partial_cmp_spec(&self, other: &Self) -> Option<Ordering> {
        if self.encoded() < other.encoded() {
            Some(Ordering::Less)
        } else if self.encoded() > other.encoded() {
            Some(Ordering::Greater)
        } else {
            Some(Ordering::Equal)
        }
    }
}

impl DeepView for Version {
    type V = Version;

    open spec fn deep_view(&self) -> Version {
        *self
    }
}

impl Version {
    /// The encoded form: the major part less one, times 256, plus the minor part.
    pub closed spec fn encoded(self) -> u16 {
        (self.major_encoded * 256 + self.minor) as u16
    }

    /// The major part, from 1 to 256.
    pub open spec fn major_part(self) -> int {
        self.encoded() / 256 + 1
    }

    /// The minor part, from 0 to 255.
    pub open spec fn minor_part(self) -> int {
        (self.encoded() % 256) as int
    }

    /// The version with the encoded form `v`.
    pub closed spec fn of_encoded(v: u16) -> Version {
        Version { major_encoded: (v / 256) as u8, minor: (v % 256) as u8 }
    }

    /// The encoded form of the origin: that of the version, with the minor
    /// part taken off.
    pub open spec fn origin_encoded(self) -> int {
        self.encoded() - self.encoded() % 256
    }

    /// Every 16-bit number is the encoded form of exactly one version.
    pub proof fn lemma_encoded(self, v: u16)
        ensures
            Version::of_encoded(self.encoded()) == self,
            Version::of_encoded(v).encoded() == v,
    {
    }

    /// The version `major.minor`, for a major part that is known not to be 0.
    /// A major part above 256 is refused.
    pub fn from_pair_nonzero(major: u16, minor: u8) -> (r: Result<Self, OutOfRange<u16>>)
        requires
            major != 0,
        ensures
            r is Ok <==> major <= 256,
            r is Ok ==> r->Ok_0.major_part() == major && r->Ok_0.minor_part() == minor,
            r is Err ==> r->Err_0 == OutOfRange(major),
    {
        if major > 256 {
            Err(OutOfRange(major))
        } else {
            Ok(Version { major_encoded: (major - 1) as u8, minor })
        }
    }

    /// The version `major.minor`. A major part of 0 or above 256 is refused.
    pub fn from_pair(major: u16, minor: u8) -> (r: Result<Self, OutOfRange<u16>>)
        ensures
            r is Ok <==> 1 <= major <= 256,
            r is Ok ==> r->Ok_0.major_part() == major && r->Ok_0.minor_part() == minor,
            r is Err ==> r->Err_0 == OutOfRange(major),
    {
        if major > 256 || major == 0 {
            Err(OutOfRange(major))
        } else {
            Ok(Version { major_encoded: (major - 1) as u8, minor })
        }
    }

    /// The version with the given encoded form.
    pub fn from_encoded(v: u16) -> (version: Self)
        ensures
            version == Version::of_encoded(v),
            version.encoded() == v,
    {
        Version { major_encoded: (v / 256) as u8, minor: (v % 256) as u8 }
    }

    /// The encoded form of the version.
    pub fn into_encoded(self) -> (v: u16)
        ensures
            v == self.encoded(),
    {
        self.major_encoded as u16 * 256 + self.minor as u16
    }

    /// The version with the same major part and the minor part 0.
    pub fn origin(self) -> (o: Version)
        ensures
            o.encoded() == self.origin_encoded(),
            o.major_part() == self.major_part(),
            o.minor_part() == 0,
    {
        Version { major_encoded: self.major_encoded, minor: 0 }
    }

    /// The versions from the origin to this one, both included.
    pub fn same_origin(self) -> (range: RangeInclusive<Version>)
        ensures
            range@.start.encoded() == self.origin_encoded(),
            range@.end == self,
            !range@.exhausted,
    {
        RangeInclusive::new(self.origin(), self)
    }

    /// The minor part, from 0 to 255.
    pub fn minor(self) -> (m: u8)
        ensures
            m == self.minor_part(),
    {
        self.minor
    }

    /// The major part, from 1 to 256.
    pub fn major(self) -> (m: u16)
        ensures
            m == self.major_part(),
            1 <= m <= 256,
    {
        self.major_encoded as u16 + 1
    }

    /// The major part less one, as it is encoded.
    pub fn major_encoded(self) -> (m: u8)
        ensures
            m == self.major_part() - 1,
    {
        self.major_encoded
    }

    /// The smallest version, 1.0.
    pub fn v1_0() -> (v: Version)
        ensures
            v.encoded() == 0,
    {
        Version { major_encoded: 0, minor: 0 }
    }

    /// The largest version, 256.255.
    pub fn v256_255() -> (v: Version)
        ensures
            v.encoded() == 0xFFFF,
    {
        Version { major_encoded: 255, minor: 255 }
    }
}

/// Versions are ordered as the pairs of their major and minor parts are,
/// the major part first.
pub proof fn lemma_order_is_lexicographic(a: Version, b: Version)
    ensures
        a.is_lt(&b) <==> a.major_part() < b.major_part() || (a.major_part() == b.major_part()
            && a.minor_part() < b.minor_part()),
        a.is_le(&b) <==> a.major_part() < b.major_part() || (a.major_part() == b.major_part()
            && a.minor_part() <= b.minor_part()),
        a.is_gt(&b) <==> b.is_lt(&a),
        a.is_ge(&b) <==> b.is_le(&a),
        a == b <==> a.major_part() == b.major_part() && a.minor_part() == b.minor_part(),
{
    a.lemma_encoded(0);
    b.lemma_encoded(0);
}

/// The range from a version's origin to the version holds the versions of
/// the same major part whose minor part is not above that of the version.
pub proof fn lemma_same_origin(version: Version, range: RangeInclusive<Version>, other: Version)
    requires
        range@.start.encoded() == version.origin_encoded(),
        range@.end == version,
        !range@.exhausted,
    ensures
        range.contains_spec(&other) <==> other.major_part() == version.major_part()
            && other.minor_part() <= version.minor_part(),
{
}

/// The two bytes of a version: the major part less one, then the minor part.
pub open spec fn version_bytes(version: Version) -> Seq<u8> {
    seq![(version.major_part() - 1) as u8, version.minor_part() as u8]
}

/// What reading a version makes of `bytes`.
pub open spec fn version_decoding(bytes: Seq<u8>) -> Decoded<Version> {
    if bytes.len() < 2 {
        Decoded::Failed(Error::EndOfFile)
    } else {
        Decoded::Value(Version::of_encoded((bytes[0] * 256 + bytes[1]) as u16), 2)
    }
}

/// Reads a version: two bytes, whatever the byte order of the input.
pub fn read_version<R: DataInput>(input: &mut R) -> (r: Result<Version, Error>)
    ensures
        final(input).order() == old(input).order(),
        match version_decoding(old(input).remaining()) {
            Decoded::Value(version, used) => r is Ok && r->Ok_0 == version
                && final(input).remaining() == old(input).remaining().skip(used as int),
            Decoded::Failed(e) => r is Err && r->Err_0 == e,
        },
{
    let major_encoded = match input.read_byte() {
        Ok(b) => b,
        Err(e) => {
            return Err(e);
        },
    };
    let minor = match input.read_byte() {
        Ok(b) => b,
        Err(e) => {
            return Err(e);
        },
    };
    assert(input.remaining() =~= old(input).remaining().skip(2));
    Ok(Version { major_encoded, minor })
}

impl Serializeable for Version {
    open spec fn encoding(value: Version, order: ByteOrder) -> Result<Seq<u8>, Invalid> {
        Ok(version_bytes(value))
    }

    fn serialize<W: DataOutput>(&self, output: &mut W) -> (r: Result<(), Error>) {
        let _ = output.write_byte(self.major_encoded);
        let r = output.write_byte(self.minor);
        assert(output.written() =~= old(output).written() + version_bytes(*self));
        r
    }
}

impl Deserializeable for Version {
    open spec fn decoding_into(current: Version, bytes: Seq<u8>, order: ByteOrder) -> Decoded<
        Version,
    > {
        version_decoding(bytes)
    }

    fn deserialize<R: DataInput>(&mut self, input: &mut R) -> (r: Result<(), Error>) {
        match read_version(input) {
            Ok(version) => {
                *self = version;
                Ok(())
            },
            Err(e) => Err(e),
        }
    }
}

impl DeserializeCopy for Version {
    open spec fn decoding(bytes: Seq<u8>, order: ByteOrder) -> Decoded<Version> {
        version_decoding(bytes)
    }

    proof fn lemma_decoding_fits(bytes: Seq<u8>, order: ByteOrder) {
    }

    fn deserialize_copy<R: DataInput>(input: &mut R) -> (r: Result<Self, Error>) {
        read_version(input)
    }
}

impl Codec for Version {
    open spec fn valid(value: Version) -> bool {
        true
    }

    proof fn lemma_round_trip(value: Version, order: ByteOrder, rest: Seq<u8>) {
        value.lemma_encoded(0);
    }
}

} // verus!
