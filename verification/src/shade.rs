//! The ShadeNBT container: a magic number, a version, an optional flags
//! byte and a compound.
//!
//! The magic number and the version are written byte by byte. The flags
//! byte stands on the wire only where the version is above 1.2, the version
//! that brought it in. Bit `0x80` of the flags selects little-endian for
//! the compound; without the bit, and without the byte, the compound is
//! big-endian.

use crate::crypto::{
    aes_256_cbc_encrypted, aes_256_cbc_opened, constant_time_eq, decrypt_aes_256_cbc,
    encrypt_aes_256_cbc, random_bytes, sha256, sha256_digest,
};
use crate::secret::{Destroyable, DestroyableByteArray};
use crate::data::{
    ByteOrder, DataInput, DataInputStream, DataOutput, DataOutputStream, Decoded, Error, Invalid,
    IoFailure,
};
use crate::endian::{
    lemma_spans, lemma_unsigned_round_trip, read_bytes, read_unsigned, unsigned_bytes,
    unsigned_value, write_unsigned,
};
use crate::nbt::{
    compound_decoding, compound_encoding, lemma_compound_round_trip,
    lemma_entries_decoding_valid, no_end_entries, read_compound, write_compound, CompoundValue,
    NbtCompound, NbtTag,
};
use crate::sequence::{lemma_prefix_chain, lemma_prefix_of_sum};
use crate::version::{read_version, version_bytes, version_decoding, Version};
use vstd::prelude::*;

verus! {

/// The encoded form of the newest version that is implemented, 1.4.
pub const SHADE_VERSION: u16 = 0x0004;

/// The encoded form of the version that brought the flags byte in, 1.2.
pub const SHADE_FLAGS_VERSION: u16 = 0x0002;

/// The flag bits that are kept.
pub const SHADE_FLAGS_MASK: u8 = 0xA0;

/// The flag bits that are accepted on the wire.
pub const SHADE_FLAGS_ACCEPTED_MASK: u8 = 0xE0;

/// The flag bit that selects little-endian for the compound.
pub const SHADE_LITTLE_ENDIAN: u8 = 0x80;

/// The magic number of a plain container.
pub const SHADE_MAGIC: [u8; 4] = [0xAD, 0x4E, 0x42, 0x54];

/// The magic number of an encrypted container.
pub const CRYPTO_MAGIC: [u8; 4] = [0xEC, 0x4E, 0x42, 0x54];

/// The magic number of a plain or of an encrypted container.
pub open spec fn magic_bytes(encrypted: bool) -> Seq<u8> {
    if encrypted {
        seq![0xECu8, 0x4Eu8, 0x42u8, 0x54u8]
    } else {
        seq![0xADu8, 0x4Eu8, 0x42u8, 0x54u8]
    }
}

/// The byte order that the flags select for the compound.
pub open spec fn order_of(flags: u8) -> ByteOrder {
    if flags & SHADE_LITTLE_ENDIAN != 0 {
        ByteOrder::LittleEndian
    } else {
        ByteOrder::BigEndian
    }
}

/// Whether a container of the given version has its flags on the wire.
pub open spec fn has_flags(version: Version) -> bool {
    version.encoded() > SHADE_FLAGS_VERSION
}

/// What a container holds.
pub struct ShadeValue {
    /// Whether the container is an encrypted one.
    pub encrypted: bool,
    pub version: Version,
    pub flags: u8,
    pub compound: CompoundValue,
}

impl ShadeValue {
    /// Whether the container is one that the constructors and the readers
    /// make: of an implemented version, with flags among those that are
    /// kept, none of them set where the version has no flags on the wire,
    /// and with a valid compound.
    pub open spec fn valid(self) -> bool {
        &&& self.version.encoded() <= SHADE_VERSION
        &&& self.flags & !SHADE_FLAGS_MASK == 0
        &&& has_flags(self.version) || self.flags == 0
        &&& self.compound.valid()
    }
}

/// The bytes before the compound: the magic number, the version, and the
/// flags where the version has them.
pub open spec fn header_bytes(encrypted: bool, version: Version, flags: u8) -> Seq<u8> {
    magic_bytes(encrypted) + version_bytes(version) + if has_flags(version) {
        seq![flags]
    } else {
        Seq::<u8>::empty()
    }
}

/// The bytes that stand for a plain container, or the reason why it has no
/// encoding. An encrypted container has none.
pub open spec fn shade_encoding(file: ShadeValue) -> Result<Seq<u8>, Invalid> {
    if file.encrypted {
        Err(Invalid::WrongContainer)
    } else {
        match compound_encoding(file.compound, order_of(file.flags)) {
            Err(reason) => Err(reason),
            Ok(body) => Ok(header_bytes(false, file.version, file.flags) + body),
        }
    }
}

/// What reading the header of a container makes of `bytes`: the version and
/// the flags that are kept. Flags that are not on the wire count as 0.
pub open spec fn header_decoding(encrypted: bool, bytes: Seq<u8>) -> Decoded<(Version, u8)> {
    if bytes.len() < 4 {
        Decoded::Failed(Error::EndOfFile)
    } else if bytes.take(4) != magic_bytes(encrypted) {
        Decoded::Failed(Error::ValidationError(Invalid::BadMagic))
    } else {
        match version_decoding(bytes.skip(4)) {
            Decoded::Failed(e) => Decoded::Failed(e),
            Decoded::Value(version, _) => if version.encoded() > SHADE_VERSION {
                Decoded::Failed(
                    Error::ValidationError(Invalid::VersionNotImplemented(version.encoded())),
                )
            } else if !has_flags(version) {
                Decoded::Value((version, 0u8), 6)
            } else if bytes.len() < 7 {
                Decoded::Failed(Error::EndOfFile)
            } else if bytes[6] & !SHADE_FLAGS_ACCEPTED_MASK != 0 {
                Decoded::Failed(Error::ValidationError(Invalid::BadFlags(bytes[6])))
            } else {
                Decoded::Value((version, bytes[6] & SHADE_FLAGS_MASK), 7)
            },
        }
    }
}

/// The number of bytes that were read when a header was refused: the magic
/// number for another magic number, the version as well for a version that
/// is not implemented, and the flags as well for flags that are not
/// accepted.
pub open spec fn header_refusal_taken(reason: Invalid) -> nat {
    match reason {
        Invalid::VersionNotImplemented(_) => 6,
        Invalid::BadFlags(_) => 7,
        _ => 4,
    }
}

/// What reading a plain container makes of `bytes`.
pub open spec fn shade_decoding(bytes: Seq<u8>) -> Decoded<ShadeValue> {
    match header_decoding(false, bytes) {
        Decoded::Failed(e) => Decoded::Failed(e),
        Decoded::Value((version, flags), used) => match compound_decoding(
            bytes.skip(used as int),
            order_of(flags),
        ) {
            Decoded::Failed(e) => Decoded::Failed(e),
            Decoded::Value(compound, more) => Decoded::Value(
                ShadeValue { encrypted: false, version, flags, compound },
                used + more,
            ),
        },
    }
}

/// A container: a version, flags and a compound, plain or encrypted.
#[derive(Debug, PartialEq, Eq)]
pub struct ShadeFile {
    encrypted: bool,
    version: Version,
    flags: u8,
    compound: NbtCompound,
}

impl DeepView for ShadeFile {
    type V = ShadeValue;

    closed spec fn deep_view(&self) -> ShadeValue {
        ShadeValue {
            encrypted: self.encrypted,
            version: self.version,
            flags: self.flags,
            compound: self.compound.deep_view(),
        }
    }
}

/// The byte order that the flags select for the compound.
pub fn payload_order(flags: u8) -> (order: ByteOrder)
    ensures
        order == order_of(flags),
{
    if flags & SHADE_LITTLE_ENDIAN != 0 {
        ByteOrder::LittleEndian
    } else {
        ByteOrder::BigEndian
    }
}

/// The flags that select the given byte order and nothing else.
pub fn flags_for(order: ByteOrder) -> (flags: u8)
    ensures
        flags == if order == ByteOrder::LittleEndian {
            SHADE_LITTLE_ENDIAN
        } else {
            0u8
        },
        order_of(flags) == order,
        flags & !SHADE_FLAGS_MASK == 0,
{
    assert(0x80u8 & 0x80u8 != 0 && 0x80u8 & !0xA0u8 == 0 && 0u8 & 0x80u8 == 0 && 0u8 & !0xA0u8
        == 0) by (bit_vector);
    match order {
        ByteOrder::LittleEndian => SHADE_LITTLE_ENDIAN,
        ByteOrder::BigEndian => 0,
    }
}

impl ShadeFile {
    /// A plain container of the newest version, big-endian, with an empty
    /// compound.
    pub fn new() -> (file: Self)
        ensures
            file.deep_view() == (ShadeValue {
                encrypted: false,
                version: Version::of_encoded(SHADE_VERSION),
                flags: 0,
                compound: CompoundValue { entries: Seq::empty() },
            }),
            file.deep_view().valid(),
    {
        let flags = flags_for(ByteOrder::BigEndian);
        ShadeFile {
            encrypted: false,
            version: Version::from_encoded(SHADE_VERSION),
            flags,
            compound: NbtCompound::new(),
        }
    }

    /// A plain container of the newest version in the given byte order,
    /// with an empty compound.
    pub fn with_byte_order(order: ByteOrder) -> (file: Self)
        ensures
            file.deep_view() == (ShadeValue {
                encrypted: false,
                version: Version::of_encoded(SHADE_VERSION),
                flags: if order == ByteOrder::LittleEndian {
                    SHADE_LITTLE_ENDIAN
                } else {
                    0u8
                },
                compound: CompoundValue { entries: Seq::empty() },
            }),
            file.deep_view().valid(),
    {
        ShadeFile {
            encrypted: false,
            version: Version::from_encoded(SHADE_VERSION),
            flags: flags_for(order),
            compound: NbtCompound::new(),
        }
    }

    /// A plain big-endian container of the given version, with an empty
    /// compound. A version above the newest implemented one is refused.
    pub fn with_version(version: Version) -> (r: Result<Self, Error>)
        ensures
            r is Ok <==> version.encoded() <= SHADE_VERSION,
            r is Ok ==> r->Ok_0.deep_view() == (ShadeValue {
                encrypted: false,
                version,
                flags: 0,
                compound: CompoundValue { entries: Seq::empty() },
            }) && r->Ok_0.deep_view().valid(),
            r is Err ==> r->Err_0 == Error::ValidationError(
                Invalid::VersionNotImplemented(version.encoded()),
            ),
    {
        ShadeFile::with_version_and_byte_order(version, ByteOrder::BigEndian)
    }

    /// A plain container of the given version in the given byte order, with
    /// an empty compound. A version above the newest implemented one is
    /// refused, and so is little-endian with a version below the one that
    /// brought the flags in.
    pub fn with_version_and_byte_order(version: Version, byte_order: ByteOrder) -> (r: Result<
        Self,
        Error,
    >)
        ensures
            r is Ok <==> version.encoded() <= SHADE_VERSION && !(byte_order
                == ByteOrder::LittleEndian && version.encoded() < SHADE_FLAGS_VERSION),
            r is Ok ==> r->Ok_0.deep_view() == (ShadeValue {
                encrypted: false,
                version,
                flags: if byte_order == ByteOrder::LittleEndian {
                    SHADE_LITTLE_ENDIAN
                } else {
                    0u8
                },
                compound: CompoundValue { entries: Seq::empty() },
            }),
            r is Ok && (byte_order == ByteOrder::BigEndian || has_flags(version))
                ==> r->Ok_0.deep_view().valid(),
            r is Err ==> r->Err_0 == if version.encoded() > SHADE_VERSION {
                Error::ValidationError(Invalid::VersionNotImplemented(version.encoded()))
            } else {
                Error::ValidationError(Invalid::BadFlags(SHADE_LITTLE_ENDIAN))
            },
    {
        let encoded = version.into_encoded();
        if encoded > SHADE_VERSION {
            Err(Error::validation_error(Invalid::VersionNotImplemented(encoded)))
        } else if byte_order == ByteOrder::LittleEndian && encoded < SHADE_FLAGS_VERSION {
            Err(Error::validation_error(Invalid::BadFlags(SHADE_LITTLE_ENDIAN)))
        } else {
            Ok(
                ShadeFile {
                    encrypted: false,
                    version,
                    flags: flags_for(byte_order),
                    compound: NbtCompound::new(),
                },
            )
        }
    }

    /// The version of the container.
    pub fn version(&self) -> (version: Version)
        ensures
            version == self.deep_view().version,
    {
        self.version
    }

    /// The byte order of the compound.
    pub fn byte_order(&self) -> (order: ByteOrder)
        ensures
            order == order_of(self.deep_view().flags),
    {
        payload_order(self.flags)
    }

    /// The flags of the container.
    pub fn flags(&self) -> (flags: u8)
        ensures
            flags == self.deep_view().flags,
    {
        self.flags
    }

    /// Whether the container is an encrypted one.
    pub fn is_encrypted(&self) -> (encrypted: bool)
        ensures
            encrypted == self.deep_view().encrypted,
    {
        self.encrypted
    }

    /// The magic number of the container.
    pub fn magic(&self) -> (magic: [u8; 4])
        ensures
            magic@ == magic_bytes(self.deep_view().encrypted),
    {
        if self.encrypted {
            let magic = CRYPTO_MAGIC;
            assert(magic@ =~= magic_bytes(true));
            magic
        } else {
            let magic = SHADE_MAGIC;
            assert(magic@ =~= magic_bytes(false));
            magic
        }
    }

    /// The compound of the container.
    pub fn compound(&self) -> (compound: &NbtCompound)
        ensures
            compound.deep_view() == self.deep_view().compound,
    {
        &self.compound
    }

    /// The tag under the given name in the compound.
    pub fn get(&self, name: &str) -> (tag: Option<&NbtTag>)
        ensures
            tag is Some <==> crate::nbt::has_name(self.deep_view().compound.entries, name@),
            tag is Some ==> tag->Some_0.deep_view() == self.deep_view().compound.entries[
                crate::nbt::first_named(self.deep_view().compound.entries, name@)
            ].1,
    {
        self.compound.get(name)
    }

    /// Puts `value` under `name` in the compound, and hands back the tag
    /// that stood under the name before.
    pub fn insert(&mut self, name: String, value: NbtTag) -> (previous: Option<NbtTag>)
        ensures
            final(self).deep_view() == (ShadeValue {
                compound: CompoundValue {
                    entries: crate::nbt::put(
                        old(self).deep_view().compound.entries,
                        name@,
                        value.deep_view(),
                    ),
                },
                ..old(self).deep_view()
            }),
            previous is Some <==> crate::nbt::has_name(
                old(self).deep_view().compound.entries,
                name@,
            ),
            previous is Some
                ==> previous->Some_0.deep_view()
                    == old(self).deep_view().compound.entries[crate::nbt::first_named(
                old(self).deep_view().compound.entries,
                name@,
            )].1,
            old(self).deep_view().valid()
                && value.deep_view().valid() ==> final(self).deep_view().valid(),
    {
        self.compound.insert(name, value)
    }
}

impl ShadeFile {
    /// A container that holds the same as this one.
    pub fn duplicate(&self) -> (copy: Self)
        ensures
            copy.deep_view() == self.deep_view(),
    {
        ShadeFile {
            encrypted: self.encrypted,
            version: self.version,
            flags: self.flags,
            compound: self.compound.duplicate(),
        }
    }
}

impl Clone for ShadeFile {
    fn clone(&self) -> (copy: Self)
        ensures
            copy.deep_view() == self.deep_view(),
    {
        self.duplicate()
    }
}

impl Default for ShadeFile {
    fn default() -> (file: Self)
        ensures
            file.deep_view().valid(),
            !file.deep_view().encrypted,
    {
        ShadeFile::new()
    }
}

/// Writes the magic number, the version, and the flags where the version
/// has them.
pub fn write_header<W: DataOutput>(encrypted: bool, version: Version, flags: u8, output: &mut W)
    ensures
        final(output).order() == old(output).order(),
        final(output).written() == old(output).written() + header_bytes(encrypted, version, flags),
{
    let first: u8 = if encrypted {
        0xEC
    } else {
        0xAD
    };
    let _ = output.write_byte(first);
    let _ = output.write_byte(0x4E);
    let _ = output.write_byte(0x42);
    let _ = output.write_byte(0x54);
    let _ = output.write_byte(version.major_encoded());
    let _ = output.write_byte(version.minor());
    if version.into_encoded() > SHADE_FLAGS_VERSION {
        let _ = output.write_byte(flags);
    }
    assert(output.written() =~= old(output).written() + header_bytes(encrypted, version, flags));
}

/// Reads the magic number, the version, and the flags where the version
/// has them.
pub fn read_header<R: DataInput>(encrypted: bool, input: &mut R) -> (r: Result<
    (Version, u8),
    Error,
>)
    ensures
        final(input).order() == old(input).order(),
        match header_decoding(encrypted, old(input).remaining()) {
            Decoded::Value(header, used) => r is Ok && r->Ok_0 == header
                && used <= old(input).remaining().len()
                    && final(input).remaining() == old(input).remaining().skip(
                used as int,
            ),
            Decoded::Failed(e) => r is Err && r->Err_0 == e,
        },
        header_decoding(encrypted, old(input).remaining()) matches Decoded::Failed(
            Error::ValidationError(reason),
        ) ==> final(input).remaining() == old(input).remaining().skip(
            header_refusal_taken(reason) as int,
        ),
{
    let ghost bytes = input.remaining();
    let magic = match read_bytes(input, 4) {
        Ok(magic) => magic,
        Err(e) => {
            return Err(e);
        },
    };
    let first: u8 = if encrypted {
        0xEC
    } else {
        0xAD
    };
    if magic[0] != first || magic[1] != 0x4E || magic[2] != 0x42 || magic[3] != 0x54 {
        return Err(Error::validation_error(Invalid::BadMagic));
    }
    assert(bytes.take(4) =~= magic_bytes(encrypted));
    let version = match read_version(input) {
        Ok(version) => version,
        Err(e) => {
            return Err(e);
        },
    };
    assert(bytes.skip(4).skip(2) =~= bytes.skip(6));
    let encoded = version.into_encoded();
    if encoded > SHADE_VERSION {
        return Err(Error::validation_error(Invalid::VersionNotImplemented(encoded)));
    }
    if encoded > SHADE_FLAGS_VERSION {
        let flags = match input.read_byte() {
            Ok(flags) => flags,
            Err(e) => {
                return Err(e);
            },
        };
        assert(bytes.skip(6).skip(1) =~= bytes.skip(7));
        if flags & !SHADE_FLAGS_ACCEPTED_MASK != 0 {
            return Err(Error::validation_error(Invalid::BadFlags(flags)));
        }
        Ok((version, flags & SHADE_FLAGS_MASK))
    } else {
        Ok((version, 0))
    }
}

impl ShadeFile {
    /// Writes a plain container and leaves `output` in the byte order of
    /// the compound. An encrypted container is refused before anything is
    /// written.
    pub fn serialize<W: DataOutput>(&self, output: &mut W) -> (r: Result<(), Error>)
        ensures
            match shade_encoding(self.deep_view()) {
                Ok(bytes) => r is Ok && final(output).written() == old(output).written() + bytes
                    && final(output).order() == order_of(self.deep_view().flags),
                Err(reason) => r == Err::<(), Error>(Error::ValidationError(reason))
                    && old(output).written().is_prefix_of(final(output).written()),
            },
            self.deep_view().encrypted ==> final(output).written() == old(output).written()
                && final(output).order() == old(output).order(),
    {
        if self.encrypted {
            assert(old(output).written().is_prefix_of(old(output).written())) by {
                lemma_prefix_of_sum(old(output).written(), Seq::<u8>::empty());
                assert(old(output).written() + Seq::<u8>::empty() =~= old(output).written());
            }
            return Err(Error::validation_error(Invalid::WrongContainer));
        }
        write_header(false, self.version, self.flags, output);
        output.set_byte_order(payload_order(self.flags));
        let ghost headed = output.written();
        let r = write_compound(&self.compound, output);
        proof {
            let head = header_bytes(false, self.version, self.flags);
            lemma_prefix_of_sum(old(output).written(), head);
            lemma_prefix_chain(old(output).written(), headed, output.written());
            match compound_encoding(self.compound.deep_view(), order_of(self.flags)) {
                Ok(body) => {
                    assert(old(output).written() + head + body =~= old(output).written() + (head
                        + body));
                },
                Err(reason) => {},
            }
        }
        r
    }

    /// Reads a plain container and leaves `input` in the byte order of the
    /// compound.
    pub fn deserialize_copy<R: DataInput>(input: &mut R) -> (r: Result<Self, Error>)
        ensures
            match shade_decoding(old(input).remaining()) {
                Decoded::Value(file, used) => r is Ok && r->Ok_0.deep_view() == file
                    && final(input).remaining() == old(input).remaining().skip(used as int)
                    && final(input).order() == order_of(file.flags),
                Decoded::Failed(e) => r is Err && r->Err_0 == e,
            },
            header_decoding(false, old(input).remaining()) matches Decoded::Failed(
                Error::ValidationError(reason),
            ) ==> final(input).remaining() == old(input).remaining().skip(
                header_refusal_taken(reason) as int,
            ),
    {
        let ghost bytes = input.remaining();
        let (version, flags) = match read_header(false, input) {
            Ok(header) => header,
            Err(e) => {
                return Err(e);
            },
        };
        let ghost used = header_decoding(false, bytes)->Value_1;
        input.set_byte_order(payload_order(flags));
        match read_compound(input) {
            Ok(compound) => {
                proof {
                    let more = compound_decoding(bytes.skip(used as int), order_of(flags))->Value_1;
                    assert(bytes.skip(used as int).skip(more as int) =~= bytes.skip(
                        (used + more) as int,
                    ));
                }
                Ok(ShadeFile { encrypted: false, version, flags, compound })
            },
            Err(e) => Err(e),
        }
    }

    /// Reads a plain container into `self`.
    pub fn deserialize<R: DataInput>(&mut self, input: &mut R) -> (r: Result<(), Error>)
        ensures
            match shade_decoding(old(input).remaining()) {
                Decoded::Value(file, used) => r is Ok && final(self).deep_view() == file
                    && final(input).remaining() == old(input).remaining().skip(used as int)
                    && final(input).order() == order_of(file.flags),
                Decoded::Failed(e) => r == Err::<(), Error>(e),
            },
            header_decoding(false, old(input).remaining()) matches Decoded::Failed(
                Error::ValidationError(reason),
            ) ==> final(input).remaining() == old(input).remaining().skip(
                header_refusal_taken(reason) as int,
            ),
    {
        match ShadeFile::deserialize_copy(input) {
            Ok(file) => {
                *self = file;
                Ok(())
            },
            Err(e) => Err(e),
        }
    }
}

/// The header is read back from its bytes.
pub proof fn lemma_header_round_trip(encrypted: bool, version: Version, flags: u8, rest: Seq<u8>)
    requires
        version.encoded() <= SHADE_VERSION,
        flags & !SHADE_FLAGS_MASK == 0,
        has_flags(version) || flags == 0,
    ensures
        header_decoding(encrypted, header_bytes(encrypted, version, flags) + rest)
            == Decoded::Value((version, flags), header_bytes(encrypted, version, flags).len()),
        header_bytes(encrypted, version, flags).len() == if has_flags(version) {
            7nat
        } else {
            6nat
        },
{
    let head = header_bytes(encrypted, version, flags);
    let all = head + rest;
    assert(all.take(4) =~= magic_bytes(encrypted));
    version.lemma_encoded(0);
    assert(all.skip(4)[0] == version_bytes(version)[0]);
    assert(all.skip(4)[1] == version_bytes(version)[1]);
    if has_flags(version) {
        assert(all[6] == flags);
        assert(flags & !0xE0u8 == 0 && flags & 0xA0u8 == flags) by (bit_vector)
            requires
                flags & !0xA0u8 == 0,
        ;
    }
}

/// A valid plain container is read back from its encoding, with its
/// version, its flags and its compound.
pub proof fn lemma_shade_round_trip(file: ShadeValue, rest: Seq<u8>)
    requires
        file.valid(),
        shade_encoding(file) is Ok,
    ensures
        shade_decoding(shade_encoding(file)->Ok_0 + rest) == Decoded::Value(
            file,
            shade_encoding(file)->Ok_0.len(),
        ),
{
    let head = header_bytes(false, file.version, file.flags);
    let body = compound_encoding(file.compound, order_of(file.flags))->Ok_0;
    let all = head + body + rest;
    assert(all =~= head + (body + rest));
    lemma_header_round_trip(false, file.version, file.flags, body + rest);
    assert(all.skip(head.len() as int) =~= body + rest);
    lemma_compound_round_trip(file.compound, order_of(file.flags), rest);
}

/// What is read as a plain container is a valid container whose compound
/// holds no End tag.
pub proof fn lemma_shade_decoding_valid(bytes: Seq<u8>)
    ensures
        shade_decoding(bytes) matches Decoded::Value(file, _) ==> file.valid() && !file.encrypted
            && no_end_entries(file.compound.entries),
{
    match header_decoding(false, bytes) {
        Decoded::Failed(e) => {},
        Decoded::Value((version, flags), used) => {
            lemma_entries_decoding_valid(bytes.skip(used as int), order_of(flags));
            if has_flags(version) {
                let wire = bytes[6];
                assert((wire & 0xA0u8) & !0xA0u8 == 0) by (bit_vector);
            } else {
                assert(0u8 & !0xA0u8 == 0) by (bit_vector);
            }
        },
    }
}

/// A container of a version up to 1.2 has no flags byte on the wire: the
/// compound follows the version, and reading takes the compound from
/// there, with no flags set. A container of a later version has its flags
/// after the version.
pub proof fn lemma_flags_on_wire(file: ShadeValue, bytes: Seq<u8>)
    requires
        !file.encrypted,
    ensures
        shade_encoding(file) matches Ok(written) ==> written == magic_bytes(false) + version_bytes(
            file.version,
        ) + (if file.version.encoded() <= SHADE_FLAGS_VERSION {
            Seq::<u8>::empty()
        } else {
            seq![file.flags]
        }) + compound_encoding(file.compound, order_of(file.flags))->Ok_0,
        header_decoding(false, bytes) matches Decoded::Value((version, flags), used)
            ==> if version.encoded()
            <= SHADE_FLAGS_VERSION {
            used == 6 && flags == 0
        } else {
            used == 7 && flags == bytes[6] & SHADE_FLAGS_MASK
        },
{
}

/// Bytes that do not start with the magic number of a plain container are
/// refused as no container, and a version above the newest implemented one
/// is refused as not implemented.
pub proof fn lemma_refusals(bytes: Seq<u8>)
    ensures
        bytes.len() >= 4 && bytes.take(4) != magic_bytes(false) ==> shade_decoding(bytes)
            == Decoded::<ShadeValue>::Failed(Error::ValidationError(Invalid::BadMagic)),
        bytes.len() >= 6 && bytes.take(4) == magic_bytes(false) && bytes[4] * 256 + bytes[5]
            > SHADE_VERSION ==> shade_decoding(bytes) == Decoded::<ShadeValue>::Failed(
            Error::ValidationError(
                Invalid::VersionNotImplemented((bytes[4] * 256 + bytes[5]) as u16),
            ),
        ),
{
    if bytes.len() >= 6 {
        Version::of_encoded((bytes[4] * 256 + bytes[5]) as u16).lemma_encoded(
            (bytes[4] * 256 + bytes[5]) as u16,
        );
    }
}

/// The header of a container as it stands on the wire: the version, and
/// the flags where the version has them.
#[derive(Copy, Clone, Debug, PartialEq, Eq)]
pub struct ShadeHeader {
    pub version: Version,
    pub flags: Option<u8>,
}

impl ShadeFile {
    /// The header as it stands on the wire.
    pub fn header(&self) -> (header: ShadeHeader)
        ensures
            header.version == self.deep_view().version,
            header.flags == if has_flags(self.deep_view().version) {
                Some(self.deep_view().flags)
            } else {
                None::<u8>
            },
    {
        if self.version.into_encoded() > SHADE_FLAGS_VERSION {
            ShadeHeader { version: self.version, flags: Some(self.flags) }
        } else {
            ShadeHeader { version: self.version, flags: None }
        }
    }
}

/// The number of bytes of a salt.
pub const SALT_BYTES: usize = 32;

/// The number of bytes of an initialization vector.
pub const IV_BYTES: usize = 16;

/// The number of bytes of a check hash.
pub const CHECK_BYTES: usize = 32;

/// The number of bytes of the head of an encrypted container.
pub const CRYPTO_HEAD_BYTES: usize = 82;

/// The head of an encrypted container, which follows the header in the
/// clear: the number of 16-byte blocks of the ciphertext, the salt, the
/// initialization vector and the check hash of the password.
#[derive(Debug, PartialEq, Eq)]
pub struct CryptoHead {
    pub block_sz: u16,
    pub salt: Vec<u8>,
    pub iv: Vec<u8>,
    pub check_hash: Vec<u8>,
}

/// What the head of an encrypted container holds.
pub struct CryptoHeadValue {
    pub blocks: u16,
    pub salt: Seq<u8>,
    pub iv: Seq<u8>,
    pub check: Seq<u8>,
}

impl CryptoHeadValue {
    /// Whether the salt, the initialization vector and the check hash have
    /// their lengths.
    pub open spec fn valid(self) -> bool {
        self.salt.len() == SALT_BYTES && self.iv.len() == IV_BYTES && self.check.len()
            == CHECK_BYTES
    }
}

impl DeepView for CryptoHead {
    type V = CryptoHeadValue;

    open spec fn deep_view(&self) -> CryptoHeadValue {
        CryptoHeadValue {
            blocks: self.block_sz,
            salt: self.salt@,
            iv: self.iv@,
            check: self.check_hash@,
        }
    }
}

/// The check hash of a password: the digest of the password and the first
/// eight bytes of the salt.
pub open spec fn password_check(password: Seq<u8>, salt: Seq<u8>) -> Seq<u8> {
    sha256_digest(password + salt.take(8))
}

/// The key of a password: the digest of the password and the salt.
pub open spec fn derived_key(password: Seq<u8>, salt: Seq<u8>) -> Seq<u8> {
    sha256_digest(password + salt)
}

/// The bytes of the head of an encrypted container.
pub open spec fn crypto_head_bytes(head: CryptoHeadValue, order: ByteOrder) -> Seq<u8> {
    unsigned_bytes(head.blocks as nat, 2, order) + head.salt + head.iv + head.check
}

/// What reading the head of an encrypted container makes of `bytes`.
pub open spec fn crypto_head_decoding(bytes: Seq<u8>, order: ByteOrder) -> Decoded<
    CryptoHeadValue,
> {
    if bytes.len() < CRYPTO_HEAD_BYTES {
        Decoded::Failed(Error::EndOfFile)
    } else {
        Decoded::Value(
            CryptoHeadValue {
                blocks: unsigned_value(bytes.take(2), order) as u16,
                salt: bytes.subrange(2, 34),
                iv: bytes.subrange(34, 50),
                check: bytes.subrange(50, 82),
            },
            CRYPTO_HEAD_BYTES as nat,
        )
    }
}

/// The bytes that stand for an encrypted container with the given salt,
/// initialization vector, check hash and ciphertext, or the reason why it
/// has none: a ciphertext of more than 65,535 blocks.
pub open spec fn sealed_encoding(
    version: Version,
    flags: u8,
    salt: Seq<u8>,
    iv: Seq<u8>,
    check: Seq<u8>,
    cipher: Seq<u8>,
) -> Result<Seq<u8>, Invalid> {
    if cipher.len() / 16 > 0xFFFF {
        Err(Invalid::OutOfRange((cipher.len() / 16) as i128))
    } else {
        Ok(
            header_bytes(true, version, flags) + crypto_head_bytes(
                CryptoHeadValue { blocks: (cipher.len() / 16) as u16, salt, iv, check },
                order_of(flags),
            ) + cipher,
        )
    }
}

/// The ciphertext of the compound of a container under the key of a
/// password and a salt.
pub open spec fn sealed_payload(file: ShadeValue, password: Seq<u8>, salt: Seq<u8>, iv: Seq<u8>)
    -> Seq<
    u8,
> {
    aes_256_cbc_encrypted(
        derived_key(password, salt),
        iv,
        compound_encoding(file.compound, order_of(file.flags))->Ok_0,
    )
}

/// Whether the cipher gives the encoding of the compound back from its
/// ciphertext.
pub open spec fn payload_opens(file: ShadeValue, password: Seq<u8>, salt: Seq<u8>, iv: Seq<u8>)
    -> bool {
    aes_256_cbc_opened(
        derived_key(password, salt),
        iv,
        sealed_payload(file, password, salt, iv),
    ) == Some(compound_encoding(file.compound, order_of(file.flags))->Ok_0)
}

/// The bytes that stand for a container that is encrypted under a
/// password, with the given salt and initialization vector.
pub open spec fn sealed_under(file: ShadeValue, password: Seq<u8>, salt: Seq<u8>, iv: Seq<u8>)
    -> Result<
    Seq<u8>,
    Invalid,
> {
    sealed_encoding(
        file.version,
        file.flags,
        salt,
        iv,
        password_check(password, salt),
        sealed_payload(file, password, salt, iv),
    )
}

/// What reading the header and the head of an encrypted container makes of
/// `bytes`.
pub open spec fn sealed_head_decoding(bytes: Seq<u8>) -> Decoded<(Version, u8, CryptoHeadValue)> {
    match header_decoding(true, bytes) {
        Decoded::Failed(e) => Decoded::Failed(e),
        Decoded::Value((version, flags), used) => match crypto_head_decoding(
            bytes.skip(used as int),
            order_of(flags),
        ) {
            Decoded::Failed(e) => Decoded::Failed(e),
            Decoded::Value(head, more) => Decoded::Value((version, flags, head), used + more),
        },
    }
}

/// What reading an encrypted container under a password makes of `bytes`:
/// the refusal of the header or the head, the refusal of a password with
/// another check hash, the refusal of the cipher, or what the plaintext
/// opens as.
pub open spec fn sealed_reading(password: Seq<u8>, bytes: Seq<u8>) -> Result<ShadeValue, Error> {
    match sealed_head_decoding(bytes) {
        Decoded::Failed(e) => Err(e),
        Decoded::Value((version, flags, head), used) => if password_check(password, head.salt)
            != head.check {
            Err(Error::ValidationError(Invalid::PasswordCheckFailed))
        } else {
            match aes_256_cbc_opened(
                derived_key(password, head.salt),
                head.iv,
                bytes.skip(used as int),
            ) {
                None => Err(Error::IoError(IoFailure::Cipher)),
                Some(plain) => opened(version, flags, plain),
            }
        },
    }
}

/// What opening an encrypted container makes of its plaintext.
pub open spec fn opened(version: Version, flags: u8, plain: Seq<u8>) -> Result<ShadeValue, Error> {
    match compound_decoding(plain, order_of(flags)) {
        Decoded::Value(compound, _) => Ok(ShadeValue { encrypted: true, version, flags, compound }),
        Decoded::Failed(e) => Err(e),
    }
}

/// The bytes of `front`, then the first `count` bytes of `back`.
pub fn joined(front: &[u8], back: &[u8], count: usize) -> (bytes: Vec<u8>)
    requires
        count <= back@.len(),
    ensures
        bytes@ == front@ + back@.take(count as int),
{
    let mut bytes: Vec<u8> = Vec::new();
    bytes.extend_from_slice(front);
    assert(bytes@ =~= front@);
    let mut i: usize = 0;
    while i < count
        invariant
            i <= count <= back@.len(),
            bytes@ == front@ + back@.take(i as int),
        decreases count - i,
    {
        bytes.push(back[i]);
        assert(bytes@ =~= front@ + back@.take(i + 1));
        i = i + 1;
    }
    bytes
}

/// Reads the head of an encrypted container.
pub fn read_crypto_head<R: DataInput>(input: &mut R) -> (r: Result<CryptoHead, Error>)
    ensures
        final(input).order() == old(input).order(),
        match crypto_head_decoding(old(input).remaining(), old(input).order()) {
            Decoded::Value(head, used) => r is Ok && r->Ok_0.deep_view() == head && head.valid()
                && used <= old(input).remaining().len()
                    && final(input).remaining() == old(input).remaining().skip(used as int),
            Decoded::Failed(e) => r is Err && r->Err_0 == e,
        },
{
    let ghost bytes = input.remaining();
    proof {
        lemma_spans();
    }
    let block_sz = match read_unsigned(input, 2) {
        Ok(blocks) => blocks as u16,
        Err(e) => {
            return Err(e);
        },
    };
    let salt = match read_bytes(input, SALT_BYTES) {
        Ok(salt) => salt,
        Err(e) => {
            return Err(e);
        },
    };
    let iv = match read_bytes(input, IV_BYTES) {
        Ok(iv) => iv,
        Err(e) => {
            return Err(e);
        },
    };
    let check_hash = match read_bytes(input, CHECK_BYTES) {
        Ok(check) => check,
        Err(e) => {
            return Err(e);
        },
    };
    proof {
        assert(salt@ =~= bytes.subrange(2, 34));
        assert(iv@ =~= bytes.subrange(34, 50));
        assert(check_hash@ =~= bytes.subrange(50, 82));
        assert(input.remaining() =~= bytes.skip(82));
    }
    Ok(CryptoHead { block_sz, salt, iv, check_hash })
}

impl ShadeFile {
    /// Writes the container as an encrypted one, from the parts that the
    /// cipher and the random generator gave, and leaves `output` in the
    /// byte order of the compound. A ciphertext of more than 65,535 blocks
    /// is refused before anything is written.
    pub fn write_sealed<W: DataOutput>(
        &self,
        salt: &[u8],
        iv: &[u8],
        check: &[u8],
        cipher: &[u8],
        output: &mut W,
    ) -> (r: Result<(), Error>)
        requires
            salt@.len() == SALT_BYTES,
            iv@.len() == IV_BYTES,
            check@.len() == CHECK_BYTES,
        ensures
            match sealed_encoding(
                self.deep_view().version,
                self.deep_view().flags,
                salt@,
                iv@,
                check@,
                cipher@,
            ) {
                Ok(bytes) => r is Ok && final(output).written() == old(output).written() + bytes
                    && final(output).order() == order_of(self.deep_view().flags),
                Err(reason) => r == Err::<(), Error>(Error::ValidationError(reason))
                    && final(output).written() == old(output).written()
                        && final(output).order() == old(output).order(),
            },
    {
        let blocks = cipher.len() / 16;
        if blocks > 0xFFFF {
            return Err(Error::validation_error(Invalid::OutOfRange(blocks as i128)));
        }
        write_header(true, self.version, self.flags, output);
        output.set_byte_order(payload_order(self.flags));
        let _ = write_unsigned(output, blocks as u128, 2);
        let _ = output.write_bytes(salt);
        let _ = output.write_bytes(iv);
        let _ = output.write_bytes(check);
        let r = output.write_bytes(cipher);
        proof {
            let head = CryptoHeadValue { blocks: blocks as u16, salt: salt@, iv: iv@,
                check: check@ };
            assert(output.written() =~= old(output).written() + (header_bytes(
                true,
                self.version,
                self.flags,
            ) + crypto_head_bytes(head, order_of(self.flags)) + cipher@));
        }
        r
    }

    /// Writes the container as an encrypted one under `password`: draws a
    /// salt and an initialization vector, derives the check hash and the
    /// key from the password and the salt, and encrypts the compound under
    /// the key. Nothing is written where a step fails.
    pub fn write_encrypted<W: DataOutput>(&self, passwd: &[u8], output: &mut W) -> (r: Result<
        (),
        Error,
    >)
        ensures
            compound_encoding(self.deep_view().compound, order_of(self.deep_view().flags))
                matches Err(reason) ==> r == Err::<(), Error>(Error::ValidationError(reason)),
            r is Ok ==> final(output).order() == order_of(self.deep_view().flags)
                && old(output).written().is_prefix_of(final(output).written())
                && exists|salt: Seq<u8>, iv: Seq<u8>|
                    salt.len() == SALT_BYTES && iv.len() == IV_BYTES && payload_opens(
                        self.deep_view(),
                        passwd@,
                        salt,
                        iv,
                    ) && #[trigger] sealed_under(self.deep_view(), passwd@, salt, iv) == Ok::<
                        Seq<u8>,
                        Invalid,
                    >(final(output).written().skip(old(output).written().len() as int)),
            r is Err ==> final(output).written() == old(output).written()
                && final(output).order() == old(output).order(),
            r is Err && compound_encoding(
                self.deep_view().compound,
                order_of(self.deep_view().flags),
            ) is Ok ==> r->Err_0 == Error::IoError(IoFailure::Entropy) || r->Err_0
                == Error::IoError(IoFailure::Cipher) || (r->Err_0 matches Error::ValidationError(
                Invalid::OutOfRange(_),
            )),
    {
        let order = payload_order(self.flags);
        let mut payload = DataOutputStream::new(Vec::new(), order);
        match write_compound(&self.compound, &mut payload) {
            Ok(()) => {},
            Err(e) => {
                return Err(e);
            },
        }
        let plain = payload.into_inner();
        let ghost plain_bytes = compound_encoding(self.compound.deep_view(), order)->Ok_0;
        assert(plain@ =~= plain_bytes);
        let salt = match random_bytes(SALT_BYTES) {
            Some(salt) => salt,
            None => {
                return Err(Error::IoError(IoFailure::Entropy));
            },
        };
        let iv = match random_bytes(IV_BYTES) {
            Some(iv) => iv,
            None => {
                return Err(Error::IoError(IoFailure::Entropy));
            },
        };
        let mut check_input = DestroyableByteArray::new(joined(passwd, salt.as_slice(), 8));
        let check = sha256(check_input.as_slice());
        check_input.destroy();
        let mut key_input = DestroyableByteArray::new(joined(passwd, salt.as_slice(), SALT_BYTES));
        assert(salt@.take(SALT_BYTES as int) =~= salt@);
        let mut key = DestroyableByteArray::new(sha256(key_input.as_slice()));
        key_input.destroy();
        let sealed = encrypt_aes_256_cbc(key.as_slice(), iv.as_slice(), plain.as_slice());
        key.destroy();
        match sealed {
            Some(cipher) => {
                let r = self.write_sealed(
                    salt.as_slice(),
                    iv.as_slice(),
                    check.as_slice(),
                    cipher.as_slice(),
                    output,
                );
                proof {
                    if r is Ok {
                        let written = sealed_under(self.deep_view(), passwd@, salt@, iv@)->Ok_0;
                        assert(payload_opens(self.deep_view(), passwd@, salt@, iv@));
                        assert((old(output).written() + written).skip(
                            old(output).written().len() as int,
                        ) =~= written);
                        lemma_prefix_of_sum(old(output).written(), written);
                    }
                }
                r
            },
            None => Err(Error::IoError(IoFailure::Cipher)),
        }
    }

    /// The encrypted container of the given version and flags whose
    /// plaintext is `plain`.
    pub fn open_sealed(version: Version, flags: u8, plain: Vec<u8>) -> (r: Result<Self, Error>)
        ensures
            match opened(version, flags, plain@) {
                Ok(file) => r is Ok && r->Ok_0.deep_view() == file,
                Err(e) => r is Err && r->Err_0 == e,
            },
    {
        let mut payload = DataInputStream::new(plain, payload_order(flags));
        match read_compound(&mut payload) {
            Ok(compound) => Ok(ShadeFile { encrypted: true, version, flags, compound }),
            Err(e) => Err(e),
        }
    }

    /// Reads an encrypted container under `password`. The header and the
    /// head are read in the clear. A password whose check hash is not the
    /// one in the head is refused before the cipher is asked, and the input
    /// is left right after the head; else all the bytes that are left are
    /// decrypted under the key of the password, and the compound is read
    /// from the plaintext.
    pub fn read_encrypted<R: DataInput>(passwd: &[u8], input: &mut R) -> (r: Result<Self, Error>)
        ensures
            match sealed_reading(passwd@, old(input).remaining()) {
                Ok(file) => r is Ok && r->Ok_0.deep_view() == file,
                Err(e) => r is Err && r->Err_0 == e,
            },
            header_decoding(true, old(input).remaining()) matches Decoded::Failed(
                Error::ValidationError(reason),
            ) ==> final(input).remaining() == old(input).remaining().skip(
                header_refusal_taken(reason) as int,
            ),
            sealed_head_decoding(old(input).remaining()) matches Decoded::Value(
                (version, flags, head),
                used,
            ) ==> final(input).order() == order_of(flags) && if password_check(
                passwd@,
                head.salt,
            ) != head.check {
                final(input).remaining() == old(input).remaining().skip(used as int)
            } else {
                final(input).remaining() == Seq::<u8>::empty()
            },
    {
        let ghost bytes = input.remaining();
        let (version, flags) = match read_header(true, input) {
            Ok(header) => header,
            Err(e) => {
                return Err(e);
            },
        };
        let ghost used = header_decoding(true, bytes)->Value_1;
        input.set_byte_order(payload_order(flags));
        let head = match read_crypto_head(input) {
            Ok(head) => head,
            Err(e) => {
                return Err(e);
            },
        };
        proof {
            assert(bytes.skip(used as int).skip(82) =~= bytes.skip(used as int + 82));
        }
        let mut check_input = DestroyableByteArray::new(joined(passwd, head.salt.as_slice(), 8));
        let mut check = DestroyableByteArray::new(sha256(check_input.as_slice()));
        check_input.destroy();
        let matches = constant_time_eq(check.as_slice(), head.check_hash.as_slice());
        check.destroy();
        if !matches {
            return Err(Error::validation_error(Invalid::PasswordCheckFailed));
        }
        let mut key_input = DestroyableByteArray::new(
            joined(passwd, head.salt.as_slice(), SALT_BYTES),
        );
        assert(head.salt@.take(SALT_BYTES as int) =~= head.salt@);
        let mut key = DestroyableByteArray::new(sha256(key_input.as_slice()));
        key_input.destroy();
        let cipher = input.read_to_end();
        let plain = decrypt_aes_256_cbc(key.as_slice(), head.iv.as_slice(), cipher.as_slice());
        key.destroy();
        match plain {
            Some(plain) => ShadeFile::open_sealed(version, flags, plain),
            None => Err(Error::IoError(IoFailure::Cipher)),
        }
    }
}

/// The head of an encrypted container is read back from its bytes.
pub proof fn lemma_crypto_head_round_trip(head: CryptoHeadValue, order: ByteOrder, rest: Seq<u8>)
    requires
        head.valid(),
    ensures
        crypto_head_bytes(head, order).len() == CRYPTO_HEAD_BYTES,
        crypto_head_decoding(crypto_head_bytes(head, order) + rest, order) == Decoded::Value(
            head,
            CRYPTO_HEAD_BYTES as nat,
        ),
{
    lemma_spans();
    lemma_unsigned_round_trip(head.blocks as nat, 2, order);
    let count = unsigned_bytes(head.blocks as nat, 2, order);
    let all = crypto_head_bytes(head, order) + rest;
    assert(all.take(2) =~= count);
    assert(all.subrange(2, 34) =~= head.salt);
    assert(all.subrange(34, 50) =~= head.iv);
    assert(all.subrange(50, 82) =~= head.check);
}

/// What is written of an encrypted container is read back: the header and
/// the head yield the version, the flags, the salt, the initialization
/// vector and the check hash, and the bytes after them are the ciphertext.
pub proof fn lemma_sealed_round_trip(
    version: Version,
    flags: u8,
    salt: Seq<u8>,
    iv: Seq<u8>,
    check: Seq<u8>,
    cipher: Seq<u8>,
)
    requires
        version.encoded() <= SHADE_VERSION,
        flags & !SHADE_FLAGS_MASK == 0,
        has_flags(version) || flags == 0,
        salt.len() == SALT_BYTES,
        iv.len() == IV_BYTES,
        check.len() == CHECK_BYTES,
        sealed_encoding(version, flags, salt, iv, check, cipher) is Ok,
    ensures
        ({
            let bytes = sealed_encoding(version, flags, salt, iv, check, cipher)->Ok_0;
            let head = CryptoHeadValue { blocks: (cipher.len() / 16) as u16, salt, iv, check };
            let used = (header_bytes(true, version, flags).len() + CRYPTO_HEAD_BYTES) as nat;
            &&& sealed_head_decoding(bytes) == Decoded::Value((version, flags, head), used)
            &&& bytes.skip(used as int) == cipher
        }),
{
    let head = CryptoHeadValue { blocks: (cipher.len() / 16) as u16, salt, iv, check };
    let order = order_of(flags);
    let front = header_bytes(true, version, flags);
    let middle = crypto_head_bytes(head, order);
    let bytes = front + middle + cipher;
    assert(bytes =~= front + (middle + cipher));
    lemma_header_round_trip(true, version, flags, middle + cipher);
    assert(bytes.skip(front.len() as int) =~= middle + cipher);
    lemma_crypto_head_round_trip(head, order, cipher);
    assert(bytes.skip(front.len() + CRYPTO_HEAD_BYTES) =~= cipher);
}

/// Encrypting and then decrypting under one password gives the container
/// back: where a valid container was written under a salt and an
/// initialization vector, reading what was written under the same password
/// yields that container, as an encrypted one. Under a password with
/// another check hash, reading is refused at the password check.
pub proof fn lemma_encrypt_then_decrypt(
    file: ShadeValue,
    password: Seq<u8>,
    salt: Seq<u8>,
    iv: Seq<u8>,
    other: Seq<u8>,
)
    requires
        file.valid(),
        salt.len() == SALT_BYTES,
        iv.len() == IV_BYTES,
        password_check(password, salt).len() == CHECK_BYTES,
        compound_encoding(file.compound, order_of(file.flags)) is Ok,
        payload_opens(file, password, salt, iv),
        sealed_under(file, password, salt, iv) is Ok,
    ensures
        sealed_reading(password, sealed_under(file, password, salt, iv)->Ok_0) == Ok::<
            ShadeValue,
            Error,
        >(ShadeValue { encrypted: true, ..file }),
        password_check(other, salt) != password_check(password, salt) ==> sealed_reading(
            other,
            sealed_under(file, password, salt, iv)->Ok_0,
        ) == Err::<ShadeValue, Error>(Error::ValidationError(Invalid::PasswordCheckFailed)),
{
    lemma_sealed_round_trip(
        file.version,
        file.flags,
        salt,
        iv,
        password_check(password, salt),
        sealed_payload(file, password, salt, iv),
    );
    let plain = compound_encoding(file.compound, order_of(file.flags))->Ok_0;
    lemma_compound_round_trip(file.compound, order_of(file.flags), Seq::<u8>::empty());
    assert(plain + Seq::<u8>::empty() =~= plain);
}

} // verus!
