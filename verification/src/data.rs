//! Binary streams over byte buffers, and the traits by which values are
//! written to and read from them.

use vstd::prelude::*;

verus! {

/// A value that lies outside the range that an operation accepts.
#[derive(Copy, Clone, PartialEq, Eq, Debug)]
pub struct OutOfRange<T>(pub T);

/// Why a transport or an outside service failed.
#[derive(Copy, Clone, PartialEq, Eq, Debug, Structural)]
pub enum IoFailure {
    /// The byte source or sink below the stream failed.
    Transport,
    /// The source of secure random bytes failed.
    Entropy,
    /// The cipher rejected its input.
    Cipher,
}

/// Why readable data was refused.
#[derive(Copy, Clone, PartialEq, Eq, Debug, Structural)]
pub enum Invalid {
    /// The bytes of a string are not UTF-8.
    BadUtf8,
    /// A number outside the range that the format takes, with its value.
    OutOfRange(i128),
    /// A tag type code outside the known set, with the code.
    UnknownTagType(u8),
    /// An End tag stored as an entry of a compound.
    EmbeddedEnd,
    /// The magic number is not that of the expected container.
    BadMagic,
    /// The version, given in its encoded form, is newer than the newest supported one.
    VersionNotImplemented(u16),
    /// Flag bits outside the accepted set, with the flags byte.
    BadFlags(u8),
    /// The password does not match the check hash of the container.
    PasswordCheckFailed,
    /// An encrypted container was handed to the writer of plain containers.
    WrongContainer,
}

/// The error type of binary reads and writes.
#[derive(Copy, Clone, PartialEq, Eq, Debug, Structural)]
pub enum Error {
    /// The input ended inside a value.
    EndOfFile,
    /// A transport or an outside service failed.
    IoError(IoFailure),
    /// The data could be read but does not meet the format's rules.
    ValidationError(Invalid),
}

impl Error {
    /// The error that reports `reason` as a failed validation.
    pub fn validation_error(reason: Invalid) -> (e: Error)
        ensures
            e == Error::ValidationError(reason),
    {
        Error::ValidationError(reason)
    }
}

/// Runs `f` on `input` and reports its refusal as a validation error.
pub fn validate<T, U, F: FnOnce(T) -> Result<U, Invalid>>(input: T, f: F) -> (r: Result<U, Error>)
    requires
        f.requires((input,)),
    ensures
        match r {
            Ok(u) => f.ensures((input,), Ok(u)),
            Err(e) => exists|reason: Invalid|
                e == Error::ValidationError(reason) && f.ensures((input,), Err(reason)),
        },
{
    match f(input) {
        Ok(u) => Ok(u),
        Err(reason) => Err(Error::validation_error(reason)),
    }
}

/// The order in which the bytes of a multi-byte value appear on the wire.
#[derive(Copy, Clone, PartialEq, Eq, Debug, Structural)]
pub enum ByteOrder {
    /// Most significant byte first.
    BigEndian,
    /// Least significant byte first.
    LittleEndian,
}

/// `u16::to_ne_bytes`: the two bytes of the number 1 as the host stores
/// them, which are 1 and 0 on a little-endian host and 0 and 1 on a
/// big-endian one.
#[verifier::external_body]
fn host_bytes_of_one() -> (bytes: [u8; 2])
    ensures
        bytes@ == seq![1u8, 0u8] || bytes@ == seq![0u8, 1u8],
{
    1u16.to_ne_bytes()
}

impl ByteOrder {
    /// The byte order of a host that stores the number 1 in two bytes as
    /// `bytes`: little-endian where the first byte is the 1, big-endian
    /// where it is not.
    pub fn of_host_bytes(bytes: [u8; 2]) -> (order: Self)
        ensures
            order == if bytes@[0] == 1 {
                ByteOrder::LittleEndian
            } else {
                ByteOrder::BigEndian
            },
    {
        if bytes[0] == 1 {
            ByteOrder::LittleEndian
        } else {
            ByteOrder::BigEndian
        }
    }

    /// The byte order of the host. It is the default of the streams that
    /// are made without one. Which of the two it is rests with the host.
    pub fn native() -> (order: Self) {
        ByteOrder::of_host_bytes(host_bytes_of_one())
    }
}

/// A byte order, or the wish for that of the host.
#[derive(Copy, Clone, PartialEq, Eq, Debug, Structural)]
pub enum Endianess {
    /// Most significant byte first.
    BigEndian,
    /// Least significant byte first.
    LittleEndian,
    /// The byte order of the host.
    Native,
}

impl Default for Endianess {
    fn default() -> (e: Self)
        ensures
            e == Endianess::Native,
    {
        Endianess::Native
    }
}

impl Endianess {
    /// The byte order that is meant: the one named, or that of the host.
    pub fn resolve(self) -> (order: ByteOrder)
        ensures
            self == Endianess::BigEndian ==> order == ByteOrder::BigEndian,
            self == Endianess::LittleEndian ==> order == ByteOrder::LittleEndian,
    {
        match self {
            Endianess::BigEndian => ByteOrder::BigEndian,
            Endianess::LittleEndian => ByteOrder::LittleEndian,
            Endianess::Native => ByteOrder::native(),
        }
    }

    /// The wish that names the given byte order.
    pub fn of(order: ByteOrder) -> (e: Self)
        ensures
            e == match order {
                ByteOrder::BigEndian => Endianess::BigEndian,
                ByteOrder::LittleEndian => Endianess::LittleEndian,
            },
    {
        match order {
            ByteOrder::BigEndian => Endianess::BigEndian,
            ByteOrder::LittleEndian => Endianess::LittleEndian,
        }
    }
}

/// What decoding makes of a run of bytes: a value and the number of bytes it
/// took, or the error at which decoding stopped.
pub enum Decoded<T> {
    Value(T, nat),
    Failed(Error),
}

impl<T> Decoded<T> {
    /// The outcome with `f` applied to the value, if there is one.
    pub open spec fn map<U>(self, f: spec_fn(T) -> U) -> Decoded<U> {
        match self {
            Decoded::Value(value, used) => Decoded::Value(f(value), used),
            Decoded::Failed(e) => Decoded::Failed(e),
        }
    }
}

/// The outcome `next` of decoding more items, after `front` was decoded from
/// the `taken` bytes before them.
pub open spec fn prepend<A>(front: Seq<A>, taken: nat, next: Decoded<Seq<A>>) -> Decoded<Seq<A>> {
    match next {
        Decoded::Failed(e) => Decoded::Failed(e),
        Decoded::Value(rest, more) => Decoded::Value(front + rest, taken + more),
    }
}

/// The encoding of one thing after another: the bytes of both, or the
/// reason why the first of them that has no encoding has none.
pub open spec fn then_encoding(
    first: Result<Seq<u8>, Invalid>,
    second: Result<Seq<u8>, Invalid>,
) -> Result<Seq<u8>, Invalid> {
    match first {
        Err(reason) => Err(reason),
        Ok(front) => match second {
            Err(reason) => Err(reason),
            Ok(back) => Ok(front + back),
        },
    }
}

/// Whether `r` and the bytes written since `start` are what writing a
/// value with the encoding `expected` gives.
pub open spec fn wrote(
    r: Result<(), Error>,
    start: Seq<u8>,
    now: Seq<u8>,
    expected: Result<Seq<u8>, Invalid>,
) -> bool {
    match expected {
        Ok(bytes) => r is Ok && now == start + bytes,
        Err(reason) => r == Err::<(), Error>(Error::ValidationError(reason)) && start.is_prefix_of(
            now,
        ),
    }
}

/// One more item decoded before an outcome counts as the last of the items
/// decoded before it.
pub proof fn lemma_prepend_one<A>(front: Seq<A>, taken: nat, item: A, step: nat,
    next: Decoded<Seq<A>>)
    ensures
        prepend(front, taken, prepend(seq![item], step, next)) == prepend(
            front.push(item),
            taken + step,
            next,
        ),
{
    match next {
        Decoded::Failed(e) => {},
        Decoded::Value(rest, more) => {
            assert(front + (seq![item] + rest) =~= front.push(item) + rest);
        },
    }
}

/// A source of bytes that carries a byte order.
pub trait DataInput {
    /// The bytes that have not been read yet.
    spec fn remaining(&self) -> Seq<u8>;

    /// The byte order in force.
    spec fn order(&self) -> ByteOrder;

    /// Fills `bytes` with the next bytes of the input, or fails with
    /// `EndOfFile` where the input holds fewer.
    fn read_fully(&mut self, bytes: &mut [u8]) -> (r: Result<(), Error>)
        ensures
            final(self).order() == old(self).order(),
            final(bytes)@.len() == old(bytes)@.len(),
            r is Ok <==> old(bytes)@.len() <= old(self).remaining().len(),
            r is Ok ==> final(bytes)@ == old(self).remaining().take(old(bytes)@.len() as int)
                && final(self).remaining() == old(self).remaining().skip(old(bytes)@.len() as int),
            r is Err ==> r == Err::<(), Error>(Error::EndOfFile),
    ;

    /// Reads one byte.
    fn read_byte(&mut self) -> (r: Result<u8, Error>)
        ensures
            final(self).order() == old(self).order(),
            r is Ok <==> old(self).remaining().len() > 0,
            r is Ok ==> r->Ok_0 == old(self).remaining()[0]
                && final(self).remaining() == old(self).remaining().skip(1),
            r is Err ==> r == Err::<u8, Error>(Error::EndOfFile),
    ;

    /// Reads all the bytes that are left.
    fn read_to_end(&mut self) -> (bytes: Vec<u8>)
        ensures
            final(self).order() == old(self).order(),
            bytes@ == old(self).remaining(),
            final(self).remaining() == Seq::<u8>::empty(),
    ;

    /// The byte order in force.
    fn byte_order(&self) -> (o: ByteOrder)
        ensures
            o == self.order(),
    ;

    /// Puts `order` in force for the reads that follow.
    fn set_byte_order(&mut self, order: ByteOrder)
        ensures
            final(self).order() == order,
            final(self).remaining() == old(self).remaining(),
    ;
}

/// A byte source over a buffer held in memory.
pub struct DataInputStream {
    data: Vec<u8>,
    position: usize,
    order: ByteOrder,
}

impl DataInputStream {
    #[verifier::type_invariant]
    spec fn within(&self) -> bool {
        self.position <= self.data@.len()
    }

    /// A stream that reads `read` from its first byte, in the given byte order.
    pub fn new(read: Vec<u8>, order: ByteOrder) -> (s: Self)
        ensures
            s.remaining() == read@,
            s.order() == order,
    {
        DataInputStream { data: read, position: 0, order }
    }

    /// A stream that reads `read` from its first byte, in the byte order of
    /// the host.
    pub fn new_native(read: Vec<u8>) -> (s: Self)
        ensures
            s.remaining() == read@,
    {
        DataInputStream::new(read, ByteOrder::native())
    }

    /// The bytes that were not read.
    pub fn into_inner(self) -> (rest: Vec<u8>)
        ensures
            rest@ == self.remaining(),
    {
        proof {
            use_type_invariant(&self);
        }
        let mut data = self.data;
        data.split_off(self.position)
    }
}

impl DataInput for DataInputStream {
    closed spec fn remaining(&self) -> Seq<u8> {
        self.data@.skip(self.position as int)
    }

    closed spec fn order(&self) -> ByteOrder {
        self.order
    }

    fn read_fully(&mut self, bytes: &mut [u8]) -> (r: Result<(), Error>) {
        proof {
            use_type_invariant(&*self);
        }
        let n = bytes.len();
        if n > self.data.len() - self.position {
            return Err(Error::EndOfFile);
        }
        let start = self.position;
        let mut i: usize = 0;
        while i < n
            invariant
                i <= n,
                n == bytes@.len(),
                start + n <= self.data@.len() <= usize::MAX,
                self.position == start,
                self.data@ == old(self).data@,
                forall|k: int| 0 <= k < i ==> bytes@[k] == self.data@[start + k],
            decreases n - i,
        {
            bytes[i] = self.data[start + i];
            i = i + 1;
        }
        self.position = start + n;
        assert(bytes@ =~= old(self).remaining().take(n as int));
        assert(self.remaining() =~= old(self).remaining().skip(n as int));
        Ok(())
    }

    fn read_byte(&mut self) -> (r: Result<u8, Error>) {
        proof {
            use_type_invariant(&*self);
        }
        if self.position < self.data.len() {
            let b = self.data[self.position];
            self.position = self.position + 1;
            assert(self.remaining() =~= old(self).remaining().skip(1));
            Ok(b)
        } else {
            Err(Error::EndOfFile)
        }
    }

    fn read_to_end(&mut self) -> (bytes: Vec<u8>) {
        proof {
            use_type_invariant(&*self);
        }
        let n = self.data.len();
        let mut bytes: Vec<u8> = Vec::with_capacity(n - self.position);
        let start = self.position;
        let mut i: usize = start;
        while i < n
            invariant
                start <= i <= n,
                n == self.data@.len(),
                self.position == start,
                self.data@ == old(self).data@,
                bytes@ == self.data@.subrange(start as int, i as int),
            decreases n - i,
        {
            bytes.push(self.data[i]);
            assert(bytes@ =~= self.data@.subrange(start as int, i + 1));
            i = i + 1;
        }
        self.position = n;
        assert(bytes@ =~= old(self).remaining());
        assert(self.remaining() =~= Seq::<u8>::empty());
        bytes
    }

    fn byte_order(&self) -> (o: ByteOrder) {
        self.order
    }

    fn set_byte_order(&mut self, order: ByteOrder) {
        proof {
            use_type_invariant(&*self);
        }
        self.order = order;
    }
}

/// A sink of bytes that carries a byte order. Writing to memory cannot fail,
/// so every write succeeds.
pub trait DataOutput {
    /// The bytes written so far.
    spec fn written(&self) -> Seq<u8>;

    /// The byte order in force.
    spec fn order(&self) -> ByteOrder;

    /// Appends all of `bytes`.
    fn write_bytes(&mut self, bytes: &[u8]) -> (r: Result<(), Error>)
        ensures
            r is Ok,
            final(self).written() == old(self).written() + bytes@,
            final(self).order() == old(self).order(),
    ;

    /// Appends one byte.
    fn write_byte(&mut self, byte: u8) -> (r: Result<(), Error>)
        ensures
            r is Ok,
            final(self).written() == old(self).written().push(byte),
            final(self).order() == old(self).order(),
    ;

    /// The byte order in force.
    fn byte_order(&self) -> (o: ByteOrder)
        ensures
            o == self.order(),
    ;

    /// Puts `order` in force for the writes that follow.
    fn set_byte_order(&mut self, order: ByteOrder)
        ensures
            final(self).order() == order,
            final(self).written() == old(self).written(),
    ;
}

/// A byte sink that collects what is written in memory.
pub struct DataOutputStream {
    data: Vec<u8>,
    order: ByteOrder,
}

impl DataOutputStream {
    /// A stream that appends to `write`, in the given byte order.
    pub fn new(write: Vec<u8>, order: ByteOrder) -> (s: Self)
        ensures
            s.written() == write@,
            s.order() == order,
    {
        DataOutputStream { data: write, order }
    }

    /// A stream that appends to `write`, in the byte order of the host.
    pub fn new_native(write: Vec<u8>) -> (s: Self)
        ensures
            s.written() == write@,
    {
        DataOutputStream::new(write, ByteOrder::native())
    }

    /// Puts `order` in force for the writes that follow.
    pub fn set_byte_order(&mut self, order: ByteOrder)
        ensures
            final(self).order() == order,
            final(self).written() == old(self).written(),
    {
        self.order = order;
    }

    /// The bytes written, after those that the stream started with.
    pub fn into_inner(self) -> (bytes: Vec<u8>)
        ensures
            bytes@ == self.written(),
    {
        self.data
    }
}

impl DataOutput for DataOutputStream {
    closed spec fn written(&self) -> Seq<u8> {
        self.data@
    }

    closed spec fn order(&self) -> ByteOrder {
        self.order
    }

    fn write_bytes(&mut self, bytes: &[u8]) -> (r: Result<(), Error>) {
        self.data.extend_from_slice(bytes);
        assert(self.data@ =~= old(self).data@ + bytes@);
        Ok(())
    }

    fn write_byte(&mut self, byte: u8) -> (r: Result<(), Error>) {
        self.data.push(byte);
        Ok(())
    }

    fn byte_order(&self) -> (o: ByteOrder) {
        self.order
    }

    fn set_byte_order(&mut self, order: ByteOrder) {
        self.order = order;
    }
}

/// Values that can be written to a byte sink.
pub trait Serializeable: DeepView {
    /// The bytes that stand for `value` under `order`, or the reason why it
    /// has no encoding.
    spec fn encoding(value: Self::V, order: ByteOrder) -> Result<Seq<u8>, Invalid>;

    /// Appends the encoding of `self` to `output`. A value without an
    /// encoding is refused; what was written of it by then stays written.
    fn serialize<W: DataOutput>(&self, output: &mut W) -> (r: Result<(), Error>)
        ensures
            final(output).order() == old(output).order(),
            match Self::encoding(self.deep_view(), old(output).order()) {
                Ok(bytes) => r is Ok && final(output).written() == old(output).written() + bytes,
                Err(reason) => r == Err::<(), Error>(Error::ValidationError(reason))
                    && old(output).written().is_prefix_of(final(output).written()),
            },
    ;
}

/// Values that can be read from a byte source into an existing value.
pub trait Deserializeable: DeepView {
    /// What reading makes of `bytes` under `order`, for a destination that
    /// holds `current`.
    spec fn decoding_into(current: Self::V, bytes: Seq<u8>, order: ByteOrder) -> Decoded<Self::V>;

    /// Reads a value from `input` into `self`. After a failure neither the
    /// value in `self` nor the position of `input` is specified.
    fn deserialize<R: DataInput>(&mut self, input: &mut R) -> (r: Result<(), Error>)
        ensures
            final(input).order() == old(input).order(),
            match Self::decoding_into(
                old(self).deep_view(),
                old(input).remaining(),
                old(input).order(),
            ) {
                Decoded::Value(value, used) => r is Ok && final(self).deep_view() == value
                    && used <= old(input).remaining().len()
                    && final(input).remaining() == old(input).remaining().skip(used as int),
                Decoded::Failed(e) => r == Err::<(), Error>(e),
            },
    ;
}

/// Values that can be read from a byte source as a new value.
pub trait DeserializeCopy: Deserializeable + Sized {
    /// What reading makes of `bytes` under `order`.
    spec fn decoding(bytes: Seq<u8>, order: ByteOrder) -> Decoded<Self::V>;

    /// A value takes no more bytes than there are.
    proof fn lemma_decoding_fits(bytes: Seq<u8>, order: ByteOrder)
        ensures
            Self::decoding(bytes, order) matches Decoded::Value(_, used) ==> used <= bytes.len(),
    ;

    /// Reads a value from `input`. After a failure the position of `input`
    /// is not specified.
    fn deserialize_copy<R: DataInput>(input: &mut R) -> (r: Result<Self, Error>)
        ensures
            final(input).order() == old(input).order(),
            match Self::decoding(old(input).remaining(), old(input).order()) {
                Decoded::Value(value, used) => r is Ok && r->Ok_0.deep_view() == value
                    && used <= old(input).remaining().len()
                    && final(input).remaining() == old(input).remaining().skip(used as int),
                Decoded::Failed(e) => r is Err && r->Err_0 == e,
            },
    ;
}

/// Types whose values are read back from what was written of them.
pub trait Codec: Serializeable + DeserializeCopy {
    /// The values that are sound: those that the operations of the type
    /// make.
    spec fn valid(value: Self::V) -> bool;

    /// Reading the encoding of a sound value, with or without bytes after
    /// it, yields that value and takes exactly the encoding.
    proof fn lemma_round_trip(value: Self::V, order: ByteOrder, rest: Seq<u8>)
        requires
            Self::valid(value),
            Self::encoding(value, order) is Ok,
        ensures
            Self::decoding(Self::encoding(value, order)->Ok_0 + rest, order) == Decoded::Value(
                value,
                Self::encoding(value, order)->Ok_0.len(),
            ),
    ;
}

} // verus!
