//! Spans of time in seconds and nanoseconds.

use crate::data::{
    ByteOrder, Codec, DataInput, DataOutput, Decoded, DeserializeCopy, Deserializeable, Error,
    Invalid, Serializeable,
};
use crate::primitive::{i64_decoding, u32_decoding};
use vstd::prelude::*;

verus! {

/// The number of nanoseconds in a second.
pub const NANOS_PER_SECOND: u32 = 1_000_000_000;

/// A span of time: whole seconds, which may be negative, and nanoseconds
/// from 0 up to a second, which count forward from the seconds.
#[derive(Clone, Copy, Debug, Hash, PartialEq, Eq, Structural)]
pub struct Duration {
    seconds: i64,
    nanos: u32,
}

impl Duration {
    /// The whole seconds of the span.
    pub closed spec fn seconds(self) -> i64 {
        self.seconds
    }

    /// The nanoseconds of the span after its whole seconds.
    pub closed spec fn nanos(self) -> u32 {
        self.nanos
    }

    /// The span in nanoseconds.
    pub open spec fn total_nanos(self) -> int {
        self.seconds() * NANOS_PER_SECOND + self.nanos()
    }

    /// Whether the nanoseconds are below a second.
    pub open spec fn valid(self) -> bool {
        self.nanos() < NANOS_PER_SECOND
    }

    /// The span of the given seconds and nanoseconds, where the nanoseconds
    /// are below a second.
    pub fn new(seconds: i64, nanos: u32) -> (r: Option<Self>)
        ensures
            r is Some <==> nanos < NANOS_PER_SECOND,
            r is Some ==> r->Some_0.seconds() == seconds && r->Some_0.nanos() == nanos
                && r->Some_0.valid(),
    {
        if nanos < NANOS_PER_SECOND {
            Some(Duration { seconds, nanos })
        } else {
            None
        }
    }

    /// The empty span.
    pub fn zero() -> (d: Self)
        ensures
            d.total_nanos() == 0,
            d.valid(),
    {
        Duration { seconds: 0, nanos: 0 }
    }

    /// The longest span.
    pub fn max() -> (d: Self)
        ensures
            d.seconds() == i64::MAX,
            d.nanos() == NANOS_PER_SECOND - 1,
            d.valid(),
    {
        Duration { seconds: i64::MAX, nanos: 999_999_999 }
    }

    /// The longest span backwards.
    pub fn min() -> (d: Self)
        ensures
            d.seconds() == i64::MIN,
            d.nanos() == 0,
            d.valid(),
    {
        Duration { seconds: i64::MIN, nanos: 0 }
    }

    /// The shortest span that is not empty.
    pub fn epsilon() -> (d: Self)
        ensures
            d.total_nanos() == 1,
            d.valid(),
    {
        Duration { seconds: 0, nanos: 1 }
    }

    /// The whole seconds of the span.
    pub fn get_seconds(&self) -> (seconds: i64)
        ensures
            seconds == self.seconds(),
    {
        self.seconds
    }

    /// The nanoseconds of the span after its whole seconds.
    pub fn get_nanos(&self) -> (nanos: u32)
        ensures
            nanos == self.nanos(),
    {
        self.nanos
    }

    /// The sum of two spans, or `None` where its seconds do not fit.
    pub fn checked_add(self, rhs: Self) -> (r: Option<Self>)
        requires
            self.valid(),
            rhs.valid(),
        ensures
            r is Some <==> i64::MIN * NANOS_PER_SECOND <= self.total_nanos() + rhs.total_nanos()
                < (i64::MAX + 1) * NANOS_PER_SECOND,
            r is Some ==> r->Some_0.valid() && r->Some_0.total_nanos() == self.total_nanos()
                + rhs.total_nanos(),
    {
        let mut nanos: u32 = self.nanos + rhs.nanos;
        let mut carry: i64 = 0;
        if nanos >= NANOS_PER_SECOND {
            nanos = nanos - NANOS_PER_SECOND;
            carry = 1;
        }
        let seconds: i128 = self.seconds as i128 + rhs.seconds as i128 + carry as i128;
        if seconds < i64::MIN as i128 || seconds > i64::MAX as i128 {
            None
        } else {
            Some(Duration { seconds: seconds as i64, nanos })
        }
    }

    /// The difference of two spans, or `None` where its seconds do not fit.
    pub fn checked_sub(self, rhs: Self) -> (r: Option<Self>)
        requires
            self.valid(),
            rhs.valid(),
        ensures
            r is Some <==> i64::MIN * NANOS_PER_SECOND <= self.total_nanos() - rhs.total_nanos()
                < (i64::MAX + 1) * NANOS_PER_SECOND,
            r is Some ==> r->Some_0.valid() && r->Some_0.total_nanos() == self.total_nanos()
                - rhs.total_nanos(),
    {
        let mut borrow: i64 = 0;
        let nanos: u32 = if self.nanos >= rhs.nanos {
            self.nanos - rhs.nanos
        } else {
            borrow = 1;
            self.nanos + NANOS_PER_SECOND - rhs.nanos
        };
        let seconds: i128 = self.seconds as i128 - rhs.seconds as i128 - borrow as i128;
        if seconds < i64::MIN as i128 || seconds > i64::MAX as i128 {
            None
        } else {
            Some(Duration { seconds: seconds as i64, nanos })
        }
    }
}

impl DeepView for Duration {
    type V = Duration;

    open spec fn deep_view(&self) -> Duration {
        *self
    }
}

/// The bytes that stand for a span: the seconds as a signed 64-bit number,
/// then the nanoseconds as an unsigned 32-bit number. A span whose
/// nanoseconds reach a second has none.
pub open spec fn duration_encoding(value: Duration, order: ByteOrder) -> Result<Seq<u8>, Invalid> {
    if !value.valid() {
        Err(Invalid::OutOfRange(value.nanos() as i128))
    } else {
        Ok(
            <i64 as Serializeable>::encoding(value.seconds(), order)->Ok_0
                + <u32 as Serializeable>::encoding(value.nanos(), order)->Ok_0,
        )
    }
}

/// What reading a span makes of `bytes`. Nanoseconds that reach a second
/// are refused.
pub open spec fn duration_decoding(bytes: Seq<u8>, order: ByteOrder) -> Decoded<Duration> {
    match i64_decoding(bytes, order) {
        Decoded::Failed(e) => Decoded::Failed(e),
        Decoded::Value(seconds, _) => match u32_decoding(bytes.skip(8), order) {
            Decoded::Failed(e) => Decoded::Failed(e),
            Decoded::Value(nanos, _) => if nanos >= NANOS_PER_SECOND {
                Decoded::Failed(Error::ValidationError(Invalid::OutOfRange(nanos as i128)))
            } else {
                Decoded::Value(Duration::of_parts(seconds, nanos), 12)
            },
        },
    }
}

impl Duration {
    /// The span of the given seconds and nanoseconds.
    pub closed spec fn of_parts(seconds: i64, nanos: u32) -> Duration {
        Duration { seconds, nanos }
    }

    /// A span is its seconds and its nanoseconds.
    pub proof fn lemma_parts(self, seconds: i64, nanos: u32)
        ensures
            Duration::of_parts(self.seconds(), self.nanos()) == self,
            Duration::of_parts(seconds, nanos).seconds() == seconds,
            Duration::of_parts(seconds, nanos).nanos() == nanos,
    {
    }

    /// Reads a span.
    pub fn read<R: DataInput>(input: &mut R) -> (r: Result<Self, Error>)
        ensures
            final(input).order() == old(input).order(),
            match duration_decoding(old(input).remaining(), old(input).order()) {
                Decoded::Value(value, used) => r is Ok && r->Ok_0 == value
                    && used <= old(input).remaining().len()
                    && final(input).remaining() == old(input).remaining().skip(used as int),
                Decoded::Failed(e) => r is Err && r->Err_0 == e,
            },
    {
        let seconds = match i64::deserialize_copy(input) {
            Ok(seconds) => seconds,
            Err(e) => {
                return Err(e);
            },
        };
        let nanos = match u32::deserialize_copy(input) {
            Ok(nanos) => nanos,
            Err(e) => {
                return Err(e);
            },
        };
        assert(old(input).remaining().skip(8).skip(4) =~= old(input).remaining().skip(12));
        if nanos >= NANOS_PER_SECOND {
            Err(Error::validation_error(Invalid::OutOfRange(nanos as i128)))
        } else {
            Ok(Duration { seconds, nanos })
        }
    }
}

impl Serializeable for Duration {
    open spec fn encoding(value: Duration, order: ByteOrder) -> Result<Seq<u8>, Invalid> {
        duration_encoding(value, order)
    }

    fn serialize<W: DataOutput>(&self, output: &mut W) -> (r: Result<(), Error>) {
        if self.nanos >= NANOS_PER_SECOND {
            assert(old(output).written().is_prefix_of(old(output).written())) by {
                assert(old(output).written().take(old(output).written().len() as int)
                    =~= old(output).written());
            }
            return Err(Error::validation_error(Invalid::OutOfRange(self.nanos as i128)));
        }
        let _ = self.seconds.serialize(output);
        let r = self.nanos.serialize(output);
        proof {
            let first = <i64 as Serializeable>::encoding(self.seconds, old(output).order())->Ok_0;
            let second = <u32 as Serializeable>::encoding(self.nanos, old(output).order())->Ok_0;
            assert(old(output).written() + first + second =~= old(output).written() + (first
                + second));
        }
        r
    }
}

impl Deserializeable for Duration {
    open spec fn decoding_into(current: Duration, bytes: Seq<u8>, order: ByteOrder) -> Decoded<
        Duration,
    > {
        duration_decoding(bytes, order)
    }

    fn deserialize<R: DataInput>(&mut self, input: &mut R) -> (r: Result<(), Error>) {
        match Duration::read(input) {
            Ok(value) => {
                *self = value;
                Ok(())
            },
            Err(e) => Err(e),
        }
    }
}

impl DeserializeCopy for Duration {
    open spec fn decoding(bytes: Seq<u8>, order: ByteOrder) -> Decoded<Duration> {
        duration_decoding(bytes, order)
    }

    proof fn lemma_decoding_fits(bytes: Seq<u8>, order: ByteOrder) {
    }

    fn deserialize_copy<R: DataInput>(input: &mut R) -> (r: Result<Self, Error>) {
        Duration::read(input)
    }
}

impl Codec for Duration {
    open spec fn valid(value: Duration) -> bool {
        value.valid()
    }

    proof fn lemma_round_trip(value: Duration, order: ByteOrder, rest: Seq<u8>) {
        let first = <i64 as Serializeable>::encoding(value.seconds(), order)->Ok_0;
        let second = <u32 as Serializeable>::encoding(value.nanos(), order)->Ok_0;
        let all = first + second + rest;
        assert(all =~= first + (second + rest));
        <i64 as Codec>::lemma_round_trip(value.seconds(), order, second + rest);
        assert(all.skip(8) =~= second + rest);
        <u32 as Codec>::lemma_round_trip(value.nanos(), order, rest);
        value.lemma_parts(0, 0);
    }
}

impl Default for Duration {
    fn default() -> (d: Self)
        ensures
            d.total_nanos() == 0,
            d.valid(),
    {
        Duration::zero()
    }
}

} // verus!
