//! Values made of other values on the wire: optional values, boxed
//! values, runs and fixed-size arrays. Each is the encodings of its parts,
//! one after the other, with nothing between.

use crate::data::{
    then_encoding, wrote, ByteOrder, Codec, DataInput, DataOutput, Decoded, DeserializeCopy,
    Deserializeable, Error, Invalid, Serializeable,
};
use crate::sequence::{
    lemma_prefix_chain, lemma_prefix_of_sum, lemma_seq_decoding_fits, lemma_seq_round_trip,
    read_items, seq_decoding, seq_encoding, write_items,
};
use vstd::prelude::*;

verus! {

/// Writes `item` after what was written since `start`, unless that failed.
pub(crate) fn write_after<T: Serializeable, W: DataOutput>(
    done: Result<(), Error>,
    item: &T,
    output: &mut W,
    Ghost(start): Ghost<Seq<u8>>,
    Ghost(before): Ghost<Result<Seq<u8>, Invalid>>,
) -> (r: Result<(), Error>)
    requires
        wrote(done, start, old(output).written(), before),
    ensures
        final(output).order() == old(output).order(),
        wrote(
            r,
            start,
            final(output).written(),
            then_encoding(before, T::encoding(item.deep_view(), old(output).order())),
        ),
{
    match done {
        Ok(()) => {
            let ghost now = output.written();
            let r = item.serialize(output);
            proof {
                match T::encoding(item.deep_view(), old(output).order()) {
                    Ok(bytes) => {
                        assert(start + before->Ok_0 + bytes =~= start + (before->Ok_0 + bytes));
                    },
                    Err(reason) => {
                        lemma_prefix_of_sum(start, before->Ok_0);
                        lemma_prefix_chain(start, now, output.written());
                    },
                }
            }
            r
        },
        Err(e) => Err(e),
    }
}

impl<T: Serializeable> Serializeable for Option<T> {
    /// A value that is there is written as it is, and one that is not there
    /// takes no bytes.
    open spec fn encoding(value: Option<T::V>, order: ByteOrder) -> Result<Seq<u8>, Invalid> {
        match value {
            Some(v) => T::encoding(v, order),
            None => Ok(Seq::empty()),
        }
    }

    fn serialize<W: DataOutput>(&self, output: &mut W) -> (r: Result<(), Error>) {
        match self {
            Some(v) => v.serialize(output),
            None => {
                assert(output.written() + Seq::<u8>::empty() =~= output.written());
                Ok(())
            },
        }
    }
}

impl<T: Deserializeable> Deserializeable for Option<T> {
    /// A value is read where the destination holds one, and nothing is read
    /// where it holds none.
    open spec fn decoding_into(current: Option<T::V>, bytes: Seq<u8>, order: ByteOrder) -> Decoded<
        Option<T::V>,
    > {
        match current {
            Some(v) => T::decoding_into(v, bytes, order).map(|read: T::V| Some(read)),
            None => Decoded::Value(None, 0),
        }
    }

    fn deserialize<R: DataInput>(&mut self, input: &mut R) -> (r: Result<(), Error>) {
        match self {
            Some(v) => v.deserialize(input),
            None => {
                assert(input.remaining().skip(0) =~= input.remaining());
                Ok(())
            },
        }
    }
}

impl<T: Serializeable> Serializeable for Box<T> {
    open spec fn encoding(value: T::V, order: ByteOrder) -> Result<Seq<u8>, Invalid> {
        T::encoding(value, order)
    }

    fn serialize<W: DataOutput>(&self, output: &mut W) -> (r: Result<(), Error>) {
        (**self).serialize(output)
    }
}

impl<T: DeserializeCopy> Deserializeable for Box<T> {
    open spec fn decoding_into(current: T::V, bytes: Seq<u8>, order: ByteOrder) -> Decoded<T::V> {
        T::decoding(bytes, order)
    }

    fn deserialize<R: DataInput>(&mut self, input: &mut R) -> (r: Result<(), Error>) {
        match T::deserialize_copy(input) {
            Ok(v) => {
                *self = Box::new(v);
                Ok(())
            },
            Err(e) => Err(e),
        }
    }
}

impl<T: DeserializeCopy> DeserializeCopy for Box<T> {
    open spec fn decoding(bytes: Seq<u8>, order: ByteOrder) -> Decoded<T::V> {
        T::decoding(bytes, order)
    }

    proof fn lemma_decoding_fits(bytes: Seq<u8>, order: ByteOrder) {
        T::lemma_decoding_fits(bytes, order);
    }

    fn deserialize_copy<R: DataInput>(input: &mut R) -> (r: Result<Self, Error>) {
        match T::deserialize_copy(input) {
            Ok(v) => Ok(Box::new(v)),
            Err(e) => Err(e),
        }
    }
}

impl<T: Codec> Codec for Box<T> {
    open spec fn valid(value: T::V) -> bool {
        T::valid(value)
    }

    proof fn lemma_round_trip(value: T::V, order: ByteOrder, rest: Seq<u8>) {
        T::lemma_round_trip(value, order, rest);
    }
}

impl<T: Serializeable> Serializeable for Vec<T> {
    /// The items one after the other, without their number.
    open spec fn encoding(value: Seq<T::V>, order: ByteOrder) -> Result<Seq<u8>, Invalid> {
        seq_encoding::<T>(value, order)
    }

    fn serialize<W: DataOutput>(&self, output: &mut W) -> (r: Result<(), Error>) {
        write_items(self, output)
    }
}

impl<T: DeserializeCopy> Deserializeable for Vec<T> {
    /// As many items are read as the destination holds.
    open spec fn decoding_into(current: Seq<T::V>, bytes: Seq<u8>, order: ByteOrder) -> Decoded<
        Seq<T::V>,
    > {
        seq_decoding::<T>(current.len(), bytes, order)
    }

    fn deserialize<R: DataInput>(&mut self, input: &mut R) -> (r: Result<(), Error>) {
        proof {
            lemma_seq_decoding_fits::<T>(self@.len(), input.remaining(), input.order());
        }
        match read_items::<T, R>(input, self.len()) {
            Ok(items) => {
                *self = items;
                Ok(())
            },
            Err(e) => Err(e),
        }
    }
}

/// `TryFrom<Vec<T>>` for arrays: the array that holds the items of a run
/// of as many items as the array has.
#[verifier::external_body]
fn vec_into_array<T, const N: usize>(items: Vec<T>) -> (array: [T; N])
    requires
        items@.len() == N,
    ensures
        array@ == items@,
{
    <[T; N]>::try_from(items).ok().unwrap()
}

/// The items of an array, one after the other.
pub fn write_array<T: Serializeable, W: DataOutput, const N: usize>(
    items: &[T; N],
    output: &mut W,
) -> (r: Result<(), Error>)
    ensures
        final(output).order() == old(output).order(),
        wrote(
            r,
            old(output).written(),
            final(output).written(),
            seq_encoding::<T>(items.deep_view(), old(output).order()),
        ),
{
    let mut i: usize = 0;
    let ghost order = output.order();
    let ghost all = items.deep_view();
    assert(all.take(0) =~= Seq::<T::V>::empty());
    assert(output.written() + Seq::<u8>::empty() =~= output.written());
    while i < N
        invariant
            i <= N,
            all == items.deep_view(),
            all.len() == N,
            output.order() == order,
            order == old(output).order(),
            seq_encoding::<T>(all.take(i as int), order) is Ok,
            output.written() == old(output).written() + seq_encoding::<T>(
                all.take(i as int),
                order,
            )->Ok_0,
        decreases N - i,
    {
        let ghost before = output.written();
        let ghost front = all.take(i as int);
        let ghost next = all.take(i + 1);
        proof {
            assert(next.drop_last() =~= front);
            assert(next.last() == items@[i as int].deep_view());
        }
        match items[i].serialize(output) {
            Ok(()) => {
                proof {
                    let done = seq_encoding::<T>(front, order)->Ok_0;
                    let back = T::encoding(next.last(), order)->Ok_0;
                    assert(old(output).written() + done + back =~= old(output).written() + (done
                        + back));
                }
            },
            Err(e) => {
                proof {
                    crate::sequence::lemma_seq_encoding_stops::<T>(all, (i + 1) as nat, order);
                    lemma_prefix_of_sum(old(output).written(), seq_encoding::<T>(front,
                        order)->Ok_0);
                    lemma_prefix_chain(old(output).written(), before, output.written());
                }
                return Err(e);
            },
        }
        i = i + 1;
    }
    assert(all.take(N as int) =~= all);
    Ok(())
}

impl<T: Serializeable, const N: usize> Serializeable for [T; N] {
    /// The items one after the other, without their number.
    open spec fn encoding(value: Seq<T::V>, order: ByteOrder) -> Result<Seq<u8>, Invalid> {
        seq_encoding::<T>(value, order)
    }

    fn serialize<W: DataOutput>(&self, output: &mut W) -> (r: Result<(), Error>) {
        write_array(self, output)
    }
}

impl<T: DeserializeCopy, const N: usize> Deserializeable for [T; N] {
    open spec fn decoding_into(current: Seq<T::V>, bytes: Seq<u8>, order: ByteOrder) -> Decoded<
        Seq<T::V>,
    > {
        seq_decoding::<T>(N as nat, bytes, order)
    }

    fn deserialize<R: DataInput>(&mut self, input: &mut R) -> (r: Result<(), Error>) {
        proof {
            lemma_seq_decoding_fits::<T>(N as nat, input.remaining(), input.order());
        }
        match read_items::<T, R>(input, N) {
            Ok(items) => {
                let ghost read = items.deep_view();
                let array: [T; N] = vec_into_array(items);
                assert(array.deep_view() =~= read);
                *self = array;
                Ok(())
            },
            Err(e) => Err(e),
        }
    }
}

impl<T: DeserializeCopy, const N: usize> DeserializeCopy for [T; N] {
    open spec fn decoding(bytes: Seq<u8>, order: ByteOrder) -> Decoded<Seq<T::V>> {
        seq_decoding::<T>(N as nat, bytes, order)
    }

    proof fn lemma_decoding_fits(bytes: Seq<u8>, order: ByteOrder) {
        lemma_seq_decoding_fits::<T>(N as nat, bytes, order);
    }

    fn deserialize_copy<R: DataInput>(input: &mut R) -> (r: Result<Self, Error>) {
        proof {
            lemma_seq_decoding_fits::<T>(N as nat, input.remaining(), input.order());
        }
        match read_items::<T, R>(input, N) {
            Ok(items) => {
                let ghost read = items.deep_view();
                let array: [T; N] = vec_into_array(items);
                assert(array.deep_view() =~= read);
                Ok(array)
            },
            Err(e) => Err(e),
        }
    }
}

impl<T: Codec, const N: usize> Codec for [T; N] {
    /// An array has as many items as its type says, and each is valid.
    open spec fn valid(value: Seq<T::V>) -> bool {
        value.len() == N && forall|i: int| 0 <= i < value.len() ==> T::valid(#[trigger] value[i])
    }

    proof fn lemma_round_trip(value: Seq<T::V>, order: ByteOrder, rest: Seq<u8>) {
        lemma_seq_round_trip::<T>(value, order, rest);
    }
}

impl Serializeable for () {
    open spec fn encoding(value: (), order: ByteOrder) -> Result<Seq<u8>, Invalid> {
        Ok(Seq::empty())
    }

    fn serialize<W: DataOutput>(&self, output: &mut W) -> (r: Result<(), Error>) {
        assert(output.written() + Seq::<u8>::empty() =~= output.written());
        Ok(())
    }
}

impl Deserializeable for () {
    open spec fn decoding_into(current: (), bytes: Seq<u8>, order: ByteOrder) -> Decoded<()> {
        Decoded::Value((), 0)
    }

    fn deserialize<R: DataInput>(&mut self, input: &mut R) -> (r: Result<(), Error>) {
        assert(input.remaining().skip(0) =~= input.remaining());
        Ok(())
    }
}

impl DeserializeCopy for () {
    open spec fn decoding(bytes: Seq<u8>, order: ByteOrder) -> Decoded<()> {
        Decoded::Value((), 0)
    }

    proof fn lemma_decoding_fits(bytes: Seq<u8>, order: ByteOrder) {
    }

    fn deserialize_copy<R: DataInput>(input: &mut R) -> (r: Result<Self, Error>) {
        assert(input.remaining().skip(0) =~= input.remaining());
        Ok(())
    }
}

impl Codec for () {
    open spec fn valid(value: ()) -> bool {
        true
    }

    proof fn lemma_round_trip(value: (), order: ByteOrder, rest: Seq<u8>) {
        assert(Seq::<u8>::empty() + rest =~= rest);
    }
}

} // verus!
