//! Runs of values on the wire, one value after the other with nothing between.

use crate::data::{
    prepend, ByteOrder, Codec, DataInput, DataOutput, Decoded, DeserializeCopy, Error, Invalid,
    Serializeable,
};
use crate::endian::{lemma_spans, lemma_twos_complement_round_trip, lemma_unsigned_round_trip};
use crate::primitive::i32_decoding;
use vstd::prelude::*;

verus! {

/// The encodings of `items`, one after the other, or the reason why the
/// first item without an encoding has none.
pub open spec fn seq_encoding<T: Serializeable>(items: Seq<T::V>, order: ByteOrder) -> Result<
    Seq<u8>,
    Invalid,
>
    decreases items.len(),
{
    if items.len() == 0 {
        Ok(Seq::empty())
    } else {
        match seq_encoding::<T>(items.drop_last(), order) {
            Err(reason) => Err(reason),
            Ok(front) => match T::encoding(items.last(), order) {
                Err(reason) => Err(reason),
                Ok(back) => Ok(front + back),
            },
        }
    }
}

/// What reading `count` values, one after the other, makes of `bytes`.
pub open spec fn seq_decoding<T: DeserializeCopy>(
    count: nat,
    bytes: Seq<u8>,
    order: ByteOrder,
) -> Decoded<Seq<T::V>>
    decreases count,
{
    if count == 0 {
        Decoded::Value(Seq::empty(), 0)
    } else {
        match T::decoding(bytes, order) {
            Decoded::Failed(e) => Decoded::Failed(e),
            Decoded::Value(first, used) => prepend(
                seq![first],
                used,
                seq_decoding::<T>((count - 1) as nat, bytes.skip(used as int), order),
            ),
        }
    }
}

/// A run of values takes no more bytes than there are.
pub proof fn lemma_seq_decoding_fits<T: DeserializeCopy>(
    count: nat,
    bytes: Seq<u8>,
    order: ByteOrder,
)
    ensures
        seq_decoding::<T>(count, bytes, order) matches Decoded::Value(items, used) ==> used
            <= bytes.len() && items.len() == count,
    decreases count,
{
    if count > 0 {
        T::lemma_decoding_fits(bytes, order);
        match T::decoding(bytes, order) {
            Decoded::Failed(e) => {},
            Decoded::Value(first, used) => {
                lemma_seq_decoding_fits::<T>((count - 1) as nat, bytes.skip(used as int), order);
            },
        }
    }
}

/// The encoding of a run that starts with `first` is the encoding of
/// `first`, then that of the others.
pub proof fn lemma_seq_encoding_first<T: Serializeable>(items: Seq<T::V>, order: ByteOrder)
    requires
        items.len() > 0,
    ensures
        seq_encoding::<T>(items, order) == match T::encoding(items[0], order) {
            Err(reason) => Err(reason),
            Ok(first) => match seq_encoding::<T>(items.drop_first(), order) {
                Err(reason) => Err(reason),
                Ok(others) => Ok(first + others),
            },
        },
    decreases items.len(),
{
    if items.len() == 1 {
        assert(items.drop_last() =~= Seq::<T::V>::empty());
        assert(items.drop_first() =~= Seq::<T::V>::empty());
        match T::encoding(items[0], order) {
            Err(reason) => {},
            Ok(first) => {
                assert(Seq::<u8>::empty() + first =~= first + Seq::<u8>::empty());
            },
        }
    } else {
        lemma_seq_encoding_first::<T>(items.drop_last(), order);
        assert(items.drop_last().drop_first() =~= items.drop_first().drop_last());
        assert(items.drop_last()[0] == items[0]);
        assert(items.drop_first().last() == items.last());
        match T::encoding(items[0], order) {
            Err(reason) => {},
            Ok(first) => {
                match seq_encoding::<T>(items.drop_first().drop_last(), order) {
                    Err(reason) => {},
                    Ok(middle) => {
                        match T::encoding(items.last(), order) {
                            Err(reason) => {},
                            Ok(back) => {
                                assert((first + middle) + back =~= first + (middle + back));
                            },
                        }
                    },
                }
            },
        }
    }
}

/// A run of valid values is read back from its encoding.
pub proof fn lemma_seq_round_trip<T: Codec>(items: Seq<T::V>, order: ByteOrder, rest: Seq<u8>)
    requires
        forall|i: int| 0 <= i < items.len() ==> T::valid(#[trigger] items[i]),
        seq_encoding::<T>(items, order) is Ok,
    ensures
        seq_decoding::<T>(items.len(), seq_encoding::<T>(items, order)->Ok_0 + rest, order)
            == Decoded::Value(items, seq_encoding::<T>(items, order)->Ok_0.len()),
    decreases items.len(),
{
    if items.len() > 0 {
        lemma_seq_encoding_first::<T>(items, order);
        let first = T::encoding(items[0], order)->Ok_0;
        let others = seq_encoding::<T>(items.drop_first(), order)->Ok_0;
        let all = first + others + rest;
        assert(all =~= first + (others + rest));
        T::lemma_round_trip(items[0], order, others + rest);
        assert(all.skip(first.len() as int) =~= others + rest);
        assert forall|i: int| 0 <= i < items.drop_first().len() implies T::valid(
            #[trigger] items.drop_first()[i],
        ) by {
            assert(items.drop_first()[i] == items[i + 1]);
        }
        lemma_seq_round_trip::<T>(items.drop_first(), order, rest);
        assert(seq![items[0]] + items.drop_first() =~= items);
        assert(T::decoding(all, order) == Decoded::Value(items[0], first.len()));
        assert(seq_decoding::<T>((items.len() - 1) as nat, others + rest, order)
            == Decoded::Value(items.drop_first(), others.len()));
    } else {
        assert(items =~= Seq::<T::V>::empty());
    }
}

/// Writes the items one after the other.
pub fn write_items<T: Serializeable, W: DataOutput>(items: &Vec<T>, output: &mut W) -> (r: Result<
    (),
    Error,
>)
    ensures
        final(output).order() == old(output).order(),
        match seq_encoding::<T>(items.deep_view(), old(output).order()) {
            Ok(bytes) => r is Ok && final(output).written() == old(output).written() + bytes,
            Err(reason) => r == Err::<(), Error>(Error::ValidationError(reason))
                && old(output).written().is_prefix_of(final(output).written()),
        },
{
    let n = items.len();
    let mut i: usize = 0;
    let ghost order = output.order();
    let ghost all = items.deep_view();
    assert(all.take(0) =~= Seq::<T::V>::empty());
    assert(output.written() + Seq::<u8>::empty() =~= output.written());
    while i < n
        invariant
            i <= n,
            n == items@.len(),
            all == items.deep_view(),
            all.len() == n,
            output.order() == order,
            order == old(output).order(),
            seq_encoding::<T>(all.take(i as int), order) is Ok,
            output.written() == old(output).written() + seq_encoding::<T>(
                all.take(i as int),
                order,
            )->Ok_0,
        decreases n - i,
    {
        let ghost before = output.written();
        let ghost front = all.take(i as int);
        let ghost next = all.take(i + 1);
        proof {
            assert(next.drop_last() =~= front);
            assert(next.last() == items@[i as int].deep_view());
        }
        match items[i].serialize(output) {
            Ok(()) => {
                proof {
                    let done = seq_encoding::<T>(front, order)->Ok_0;
                    let back = T::encoding(next.last(), order)->Ok_0;
                    assert(old(output).written() + done + back =~= old(output).written() + (done
                        + back));
                }
            },
            Err(e) => {
                proof {
                    lemma_seq_encoding_stops::<T>(all, (i + 1) as nat, order);
                    let done = seq_encoding::<T>(front, order)->Ok_0;
                    assert(old(output).written().is_prefix_of(before)) by {
                        assert(before.take(old(output).written().len() as int)
                            =~= old(output).written());
                    }
                    lemma_prefix_chain(old(output).written(), before, output.written());
                }
                return Err(e);
            },
        }
        i = i + 1;
    }
    assert(all.take(n as int) =~= all);
    Ok(())
}

/// Where the encoding of a front part of a run fails, that of the run fails
/// for the same reason.
pub proof fn lemma_seq_encoding_stops<T: Serializeable>(
    items: Seq<T::V>,
    front: nat,
    order: ByteOrder,
)
    requires
        front <= items.len(),
        seq_encoding::<T>(items.take(front as int), order) is Err,
    ensures
        seq_encoding::<T>(items, order) == seq_encoding::<T>(items.take(front as int), order),
    decreases items.len() - front,
{
    if front < items.len() {
        assert(items.take(front as int + 1).drop_last() =~= items.take(front as int));
        lemma_seq_encoding_stops::<T>(items, front + 1, order);
    } else {
        assert(items.take(front as int) =~= items);
    }
}

/// What was written stays a prefix when more is written.
pub proof fn lemma_prefix_of_sum(a: Seq<u8>, b: Seq<u8>)
    ensures
        a.is_prefix_of(a + b),
{
    assert((a + b).take(a.len() as int) =~= a);
}

/// A prefix of a prefix is a prefix.
pub proof fn lemma_prefix_chain(a: Seq<u8>, b: Seq<u8>, c: Seq<u8>)
    requires
        a.is_prefix_of(b),
        b.is_prefix_of(c),
    ensures
        a.is_prefix_of(c),
{
}

/// Reads `count` values, one after the other.
pub fn read_items<T: DeserializeCopy, R: DataInput>(input: &mut R, count: usize) -> (r: Result<
    Vec<T>,
    Error,
>)
    ensures
        final(input).order() == old(input).order(),
        match seq_decoding::<T>(count as nat, old(input).remaining(), old(input).order()) {
            Decoded::Value(items, used) => r is Ok && r->Ok_0.deep_view() == items
                && final(input).remaining() == old(input).remaining().skip(used as int),
            Decoded::Failed(e) => r is Err && r->Err_0 == e,
        },
{
    let mut items: Vec<T> = Vec::new();
    let mut i: usize = 0;
    let ghost order = input.order();
    let ghost start = input.remaining();
    let ghost mut used: nat = 0;
    assert(start.skip(0) =~= start);
    assert(items.deep_view() =~= Seq::<T::V>::empty());
    proof {
        lemma_prepend_nothing(seq_decoding::<T>(count as nat, start, order));
    }
    while i < count
        invariant
            i <= count,
            items@.len() == i,
            input.order() == order,
            order == old(input).order(),
            start == old(input).remaining(),
            used <= start.len(),
            input.remaining() == start.skip(used as int),
            seq_decoding::<T>(count as nat, start, order) == prepend(
                items.deep_view(),
                used,
                seq_decoding::<T>((count - i) as nat, input.remaining(), order),
            ),
        decreases count - i,
    {
        let ghost now = input.remaining();
        let ghost front = items.deep_view();
        proof {
            T::lemma_decoding_fits(now, order);
        }
        match T::deserialize_copy(input) {
            Ok(item) => {
                let ghost taken = T::decoding(now, order)->Value_1;
                let ghost value = T::decoding(now, order)->Value_0;
                items.push(item);
                proof {
                    assert(items.deep_view() =~= front.push(value));
                    assert(start.skip(used as int).skip(taken as int) =~= start.skip(
                        (used + taken) as int,
                    ));
                    let next = seq_decoding::<T>((count - i - 1) as nat, now.skip(taken as int),
                        order);
                    match next {
                        Decoded::Failed(e) => {},
                        Decoded::Value(rest, more) => {
                            assert(front + (seq![value] + rest) =~= front.push(value) + rest);
                        },
                    }
                    used = used + taken;
                }
            },
            Err(e) => {
                return Err(e);
            },
        }
        i = i + 1;
    }
    proof {
        assert(items.deep_view() + Seq::<T::V>::empty() =~= items.deep_view());
    }
    Ok(items)
}

/// Nothing decoded before an outcome leaves the outcome as it is.
pub proof fn lemma_prepend_nothing<A>(next: Decoded<Seq<A>>)
    ensures
        prepend(Seq::<A>::empty(), 0, next) == next,
{
    match next {
        Decoded::Failed(e) => {},
        Decoded::Value(rest, more) => {
            assert(Seq::<A>::empty() + rest =~= rest);
        },
    }
}

/// The largest count that the format can hold.
pub const MAX_COUNT: usize = 0x7FFF_FFFF;

/// The four bytes of a count, written as a signed 32-bit number, or the
/// reason why the count cannot be written.
pub open spec fn count_encoding(count: nat, order: ByteOrder) -> Result<Seq<u8>, Invalid> {
    if count > MAX_COUNT {
        Err(Invalid::OutOfRange(count as i128))
    } else {
        <i32 as Serializeable>::encoding(count as i32, order)
    }
}

/// What reading a count makes of `bytes`: a signed 32-bit number, refused
/// where it is negative.
pub open spec fn count_decoding(bytes: Seq<u8>, order: ByteOrder) -> Decoded<nat> {
    match i32_decoding(bytes, order) {
        Decoded::Failed(e) => Decoded::Failed(e),
        Decoded::Value(count, used) => if count < 0 {
            Decoded::Failed(Error::ValidationError(Invalid::OutOfRange(count as i128)))
        } else {
            Decoded::Value(count as nat, used)
        },
    }
}

/// A count takes four bytes.
pub proof fn lemma_count_decoding_fits(bytes: Seq<u8>, order: ByteOrder)
    ensures
        count_decoding(bytes, order) matches Decoded::Value(count, used) ==> used == 4 && 4
            <= bytes.len() && count <= MAX_COUNT,
{
}

/// A count that can be written is read back from its four bytes.
pub proof fn lemma_count_round_trip(count: nat, order: ByteOrder, rest: Seq<u8>)
    requires
        count <= MAX_COUNT,
    ensures
        count_encoding(count, order) is Ok,
        count_encoding(count, order)->Ok_0.len() == 4,
        count_decoding(count_encoding(count, order)->Ok_0 + rest, order) == Decoded::Value(
            count,
            4,
        ),
{
    <i32 as Codec>::lemma_round_trip(count as i32, order, rest);
    lemma_spans();
    lemma_twos_complement_round_trip(count as int, 4);
    lemma_unsigned_round_trip(count, 4, order);
}

/// Writes a count.
pub fn write_count<W: DataOutput>(count: usize, output: &mut W) -> (r: Result<(), Error>)
    ensures
        final(output).order() == old(output).order(),
        match count_encoding(count as nat, old(output).order()) {
            Ok(bytes) => r is Ok && final(output).written() == old(output).written() + bytes,
            Err(reason) => r == Err::<(), Error>(Error::ValidationError(reason))
                && final(output).written() == old(output).written(),
        },
{
    if count > MAX_COUNT {
        Err(Error::validation_error(Invalid::OutOfRange(count as i128)))
    } else {
        (count as i32).serialize(output)
    }
}

/// Reads a count. A negative count is refused after its four bytes were
/// read.
pub fn read_count<R: DataInput>(input: &mut R) -> (r: Result<usize, Error>)
    ensures
        final(input).order() == old(input).order(),
        match count_decoding(old(input).remaining(), old(input).order()) {
            Decoded::Value(count, used) => r is Ok && r->Ok_0 == count
                && final(input).remaining() == old(input).remaining().skip(used as int),
            Decoded::Failed(e) => r is Err && r->Err_0 == e,
        },
        count_decoding(old(input).remaining(), old(input).order()) matches Decoded::Failed(
            Error::ValidationError(_),
        ) ==> final(input).remaining() == old(input).remaining().skip(4),
{
    match i32::deserialize_copy(input) {
        Ok(count) => {
            if count < 0 {
                Err(Error::validation_error(Invalid::OutOfRange(count as i128)))
            } else {
                Ok(count as usize)
            }
        },
        Err(e) => Err(e),
    }
}

/// The encoding of a counted run: the count, then the items.
pub open spec fn counted_encoding<T: Serializeable>(items: Seq<T::V>, order: ByteOrder) -> Result<
    Seq<u8>,
    Invalid,
> {
    match count_encoding(items.len(), order) {
        Err(reason) => Err(reason),
        Ok(head) => match seq_encoding::<T>(items, order) {
            Err(reason) => Err(reason),
            Ok(body) => Ok(head + body),
        },
    }
}

/// What reading a counted run makes of `bytes`.
pub open spec fn counted_decoding<T: DeserializeCopy>(bytes: Seq<u8>, order: ByteOrder) -> Decoded<
    Seq<T::V>,
> {
    match count_decoding(bytes, order) {
        Decoded::Failed(e) => Decoded::Failed(e),
        Decoded::Value(count, used) => prepend(
            Seq::empty(),
            used,
            seq_decoding::<T>(count, bytes.skip(used as int), order),
        ),
    }
}

/// A counted run takes no more bytes than there are.
pub proof fn lemma_counted_decoding_fits<T: DeserializeCopy>(bytes: Seq<u8>, order: ByteOrder)
    ensures
        counted_decoding::<T>(bytes, order) matches Decoded::Value(_, used) ==> used
            <= bytes.len(),
{
    lemma_count_decoding_fits(bytes, order);
    match count_decoding(bytes, order) {
        Decoded::Failed(e) => {},
        Decoded::Value(count, used) => {
            lemma_seq_decoding_fits::<T>(count, bytes.skip(used as int), order);
        },
    }
}

/// A counted run of valid values is read back from its encoding.
pub proof fn lemma_counted_round_trip<T: Codec>(items: Seq<T::V>, order: ByteOrder, rest: Seq<u8>)
    requires
        forall|i: int| 0 <= i < items.len() ==> T::valid(#[trigger] items[i]),
        counted_encoding::<T>(items, order) is Ok,
    ensures
        counted_decoding::<T>(counted_encoding::<T>(items, order)->Ok_0 + rest, order)
            == Decoded::Value(items, counted_encoding::<T>(items, order)->Ok_0.len()),
{
    let head = count_encoding(items.len(), order)->Ok_0;
    let body = seq_encoding::<T>(items, order)->Ok_0;
    let all = head + body + rest;
    assert(all =~= head + (body + rest));
    lemma_count_round_trip(items.len(), order, body + rest);
    assert(all.skip(4) =~= body + rest);
    lemma_seq_round_trip::<T>(items, order, rest);
    assert(Seq::<T::V>::empty() + items =~= items);
}

/// Writes the number of items, then the items.
pub fn write_counted<T: Serializeable, W: DataOutput>(items: &Vec<T>, output: &mut W) -> (r:
    Result<(), Error>)
    ensures
        final(output).order() == old(output).order(),
        match counted_encoding::<T>(items.deep_view(), old(output).order()) {
            Ok(bytes) => r is Ok && final(output).written() == old(output).written() + bytes,
            Err(reason) => r == Err::<(), Error>(Error::ValidationError(reason))
                && old(output).written().is_prefix_of(final(output).written()),
        },
{
    match write_count(items.len(), output) {
        Ok(()) => {},
        Err(e) => {
            return Err(e);
        },
    }
    let ghost head = count_encoding(items@.len(), old(output).order())->Ok_0;
    let r = write_items(items, output);
    proof {
        match seq_encoding::<T>(items.deep_view(), old(output).order()) {
            Ok(body) => {
                assert(old(output).written() + head + body =~= old(output).written() + (head
                    + body));
            },
            Err(reason) => {
                assert(old(output).written().is_prefix_of(old(output).written() + head)) by {
                    assert((old(output).written() + head).take(
                        old(output).written().len() as int,
                    ) =~= old(output).written());
                }
                lemma_prefix_chain(
                    old(output).written(),
                    old(output).written() + head,
                    output.written(),
                );
            },
        }
    }
    r
}

/// Reads a count, then as many items.
pub fn read_counted<T: DeserializeCopy, R: DataInput>(input: &mut R) -> (r: Result<Vec<T>, Error>)
    ensures
        final(input).order() == old(input).order(),
        match counted_decoding::<T>(old(input).remaining(), old(input).order()) {
            Decoded::Value(items, used) => r is Ok && r->Ok_0.deep_view() == items
                && final(input).remaining() == old(input).remaining().skip(used as int),
            Decoded::Failed(e) => r is Err && r->Err_0 == e,
        },
{
    proof {
        lemma_count_decoding_fits(old(input).remaining(), old(input).order());
    }
    let count = match read_count(input) {
        Ok(count) => count,
        Err(e) => {
            return Err(e);
        },
    };
    proof {
        lemma_seq_decoding_fits::<T>(count as nat, input.remaining(), input.order());
    }
    match read_items::<T, R>(input, count) {
        Ok(items) => {
            proof {
                let more = seq_decoding::<T>(
                    count as nat,
                    old(input).remaining().skip(4),
                    old(input).order(),
                )->Value_1;
                assert(old(input).remaining().skip(4).skip(more as int)
                    =~= old(input).remaining().skip(4 + more as int));
                assert(Seq::<T::V>::empty() + items.deep_view() =~= items.deep_view());
            }
            Ok(items)
        },
        Err(e) => Err(e),
    }
}

} // verus!
