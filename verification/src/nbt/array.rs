//! The arrays of the array tags: a run of values of one primitive type,
//! whose length is fixed when the array is made.
//!
//! On the wire an array is the number of its elements as a signed 32-bit
//! number, then the elements.

use crate::data::{
    ByteOrder, Codec, DataInput, DataOutput, Decoded, DeserializeCopy, Deserializeable, Error,
    Invalid, Serializeable,
};
use crate::sequence::{
    counted_decoding, counted_encoding, lemma_counted_decoding_fits, lemma_counted_round_trip,
    read_counted, write_counted,
};
use vstd::prelude::*;
use vstd::std_specs::convert::FromSpecImpl;

verus! {

/// A run of values of type `T` that owns its elements.
#[derive(Clone, Debug, PartialEq, Eq)]
pub struct NbtArray<T> {
    inner: Vec<T>,
}

impl<T> View for NbtArray<T> {
    type V = Seq<T>;

    closed spec fn view(&self) -> Seq<T> {
        self.inner@
    }
}

impl<T: DeepView> DeepView for NbtArray<T> {
    type V = Seq<T::V>;

    closed spec fn deep_view(&self) -> Seq<T::V> {
        self.inner.deep_view()
    }
}

impl<T> Default for NbtArray<T> {
    fn default() -> (array: Self)
        ensures
            array@ == Seq::<T>::empty(),
    {
        NbtArray { inner: Vec::new() }
    }
}

impl<T> From<Vec<T>> for NbtArray<T> {
    fn from(v: Vec<T>) -> (array: Self) {
        NbtArray { inner: v }
    }
}

impl<T> FromSpecImpl<Vec<T>> for NbtArray<T> {
    open spec fn obeys_from_spec() -> bool {
        true
    }

    closed spec fn from_spec(v: Vec<T>) -> Self {
        NbtArray { inner: v }
    }
}

impl<T> NbtArray<T> {
    /// The array that holds the elements of `v`, in their order.
    pub fn from_vec(v: Vec<T>) -> (array: Self)
        ensures
            array@ == v@,
    {
        NbtArray { inner: v }
    }

    /// The elements, in their order.
    pub fn into_vec(self) -> (v: Vec<T>)
        ensures
            v@ == self@,
    {
        self.inner
    }

    /// The number of elements.
    pub fn len(&self) -> (n: usize)
        ensures
            n == self@.len(),
    {
        self.inner.len()
    }

    /// The elements as a slice.
    pub fn as_slice(&self) -> (s: &[T])
        ensures
            s@ == self@,
    {
        self.inner.as_slice()
    }

    /// The element at `index`.
    pub fn get(&self, index: usize) -> (element: &T)
        requires
            index < self@.len(),
        ensures
            *element == self@[index as int],
    {
        &self.inner[index]
    }

    /// Puts `value` in the place of the element at `index`.
    pub fn set(&mut self, index: usize, value: T)
        requires
            index < old(self)@.len(),
        ensures
            final(self)@ == old(self)@.update(index as int, value),
    {
        self.inner[index] = value;
    }

    /// An iterator that moves the elements out, the first one first.
    pub fn into_iter(self) -> (iter: IntoIter<T>)
        ensures
            iter.remaining() == self@,
            iter.position() == 0,
    {
        let mut source = self.inner;
        let mut rest: Vec<T> = Vec::new();
        let ghost all = source@;
        while source.len() > 0
            invariant
                source@.len() + rest@.len() == all.len(),
                source@ == all.take(source@.len() as int),
                forall|k: int| 0 <= k < rest@.len() ==> rest@[k] == all[all.len() - 1 - k],
            decreases source@.len(),
        {
            match source.pop() {
                Some(value) => {
                    rest.push(value);
                },
                None => {},
            }
        }
        assert(rest@.reverse() =~= all);
        let total = rest.len();
        IntoIter { rest, total }
    }
}

impl<T: DeepView> NbtArray<T> {
    /// The deep view of an array is made of the deep views of its elements.
    pub proof fn lemma_deep_view(&self)
        ensures
            self.deep_view().len() == self@.len(),
            forall|i: int|
                0 <= i < self@.len() ==> #[trigger] self.deep_view()[i] == self@[i].deep_view(),
    {
    }
}

impl<T: Copy> NbtArray<T> {
    /// An array with the same elements.
    pub fn duplicate(&self) -> (copy: Self)
        ensures
            copy@ == self@,
    {
        let n = self.inner.len();
        let mut inner: Vec<T> = Vec::with_capacity(n);
        let mut i: usize = 0;
        while i < n
            invariant
                i <= n,
                n == self.inner@.len(),
                inner@ == self.inner@.take(i as int),
            decreases n - i,
        {
            inner.push(self.inner[i]);
            assert(inner@ =~= self.inner@.take(i + 1));
            i = i + 1;
        }
        assert(inner@ =~= self.inner@);
        NbtArray { inner }
    }
}

/// An iterator that owns the elements of an array and hands them out once
/// each, the first one first. Elements that are not handed out are released
/// with the iterator.
pub struct IntoIter<T> {
    rest: Vec<T>,
    total: usize,
}

impl<T> IntoIter<T> {
    /// The elements that were not handed out yet, the next one first.
    pub closed spec fn remaining(&self) -> Seq<T> {
        self.rest@.reverse()
    }

    /// The number of elements that were handed out.
    pub closed spec fn position(&self) -> int {
        self.total - self.rest@.len()
    }

    /// Hands out the next element, or `None` when all were handed out.
    pub fn next(&mut self) -> (r: Option<T>)
        ensures
            match r {
                Some(element) => old(self).remaining().len() > 0
                    && element == old(self).remaining()[0]
                    && final(self).remaining() == old(self).remaining().drop_first()
                    && final(self).position() == old(self).position() + 1,
                None => old(self).remaining().len() == 0
                    && final(self).remaining() == old(self).remaining()
                    && final(self).position() == old(self).position(),
            },
    {
        match self.rest.pop() {
            Some(element) => {
                assert(self.rest@.reverse() =~= old(self).rest@.reverse().drop_first());
                Some(element)
            },
            None => None,
        }
    }

    /// The number of elements that are left to hand out.
    pub fn len(&self) -> (n: usize)
        ensures
            n == self.remaining().len(),
    {
        self.rest.len()
    }
}

impl<T: Serializeable> Serializeable for NbtArray<T> {
    open spec fn encoding(value: Seq<T::V>, order: ByteOrder) -> Result<Seq<u8>, Invalid> {
        counted_encoding::<T>(value, order)
    }

    fn serialize<W: DataOutput>(&self, output: &mut W) -> (r: Result<(), Error>) {
        write_counted(&self.inner, output)
    }
}

impl<T: DeserializeCopy> Deserializeable for NbtArray<T> {
    open spec fn decoding_into(current: Seq<T::V>, bytes: Seq<u8>, order: ByteOrder) -> Decoded<
        Seq<T::V>,
    > {
        counted_decoding::<T>(bytes, order)
    }

    /// The array keeps its elements where reading fails.
    fn deserialize<R: DataInput>(&mut self, input: &mut R) -> (r: Result<(), Error>)
        ensures
            r is Err ==> final(self)@ == old(self)@,
    {
        proof {
            lemma_counted_decoding_fits::<T>(input.remaining(), input.order());
        }
        match read_counted::<T, R>(input) {
            Ok(items) => {
                self.inner = items;
                Ok(())
            },
            Err(e) => Err(e),
        }
    }
}

impl<T: DeserializeCopy> DeserializeCopy for NbtArray<T> {
    open spec fn decoding(bytes: Seq<u8>, order: ByteOrder) -> Decoded<Seq<T::V>> {
        counted_decoding::<T>(bytes, order)
    }

    proof fn lemma_decoding_fits(bytes: Seq<u8>, order: ByteOrder) {
        lemma_counted_decoding_fits::<T>(bytes, order);
    }

    fn deserialize_copy<R: DataInput>(input: &mut R) -> (r: Result<Self, Error>) {
        proof {
            lemma_counted_decoding_fits::<T>(input.remaining(), input.order());
        }
        match read_counted::<T, R>(input) {
            Ok(items) => Ok(NbtArray { inner: items }),
            Err(e) => Err(e),
        }
    }
}

impl<T: Codec> Codec for NbtArray<T> {
    open spec fn valid(value: Seq<T::V>) -> bool {
        forall|i: int| 0 <= i < value.len() ==> T::valid(#[trigger] value[i])
    }

    proof fn lemma_round_trip(value: Seq<T::V>, order: ByteOrder, rest: Seq<u8>) {
        lemma_counted_round_trip::<T>(value, order, rest);
    }
}

} // verus!
