//! Tuples of up to twelve parts on the wire: the encodings of the parts,
//! one after the other, with nothing between.
//!
//! A tuple is described by the tuple of its parts but the last, and its last
//! part: it is written as the one and then the other, and read likewise.

use crate::compose::write_after;
use crate::data::{
    then_encoding, ByteOrder, Codec, DataInput, DataOutput, Decoded, DeserializeCopy,
    Deserializeable, Error, Invalid, Serializeable,
};
use vstd::prelude::*;

verus! {

impl<A: Serializeable> Serializeable for (A,) {
    open spec fn encoding(value: (A::V,), order: ByteOrder) -> Result<Seq<u8>, Invalid> {
        then_encoding(
            <() as Serializeable>::encoding((), order),
            A::encoding(value.0, order),
        )
    }

    fn serialize<W: DataOutput>(&self, output: &mut W) -> (r: Result<(), Error>) {
        let ghost start = output.written();
        let ghost order = output.order();
        let ghost mut done: Result<Seq<u8>, Invalid> = Ok(Seq::empty());
        assert(start + Seq::<u8>::empty() =~= start);
        let r: Result<(), Error> = Ok(());
        let r = write_after(r, &self.0, output, Ghost(start), Ghost(done));
        proof {
            done = then_encoding(done, A::encoding(self.0.deep_view(), order));
        }
        r
    }
}

impl<A: Deserializeable> Deserializeable for (A,) {
    open spec fn decoding_into(
        current: (A::V,),
        bytes: Seq<u8>,
        order: ByteOrder,
    ) -> Decoded<(A::V,)> {
        match <() as Deserializeable>::decoding_into(
            (),
            bytes,
            order,
        ) {
            Decoded::Failed(e) => Decoded::Failed(e),
            Decoded::Value(front, used) => match A::decoding_into(
                current.0,
                bytes.skip(used as int),
                order,
            ) {
                Decoded::Failed(e) => Decoded::Failed(e),
                Decoded::Value(last, more) => Decoded::Value(
                    (last,),
                    used + more,
                ),
            },
        }
    }

    fn deserialize<R: DataInput>(&mut self, input: &mut R) -> (r: Result<(), Error>) {
        let ghost bytes = input.remaining();
        let ghost order = input.order();
        let ghost mut used: nat = 0;
        assert(bytes.skip(0) =~= bytes);
        match self.0.deserialize(input) {
            Ok(()) => {},
            Err(e) => {
                return Err(e);
            },
        }
        proof {
            let more = A::decoding_into(
                old(self).0.deep_view(),
                bytes.skip(used as int),
                order,
            )->Value_1;
            assert(bytes.skip(used as int).skip(more as int) =~= bytes.skip((used + more) as int));
            used = used + more;
        }
        Ok(())
    }
}

impl<A: DeserializeCopy> DeserializeCopy for (A,) {
    open spec fn decoding(bytes: Seq<u8>, order: ByteOrder) -> Decoded<(A::V,)> {
        match <() as DeserializeCopy>::decoding(bytes, order) {
            Decoded::Failed(e) => Decoded::Failed(e),
            Decoded::Value(front, used) => match A::decoding(bytes.skip(used as int), order) {
                Decoded::Failed(e) => Decoded::Failed(e),
                Decoded::Value(last, more) => Decoded::Value(
                    (last,),
                    used + more,
                ),
            },
        }
    }

    proof fn lemma_decoding_fits(bytes: Seq<u8>, order: ByteOrder) {
        <() as DeserializeCopy>::lemma_decoding_fits(bytes, order);
        match <() as DeserializeCopy>::decoding(bytes, order) {
            Decoded::Failed(e) => {},
            Decoded::Value(front, used) => {
                A::lemma_decoding_fits(bytes.skip(used as int), order);
            },
        }
    }

    fn deserialize_copy<R: DataInput>(input: &mut R) -> (r: Result<Self, Error>) {
        let ghost bytes = input.remaining();
        let ghost order = input.order();
        let front = match <() as DeserializeCopy>::deserialize_copy(input) {
            Ok(front) => front,
            Err(e) => {
                return Err(e);
            },
        };
        let ghost used = <() as DeserializeCopy>::decoding(bytes, order)->Value_1;
        match A::deserialize_copy(input) {
            Ok(last) => {
                proof {
                    let more = A::decoding(bytes.skip(used as int), order)->Value_1;
                    assert(bytes.skip(used as int).skip(more as int) =~= bytes.skip(
                        (used + more) as int,
                    ));
                }
                Ok((last,))
            },
            Err(e) => Err(e),
        }
    }
}

impl<A: Codec> Codec for (A,) {
    open spec fn valid(value: (A::V,)) -> bool {
        <() as Codec>::valid(()) && A::valid(value.0)
    }

    proof fn lemma_round_trip(
        value: (A::V,),
        order: ByteOrder,
        rest: Seq<u8>,
    ) {
        let start = ();
        let front = <() as Serializeable>::encoding(start, order)->Ok_0;
        let back = A::encoding(value.0, order)->Ok_0;
        let all = front + back + rest;
        assert(all =~= front + (back + rest));
        <() as Codec>::lemma_round_trip(start, order, back + rest);
        assert(all.skip(front.len() as int) =~= back + rest);
        A::lemma_round_trip(value.0, order, rest);
    }
}

impl<A: Serializeable, B: Serializeable> Serializeable for (A, B) {
    open spec fn encoding(value: (A::V, B::V), order: ByteOrder) -> Result<Seq<u8>, Invalid> {
        then_encoding(
            <(A,) as Serializeable>::encoding((value.0,), order),
            B::encoding(value.1, order),
        )
    }

    fn serialize<W: DataOutput>(&self, output: &mut W) -> (r: Result<(), Error>) {
        let ghost start = output.written();
        let ghost order = output.order();
        let ghost mut done: Result<Seq<u8>, Invalid> = Ok(Seq::empty());
        assert(start + Seq::<u8>::empty() =~= start);
        let r: Result<(), Error> = Ok(());
        let r = write_after(r, &self.0, output, Ghost(start), Ghost(done));
        proof {
            done = then_encoding(done, A::encoding(self.0.deep_view(), order));
        }
        let r = write_after(r, &self.1, output, Ghost(start), Ghost(done));
        proof {
            done = then_encoding(done, B::encoding(self.1.deep_view(), order));
        }
        r
    }
}

impl<A: Deserializeable, B: Deserializeable> Deserializeable for (A, B) {
    open spec fn decoding_into(
        current: (A::V, B::V),
        bytes: Seq<u8>,
        order: ByteOrder,
    ) -> Decoded<(A::V, B::V)> {
        match <(A,) as Deserializeable>::decoding_into(
            (current.0,),
            bytes,
            order,
        ) {
            Decoded::Failed(e) => Decoded::Failed(e),
            Decoded::Value(front, used) => match B::decoding_into(
                current.1,
                bytes.skip(used as int),
                order,
            ) {
                Decoded::Failed(e) => Decoded::Failed(e),
                Decoded::Value(last, more) => Decoded::Value(
                    (front.0, last),
                    used + more,
                ),
            },
        }
    }

    fn deserialize<R: DataInput>(&mut self, input: &mut R) -> (r: Result<(), Error>) {
        let ghost bytes = input.remaining();
        let ghost order = input.order();
        let ghost mut used: nat = 0;
        assert(bytes.skip(0) =~= bytes);
        match self.0.deserialize(input) {
            Ok(()) => {},
            Err(e) => {
                return Err(e);
            },
        }
        proof {
            let more = A::decoding_into(
                old(self).0.deep_view(),
                bytes.skip(used as int),
                order,
            )->Value_1;
            assert(bytes.skip(used as int).skip(more as int) =~= bytes.skip((used + more) as int));
            used = used + more;
        }
        match self.1.deserialize(input) {
            Ok(()) => {},
            Err(e) => {
                return Err(e);
            },
        }
        proof {
            let more = B::decoding_into(
                old(self).1.deep_view(),
                bytes.skip(used as int),
                order,
            )->Value_1;
            assert(bytes.skip(used as int).skip(more as int) =~= bytes.skip((used + more) as int));
            used = used + more;
        }
        Ok(())
    }
}

impl<A: DeserializeCopy, B: DeserializeCopy> DeserializeCopy for (A, B) {
    open spec fn decoding(bytes: Seq<u8>, order: ByteOrder) -> Decoded<(A::V, B::V)> {
        match <(A,) as DeserializeCopy>::decoding(bytes, order) {
            Decoded::Failed(e) => Decoded::Failed(e),
            Decoded::Value(front, used) => match B::decoding(bytes.skip(used as int), order) {
                Decoded::Failed(e) => Decoded::Failed(e),
                Decoded::Value(last, more) => Decoded::Value(
                    (front.0, last),
                    used + more,
                ),
            },
        }
    }

    proof fn lemma_decoding_fits(bytes: Seq<u8>, order: ByteOrder) {
        <(A,) as DeserializeCopy>::lemma_decoding_fits(bytes, order);
        match <(A,) as DeserializeCopy>::decoding(bytes, order) {
            Decoded::Failed(e) => {},
            Decoded::Value(front, used) => {
                B::lemma_decoding_fits(bytes.skip(used as int), order);
            },
        }
    }

    fn deserialize_copy<R: DataInput>(input: &mut R) -> (r: Result<Self, Error>) {
        let ghost bytes = input.remaining();
        let ghost order = input.order();
        let front = match <(A,) as DeserializeCopy>::deserialize_copy(input) {
            Ok(front) => front,
            Err(e) => {
                return Err(e);
            },
        };
        let ghost used = <(A,) as DeserializeCopy>::decoding(bytes, order)->Value_1;
        match B::deserialize_copy(input) {
            Ok(last) => {
                proof {
                    let more = B::decoding(bytes.skip(used as int), order)->Value_1;
                    assert(bytes.skip(used as int).skip(more as int) =~= bytes.skip(
                        (used + more) as int,
                    ));
                }
                Ok((front.0, last))
            },
            Err(e) => Err(e),
        }
    }
}

impl<A: Codec, B: Codec> Codec for (A, B) {
    open spec fn valid(value: (A::V, B::V)) -> bool {
        <(A,) as Codec>::valid((value.0,)) && B::valid(value.1)
    }

    proof fn lemma_round_trip(
        value: (A::V, B::V),
        order: ByteOrder,
        rest: Seq<u8>,
    ) {
        let start = (value.0,);
        let front = <(A,) as Serializeable>::encoding(start, order)->Ok_0;
        let back = B::encoding(value.1, order)->Ok_0;
        let all = front + back + rest;
        assert(all =~= front + (back + rest));
        <(A,) as Codec>::lemma_round_trip(start, order, back + rest);
        assert(all.skip(front.len() as int) =~= back + rest);
        B::lemma_round_trip(value.1, order, rest);
    }
}

impl<A: Serializeable, B: Serializeable, C: Serializeable> Serializeable for (A, B, C) {
    open spec fn encoding(value: (A::V, B::V, C::V), order: ByteOrder) -> Result<Seq<u8>, Invalid> {
        then_encoding(
            <(A, B) as Serializeable>::encoding((value.0, value.1), order),
            C::encoding(value.2, order),
        )
    }

    fn serialize<W: DataOutput>(&self, output: &mut W) -> (r: Result<(), Error>) {
        let ghost start = output.written();
        let ghost order = output.order();
        let ghost mut done: Result<Seq<u8>, Invalid> = Ok(Seq::empty());
        assert(start + Seq::<u8>::empty() =~= start);
        let r: Result<(), Error> = Ok(());
        let r = write_after(r, &self.0, output, Ghost(start), Ghost(done));
        proof {
            done = then_encoding(done, A::encoding(self.0.deep_view(), order));
        }
        let r = write_after(r, &self.1, output, Ghost(start), Ghost(done));
        proof {
            done = then_encoding(done, B::encoding(self.1.deep_view(), order));
        }
        let r = write_after(r, &self.2, output, Ghost(start), Ghost(done));
        proof {
            done = then_encoding(done, C::encoding(self.2.deep_view(), order));
        }
        r
    }
}

impl<A: Deserializeable, B: Deserializeable, C: Deserializeable> Deserializeable for (A, B, C) {
    open spec fn decoding_into(
        current: (A::V, B::V, C::V),
        bytes: Seq<u8>,
        order: ByteOrder,
    ) -> Decoded<(A::V, B::V, C::V)> {
        match <(A, B) as Deserializeable>::decoding_into(
            (current.0, current.1),
            bytes,
            order,
        ) {
            Decoded::Failed(e) => Decoded::Failed(e),
            Decoded::Value(front, used) => match C::decoding_into(
                current.2,
                bytes.skip(used as int),
                order,
            ) {
                Decoded::Failed(e) => Decoded::Failed(e),
                Decoded::Value(last, more) => Decoded::Value(
                    (front.0, front.1, last),
                    used + more,
                ),
            },
        }
    }

    fn deserialize<R: DataInput>(&mut self, input: &mut R) -> (r: Result<(), Error>) {
        let ghost bytes = input.remaining();
        let ghost order = input.order();
        let ghost mut used: nat = 0;
        assert(bytes.skip(0) =~= bytes);
        match self.0.deserialize(input) {
            Ok(()) => {},
            Err(e) => {
                return Err(e);
            },
        }
        proof {
            let more = A::decoding_into(
                old(self).0.deep_view(),
                bytes.skip(used as int),
                order,
            )->Value_1;
            assert(bytes.skip(used as int).skip(more as int) =~= bytes.skip((used + more) as int));
            used = used + more;
        }
        match self.1.deserialize(input) {
            Ok(()) => {},
            Err(e) => {
                return Err(e);
            },
        }
        proof {
            let more = B::decoding_into(
                old(self).1.deep_view(),
                bytes.skip(used as int),
                order,
            )->Value_1;
            assert(bytes.skip(used as int).skip(more as int) =~= bytes.skip((used + more) as int));
            used = used + more;
        }
        match self.2.deserialize(input) {
            Ok(()) => {},
            Err(e) => {
                return Err(e);
            },
        }
        proof {
            let more = C::decoding_into(
                old(self).2.deep_view(),
                bytes.skip(used as int),
                order,
            )->Value_1;
            assert(bytes.skip(used as int).skip(more as int) =~= bytes.skip((used + more) as int));
            used = used + more;
        }
        Ok(())
    }
}

impl<A: DeserializeCopy, B: DeserializeCopy, C: DeserializeCopy> DeserializeCopy for (A, B, C) {
    open spec fn decoding(bytes: Seq<u8>, order: ByteOrder) -> Decoded<(A::V, B::V, C::V)> {
        match <(A, B) as DeserializeCopy>::decoding(bytes, order) {
            Decoded::Failed(e) => Decoded::Failed(e),
            Decoded::Value(front, used) => match C::decoding(bytes.skip(used as int), order) {
                Decoded::Failed(e) => Decoded::Failed(e),
                Decoded::Value(last, more) => Decoded::Value(
                    (front.0, front.1, last),
                    used + more,
                ),
            },
        }
    }

    proof fn lemma_decoding_fits(bytes: Seq<u8>, order: ByteOrder) {
        <(A, B) as DeserializeCopy>::lemma_decoding_fits(bytes, order);
        match <(A, B) as DeserializeCopy>::decoding(bytes, order) {
            Decoded::Failed(e) => {},
            Decoded::Value(front, used) => {
                C::lemma_decoding_fits(bytes.skip(used as int), order);
            },
        }
    }

    fn deserialize_copy<R: DataInput>(input: &mut R) -> (r: Result<Self, Error>) {
        let ghost bytes = input.remaining();
        let ghost order = input.order();
        let front = match <(A, B) as DeserializeCopy>::deserialize_copy(input) {
            Ok(front) => front,
            Err(e) => {
                return Err(e);
            },
        };
        let ghost used = <(A, B) as DeserializeCopy>::decoding(bytes, order)->Value_1;
        match C::deserialize_copy(input) {
            Ok(last) => {
                proof {
                    let more = C::decoding(bytes.skip(used as int), order)->Value_1;
                    assert(bytes.skip(used as int).skip(more as int) =~= bytes.skip(
                        (used + more) as int,
                    ));
                }
                Ok((front.0, front.1, last))
            },
            Err(e) => Err(e),
        }
    }
}

impl<A: Codec, B: Codec, C: Codec> Codec for (A, B, C) {
    open spec fn valid(value: (A::V, B::V, C::V)) -> bool {
        <(A, B) as Codec>::valid((value.0, value.1)) && C::valid(value.2)
    }

    proof fn lemma_round_trip(
        value: (A::V, B::V, C::V),
        order: ByteOrder,
        rest: Seq<u8>,
    ) {
        let start = (value.0, value.1);
        let front = <(A, B) as Serializeable>::encoding(start, order)->Ok_0;
        let back = C::encoding(value.2, order)->Ok_0;
        let all = front + back + rest;
        assert(all =~= front + (back + rest));
        <(A, B) as Codec>::lemma_round_trip(start, order, back + rest);
        assert(all.skip(front.len() as int) =~= back + rest);
        C::lemma_round_trip(value.2, order, rest);
    }
}

impl<A, B, C, D> Serializeable for (A, B, C, D) where
    A: Serializeable,
    B: Serializeable,
    C: Serializeable,
    D: Serializeable,
 {
    open spec fn encoding(
        value: (A::V, B::V, C::V, D::V),
        order: ByteOrder,
    ) -> Result<Seq<u8>, Invalid> {
        then_encoding(
            <(A, B, C) as Serializeable>::encoding((value.0, value.1, value.2), order),
            D::encoding(value.3, order),
        )
    }

    fn serialize<W: DataOutput>(&self, output: &mut W) -> (r: Result<(), Error>) {
        let ghost start = output.written();
        let ghost order = output.order();
        let ghost mut done: Result<Seq<u8>, Invalid> = Ok(Seq::empty());
        assert(start + Seq::<u8>::empty() =~= start);
        let r: Result<(), Error> = Ok(());
        let r = write_after(r, &self.0, output, Ghost(start), Ghost(done));
        proof {
            done = then_encoding(done, A::encoding(self.0.deep_view(), order));
        }
        let r = write_after(r, &self.1, output, Ghost(start), Ghost(done));
        proof {
            done = then_encoding(done, B::encoding(self.1.deep_view(), order));
        }
        let r = write_after(r, &self.2, output, Ghost(start), Ghost(done));
        proof {
            done = then_encoding(done, C::encoding(self.2.deep_view(), order));
        }
        let r = write_after(r, &self.3, output, Ghost(start), Ghost(done));
        proof {
            done = then_encoding(done, D::encoding(self.3.deep_view(), order));
        }
        r
    }
}

impl<A, B, C, D> Deserializeable for (A, B, C, D) where
    A: Deserializeable,
    B: Deserializeable,
    C: Deserializeable,
    D: Deserializeable,
 {
    open spec fn decoding_into(
        current: (A::V, B::V, C::V, D::V),
        bytes: Seq<u8>,
        order: ByteOrder,
    ) -> Decoded<(A::V, B::V, C::V, D::V)> {
        match <(A, B, C) as Deserializeable>::decoding_into(
            (current.0, current.1, current.2),
            bytes,
            order,
        ) {
            Decoded::Failed(e) => Decoded::Failed(e),
            Decoded::Value(front, used) => match D::decoding_into(
                current.3,
                bytes.skip(used as int),
                order,
            ) {
                Decoded::Failed(e) => Decoded::Failed(e),
                Decoded::Value(last, more) => Decoded::Value(
                    (front.0, front.1, front.2, last),
                    used + more,
                ),
            },
        }
    }

    fn deserialize<R: DataInput>(&mut self, input: &mut R) -> (r: Result<(), Error>) {
        let ghost bytes = input.remaining();
        let ghost order = input.order();
        let ghost mut used: nat = 0;
        assert(bytes.skip(0) =~= bytes);
        match self.0.deserialize(input) {
            Ok(()) => {},
            Err(e) => {
                return Err(e);
            },
        }
        proof {
            let more = A::decoding_into(
                old(self).0.deep_view(),
                bytes.skip(used as int),
                order,
            )->Value_1;
            assert(bytes.skip(used as int).skip(more as int) =~= bytes.skip((used + more) as int));
            used = used + more;
        }
        match self.1.deserialize(input) {
            Ok(()) => {},
            Err(e) => {
                return Err(e);
            },
        }
        proof {
            let more = B::decoding_into(
                old(self).1.deep_view(),
                bytes.skip(used as int),
                order,
            )->Value_1;
            assert(bytes.skip(used as int).skip(more as int) =~= bytes.skip((used + more) as int));
            used = used + more;
        }
        match self.2.deserialize(input) {
            Ok(()) => {},
            Err(e) => {
                return Err(e);
            },
        }
        proof {
            let more = C::decoding_into(
                old(self).2.deep_view(),
                bytes.skip(used as int),
                order,
            )->Value_1;
            assert(bytes.skip(used as int).skip(more as int) =~= bytes.skip((used + more) as int));
            used = used + more;
        }
        match self.3.deserialize(input) {
            Ok(()) => {},
            Err(e) => {
                return Err(e);
            },
        }
        proof {
            let more = D::decoding_into(
                old(self).3.deep_view(),
                bytes.skip(used as int),
                order,
            )->Value_1;
            assert(bytes.skip(used as int).skip(more as int) =~= bytes.skip((used + more) as int));
            used = used + more;
        }
        Ok(())
    }
}

impl<A, B, C, D> DeserializeCopy for (A, B, C, D) where
    A: DeserializeCopy,
    B: DeserializeCopy,
    C: DeserializeCopy,
    D: DeserializeCopy,
 {
    open spec fn decoding(bytes: Seq<u8>, order: ByteOrder) -> Decoded<(A::V, B::V, C::V, D::V)> {
        match <(A, B, C) as DeserializeCopy>::decoding(bytes, order) {
            Decoded::Failed(e) => Decoded::Failed(e),
            Decoded::Value(front, used) => match D::decoding(bytes.skip(used as int), order) {
                Decoded::Failed(e) => Decoded::Failed(e),
                Decoded::Value(last, more) => Decoded::Value(
                    (front.0, front.1, front.2, last),
                    used + more,
                ),
            },
        }
    }

    proof fn lemma_decoding_fits(bytes: Seq<u8>, order: ByteOrder) {
        <(A, B, C) as DeserializeCopy>::lemma_decoding_fits(bytes, order);
        match <(A, B, C) as DeserializeCopy>::decoding(bytes, order) {
            Decoded::Failed(e) => {},
            Decoded::Value(front, used) => {
                D::lemma_decoding_fits(bytes.skip(used as int), order);
            },
        }
    }

    fn deserialize_copy<R: DataInput>(input: &mut R) -> (r: Result<Self, Error>) {
        let ghost bytes = input.remaining();
        let ghost order = input.order();
        let front = match <(A, B, C) as DeserializeCopy>::deserialize_copy(input) {
            Ok(front) => front,
            Err(e) => {
                return Err(e);
            },
        };
        let ghost used = <(A, B, C) as DeserializeCopy>::decoding(bytes, order)->Value_1;
        match D::deserialize_copy(input) {
            Ok(last) => {
                proof {
                    let more = D::decoding(bytes.skip(used as int), order)->Value_1;
                    assert(bytes.skip(used as int).skip(more as int) =~= bytes.skip(
                        (used + more) as int,
                    ));
                }
                Ok((front.0, front.1, front.2, last))
            },
            Err(e) => Err(e),
        }
    }
}

impl<A: Codec, B: Codec, C: Codec, D: Codec> Codec for (A, B, C, D) {
    open spec fn valid(value: (A::V, B::V, C::V, D::V)) -> bool {
        <(A, B, C) as Codec>::valid((value.0, value.1, value.2)) && D::valid(value.3)
    }

    proof fn lemma_round_trip(
        value: (A::V, B::V, C::V, D::V),
        order: ByteOrder,
        rest: Seq<u8>,
    ) {
        let start = (value.0, value.1, value.2);
        let front = <(A, B, C) as Serializeable>::encoding(start, order)->Ok_0;
        let back = D::encoding(value.3, order)->Ok_0;
        let all = front + back + rest;
        assert(all =~= front + (back + rest));
        <(A, B, C) as Codec>::lemma_round_trip(start, order, back + rest);
        assert(all.skip(front.len() as int) =~= back + rest);
        D::lemma_round_trip(value.3, order, rest);
    }
}

impl<A, B, C, D, E> Serializeable for (A, B, C, D, E) where
    A: Serializeable,
    B: Serializeable,
    C: Serializeable,
    D: Serializeable,
    E: Serializeable,
 {
    open spec fn encoding(
        value: (A::V, B::V, C::V, D::V, E::V),
        order: ByteOrder,
    ) -> Result<Seq<u8>, Invalid> {
        then_encoding(
            <(A, B, C, D) as Serializeable>::encoding((value.0, value.1, value.2, value.3), order),
            E::encoding(value.4, order),
        )
    }

    fn serialize<W: DataOutput>(&self, output: &mut W) -> (r: Result<(), Error>) {
        let ghost start = output.written();
        let ghost order = output.order();
        let ghost mut done: Result<Seq<u8>, Invalid> = Ok(Seq::empty());
        assert(start + Seq::<u8>::empty() =~= start);
        let r: Result<(), Error> = Ok(());
        let r = write_after(r, &self.0, output, Ghost(start), Ghost(done));
        proof {
            done = then_encoding(done, A::encoding(self.0.deep_view(), order));
        }
        let r = write_after(r, &self.1, output, Ghost(start), Ghost(done));
        proof {
            done = then_encoding(done, B::encoding(self.1.deep_view(), order));
        }
        let r = write_after(r, &self.2, output, Ghost(start), Ghost(done));
        proof {
            done = then_encoding(done, C::encoding(self.2.deep_view(), order));
        }
        let r = write_after(r, &self.3, output, Ghost(start), Ghost(done));
        proof {
            done = then_encoding(done, D::encoding(self.3.deep_view(), order));
        }
        let r = write_after(r, &self.4, output, Ghost(start), Ghost(done));
        proof {
            done = then_encoding(done, E::encoding(self.4.deep_view(), order));
        }
        r
    }
}

impl<A, B, C, D, E> Deserializeable for (A, B, C, D, E) where
    A: Deserializeable,
    B: Deserializeable,
    C: Deserializeable,
    D: Deserializeable,
    E: Deserializeable,
 {
    open spec fn decoding_into(
        current: (A::V, B::V, C::V, D::V, E::V),
        bytes: Seq<u8>,
        order: ByteOrder,
    ) -> Decoded<(A::V, B::V, C::V, D::V, E::V)> {
        match <(A, B, C, D) as Deserializeable>::decoding_into(
            (current.0, current.1, current.2, current.3),
            bytes,
            order,
        ) {
            Decoded::Failed(e) => Decoded::Failed(e),
            Decoded::Value(front, used) => match E::decoding_into(
                current.4,
                bytes.skip(used as int),
                order,
            ) {
                Decoded::Failed(e) => Decoded::Failed(e),
                Decoded::Value(last, more) => Decoded::Value(
                    (front.0, front.1, front.2, front.3, last),
                    used + more,
                ),
            },
        }
    }

    fn deserialize<R: DataInput>(&mut self, input: &mut R) -> (r: Result<(), Error>) {
        let ghost bytes = input.remaining();
        let ghost order = input.order();
        let ghost mut used: nat = 0;
        assert(bytes.skip(0) =~= bytes);
        match self.0.deserialize(input) {
            Ok(()) => {},
            Err(e) => {
                return Err(e);
            },
        }
        proof {
            let more = A::decoding_into(
                old(self).0.deep_view(),
                bytes.skip(used as int),
                order,
            )->Value_1;
            assert(bytes.skip(used as int).skip(more as int) =~= bytes.skip((used + more) as int));
            used = used + more;
        }
        match self.1.deserialize(input) {
            Ok(()) => {},
            Err(e) => {
                return Err(e);
            },
        }
        proof {
            let more = B::decoding_into(
                old(self).1.deep_view(),
                bytes.skip(used as int),
                order,
            )->Value_1;
            assert(bytes.skip(used as int).skip(more as int) =~= bytes.skip((used + more) as int));
            used = used + more;
        }
        match self.2.deserialize(input) {
            Ok(()) => {},
            Err(e) => {
                return Err(e);
            },
        }
        proof {
            let more = C::decoding_into(
                old(self).2.deep_view(),
                bytes.skip(used as int),
                order,
            )->Value_1;
            assert(bytes.skip(used as int).skip(more as int) =~= bytes.skip((used + more) as int));
            used = used + more;
        }
        match self.3.deserialize(input) {
            Ok(()) => {},
            Err(e) => {
                return Err(e);
            },
        }
        proof {
            let more = D::decoding_into(
                old(self).3.deep_view(),
                bytes.skip(used as int),
                order,
            )->Value_1;
            assert(bytes.skip(used as int).skip(more as int) =~= bytes.skip((used + more) as int));
            used = used + more;
        }
        match self.4.deserialize(input) {
            Ok(()) => {},
            Err(e) => {
                return Err(e);
            },
        }
        proof {
            let more = E::decoding_into(
                old(self).4.deep_view(),
                bytes.skip(used as int),
                order,
            )->Value_1;
            assert(bytes.skip(used as int).skip(more as int) =~= bytes.skip((used + more) as int));
            used = used + more;
        }
        Ok(())
    }
}

impl<A, B, C, D, E> DeserializeCopy for (A, B, C, D, E) where
    A: DeserializeCopy,
    B: DeserializeCopy,
    C: DeserializeCopy,
    D: DeserializeCopy,
    E: DeserializeCopy,
 {
    open spec fn decoding(bytes: Seq<u8>, order: ByteOrder) -> Decoded<(
        A::V,
        B::V,
        C::V,
        D::V,
        E::V,
    )> {
        match <(A, B, C, D) as DeserializeCopy>::decoding(bytes, order) {
            Decoded::Failed(e) => Decoded::Failed(e),
            Decoded::Value(front, used) => match E::decoding(bytes.skip(used as int), order) {
                Decoded::Failed(e) => Decoded::Failed(e),
                Decoded::Value(last, more) => Decoded::Value(
                    (front.0, front.1, front.2, front.3, last),
                    used + more,
                ),
            },
        }
    }

    proof fn lemma_decoding_fits(bytes: Seq<u8>, order: ByteOrder) {
        <(A, B, C, D) as DeserializeCopy>::lemma_decoding_fits(bytes, order);
        match <(A, B, C, D) as DeserializeCopy>::decoding(bytes, order) {
            Decoded::Failed(e) => {},
            Decoded::Value(front, used) => {
                E::lemma_decoding_fits(bytes.skip(used as int), order);
            },
        }
    }

    fn deserialize_copy<R: DataInput>(input: &mut R) -> (r: Result<Self, Error>) {
        let ghost bytes = input.remaining();
        let ghost order = input.order();
        let front = match <(A, B, C, D) as DeserializeCopy>::deserialize_copy(input) {
            Ok(front) => front,
            Err(e) => {
                return Err(e);
            },
        };
        let ghost used = <(A, B, C, D) as DeserializeCopy>::decoding(bytes, order)->Value_1;
        match E::deserialize_copy(input) {
            Ok(last) => {
                proof {
                    let more = E::decoding(bytes.skip(used as int), order)->Value_1;
                    assert(bytes.skip(used as int).skip(more as int) =~= bytes.skip(
                        (used + more) as int,
                    ));
                }
                Ok((front.0, front.1, front.2, front.3, last))
            },
            Err(e) => Err(e),
        }
    }
}

impl<A: Codec, B: Codec, C: Codec, D: Codec, E: Codec> Codec for (A, B, C, D, E) {
    open spec fn valid(value: (A::V, B::V, C::V, D::V, E::V)) -> bool {
        <(A, B, C, D) as Codec>::valid((value.0, value.1, value.2, value.3)) && E::valid(value.4)
    }

    proof fn lemma_round_trip(
        value: (A::V, B::V, C::V, D::V, E::V),
        order: ByteOrder,
        rest: Seq<u8>,
    ) {
        let start = (value.0, value.1, value.2, value.3);
        let front = <(A, B, C, D) as Serializeable>::encoding(start, order)->Ok_0;
        let back = E::encoding(value.4, order)->Ok_0;
        let all = front + back + rest;
        assert(all =~= front + (back + rest));
        <(A, B, C, D) as Codec>::lemma_round_trip(start, order, back + rest);
        assert(all.skip(front.len() as int) =~= back + rest);
        E::lemma_round_trip(value.4, order, rest);
    }
}

impl<A, B, C, D, E, F> Serializeable for (A, B, C, D, E, F) where
    A: Serializeable,
    B: Serializeable,
    C: Serializeable,
    D: Serializeable,
    E: Serializeable,
    F: Serializeable,
 {
    open spec fn encoding(
        value: (A::V, B::V, C::V, D::V, E::V, F::V),
        order: ByteOrder,
    ) -> Result<Seq<u8>, Invalid> {
        then_encoding(
            <(A, B, C, D, E) as Serializeable>::encoding(
                (value.0, value.1, value.2, value.3, value.4),
                order,
            ),
            F::encoding(value.5, order),
        )
    }

    fn serialize<W: DataOutput>(&self, output: &mut W) -> (r: Result<(), Error>) {
        let ghost start = output.written();
        let ghost order = output.order();
        let ghost mut done: Result<Seq<u8>, Invalid> = Ok(Seq::empty());
        assert(start + Seq::<u8>::empty() =~= start);
        let r: Result<(), Error> = Ok(());
        let r = write_after(r, &self.0, output, Ghost(start), Ghost(done));
        proof {
            done = then_encoding(done, A::encoding(self.0.deep_view(), order));
        }
        let r = write_after(r, &self.1, output, Ghost(start), Ghost(done));
        proof {
            done = then_encoding(done, B::encoding(self.1.deep_view(), order));
        }
        let r = write_after(r, &self.2, output, Ghost(start), Ghost(done));
        proof {
            done = then_encoding(done, C::encoding(self.2.deep_view(), order));
        }
        let r = write_after(r, &self.3, output, Ghost(start), Ghost(done));
        proof {
            done = then_encoding(done, D::encoding(self.3.deep_view(), order));
        }
        let r = write_after(r, &self.4, output, Ghost(start), Ghost(done));
        proof {
            done = then_encoding(done, E::encoding(self.4.deep_view(), order));
        }
        let r = write_after(r, &self.5, output, Ghost(start), Ghost(done));
        proof {
            done = then_encoding(done, F::encoding(self.5.deep_view(), order));
        }
        r
    }
}

impl<A, B, C, D, E, F> Deserializeable for (A, B, C, D, E, F) where
    A: Deserializeable,
    B: Deserializeable,
    C: Deserializeable,
    D: Deserializeable,
    E: Deserializeable,
    F: Deserializeable,
 {
    open spec fn decoding_into(
        current: (A::V, B::V, C::V, D::V, E::V, F::V),
        bytes: Seq<u8>,
        order: ByteOrder,
    ) -> Decoded<(A::V, B::V, C::V, D::V, E::V, F::V)> {
        match <(A, B, C, D, E) as Deserializeable>::decoding_into(
            (current.0, current.1, current.2, current.3, current.4),
            bytes,
            order,
        ) {
            Decoded::Failed(e) => Decoded::Failed(e),
            Decoded::Value(front, used) => match F::decoding_into(
                current.5,
                bytes.skip(used as int),
                order,
            ) {
                Decoded::Failed(e) => Decoded::Failed(e),
                Decoded::Value(last, more) => Decoded::Value(
                    (front.0, front.1, front.2, front.3, front.4, last),
                    used + more,
                ),
            },
        }
    }

    fn deserialize<R: DataInput>(&mut self, input: &mut R) -> (r: Result<(), Error>) {
        let ghost bytes = input.remaining();
        let ghost order = input.order();
        let ghost mut used: nat = 0;
        assert(bytes.skip(0) =~= bytes);
        match self.0.deserialize(input) {
            Ok(()) => {},
            Err(e) => {
                return Err(e);
            },
        }
        proof {
            let more = A::decoding_into(
                old(self).0.deep_view(),
                bytes.skip(used as int),
                order,
            )->Value_1;
            assert(bytes.skip(used as int).skip(more as int) =~= bytes.skip((used + more) as int));
            used = used + more;
        }
        match self.1.deserialize(input) {
            Ok(()) => {},
            Err(e) => {
                return Err(e);
            },
        }
        proof {
            let more = B::decoding_into(
                old(self).1.deep_view(),
                bytes.skip(used as int),
                order,
            )->Value_1;
            assert(bytes.skip(used as int).skip(more as int) =~= bytes.skip((used + more) as int));
            used = used + more;
        }
        match self.2.deserialize(input) {
            Ok(()) => {},
            Err(e) => {
                return Err(e);
            },
        }
        proof {
            let more = C::decoding_into(
                old(self).2.deep_view(),
                bytes.skip(used as int),
                order,
            )->Value_1;
            assert(bytes.skip(used as int).skip(more as int) =~= bytes.skip((used + more) as int));
            used = used + more;
        }
        match self.3.deserialize(input) {
            Ok(()) => {},
            Err(e) => {
                return Err(e);
            },
        }
        proof {
            let more = D::decoding_into(
                old(self).3.deep_view(),
                bytes.skip(used as int),
                order,
            )->Value_1;
            assert(bytes.skip(used as int).skip(more as int) =~= bytes.skip((used + more) as int));
            used = used + more;
        }
        match self.4.deserialize(input) {
            Ok(()) => {},
            Err(e) => {
                return Err(e);
            },
        }
        proof {
            let more = E::decoding_into(
                old(self).4.deep_view(),
                bytes.skip(used as int),
                order,
            )->Value_1;
            assert(bytes.skip(used as int).skip(more as int) =~= bytes.skip((used + more) as int));
            used = used + more;
        }
        match self.5.deserialize(input) {
            Ok(()) => {},
            Err(e) => {
                return Err(e);
            },
        }
        proof {
            let more = F::decoding_into(
                old(self).5.deep_view(),
                bytes.skip(used as int),
                order,
            )->Value_1;
            assert(bytes.skip(used as int).skip(more as int) =~= bytes.skip((used + more) as int));
            used = used + more;
        }
        Ok(())
    }
}

impl<A, B, C, D, E, F> DeserializeCopy for (A, B, C, D, E, F) where
    A: DeserializeCopy,
    B: DeserializeCopy,
    C: DeserializeCopy,
    D: DeserializeCopy,
    E: DeserializeCopy,
    F: DeserializeCopy,
 {
    open spec fn decoding(bytes: Seq<u8>, order: ByteOrder) -> Decoded<(
        A::V,
        B::V,
        C::V,
        D::V,
        E::V,
        F::V,
    )> {
        match <(A, B, C, D, E) as DeserializeCopy>::decoding(bytes, order) {
            Decoded::Failed(e) => Decoded::Failed(e),
            Decoded::Value(front, used) => match F::decoding(bytes.skip(used as int), order) {
                Decoded::Failed(e) => Decoded::Failed(e),
                Decoded::Value(last, more) => Decoded::Value(
                    (front.0, front.1, front.2, front.3, front.4, last),
                    used + more,
                ),
            },
        }
    }

    proof fn lemma_decoding_fits(bytes: Seq<u8>, order: ByteOrder) {
        <(A, B, C, D, E) as DeserializeCopy>::lemma_decoding_fits(bytes, order);
        match <(A, B, C, D, E) as DeserializeCopy>::decoding(bytes, order) {
            Decoded::Failed(e) => {},
            Decoded::Value(front, used) => {
                F::lemma_decoding_fits(bytes.skip(used as int), order);
            },
        }
    }

    fn deserialize_copy<R: DataInput>(input: &mut R) -> (r: Result<Self, Error>) {
        let ghost bytes = input.remaining();
        let ghost order = input.order();
        let front = match <(A, B, C, D, E) as DeserializeCopy>::deserialize_copy(input) {
            Ok(front) => front,
            Err(e) => {
                return Err(e);
            },
        };
        let ghost used = <(A, B, C, D, E) as DeserializeCopy>::decoding(bytes, order)->Value_1;
        match F::deserialize_copy(input) {
            Ok(last) => {
                proof {
                    let more = F::decoding(bytes.skip(used as int), order)->Value_1;
                    assert(bytes.skip(used as int).skip(more as int) =~= bytes.skip(
                        (used + more) as int,
                    ));
                }
                Ok((front.0, front.1, front.2, front.3, front.4, last))
            },
            Err(e) => Err(e),
        }
    }
}

impl<A: Codec, B: Codec, C: Codec, D: Codec, E: Codec, F: Codec> Codec for (A, B, C, D, E, F) {
    open spec fn valid(value: (A::V, B::V, C::V, D::V, E::V, F::V)) -> bool {
        <(A, B, C, D, E) as Codec>::valid((
            value.0,
            value.1,
            value.2,
            value.3,
            value.4,
        )) && F::valid(value.5)
    }

    proof fn lemma_round_trip(
        value: (A::V, B::V, C::V, D::V, E::V, F::V),
        order: ByteOrder,
        rest: Seq<u8>,
    ) {
        let start = (value.0, value.1, value.2, value.3, value.4);
        let front = <(A, B, C, D, E) as Serializeable>::encoding(start, order)->Ok_0;
        let back = F::encoding(value.5, order)->Ok_0;
        let all = front + back + rest;
        assert(all =~= front + (back + rest));
        <(A, B, C, D, E) as Codec>::lemma_round_trip(start, order, back + rest);
        assert(all.skip(front.len() as int) =~= back + rest);
        F::lemma_round_trip(value.5, order, rest);
    }
}

impl<A, B, C, D, E, F, G> Serializeable for (A, B, C, D, E, F, G) where
    A: Serializeable,
    B: Serializeable,
    C: Serializeable,
    D: Serializeable,
    E: Serializeable,
    F: Serializeable,
    G: Serializeable,
 {
    open spec fn encoding(
        value: (A::V, B::V, C::V, D::V, E::V, F::V, G::V),
        order: ByteOrder,
    ) -> Result<Seq<u8>, Invalid> {
        then_encoding(
            <(A, B, C, D, E, F) as Serializeable>::encoding(
                (value.0, value.1, value.2, value.3, value.4, value.5),
                order,
            ),
            G::encoding(value.6, order),
        )
    }

    fn serialize<W: DataOutput>(&self, output: &mut W) -> (r: Result<(), Error>) {
        let ghost start = output.written();
        let ghost order = output.order();
        let ghost mut done: Result<Seq<u8>, Invalid> = Ok(Seq::empty());
        assert(start + Seq::<u8>::empty() =~= start);
        let r: Result<(), Error> = Ok(());
        let r = write_after(r, &self.0, output, Ghost(start), Ghost(done));
        proof {
            done = then_encoding(done, A::encoding(self.0.deep_view(), order));
        }
        let r = write_after(r, &self.1, output, Ghost(start), Ghost(done));
        proof {
            done = then_encoding(done, B::encoding(self.1.deep_view(), order));
        }
        let r = write_after(r, &self.2, output, Ghost(start), Ghost(done));
        proof {
            done = then_encoding(done, C::encoding(self.2.deep_view(), order));
        }
        let r = write_after(r, &self.3, output, Ghost(start), Ghost(done));
        proof {
            done = then_encoding(done, D::encoding(self.3.deep_view(), order));
        }
        let r = write_after(r, &self.4, output, Ghost(start), Ghost(done));
        proof {
            done = then_encoding(done, E::encoding(self.4.deep_view(), order));
        }
        let r = write_after(r, &self.5, output, Ghost(start), Ghost(done));
        proof {
            done = then_encoding(done, F::encoding(self.5.deep_view(), order));
        }
        let r = write_after(r, &self.6, output, Ghost(start), Ghost(done));
        proof {
            done = then_encoding(done, G::encoding(self.6.deep_view(), order));
        }
        r
    }
}

impl<A, B, C, D, E, F, G> Deserializeable for (A, B, C, D, E, F, G) where
    A: Deserializeable,
    B: Deserializeable,
    C: Deserializeable,
    D: Deserializeable,
    E: Deserializeable,
    F: Deserializeable,
    G: Deserializeable,
 {
    open spec fn decoding_into(
        current: (A::V, B::V, C::V, D::V, E::V, F::V, G::V),
        bytes: Seq<u8>,
        order: ByteOrder,
    ) -> Decoded<(A::V, B::V, C::V, D::V, E::V, F::V, G::V)> {
        match <(A, B, C, D, E, F) as Deserializeable>::decoding_into(
            (current.0, current.1, current.2, current.3, current.4, current.5),
            bytes,
            order,
        ) {
            Decoded::Failed(e) => Decoded::Failed(e),
            Decoded::Value(front, used) => match G::decoding_into(
                current.6,
                bytes.skip(used as int),
                order,
            ) {
                Decoded::Failed(e) => Decoded::Failed(e),
                Decoded::Value(last, more) => Decoded::Value(
                    (front.0, front.1, front.2, front.3, front.4, front.5, last),
                    used + more,
                ),
            },
        }
    }

    fn deserialize<R: DataInput>(&mut self, input: &mut R) -> (r: Result<(), Error>) {
        let ghost bytes = input.remaining();
        let ghost order = input.order();
        let ghost mut used: nat = 0;
        assert(bytes.skip(0) =~= bytes);
        match self.0.deserialize(input) {
            Ok(()) => {},
            Err(e) => {
                return Err(e);
            },
        }
        proof {
            let more = A::decoding_into(
                old(self).0.deep_view(),
                bytes.skip(used as int),
                order,
            )->Value_1;
            assert(bytes.skip(used as int).skip(more as int) =~= bytes.skip((used + more) as int));
            used = used + more;
        }
        match self.1.deserialize(input) {
            Ok(()) => {},
            Err(e) => {
                return Err(e);
            },
        }
        proof {
            let more = B::decoding_into(
                old(self).1.deep_view(),
                bytes.skip(used as int),
                order,
            )->Value_1;
            assert(bytes.skip(used as int).skip(more as int) =~= bytes.skip((used + more) as int));
            used = used + more;
        }
        match self.2.deserialize(input) {
            Ok(()) => {},
            Err(e) => {
                return Err(e);
            },
        }
        proof {
            let more = C::decoding_into(
                old(self).2.deep_view(),
                bytes.skip(used as int),
                order,
            )->Value_1;
            assert(bytes.skip(used as int).skip(more as int) =~= bytes.skip((used + more) as int));
            used = used + more;
        }
        match self.3.deserialize(input) {
            Ok(()) => {},
            Err(e) => {
                return Err(e);
            },
        }
        proof {
            let more = D::decoding_into(
                old(self).3.deep_view(),
                bytes.skip(used as int),
                order,
            )->Value_1;
            assert(bytes.skip(used as int).skip(more as int) =~= bytes.skip((used + more) as int));
            used = used + more;
        }
        match self.4.deserialize(input) {
            Ok(()) => {},
            Err(e) => {
                return Err(e);
            },
        }
        proof {
            let more = E::decoding_into(
                old(self).4.deep_view(),
                bytes.skip(used as int),
                order,
            )->Value_1;
            assert(bytes.skip(used as int).skip(more as int) =~= bytes.skip((used + more) as int));
            used = used + more;
        }
        match self.5.deserialize(input) {
            Ok(()) => {},
            Err(e) => {
                return Err(e);
            },
        }
        proof {
            let more = F::decoding_into(
                old(self).5.deep_view(),
                bytes.skip(used as int),
                order,
            )->Value_1;
            assert(bytes.skip(used as int).skip(more as int) =~= bytes.skip((used + more) as int));
            used = used + more;
        }
        match self.6.deserialize(input) {
            Ok(()) => {},
            Err(e) => {
                return Err(e);
            },
        }
        proof {
            let more = G::decoding_into(
                old(self).6.deep_view(),
                bytes.skip(used as int),
                order,
            )->Value_1;
            assert(bytes.skip(used as int).skip(more as int) =~= bytes.skip((used + more) as int));
            used = used + more;
        }
        Ok(())
    }
}

impl<A, B, C, D, E, F, G> DeserializeCopy for (A, B, C, D, E, F, G) where
    A: DeserializeCopy,
    B: DeserializeCopy,
    C: DeserializeCopy,
    D: DeserializeCopy,
    E: DeserializeCopy,
    F: DeserializeCopy,
    G: DeserializeCopy,
 {
    open spec fn decoding(bytes: Seq<u8>, order: ByteOrder) -> Decoded<(
        A::V,
        B::V,
        C::V,
        D::V,
        E::V,
        F::V,
        G::V,
    )> {
        match <(A, B, C, D, E, F) as DeserializeCopy>::decoding(bytes, order) {
            Decoded::Failed(e) => Decoded::Failed(e),
            Decoded::Value(front, used) => match G::decoding(bytes.skip(used as int), order) {
                Decoded::Failed(e) => Decoded::Failed(e),
                Decoded::Value(last, more) => Decoded::Value(
                    (front.0, front.1, front.2, front.3, front.4, front.5, last),
                    used + more,
                ),
            },
        }
    }

    proof fn lemma_decoding_fits(bytes: Seq<u8>, order: ByteOrder) {
        <(A, B, C, D, E, F) as DeserializeCopy>::lemma_decoding_fits(bytes, order);
        match <(A, B, C, D, E, F) as DeserializeCopy>::decoding(bytes, order) {
            Decoded::Failed(e) => {},
            Decoded::Value(front, used) => {
                G::lemma_decoding_fits(bytes.skip(used as int), order);
            },
        }
    }

    fn deserialize_copy<R: DataInput>(input: &mut R) -> (r: Result<Self, Error>) {
        let ghost bytes = input.remaining();
        let ghost order = input.order();
        let front = match <(A, B, C, D, E, F) as DeserializeCopy>::deserialize_copy(input) {
            Ok(front) => front,
            Err(e) => {
                return Err(e);
            },
        };
        let ghost used = <(A, B, C, D, E, F) as DeserializeCopy>::decoding(bytes, order)->Value_1;
        match G::deserialize_copy(input) {
            Ok(last) => {
                proof {
                    let more = G::decoding(bytes.skip(used as int), order)->Value_1;
                    assert(bytes.skip(used as int).skip(more as int) =~= bytes.skip(
                        (used + more) as int,
                    ));
                }
                Ok((front.0, front.1, front.2, front.3, front.4, front.5, last))
            },
            Err(e) => Err(e),
        }
    }
}

impl<A, B, C, D, E, F, G> Codec for (A, B, C, D, E, F, G) where
    A: Codec,
    B: Codec,
    C: Codec,
    D: Codec,
    E: Codec,
    F: Codec,
    G: Codec,
 {
    open spec fn valid(value: (A::V, B::V, C::V, D::V, E::V, F::V, G::V)) -> bool {
        <(A, B, C, D, E, F) as Codec>::valid((
            value.0,
            value.1,
            value.2,
            value.3,
            value.4,
            value.5,
        )) && G::valid(value.6)
    }

    proof fn lemma_round_trip(
        value: (A::V, B::V, C::V, D::V, E::V, F::V, G::V),
        order: ByteOrder,
        rest: Seq<u8>,
    ) {
        let start = (value.0, value.1, value.2, value.3, value.4, value.5);
        let front = <(A, B, C, D, E, F) as Serializeable>::encoding(start, order)->Ok_0;
        let back = G::encoding(value.6, order)->Ok_0;
        let all = front + back + rest;
        assert(all =~= front + (back + rest));
        <(A, B, C, D, E, F) as Codec>::lemma_round_trip(start, order, back + rest);
        assert(all.skip(front.len() as int) =~= back + rest);
        G::lemma_round_trip(value.6, order, rest);
    }
}

impl<A, B, C, D, E, F, G, H> Serializeable for (A, B, C, D, E, F, G, H) where
    A: Serializeable,
    B: Serializeable,
    C: Serializeable,
    D: Serializeable,
    E: Serializeable,
    F: Serializeable,
    G: Serializeable,
    H: Serializeable,
 {
    open spec fn encoding(
        value: (A::V, B::V, C::V, D::V, E::V, F::V, G::V, H::V),
        order: ByteOrder,
    ) -> Result<Seq<u8>, Invalid> {
        then_encoding(
            <(A, B, C, D, E, F, G) as Serializeable>::encoding(
                (value.0, value.1, value.2, value.3, value.4, value.5, value.6),
                order,
            ),
            H::encoding(value.7, order),
        )
    }

    fn serialize<W: DataOutput>(&self, output: &mut W) -> (r: Result<(), Error>) {
        let ghost start = output.written();
        let ghost order = output.order();
        let ghost mut done: Result<Seq<u8>, Invalid> = Ok(Seq::empty());
        assert(start + Seq::<u8>::empty() =~= start);
        let r: Result<(), Error> = Ok(());
        let r = write_after(r, &self.0, output, Ghost(start), Ghost(done));
        proof {
            done = then_encoding(done, A::encoding(self.0.deep_view(), order));
        }
        let r = write_after(r, &self.1, output, Ghost(start), Ghost(done));
        proof {
            done = then_encoding(done, B::encoding(self.1.deep_view(), order));
        }
        let r = write_after(r, &self.2, output, Ghost(start), Ghost(done));
        proof {
            done = then_encoding(done, C::encoding(self.2.deep_view(), order));
        }
        let r = write_after(r, &self.3, output, Ghost(start), Ghost(done));
        proof {
            done = then_encoding(done, D::encoding(self.3.deep_view(), order));
        }
        let r = write_after(r, &self.4, output, Ghost(start), Ghost(done));
        proof {
            done = then_encoding(done, E::encoding(self.4.deep_view(), order));
        }
        let r = write_after(r, &self.5, output, Ghost(start), Ghost(done));
        proof {
            done = then_encoding(done, F::encoding(self.5.deep_view(), order));
        }
        let r = write_after(r, &self.6, output, Ghost(start), Ghost(done));
        proof {
            done = then_encoding(done, G::encoding(self.6.deep_view(), order));
        }
        let r = write_after(r, &self.7, output, Ghost(start), Ghost(done));
        proof {
            done = then_encoding(done, H::encoding(self.7.deep_view(), order));
        }
        r
    }
}

impl<A, B, C, D, E, F, G, H> Deserializeable for (A, B, C, D, E, F, G, H) where
    A: Deserializeable,
    B: Deserializeable,
    C: Deserializeable,
    D: Deserializeable,
    E: Deserializeable,
    F: Deserializeable,
    G: Deserializeable,
    H: Deserializeable,
 {
    open spec fn decoding_into(
        current: (A::V, B::V, C::V, D::V, E::V, F::V, G::V, H::V),
        bytes: Seq<u8>,
        order: ByteOrder,
    ) -> Decoded<(A::V, B::V, C::V, D::V, E::V, F::V, G::V, H::V)> {
        match <(A, B, C, D, E, F, G) as Deserializeable>::decoding_into(
            (current.0, current.1, current.2, current.3, current.4, current.5, current.6),
            bytes,
            order,
        ) {
            Decoded::Failed(e) => Decoded::Failed(e),
            Decoded::Value(front, used) => match H::decoding_into(
                current.7,
                bytes.skip(used as int),
                order,
            ) {
                Decoded::Failed(e) => Decoded::Failed(e),
                Decoded::Value(last, more) => Decoded::Value(
                    (front.0, front.1, front.2, front.3, front.4, front.5, front.6, last),
                    used + more,
                ),
            },
        }
    }

    fn deserialize<R: DataInput>(&mut self, input: &mut R) -> (r: Result<(), Error>) {
        let ghost bytes = input.remaining();
        let ghost order = input.order();
        let ghost mut used: nat = 0;
        assert(bytes.skip(0) =~= bytes);
        match self.0.deserialize(input) {
            Ok(()) => {},
            Err(e) => {
                return Err(e);
            },
        }
        proof {
            let more = A::decoding_into(
                old(self).0.deep_view(),
                bytes.skip(used as int),
                order,
            )->Value_1;
            assert(bytes.skip(used as int).skip(more as int) =~= bytes.skip((used + more) as int));
            used = used + more;
        }
        match self.1.deserialize(input) {
            Ok(()) => {},
            Err(e) => {
                return Err(e);
            },
        }
        proof {
            let more = B::decoding_into(
                old(self).1.deep_view(),
                bytes.skip(used as int),
                order,
            )->Value_1;
            assert(bytes.skip(used as int).skip(more as int) =~= bytes.skip((used + more) as int));
            used = used + more;
        }
        match self.2.deserialize(input) {
            Ok(()) => {},
            Err(e) => {
                return Err(e);
            },
        }
        proof {
            let more = C::decoding_into(
                old(self).2.deep_view(),
                bytes.skip(used as int),
                order,
            )->Value_1;
            assert(bytes.skip(used as int).skip(more as int) =~= bytes.skip((used + more) as int));
            used = used + more;
        }
        match self.3.deserialize(input) {
            Ok(()) => {},
            Err(e) => {
                return Err(e);
            },
        }
        proof {
            let more = D::decoding_into(
                old(self).3.deep_view(),
                bytes.skip(used as int),
                order,
            )->Value_1;
            assert(bytes.skip(used as int).skip(more as int) =~= bytes.skip((used + more) as int));
            used = used + more;
        }
        match self.4.deserialize(input) {
            Ok(()) => {},
            Err(e) => {
                return Err(e);
            },
        }
        proof {
            let more = E::decoding_into(
                old(self).4.deep_view(),
                bytes.skip(used as int),
                order,
            )->Value_1;
            assert(bytes.skip(used as int).skip(more as int) =~= bytes.skip((used + more) as int));
            used = used + more;
        }
        match self.5.deserialize(input) {
            Ok(()) => {},
            Err(e) => {
                return Err(e);
            },
        }
        proof {
            let more = F::decoding_into(
                old(self).5.deep_view(),
                bytes.skip(used as int),
                order,
            )->Value_1;
            assert(bytes.skip(used as int).skip(more as int) =~= bytes.skip((used + more) as int));
            used = used + more;
        }
        match self.6.deserialize(input) {
            Ok(()) => {},
            Err(e) => {
                return Err(e);
            },
        }
        proof {
            let more = G::decoding_into(
                old(self).6.deep_view(),
                bytes.skip(used as int),
                order,
            )->Value_1;
            assert(bytes.skip(used as int).skip(more as int) =~= bytes.skip((used + more) as int));
            used = used + more;
        }
        match self.7.deserialize(input) {
            Ok(()) => {},
            Err(e) => {
                return Err(e);
            },
        }
        proof {
            let more = H::decoding_into(
                old(self).7.deep_view(),
                bytes.skip(used as int),
                order,
            )->Value_1;
            assert(bytes.skip(used as int).skip(more as int) =~= bytes.skip((used + more) as int));
            used = used + more;
        }
        Ok(())
    }
}

impl<A, B, C, D, E, F, G, H> DeserializeCopy for (A, B, C, D, E, F, G, H) where
    A: DeserializeCopy,
    B: DeserializeCopy,
    C: DeserializeCopy,
    D: DeserializeCopy,
    E: DeserializeCopy,
    F: DeserializeCopy,
    G: DeserializeCopy,
    H: DeserializeCopy,
 {
    open spec fn decoding(bytes: Seq<u8>, order: ByteOrder) -> Decoded<(
        A::V,
        B::V,
        C::V,
        D::V,
        E::V,
        F::V,
        G::V,
        H::V,
    )> {
        match <(A, B, C, D, E, F, G) as DeserializeCopy>::decoding(bytes, order) {
            Decoded::Failed(e) => Decoded::Failed(e),
            Decoded::Value(front, used) => match H::decoding(bytes.skip(used as int), order) {
                Decoded::Failed(e) => Decoded::Failed(e),
                Decoded::Value(last, more) => Decoded::Value(
                    (front.0, front.1, front.2, front.3, front.4, front.5, front.6, last),
                    used + more,
                ),
            },
        }
    }

    proof fn lemma_decoding_fits(bytes: Seq<u8>, order: ByteOrder) {
        <(A, B, C, D, E, F, G) as DeserializeCopy>::lemma_decoding_fits(bytes, order);
        match <(A, B, C, D, E, F, G) as DeserializeCopy>::decoding(bytes, order) {
            Decoded::Failed(e) => {},
            Decoded::Value(front, used) => {
                H::lemma_decoding_fits(bytes.skip(used as int), order);
            },
        }
    }

    fn deserialize_copy<R: DataInput>(input: &mut R) -> (r: Result<Self, Error>) {
        let ghost bytes = input.remaining();
        let ghost order = input.order();
        let front = match <(A, B, C, D, E, F, G) as DeserializeCopy>::deserialize_copy(input) {
            Ok(front) => front,
            Err(e) => {
                return Err(e);
            },
        };
        let ghost used = <(A, B, C, D, E, F, G) as DeserializeCopy>::decoding(bytes, order)->Value_1;
        match H::deserialize_copy(input) {
            Ok(last) => {
                proof {
                    let more = H::decoding(bytes.skip(used as int), order)->Value_1;
                    assert(bytes.skip(used as int).skip(more as int) =~= bytes.skip(
                        (used + more) as int,
                    ));
                }
                Ok((front.0, front.1, front.2, front.3, front.4, front.5, front.6, last))
            },
            Err(e) => Err(e),
        }
    }
}

impl<A, B, C, D, E, F, G, H> Codec for (A, B, C, D, E, F, G, H) where
    A: Codec,
    B: Codec,
    C: Codec,
    D: Codec,
    E: Codec,
    F: Codec,
    G: Codec,
    H: Codec,
 {
    open spec fn valid(value: (A::V, B::V, C::V, D::V, E::V, F::V, G::V, H::V)) -> bool {
        <(A, B, C, D, E, F, G) as Codec>::valid((
            value.0,
            value.1,
            value.2,
            value.3,
            value.4,
            value.5,
            value.6,
        )) && H::valid(value.7)
    }

    proof fn lemma_round_trip(
        value: (A::V, B::V, C::V, D::V, E::V, F::V, G::V, H::V),
        order: ByteOrder,
        rest: Seq<u8>,
    ) {
        let start = (value.0, value.1, value.2, value.3, value.4, value.5, value.6);
        let front = <(A, B, C, D, E, F, G) as Serializeable>::encoding(start, order)->Ok_0;
        let back = H::encoding(value.7, order)->Ok_0;
        let all = front + back + rest;
        assert(all =~= front + (back + rest));
        <(A, B, C, D, E, F, G) as Codec>::lemma_round_trip(start, order, back + rest);
        assert(all.skip(front.len() as int) =~= back + rest);
        H::lemma_round_trip(value.7, order, rest);
    }
}

impl<A, B, C, D, E, F, G, H, I> Serializeable for (A, B, C, D, E, F, G, H, I) where
    A: Serializeable,
    B: Serializeable,
    C: Serializeable,
    D: Serializeable,
    E: Serializeable,
    F: Serializeable,
    G: Serializeable,
    H: Serializeable,
    I: Serializeable,
 {
    open spec fn encoding(
        value: (A::V, B::V, C::V, D::V, E::V, F::V, G::V, H::V, I::V),
        order: ByteOrder,
    ) -> Result<Seq<u8>, Invalid> {
        then_encoding(
            <(A, B, C, D, E, F, G, H) as Serializeable>::encoding(
                (value.0, value.1, value.2, value.3, value.4, value.5, value.6, value.7),
                order,
            ),
            I::encoding(value.8, order),
        )
    }

    fn serialize<W: DataOutput>(&self, output: &mut W) -> (r: Result<(), Error>) {
        let ghost start = output.written();
        let ghost order = output.order();
        let ghost mut done: Result<Seq<u8>, Invalid> = Ok(Seq::empty());
        assert(start + Seq::<u8>::empty() =~= start);
        let r: Result<(), Error> = Ok(());
        let r = write_after(r, &self.0, output, Ghost(start), Ghost(done));
        proof {
            done = then_encoding(done, A::encoding(self.0.deep_view(), order));
        }
        let r = write_after(r, &self.1, output, Ghost(start), Ghost(done));
        proof {
            done = then_encoding(done, B::encoding(self.1.deep_view(), order));
        }
        let r = write_after(r, &self.2, output, Ghost(start), Ghost(done));
        proof {
            done = then_encoding(done, C::encoding(self.2.deep_view(), order));
        }
        let r = write_after(r, &self.3, output, Ghost(start), Ghost(done));
        proof {
            done = then_encoding(done, D::encoding(self.3.deep_view(), order));
        }
        let r = write_after(r, &self.4, output, Ghost(start), Ghost(done));
        proof {
            done = then_encoding(done, E::encoding(self.4.deep_view(), order));
        }
        let r = write_after(r, &self.5, output, Ghost(start), Ghost(done));
        proof {
            done = then_encoding(done, F::encoding(self.5.deep_view(), order));
        }
        let r = write_after(r, &self.6, output, Ghost(start), Ghost(done));
        proof {
            done = then_encoding(done, G::encoding(self.6.deep_view(), order));
        }
        let r = write_after(r, &self.7, output, Ghost(start), Ghost(done));
        proof {
            done = then_encoding(done, H::encoding(self.7.deep_view(), order));
        }
        let r = write_after(r, &self.8, output, Ghost(start), Ghost(done));
        proof {
            done = then_encoding(done, I::encoding(self.8.deep_view(), order));
        }
        r
    }
}

impl<A, B, C, D, E, F, G, H, I> Deserializeable for (A, B, C, D, E, F, G, H, I) where
    A: Deserializeable,
    B: Deserializeable,
    C: Deserializeable,
    D: Deserializeable,
    E: Deserializeable,
    F: Deserializeable,
    G: Deserializeable,
    H: Deserializeable,
    I: Deserializeable,
 {
    open spec fn decoding_into(
        current: (A::V, B::V, C::V, D::V, E::V, F::V, G::V, H::V, I::V),
        bytes: Seq<u8>,
        order: ByteOrder,
    ) -> Decoded<(A::V, B::V, C::V, D::V, E::V, F::V, G::V, H::V, I::V)> {
        match <(A, B, C, D, E, F, G, H) as Deserializeable>::decoding_into(
            (
                current.0,
                current.1,
                current.2,
                current.3,
                current.4,
                current.5,
                current.6,
                current.7,
            ),
            bytes,
            order,
        ) {
            Decoded::Failed(e) => Decoded::Failed(e),
            Decoded::Value(front, used) => match I::decoding_into(
                current.8,
                bytes.skip(used as int),
                order,
            ) {
                Decoded::Failed(e) => Decoded::Failed(e),
                Decoded::Value(last, more) => Decoded::Value(
                    (front.0, front.1, front.2, front.3, front.4, front.5, front.6, front.7, last),
                    used + more,
                ),
            },
        }
    }

    fn deserialize<R: DataInput>(&mut self, input: &mut R) -> (r: Result<(), Error>) {
        let ghost bytes = input.remaining();
        let ghost order = input.order();
        let ghost mut used: nat = 0;
        assert(bytes.skip(0) =~= bytes);
        match self.0.deserialize(input) {
            Ok(()) => {},
            Err(e) => {
                return Err(e);
            },
        }
        proof {
            let more = A::decoding_into(
                old(self).0.deep_view(),
                bytes.skip(used as int),
                order,
            )->Value_1;
            assert(bytes.skip(used as int).skip(more as int) =~= bytes.skip((used + more) as int));
            used = used + more;
        }
        match self.1.deserialize(input) {
            Ok(()) => {},
            Err(e) => {
                return Err(e);
            },
        }
        proof {
            let more = B::decoding_into(
                old(self).1.deep_view(),
                bytes.skip(used as int),
                order,
            )->Value_1;
            assert(bytes.skip(used as int).skip(more as int) =~= bytes.skip((used + more) as int));
            used = used + more;
        }
        match self.2.deserialize(input) {
            Ok(()) => {},
            Err(e) => {
                return Err(e);
            },
        }
        proof {
            let more = C::decoding_into(
                old(self).2.deep_view(),
                bytes.skip(used as int),
                order,
            )->Value_1;
            assert(bytes.skip(used as int).skip(more as int) =~= bytes.skip((used + more) as int));
            used = used + more;
        }
        match self.3.deserialize(input) {
            Ok(()) => {},
            Err(e) => {
                return Err(e);
            },
        }
        proof {
            let more = D::decoding_into(
                old(self).3.deep_view(),
                bytes.skip(used as int),
                order,
            )->Value_1;
            assert(bytes.skip(used as int).skip(more as int) =~= bytes.skip((used + more) as int));
            used = used + more;
        }
        match self.4.deserialize(input) {
            Ok(()) => {},
            Err(e) => {
                return Err(e);
            },
        }
        proof {
            let more = E::decoding_into(
                old(self).4.deep_view(),
                bytes.skip(used as int),
                order,
            )->Value_1;
            assert(bytes.skip(used as int).skip(more as int) =~= bytes.skip((used + more) as int));
            used = used + more;
        }
        match self.5.deserialize(input) {
            Ok(()) => {},
            Err(e) => {
                return Err(e);
            },
        }
        proof {
            let more = F::decoding_into(
                old(self).5.deep_view(),
                bytes.skip(used as int),
                order,
            )->Value_1;
            assert(bytes.skip(used as int).skip(more as int) =~= bytes.skip((used + more) as int));
            used = used + more;
        }
        match self.6.deserialize(input) {
            Ok(()) => {},
            Err(e) => {
                return Err(e);
            },
        }
        proof {
            let more = G::decoding_into(
                old(self).6.deep_view(),
                bytes.skip(used as int),
                order,
            )->Value_1;
            assert(bytes.skip(used as int).skip(more as int) =~= bytes.skip((used + more) as int));
            used = used + more;
        }
        match self.7.deserialize(input) {
            Ok(()) => {},
            Err(e) => {
                return Err(e);
            },
        }
        proof {
            let more = H::decoding_into(
                old(self).7.deep_view(),
                bytes.skip(used as int),
                order,
            )->Value_1;
            assert(bytes.skip(used as int).skip(more as int) =~= bytes.skip((used + more) as int));
            used = used + more;
        }
        match self.8.deserialize(input) {
            Ok(()) => {},
            Err(e) => {
                return Err(e);
            },
        }
        proof {
            let more = I::decoding_into(
                old(self).8.deep_view(),
                bytes.skip(used as int),
                order,
            )->Value_1;
            assert(bytes.skip(used as int).skip(more as int) =~= bytes.skip((used + more) as int));
            used = used + more;
        }
        Ok(())
    }
}

impl<A, B, C, D, E, F, G, H, I> DeserializeCopy for (A, B, C, D, E, F, G, H, I) where
    A: DeserializeCopy,
    B: DeserializeCopy,
    C: DeserializeCopy,
    D: DeserializeCopy,
    E: DeserializeCopy,
    F: DeserializeCopy,
    G: DeserializeCopy,
    H: DeserializeCopy,
    I: DeserializeCopy,
 {
    open spec fn decoding(bytes: Seq<u8>, order: ByteOrder) -> Decoded<(
        A::V,
        B::V,
        C::V,
        D::V,
        E::V,
        F::V,
        G::V,
        H::V,
        I::V,
    )> {
        match <(A, B, C, D, E, F, G, H) as DeserializeCopy>::decoding(bytes, order) {
            Decoded::Failed(e) => Decoded::Failed(e),
            Decoded::Value(front, used) => match I::decoding(bytes.skip(used as int), order) {
                Decoded::Failed(e) => Decoded::Failed(e),
                Decoded::Value(last, more) => Decoded::Value(
                    (front.0, front.1, front.2, front.3, front.4, front.5, front.6, front.7, last),
                    used + more,
                ),
            },
        }
    }

    proof fn lemma_decoding_fits(bytes: Seq<u8>, order: ByteOrder) {
        <(A, B, C, D, E, F, G, H) as DeserializeCopy>::lemma_decoding_fits(bytes, order);
        match <(A, B, C, D, E, F, G, H) as DeserializeCopy>::decoding(bytes, order) {
            Decoded::Failed(e) => {},
            Decoded::Value(front, used) => {
                I::lemma_decoding_fits(bytes.skip(used as int), order);
            },
        }
    }

    fn deserialize_copy<R: DataInput>(input: &mut R) -> (r: Result<Self, Error>) {
        let ghost bytes = input.remaining();
        let ghost order = input.order();
        let front = match <(A, B, C, D, E, F, G, H) as DeserializeCopy>::deserialize_copy(input) {
            Ok(front) => front,
            Err(e) => {
                return Err(e);
            },
        };
        let ghost used = <(A, B, C, D, E, F, G, H) as DeserializeCopy>::decoding(bytes, order)->Value_1;
        match I::deserialize_copy(input) {
            Ok(last) => {
                proof {
                    let more = I::decoding(bytes.skip(used as int), order)->Value_1;
                    assert(bytes.skip(used as int).skip(more as int) =~= bytes.skip(
                        (used + more) as int,
                    ));
                }
                Ok((front.0, front.1, front.2, front.3, front.4, front.5, front.6, front.7, last))
            },
            Err(e) => Err(e),
        }
    }
}

impl<A, B, C, D, E, F, G, H, I> Codec for (A, B, C, D, E, F, G, H, I) where
    A: Codec,
    B: Codec,
    C: Codec,
    D: Codec,
    E: Codec,
    F: Codec,
    G: Codec,
    H: Codec,
    I: Codec,
 {
    open spec fn valid(value: (A::V, B::V, C::V, D::V, E::V, F::V, G::V, H::V, I::V)) -> bool {
        <(A, B, C, D, E, F, G, H) as Codec>::valid((
            value.0,
            value.1,
            value.2,
            value.3,
            value.4,
            value.5,
            value.6,
            value.7,
        )) && I::valid(value.8)
    }

    proof fn lemma_round_trip(
        value: (A::V, B::V, C::V, D::V, E::V, F::V, G::V, H::V, I::V),
        order: ByteOrder,
        rest: Seq<u8>,
    ) {
        let start = (value.0, value.1, value.2, value.3, value.4, value.5, value.6, value.7);
        let front = <(A, B, C, D, E, F, G, H) as Serializeable>::encoding(start, order)->Ok_0;
        let back = I::encoding(value.8, order)->Ok_0;
        let all = front + back + rest;
        assert(all =~= front + (back + rest));
        <(A, B, C, D, E, F, G, H) as Codec>::lemma_round_trip(start, order, back + rest);
        assert(all.skip(front.len() as int) =~= back + rest);
        I::lemma_round_trip(value.8, order, rest);
    }
}

impl<A, B, C, D, E, F, G, H, I, J> Serializeable for (A, B, C, D, E, F, G, H, I, J) where
    A: Serializeable,
    B: Serializeable,
    C: Serializeable,
    D: Serializeable,
    E: Serializeable,
    F: Serializeable,
    G: Serializeable,
    H: Serializeable,
    I: Serializeable,
    J: Serializeable,
 {
    open spec fn encoding(
        value: (A::V, B::V, C::V, D::V, E::V, F::V, G::V, H::V, I::V, J::V),
        order: ByteOrder,
    ) -> Result<Seq<u8>, Invalid> {
        then_encoding(
            <(A, B, C, D, E, F, G, H, I) as Serializeable>::encoding(
                (value.0, value.1, value.2, value.3, value.4, value.5, value.6, value.7, value.8),
                order,
            ),
            J::encoding(value.9, order),
        )
    }

    fn serialize<W: DataOutput>(&self, output: &mut W) -> (r: Result<(), Error>) {
        let ghost start = output.written();
        let ghost order = output.order();
        let ghost mut done: Result<Seq<u8>, Invalid> = Ok(Seq::empty());
        assert(start + Seq::<u8>::empty() =~= start);
        let r: Result<(), Error> = Ok(());
        let r = write_after(r, &self.0, output, Ghost(start), Ghost(done));
        proof {
            done = then_encoding(done, A::encoding(self.0.deep_view(), order));
        }
        let r = write_after(r, &self.1, output, Ghost(start), Ghost(done));
        proof {
            done = then_encoding(done, B::encoding(self.1.deep_view(), order));
        }
        let r = write_after(r, &self.2, output, Ghost(start), Ghost(done));
        proof {
            done = then_encoding(done, C::encoding(self.2.deep_view(), order));
        }
        let r = write_after(r, &self.3, output, Ghost(start), Ghost(done));
        proof {
            done = then_encoding(done, D::encoding(self.3.deep_view(), order));
        }
        let r = write_after(r, &self.4, output, Ghost(start), Ghost(done));
        proof {
            done = then_encoding(done, E::encoding(self.4.deep_view(), order));
        }
        let r = write_after(r, &self.5, output, Ghost(start), Ghost(done));
        proof {
            done = then_encoding(done, F::encoding(self.5.deep_view(), order));
        }
        let r = write_after(r, &self.6, output, Ghost(start), Ghost(done));
        proof {
            done = then_encoding(done, G::encoding(self.6.deep_view(), order));
        }
        let r = write_after(r, &self.7, output, Ghost(start), Ghost(done));
        proof {
            done = then_encoding(done, H::encoding(self.7.deep_view(), order));
        }
        let r = write_after(r, &self.8, output, Ghost(start), Ghost(done));
        proof {
            done = then_encoding(done, I::encoding(self.8.deep_view(), order));
        }
        let r = write_after(r, &self.9, output, Ghost(start), Ghost(done));
        proof {
            done = then_encoding(done, J::encoding(self.9.deep_view(), order));
        }
        r
    }
}

impl<A, B, C, D, E, F, G, H, I, J> Deserializeable for (A, B, C, D, E, F, G, H, I, J) where
    A: Deserializeable,
    B: Deserializeable,
    C: Deserializeable,
    D: Deserializeable,
    E: Deserializeable,
    F: Deserializeable,
    G: Deserializeable,
    H: Deserializeable,
    I: Deserializeable,
    J: Deserializeable,
 {
    open spec fn decoding_into(
        current: (A::V, B::V, C::V, D::V, E::V, F::V, G::V, H::V, I::V, J::V),
        bytes: Seq<u8>,
        order: ByteOrder,
    ) -> Decoded<(A::V, B::V, C::V, D::V, E::V, F::V, G::V, H::V, I::V, J::V)> {
        match <(A, B, C, D, E, F, G, H, I) as Deserializeable>::decoding_into(
            (
                current.0,
                current.1,
                current.2,
                current.3,
                current.4,
                current.5,
                current.6,
                current.7,
                current.8,
            ),
            bytes,
            order,
        ) {
            Decoded::Failed(e) => Decoded::Failed(e),
            Decoded::Value(front, used) => match J::decoding_into(
                current.9,
                bytes.skip(used as int),
                order,
            ) {
                Decoded::Failed(e) => Decoded::Failed(e),
                Decoded::Value(last, more) => Decoded::Value(
                    (
                        front.0,
                        front.1,
                        front.2,
                        front.3,
                        front.4,
                        front.5,
                        front.6,
                        front.7,
                        front.8,
                        last,
                    ),
                    used + more,
                ),
            },
        }
    }

    fn deserialize<R: DataInput>(&mut self, input: &mut R) -> (r: Result<(), Error>) {
        let ghost bytes = input.remaining();
        let ghost order = input.order();
        let ghost mut used: nat = 0;
        assert(bytes.skip(0) =~= bytes);
        match self.0.deserialize(input) {
            Ok(()) => {},
            Err(e) => {
                return Err(e);
            },
        }
        proof {
            let more = A::decoding_into(
                old(self).0.deep_view(),
                bytes.skip(used as int),
                order,
            )->Value_1;
            assert(bytes.skip(used as int).skip(more as int) =~= bytes.skip((used + more) as int));
            used = used + more;
        }
        match self.1.deserialize(input) {
            Ok(()) => {},
            Err(e) => {
                return Err(e);
            },
        }
        proof {
            let more = B::decoding_into(
                old(self).1.deep_view(),
                bytes.skip(used as int),
                order,
            )->Value_1;
            assert(bytes.skip(used as int).skip(more as int) =~= bytes.skip((used + more) as int));
            used = used + more;
        }
        match self.2.deserialize(input) {
            Ok(()) => {},
            Err(e) => {
                return Err(e);
            },
        }
        proof {
            let more = C::decoding_into(
                old(self).2.deep_view(),
                bytes.skip(used as int),
                order,
            )->Value_1;
            assert(bytes.skip(used as int).skip(more as int) =~= bytes.skip((used + more) as int));
            used = used + more;
        }
        match self.3.deserialize(input) {
            Ok(()) => {},
            Err(e) => {
                return Err(e);
            },
        }
        proof {
            let more = D::decoding_into(
                old(self).3.deep_view(),
                bytes.skip(used as int),
                order,
            )->Value_1;
            assert(bytes.skip(used as int).skip(more as int) =~= bytes.skip((used + more) as int));
            used = used + more;
        }
        match self.4.deserialize(input) {
            Ok(()) => {},
            Err(e) => {
                return Err(e);
            },
        }
        proof {
            let more = E::decoding_into(
                old(self).4.deep_view(),
                bytes.skip(used as int),
                order,
            )->Value_1;
            assert(bytes.skip(used as int).skip(more as int) =~= bytes.skip((used + more) as int));
            used = used + more;
        }
        match self.5.deserialize(input) {
            Ok(()) => {},
            Err(e) => {
                return Err(e);
            },
        }
        proof {
            let more = F::decoding_into(
                old(self).5.deep_view(),
                bytes.skip(used as int),
                order,
            )->Value_1;
            assert(bytes.skip(used as int).skip(more as int) =~= bytes.skip((used + more) as int));
            used = used + more;
        }
        match self.6.deserialize(input) {
            Ok(()) => {},
            Err(e) => {
                return Err(e);
            },
        }
        proof {
            let more = G::decoding_into(
                old(self).6.deep_view(),
                bytes.skip(used as int),
                order,
            )->Value_1;
            assert(bytes.skip(used as int).skip(more as int) =~= bytes.skip((used + more) as int));
            used = used + more;
        }
        match self.7.deserialize(input) {
            Ok(()) => {},
            Err(e) => {
                return Err(e);
            },
        }
        proof {
            let more = H::decoding_into(
                old(self).7.deep_view(),
                bytes.skip(used as int),
                order,
            )->Value_1;
            assert(bytes.skip(used as int).skip(more as int) =~= bytes.skip((used + more) as int));
            used = used + more;
        }
        match self.8.deserialize(input) {
            Ok(()) => {},
            Err(e) => {
                return Err(e);
            },
        }
        proof {
            let more = I::decoding_into(
                old(self).8.deep_view(),
                bytes.skip(used as int),
                order,
            )->Value_1;
            assert(bytes.skip(used as int).skip(more as int) =~= bytes.skip((used + more) as int));
            used = used + more;
        }
        match self.9.deserialize(input) {
            Ok(()) => {},
            Err(e) => {
                return Err(e);
            },
        }
        proof {
            let more = J::decoding_into(
                old(self).9.deep_view(),
                bytes.skip(used as int),
                order,
            )->Value_1;
            assert(bytes.skip(used as int).skip(more as int) =~= bytes.skip((used + more) as int));
            used = used + more;
        }
        Ok(())
    }
}

impl<A, B, C, D, E, F, G, H, I, J> DeserializeCopy for (A, B, C, D, E, F, G, H, I, J) where
    A: DeserializeCopy,
    B: DeserializeCopy,
    C: DeserializeCopy,
    D: DeserializeCopy,
    E: DeserializeCopy,
    F: DeserializeCopy,
    G: DeserializeCopy,
    H: DeserializeCopy,
    I: DeserializeCopy,
    J: DeserializeCopy,
 {
    open spec fn decoding(bytes: Seq<u8>, order: ByteOrder) -> Decoded<(
        A::V,
        B::V,
        C::V,
        D::V,
        E::V,
        F::V,
        G::V,
        H::V,
        I::V,
        J::V,
    )> {
        match <(A, B, C, D, E, F, G, H, I) as DeserializeCopy>::decoding(bytes, order) {
            Decoded::Failed(e) => Decoded::Failed(e),
            Decoded::Value(front, used) => match J::decoding(bytes.skip(used as int), order) {
                Decoded::Failed(e) => Decoded::Failed(e),
                Decoded::Value(last, more) => Decoded::Value(
                    (
                        front.0,
                        front.1,
                        front.2,
                        front.3,
                        front.4,
                        front.5,
                        front.6,
                        front.7,
                        front.8,
                        last,
                    ),
                    used + more,
                ),
            },
        }
    }

    proof fn lemma_decoding_fits(bytes: Seq<u8>, order: ByteOrder) {
        <(A, B, C, D, E, F, G, H, I) as DeserializeCopy>::lemma_decoding_fits(bytes, order);
        match <(A, B, C, D, E, F, G, H, I) as DeserializeCopy>::decoding(bytes, order) {
            Decoded::Failed(e) => {},
            Decoded::Value(front, used) => {
                J::lemma_decoding_fits(bytes.skip(used as int), order);
            },
        }
    }

    fn deserialize_copy<R: DataInput>(input: &mut R) -> (r: Result<Self, Error>) {
        let ghost bytes = input.remaining();
        let ghost order = input.order();
        let front = match <(A, B, C, D, E, F, G, H, I) as DeserializeCopy>::deserialize_copy(input) {
            Ok(front) => front,
            Err(e) => {
                return Err(e);
            },
        };
        let ghost used = <(A, B, C, D, E, F, G, H, I) as DeserializeCopy>::decoding(bytes, order)->Value_1;
        match J::deserialize_copy(input) {
            Ok(last) => {
                proof {
                    let more = J::decoding(bytes.skip(used as int), order)->Value_1;
                    assert(bytes.skip(used as int).skip(more as int) =~= bytes.skip(
                        (used + more) as int,
                    ));
                }
                Ok((
                    front.0,
                    front.1,
                    front.2,
                    front.3,
                    front.4,
                    front.5,
                    front.6,
                    front.7,
                    front.8,
                    last,
                ))
            },
            Err(e) => Err(e),
        }
    }
}

impl<A, B, C, D, E, F, G, H, I, J> Codec for (A, B, C, D, E, F, G, H, I, J) where
    A: Codec,
    B: Codec,
    C: Codec,
    D: Codec,
    E: Codec,
    F: Codec,
    G: Codec,
    H: Codec,
    I: Codec,
    J: Codec,
 {
    open spec fn valid(value: (
        A::V,
        B::V,
        C::V,
        D::V,
        E::V,
        F::V,
        G::V,
        H::V,
        I::V,
        J::V,
    )) -> bool {
        <(A, B, C, D, E, F, G, H, I) as Codec>::valid((
            value.0,
            value.1,
            value.2,
            value.3,
            value.4,
            value.5,
            value.6,
            value.7,
            value.8,
        )) && J::valid(value.9)
    }

    proof fn lemma_round_trip(
        value: (A::V, B::V, C::V, D::V, E::V, F::V, G::V, H::V, I::V, J::V),
        order: ByteOrder,
        rest: Seq<u8>,
    ) {
        let start = (
            value.0,
            value.1,
            value.2,
            value.3,
            value.4,
            value.5,
            value.6,
            value.7,
            value.8,
        );
        let front = <(A, B, C, D, E, F, G, H, I) as Serializeable>::encoding(start, order)->Ok_0;
        let back = J::encoding(value.9, order)->Ok_0;
        let all = front + back + rest;
        assert(all =~= front + (back + rest));
        <(A, B, C, D, E, F, G, H, I) as Codec>::lemma_round_trip(start, order, back + rest);
        assert(all.skip(front.len() as int) =~= back + rest);
        J::lemma_round_trip(value.9, order, rest);
    }
}

impl<A, B, C, D, E, F, G, H, I, J, K> Serializeable for (A, B, C, D, E, F, G, H, I, J, K) where
    A: Serializeable,
    B: Serializeable,
    C: Serializeable,
    D: Serializeable,
    E: Serializeable,
    F: Serializeable,
    G: Serializeable,
    H: Serializeable,
    I: Serializeable,
    J: Serializeable,
    K: Serializeable,
 {
    open spec fn encoding(
        value: (A::V, B::V, C::V, D::V, E::V, F::V, G::V, H::V, I::V, J::V, K::V),
        order: ByteOrder,
    ) -> Result<Seq<u8>, Invalid> {
        then_encoding(
            <(A, B, C, D, E, F, G, H, I, J) as Serializeable>::encoding(
                (
                    value.0,
                    value.1,
                    value.2,
                    value.3,
                    value.4,
                    value.5,
                    value.6,
                    value.7,
                    value.8,
                    value.9,
                ),
                order,
            ),
            K::encoding(value.10, order),
        )
    }

    fn serialize<W: DataOutput>(&self, output: &mut W) -> (r: Result<(), Error>) {
        let ghost start = output.written();
        let ghost order = output.order();
        let ghost mut done: Result<Seq<u8>, Invalid> = Ok(Seq::empty());
        assert(start + Seq::<u8>::empty() =~= start);
        let r: Result<(), Error> = Ok(());
        let r = write_after(r, &self.0, output, Ghost(start), Ghost(done));
        proof {
            done = then_encoding(done, A::encoding(self.0.deep_view(), order));
        }
        let r = write_after(r, &self.1, output, Ghost(start), Ghost(done));
        proof {
            done = then_encoding(done, B::encoding(self.1.deep_view(), order));
        }
        let r = write_after(r, &self.2, output, Ghost(start), Ghost(done));
        proof {
            done = then_encoding(done, C::encoding(self.2.deep_view(), order));
        }
        let r = write_after(r, &self.3, output, Ghost(start), Ghost(done));
        proof {
            done = then_encoding(done, D::encoding(self.3.deep_view(), order));
        }
        let r = write_after(r, &self.4, output, Ghost(start), Ghost(done));
        proof {
            done = then_encoding(done, E::encoding(self.4.deep_view(), order));
        }
        let r = write_after(r, &self.5, output, Ghost(start), Ghost(done));
        proof {
            done = then_encoding(done, F::encoding(self.5.deep_view(), order));
        }
        let r = write_after(r, &self.6, output, Ghost(start), Ghost(done));
        proof {
            done = then_encoding(done, G::encoding(self.6.deep_view(), order));
        }
        let r = write_after(r, &self.7, output, Ghost(start), Ghost(done));
        proof {
            done = then_encoding(done, H::encoding(self.7.deep_view(), order));
        }
        let r = write_after(r, &self.8, output, Ghost(start), Ghost(done));
        proof {
            done = then_encoding(done, I::encoding(self.8.deep_view(), order));
        }
        let r = write_after(r, &self.9, output, Ghost(start), Ghost(done));
        proof {
            done = then_encoding(done, J::encoding(self.9.deep_view(), order));
        }
        let r = write_after(r, &self.10, output, Ghost(start), Ghost(done));
        proof {
            done = then_encoding(done, K::encoding(self.10.deep_view(), order));
        }
        r
    }
}

impl<A, B, C, D, E, F, G, H, I, J, K> Deserializeable for (A, B, C, D, E, F, G, H, I, J, K) where
    A: Deserializeable,
    B: Deserializeable,
    C: Deserializeable,
    D: Deserializeable,
    E: Deserializeable,
    F: Deserializeable,
    G: Deserializeable,
    H: Deserializeable,
    I: Deserializeable,
    J: Deserializeable,
    K: Deserializeable,
 {
    open spec fn decoding_into(
        current: (A::V, B::V, C::V, D::V, E::V, F::V, G::V, H::V, I::V, J::V, K::V),
        bytes: Seq<u8>,
        order: ByteOrder,
    ) -> Decoded<(A::V, B::V, C::V, D::V, E::V, F::V, G::V, H::V, I::V, J::V, K::V)> {
        match <(A, B, C, D, E, F, G, H, I, J) as Deserializeable>::decoding_into(
            (
                current.0,
                current.1,
                current.2,
                current.3,
                current.4,
                current.5,
                current.6,
                current.7,
                current.8,
                current.9,
            ),
            bytes,
            order,
        ) {
            Decoded::Failed(e) => Decoded::Failed(e),
            Decoded::Value(front, used) => match K::decoding_into(
                current.10,
                bytes.skip(used as int),
                order,
            ) {
                Decoded::Failed(e) => Decoded::Failed(e),
                Decoded::Value(last, more) => Decoded::Value(
                    (
                        front.0,
                        front.1,
                        front.2,
                        front.3,
                        front.4,
                        front.5,
                        front.6,
                        front.7,
                        front.8,
                        front.9,
                        last,
                    ),
                    used + more,
                ),
            },
        }
    }

    fn deserialize<R: DataInput>(&mut self, input: &mut R) -> (r: Result<(), Error>) {
        let ghost bytes = input.remaining();
        let ghost order = input.order();
        let ghost mut used: nat = 0;
        assert(bytes.skip(0) =~= bytes);
        match self.0.deserialize(input) {
            Ok(()) => {},
            Err(e) => {
                return Err(e);
            },
        }
        proof {
            let more = A::decoding_into(
                old(self).0.deep_view(),
                bytes.skip(used as int),
                order,
            )->Value_1;
            assert(bytes.skip(used as int).skip(more as int) =~= bytes.skip((used + more) as int));
            used = used + more;
        }
        match self.1.deserialize(input) {
            Ok(()) => {},
            Err(e) => {
                return Err(e);
            },
        }
        proof {
            let more = B::decoding_into(
                old(self).1.deep_view(),
                bytes.skip(used as int),
                order,
            )->Value_1;
            assert(bytes.skip(used as int).skip(more as int) =~= bytes.skip((used + more) as int));
            used = used + more;
        }
        match self.2.deserialize(input) {
            Ok(()) => {},
            Err(e) => {
                return Err(e);
            },
        }
        proof {
            let more = C::decoding_into(
                old(self).2.deep_view(),
                bytes.skip(used as int),
                order,
            )->Value_1;
            assert(bytes.skip(used as int).skip(more as int) =~= bytes.skip((used + more) as int));
            used = used + more;
        }
        match self.3.deserialize(input) {
            Ok(()) => {},
            Err(e) => {
                return Err(e);
            },
        }
        proof {
            let more = D::decoding_into(
                old(self).3.deep_view(),
                bytes.skip(used as int),
                order,
            )->Value_1;
            assert(bytes.skip(used as int).skip(more as int) =~= bytes.skip((used + more) as int));
            used = used + more;
        }
        match self.4.deserialize(input) {
            Ok(()) => {},
            Err(e) => {
                return Err(e);
            },
        }
        proof {
            let more = E::decoding_into(
                old(self).4.deep_view(),
                bytes.skip(used as int),
                order,
            )->Value_1;
            assert(bytes.skip(used as int).skip(more as int) =~= bytes.skip((used + more) as int));
            used = used + more;
        }
        match self.5.deserialize(input) {
            Ok(()) => {},
            Err(e) => {
                return Err(e);
            },
        }
        proof {
            let more = F::decoding_into(
                old(self).5.deep_view(),
                bytes.skip(used as int),
                order,
            )->Value_1;
            assert(bytes.skip(used as int).skip(more as int) =~= bytes.skip((used + more) as int));
            used = used + more;
        }
        match self.6.deserialize(input) {
            Ok(()) => {},
            Err(e) => {
                return Err(e);
            },
        }
        proof {
            let more = G::decoding_into(
                old(self).6.deep_view(),
                bytes.skip(used as int),
                order,
            )->Value_1;
            assert(bytes.skip(used as int).skip(more as int) =~= bytes.skip((used + more) as int));
            used = used + more;
        }
        match self.7.deserialize(input) {
            Ok(()) => {},
            Err(e) => {
                return Err(e);
            },
        }
        proof {
            let more = H::decoding_into(
                old(self).7.deep_view(),
                bytes.skip(used as int),
                order,
            )->Value_1;
            assert(bytes.skip(used as int).skip(more as int) =~= bytes.skip((used + more) as int));
            used = used + more;
        }
        match self.8.deserialize(input) {
            Ok(()) => {},
            Err(e) => {
                return Err(e);
            },
        }
        proof {
            let more = I::decoding_into(
                old(self).8.deep_view(),
                bytes.skip(used as int),
                order,
            )->Value_1;
            assert(bytes.skip(used as int).skip(more as int) =~= bytes.skip((used + more) as int));
            used = used + more;
        }
        match self.9.deserialize(input) {
            Ok(()) => {},
            Err(e) => {
                return Err(e);
            },
        }
        proof {
            let more = J::decoding_into(
                old(self).9.deep_view(),
                bytes.skip(used as int),
                order,
            )->Value_1;
            assert(bytes.skip(used as int).skip(more as int) =~= bytes.skip((used + more) as int));
            used = used + more;
        }
        match self.10.deserialize(input) {
            Ok(()) => {},
            Err(e) => {
                return Err(e);
            },
        }
        proof {
            let more = K::decoding_into(
                old(self).10.deep_view(),
                bytes.skip(used as int),
                order,
            )->Value_1;
            assert(bytes.skip(used as int).skip(more as int) =~= bytes.skip((used + more) as int));
            used = used + more;
        }
        Ok(())
    }
}

impl<A, B, C, D, E, F, G, H, I, J, K> DeserializeCopy for (A, B, C, D, E, F, G, H, I, J, K) where
    A: DeserializeCopy,
    B: DeserializeCopy,
    C: DeserializeCopy,
    D: DeserializeCopy,
    E: DeserializeCopy,
    F: DeserializeCopy,
    G: DeserializeCopy,
    H: DeserializeCopy,
    I: DeserializeCopy,
    J: DeserializeCopy,
    K: DeserializeCopy,
 {
    open spec fn decoding(bytes: Seq<u8>, order: ByteOrder) -> Decoded<(
        A::V,
        B::V,
        C::V,
        D::V,
        E::V,
        F::V,
        G::V,
        H::V,
        I::V,
        J::V,
        K::V,
    )> {
        match <(A, B, C, D, E, F, G, H, I, J) as DeserializeCopy>::decoding(bytes, order) {
            Decoded::Failed(e) => Decoded::Failed(e),
            Decoded::Value(front, used) => match K::decoding(bytes.skip(used as int), order) {
                Decoded::Failed(e) => Decoded::Failed(e),
                Decoded::Value(last, more) => Decoded::Value(
                    (
                        front.0,
                        front.1,
                        front.2,
                        front.3,
                        front.4,
                        front.5,
                        front.6,
                        front.7,
                        front.8,
                        front.9,
                        last,
                    ),
                    used + more,
                ),
            },
        }
    }

    proof fn lemma_decoding_fits(bytes: Seq<u8>, order: ByteOrder) {
        <(A, B, C, D, E, F, G, H, I, J) as DeserializeCopy>::lemma_decoding_fits(bytes, order);
        match <(A, B, C, D, E, F, G, H, I, J) as DeserializeCopy>::decoding(bytes, order) {
            Decoded::Failed(e) => {},
            Decoded::Value(front, used) => {
                K::lemma_decoding_fits(bytes.skip(used as int), order);
            },
        }
    }

    fn deserialize_copy<R: DataInput>(input: &mut R) -> (r: Result<Self, Error>) {
        let ghost bytes = input.remaining();
        let ghost order = input.order();
        let front = match <(A, B, C, D, E, F, G, H, I, J) as DeserializeCopy>::deserialize_copy(input) {
            Ok(front) => front,
            Err(e) => {
                return Err(e);
            },
        };
        let ghost used = <(A, B, C, D, E, F, G, H, I, J) as DeserializeCopy>::decoding(bytes, order)->Value_1;
        match K::deserialize_copy(input) {
            Ok(last) => {
                proof {
                    let more = K::decoding(bytes.skip(used as int), order)->Value_1;
                    assert(bytes.skip(used as int).skip(more as int) =~= bytes.skip(
                        (used + more) as int,
                    ));
                }
                Ok((
                    front.0,
                    front.1,
                    front.2,
                    front.3,
                    front.4,
                    front.5,
                    front.6,
                    front.7,
                    front.8,
                    front.9,
                    last,
                ))
            },
            Err(e) => Err(e),
        }
    }
}

impl<A, B, C, D, E, F, G, H, I, J, K> Codec for (A, B, C, D, E, F, G, H, I, J, K) where
    A: Codec,
    B: Codec,
    C: Codec,
    D: Codec,
    E: Codec,
    F: Codec,
    G: Codec,
    H: Codec,
    I: Codec,
    J: Codec,
    K: Codec,
 {
    open spec fn valid(value: (
        A::V,
        B::V,
        C::V,
        D::V,
        E::V,
        F::V,
        G::V,
        H::V,
        I::V,
        J::V,
        K::V,
    )) -> bool {
        <(A, B, C, D, E, F, G, H, I, J) as Codec>::valid((
            value.0,
            value.1,
            value.2,
            value.3,
            value.4,
            value.5,
            value.6,
            value.7,
            value.8,
            value.9,
        )) && K::valid(value.10)
    }

    proof fn lemma_round_trip(
        value: (A::V, B::V, C::V, D::V, E::V, F::V, G::V, H::V, I::V, J::V, K::V),
        order: ByteOrder,
        rest: Seq<u8>,
    ) {
        let start = (
            value.0,
            value.1,
            value.2,
            value.3,
            value.4,
            value.5,
            value.6,
            value.7,
            value.8,
            value.9,
        );
        let front = <(A, B, C, D, E, F, G, H, I, J) as Serializeable>::encoding(start, order)->Ok_0;
        let back = K::encoding(value.10, order)->Ok_0;
        let all = front + back + rest;
        assert(all =~= front + (back + rest));
        <(A, B, C, D, E, F, G, H, I, J) as Codec>::lemma_round_trip(start, order, back + rest);
        assert(all.skip(front.len() as int) =~= back + rest);
        K::lemma_round_trip(value.10, order, rest);
    }
}

impl<A, B, C, D, E, F, G, H, I, J, K, L> Serializeable for (A, B, C, D, E, F, G, H, I, J, K, L) where
    A: Serializeable,
    B: Serializeable,
    C: Serializeable,
    D: Serializeable,
    E: Serializeable,
    F: Serializeable,
    G: Serializeable,
    H: Serializeable,
    I: Serializeable,
    J: Serializeable,
    K: Serializeable,
    L: Serializeable,
 {
    open spec fn encoding(
        value: (A::V, B::V, C::V, D::V, E::V, F::V, G::V, H::V, I::V, J::V, K::V, L::V),
        order: ByteOrder,
    ) -> Result<Seq<u8>, Invalid> {
        then_encoding(
            <(A, B, C, D, E, F, G, H, I, J, K) as Serializeable>::encoding(
                (
                    value.0,
                    value.1,
                    value.2,
                    value.3,
                    value.4,
                    value.5,
                    value.6,
                    value.7,
                    value.8,
                    value.9,
                    value.10,
                ),
                order,
            ),
            L::encoding(value.11, order),
        )
    }

    fn serialize<W: DataOutput>(&self, output: &mut W) -> (r: Result<(), Error>) {
        let ghost start = output.written();
        let ghost order = output.order();
        let ghost mut done: Result<Seq<u8>, Invalid> = Ok(Seq::empty());
        assert(start + Seq::<u8>::empty() =~= start);
        let r: Result<(), Error> = Ok(());
        let r = write_after(r, &self.0, output, Ghost(start), Ghost(done));
        proof {
            done = then_encoding(done, A::encoding(self.0.deep_view(), order));
        }
        let r = write_after(r, &self.1, output, Ghost(start), Ghost(done));
        proof {
            done = then_encoding(done, B::encoding(self.1.deep_view(), order));
        }
        let r = write_after(r, &self.2, output, Ghost(start), Ghost(done));
        proof {
            done = then_encoding(done, C::encoding(self.2.deep_view(), order));
        }
        let r = write_after(r, &self.3, output, Ghost(start), Ghost(done));
        proof {
            done = then_encoding(done, D::encoding(self.3.deep_view(), order));
        }
        let r = write_after(r, &self.4, output, Ghost(start), Ghost(done));
        proof {
            done = then_encoding(done, E::encoding(self.4.deep_view(), order));
        }
        let r = write_after(r, &self.5, output, Ghost(start), Ghost(done));
        proof {
            done = then_encoding(done, F::encoding(self.5.deep_view(), order));
        }
        let r = write_after(r, &self.6, output, Ghost(start), Ghost(done));
        proof {
            done = then_encoding(done, G::encoding(self.6.deep_view(), order));
        }
        let r = write_after(r, &self.7, output, Ghost(start), Ghost(done));
        proof {
            done = then_encoding(done, H::encoding(self.7.deep_view(), order));
        }
        let r = write_after(r, &self.8, output, Ghost(start), Ghost(done));
        proof {
            done = then_encoding(done, I::encoding(self.8.deep_view(), order));
        }
        let r = write_after(r, &self.9, output, Ghost(start), Ghost(done));
        proof {
            done = then_encoding(done, J::encoding(self.9.deep_view(), order));
        }
        let r = write_after(r, &self.10, output, Ghost(start), Ghost(done));
        proof {
            done = then_encoding(done, K::encoding(self.10.deep_view(), order));
        }
        let r = write_after(r, &self.11, output, Ghost(start), Ghost(done));
        proof {
            done = then_encoding(done, L::encoding(self.11.deep_view(), order));
        }
        r
    }
}

impl<A, B, C, D, E, F, G, H, I, J, K, L> Deserializeable for (A, B, C, D, E, F, G, H, I, J, K, L) where
    A: Deserializeable,
    B: Deserializeable,
    C: Deserializeable,
    D: Deserializeable,
    E: Deserializeable,
    F: Deserializeable,
    G: Deserializeable,
    H: Deserializeable,
    I: Deserializeable,
    J: Deserializeable,
    K: Deserializeable,
    L: Deserializeable,
 {
    open spec fn decoding_into(
        current: (A::V, B::V, C::V, D::V, E::V, F::V, G::V, H::V, I::V, J::V, K::V, L::V),
        bytes: Seq<u8>,
        order: ByteOrder,
    ) -> Decoded<(A::V, B::V, C::V, D::V, E::V, F::V, G::V, H::V, I::V, J::V, K::V, L::V)> {
        match <(A, B, C, D, E, F, G, H, I, J, K) as Deserializeable>::decoding_into(
            (
                current.0,
                current.1,
                current.2,
                current.3,
                current.4,
                current.5,
                current.6,
                current.7,
                current.8,
                current.9,
                current.10,
            ),
            bytes,
            order,
        ) {
            Decoded::Failed(e) => Decoded::Failed(e),
            Decoded::Value(front, used) => match L::decoding_into(
                current.11,
                bytes.skip(used as int),
                order,
            ) {
                Decoded::Failed(e) => Decoded::Failed(e),
                Decoded::Value(last, more) => Decoded::Value(
                    (
                        front.0,
                        front.1,
                        front.2,
                        front.3,
                        front.4,
                        front.5,
                        front.6,
                        front.7,
                        front.8,
                        front.9,
                        front.10,
                        last,
                    ),
                    used + more,
                ),
            },
        }
    }

    fn deserialize<R: DataInput>(&mut self, input: &mut R) -> (r: Result<(), Error>) {
        let ghost bytes = input.remaining();
        let ghost order = input.order();
        let ghost mut used: nat = 0;
        assert(bytes.skip(0) =~= bytes);
        match self.0.deserialize(input) {
            Ok(()) => {},
            Err(e) => {
                return Err(e);
            },
        }
        proof {
            let more = A::decoding_into(
                old(self).0.deep_view(),
                bytes.skip(used as int),
                order,
            )->Value_1;
            assert(bytes.skip(used as int).skip(more as int) =~= bytes.skip((used + more) as int));
            used = used + more;
        }
        match self.1.deserialize(input) {
            Ok(()) => {},
            Err(e) => {
                return Err(e);
            },
        }
        proof {
            let more = B::decoding_into(
                old(self).1.deep_view(),
                bytes.skip(used as int),
                order,
            )->Value_1;
            assert(bytes.skip(used as int).skip(more as int) =~= bytes.skip((used + more) as int));
            used = used + more;
        }
        match self.2.deserialize(input) {
            Ok(()) => {},
            Err(e) => {
                return Err(e);
            },
        }
        proof {
            let more = C::decoding_into(
                old(self).2.deep_view(),
                bytes.skip(used as int),
                order,
            )->Value_1;
            assert(bytes.skip(used as int).skip(more as int) =~= bytes.skip((used + more) as int));
            used = used + more;
        }
        match self.3.deserialize(input) {
            Ok(()) => {},
            Err(e) => {
                return Err(e);
            },
        }
        proof {
            let more = D::decoding_into(
                old(self).3.deep_view(),
                bytes.skip(used as int),
                order,
            )->Value_1;
            assert(bytes.skip(used as int).skip(more as int) =~= bytes.skip((used + more) as int));
            used = used + more;
        }
        match self.4.deserialize(input) {
            Ok(()) => {},
            Err(e) => {
                return Err(e);
            },
        }
        proof {
            let more = E::decoding_into(
                old(self).4.deep_view(),
                bytes.skip(used as int),
                order,
            )->Value_1;
            assert(bytes.skip(used as int).skip(more as int) =~= bytes.skip((used + more) as int));
            used = used + more;
        }
        match self.5.deserialize(input) {
            Ok(()) => {},
            Err(e) => {
                return Err(e);
            },
        }
        proof {
            let more = F::decoding_into(
                old(self).5.deep_view(),
                bytes.skip(used as int),
                order,
            )->Value_1;
            assert(bytes.skip(used as int).skip(more as int) =~= bytes.skip((used + more) as int));
            used = used + more;
        }
        match self.6.deserialize(input) {
            Ok(()) => {},
            Err(e) => {
                return Err(e);
            },
        }
        proof {
            let more = G::decoding_into(
                old(self).6.deep_view(),
                bytes.skip(used as int),
                order,
            )->Value_1;
            assert(bytes.skip(used as int).skip(more as int) =~= bytes.skip((used + more) as int));
            used = used + more;
        }
        match self.7.deserialize(input) {
            Ok(()) => {},
            Err(e) => {
                return Err(e);
            },
        }
        proof {
            let more = H::decoding_into(
                old(self).7.deep_view(),
                bytes.skip(used as int),
                order,
            )->Value_1;
            assert(bytes.skip(used as int).skip(more as int) =~= bytes.skip((used + more) as int));
            used = used + more;
        }
        match self.8.deserialize(input) {
            Ok(()) => {},
            Err(e) => {
                return Err(e);
            },
        }
        proof {
            let more = I::decoding_into(
                old(self).8.deep_view(),
                bytes.skip(used as int),
                order,
            )->Value_1;
            assert(bytes.skip(used as int).skip(more as int) =~= bytes.skip((used + more) as int));
            used = used + more;
        }
        match self.9.deserialize(input) {
            Ok(()) => {},
            Err(e) => {
                return Err(e);
            },
        }
        proof {
            let more = J::decoding_into(
                old(self).9.deep_view(),
                bytes.skip(used as int),
                order,
            )->Value_1;
            assert(bytes.skip(used as int).skip(more as int) =~= bytes.skip((used + more) as int));
            used = used + more;
        }
        match self.10.deserialize(input) {
            Ok(()) => {},
            Err(e) => {
                return Err(e);
            },
        }
        proof {
            let more = K::decoding_into(
                old(self).10.deep_view(),
                bytes.skip(used as int),
                order,
            )->Value_1;
            assert(bytes.skip(used as int).skip(more as int) =~= bytes.skip((used + more) as int));
            used = used + more;
        }
        match self.11.deserialize(input) {
            Ok(()) => {},
            Err(e) => {
                return Err(e);
            },
        }
        proof {
            let more = L::decoding_into(
                old(self).11.deep_view(),
                bytes.skip(used as int),
                order,
            )->Value_1;
            assert(bytes.skip(used as int).skip(more as int) =~= bytes.skip((used + more) as int));
            used = used + more;
        }
        Ok(())
    }
}

impl<A, B, C, D, E, F, G, H, I, J, K, L> DeserializeCopy for (A, B, C, D, E, F, G, H, I, J, K, L) where
    A: DeserializeCopy,
    B: DeserializeCopy,
    C: DeserializeCopy,
    D: DeserializeCopy,
    E: DeserializeCopy,
    F: DeserializeCopy,
    G: DeserializeCopy,
    H: DeserializeCopy,
    I: DeserializeCopy,
    J: DeserializeCopy,
    K: DeserializeCopy,
    L: DeserializeCopy,
 {
    open spec fn decoding(bytes: Seq<u8>, order: ByteOrder) -> Decoded<(
        A::V,
        B::V,
        C::V,
        D::V,
        E::V,
        F::V,
        G::V,
        H::V,
        I::V,
        J::V,
        K::V,
        L::V,
    )> {
        match <(A, B, C, D, E, F, G, H, I, J, K) as DeserializeCopy>::decoding(bytes, order) {
            Decoded::Failed(e) => Decoded::Failed(e),
            Decoded::Value(front, used) => match L::decoding(bytes.skip(used as int), order) {
                Decoded::Failed(e) => Decoded::Failed(e),
                Decoded::Value(last, more) => Decoded::Value(
                    (
                        front.0,
                        front.1,
                        front.2,
                        front.3,
                        front.4,
                        front.5,
                        front.6,
                        front.7,
                        front.8,
                        front.9,
                        front.10,
                        last,
                    ),
                    used + more,
                ),
            },
        }
    }

    proof fn lemma_decoding_fits(bytes: Seq<u8>, order: ByteOrder) {
        <(A, B, C, D, E, F, G, H, I, J, K) as DeserializeCopy>::lemma_decoding_fits(bytes, order);
        match <(A, B, C, D, E, F, G, H, I, J, K) as DeserializeCopy>::decoding(bytes, order) {
            Decoded::Failed(e) => {},
            Decoded::Value(front, used) => {
                L::lemma_decoding_fits(bytes.skip(used as int), order);
            },
        }
    }

    fn deserialize_copy<R: DataInput>(input: &mut R) -> (r: Result<Self, Error>) {
        let ghost bytes = input.remaining();
        let ghost order = input.order();
        let front = match <(A, B, C, D, E, F, G, H, I, J, K) as DeserializeCopy>::deserialize_copy(input) {
            Ok(front) => front,
            Err(e) => {
                return Err(e);
            },
        };
        let ghost used = <(A, B, C, D, E, F, G, H, I, J, K) as DeserializeCopy>::decoding(bytes, order)->Value_1;
        match L::deserialize_copy(input) {
            Ok(last) => {
                proof {
                    let more = L::decoding(bytes.skip(used as int), order)->Value_1;
                    assert(bytes.skip(used as int).skip(more as int) =~= bytes.skip(
                        (used + more) as int,
                    ));
                }
                Ok((
                    front.0,
                    front.1,
                    front.2,
                    front.3,
                    front.4,
                    front.5,
                    front.6,
                    front.7,
                    front.8,
                    front.9,
                    front.10,
                    last,
                ))
            },
            Err(e) => Err(e),
        }
    }
}

impl<A, B, C, D, E, F, G, H, I, J, K, L> Codec for (A, B, C, D, E, F, G, H, I, J, K, L) where
    A: Codec,
    B: Codec,
    C: Codec,
    D: Codec,
    E: Codec,
    F: Codec,
    G: Codec,
    H: Codec,
    I: Codec,
    J: Codec,
    K: Codec,
    L: Codec,
 {
    open spec fn valid(value: (
        A::V,
        B::V,
        C::V,
        D::V,
        E::V,
        F::V,
        G::V,
        H::V,
        I::V,
        J::V,
        K::V,
        L::V,
    )) -> bool {
        <(A, B, C, D, E, F, G, H, I, J, K) as Codec>::valid((
            value.0,
            value.1,
            value.2,
            value.3,
            value.4,
            value.5,
            value.6,
            value.7,
            value.8,
            value.9,
            value.10,
        )) && L::valid(value.11)
    }

    proof fn lemma_round_trip(
        value: (A::V, B::V, C::V, D::V, E::V, F::V, G::V, H::V, I::V, J::V, K::V, L::V),
        order: ByteOrder,
        rest: Seq<u8>,
    ) {
        let start = (
            value.0,
            value.1,
            value.2,
            value.3,
            value.4,
            value.5,
            value.6,
            value.7,
            value.8,
            value.9,
            value.10,
        );
        let front = <(A, B, C, D, E, F, G, H, I, J, K) as Serializeable>::encoding(start, order)->Ok_0;
        let back = L::encoding(value.11, order)->Ok_0;
        let all = front + back + rest;
        assert(all =~= front + (back + rest));
        <(A, B, C, D, E, F, G, H, I, J, K) as Codec>::lemma_round_trip(start, order, back + rest);
        assert(all.skip(front.len() as int) =~= back + rest);
        L::lemma_round_trip(value.11, order, rest);
    }
}

} // verus!
