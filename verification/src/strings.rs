//! Strings on the wire: the number of UTF-8 bytes as an unsigned 16-bit
//! number in the byte order of the stream, then the bytes.

use crate::data::{
    ByteOrder, Codec, DataInput, DataOutput, Decoded, DeserializeCopy, Deserializeable, Error,
    Invalid, Serializeable,
};
use crate::endian::{
    lemma_spans, lemma_unsigned_round_trip, read_bytes, read_unsigned, unsigned_bytes,
    unsigned_decoding, write_unsigned,
};
use vstd::prelude::*;
use vstd::utf8::{
    decode_utf8, encode_utf8, encode_utf8_decode_utf8, encode_utf8_valid_utf8, valid_utf8,
};

verus! {

/// The largest number of UTF-8 bytes that a string on the wire can have.
pub const MAX_STRING_BYTES: usize = 65535;

/// The bytes that stand for the string `chars`, or the reason why it has none.
pub open spec fn string_encoding(chars: Seq<char>, order: ByteOrder) -> Result<Seq<u8>, Invalid> {
    let body = encode_utf8(chars);
    if body.len() > MAX_STRING_BYTES {
        Err(Invalid::OutOfRange(body.len() as i128))
    } else {
        Ok(unsigned_bytes(body.len(), 2, order) + body)
    }
}

/// What reading a string makes of `bytes`.
pub open spec fn string_decoding(bytes: Seq<u8>, order: ByteOrder) -> Decoded<Seq<char>> {
    match unsigned_decoding(bytes, 2, order) {
        Decoded::Failed(e) => Decoded::Failed(e),
        Decoded::Value(count, _) => if bytes.len() < 2 + count {
            Decoded::Failed(Error::EndOfFile)
        } else {
            let body = bytes.subrange(2, 2 + count as int);
            if valid_utf8(body) {
                Decoded::Value(decode_utf8(body), 2 + count)
            } else {
                Decoded::Failed(Error::ValidationError(Invalid::BadUtf8))
            }
        },
    }
}

/// `String::from_utf8`: the string that `bytes` spell in UTF-8, and `None`
/// where they are not UTF-8.
#[verifier::external_body]
fn string_from_utf8(bytes: Vec<u8>) -> (r: Option<String>)
    ensures
        r is Some <==> valid_utf8(bytes@),
        r is Some ==> r->Some_0@ == decode_utf8(bytes@),
{
    String::from_utf8(bytes).ok()
}

/// Whether two strings hold the same characters.
pub fn same_text(a: &str, b: &str) -> (same: bool)
    ensures
        same == (a@ == b@),
{
    let x = a.as_bytes();
    let y = b.as_bytes();
    proof {
        encode_utf8_decode_utf8(a@);
        encode_utf8_decode_utf8(b@);
    }
    if x.len() != y.len() {
        return false;
    }
    let n = x.len();
    let mut i: usize = 0;
    while i < n
        invariant
            i <= n,
            n == x@.len(),
            n == y@.len(),
            x@ == encode_utf8(a@),
            y@ == encode_utf8(b@),
            forall|k: int| 0 <= k < i ==> x@[k] == y@[k],
        decreases n - i,
    {
        if x[i] != y[i] {
            return false;
        }
        i = i + 1;
    }
    assert(x@ =~= y@);
    true
}

/// Reads a string from `input`.
pub fn read_string<R: DataInput>(input: &mut R) -> (r: Result<String, Error>)
    ensures
        final(input).order() == old(input).order(),
        match string_decoding(old(input).remaining(), old(input).order()) {
            Decoded::Value(chars, used) => r is Ok && r->Ok_0@ == chars
                && final(input).remaining() == old(input).remaining().skip(used as int),
            Decoded::Failed(e) => r is Err && r->Err_0 == e,
        },
{
    proof {
        lemma_spans();
    }
    let count = match read_unsigned(input, 2) {
        Ok(count) => count as usize,
        Err(e) => {
            return Err(e);
        },
    };
    let ghost after_count = input.remaining();
    let body = match read_bytes(input, count) {
        Ok(body) => body,
        Err(e) => {
            return Err(e);
        },
    };
    proof {
        assert(body@ =~= old(input).remaining().subrange(2, 2 + count as int));
        assert(input.remaining() =~= old(input).remaining().skip(2 + count as int));
    }
    match string_from_utf8(body) {
        Some(s) => Ok(s),
        None => Err(Error::validation_error(Invalid::BadUtf8)),
    }
}

impl Serializeable for String {
    open spec fn encoding(value: Seq<char>, order: ByteOrder) -> Result<Seq<u8>, Invalid> {
        string_encoding(value, order)
    }

    /// A string of more than 65,535 bytes is refused before anything is
    /// written.
    fn serialize<W: DataOutput>(&self, output: &mut W) -> (r: Result<(), Error>)
        ensures
            r is Err ==> final(output).written() == old(output).written(),
    {
        let body = self.as_str().as_bytes();
        let size = body.len();
        if size > MAX_STRING_BYTES {
            Err(Error::validation_error(Invalid::OutOfRange(size as i128)))
        } else {
            let _ = write_unsigned(output, size as u128, 2);
            let r = output.write_bytes(body);
            assert(output.written() =~= old(output).written() + (unsigned_bytes(
                size as nat,
                2,
                old(output).order(),
            ) + body@));
            r
        }
    }
}

impl Deserializeable for String {
    open spec fn decoding_into(current: Seq<char>, bytes: Seq<u8>, order: ByteOrder) -> Decoded<
        Seq<char>,
    > {
        string_decoding(bytes, order)
    }

    fn deserialize<R: DataInput>(&mut self, input: &mut R) -> (r: Result<(), Error>)
        ensures
            r is Err ==> final(self)@ == old(self)@,
    {
        match read_string(input) {
            Ok(s) => {
                *self = s;
                Ok(())
            },
            Err(e) => Err(e),
        }
    }
}

impl DeserializeCopy for String {
    open spec fn decoding(bytes: Seq<u8>, order: ByteOrder) -> Decoded<Seq<char>> {
        string_decoding(bytes, order)
    }

    proof fn lemma_decoding_fits(bytes: Seq<u8>, order: ByteOrder) {
    }

    fn deserialize_copy<R: DataInput>(input: &mut R) -> (r: Result<Self, Error>) {
        read_string(input)
    }
}

/// A string of at most 65,535 UTF-8 bytes is read back from its encoding.
pub proof fn lemma_string_round_trip(chars: Seq<char>, order: ByteOrder, rest: Seq<u8>)
    requires
        string_encoding(chars, order) is Ok,
    ensures
        string_decoding(string_encoding(chars, order)->Ok_0 + rest, order) == Decoded::Value(
            chars,
            string_encoding(chars, order)->Ok_0.len(),
        ),
{
    let body = encode_utf8(chars);
    let head = unsigned_bytes(body.len(), 2, order);
    let all = head + body + rest;
    lemma_spans();
    lemma_unsigned_round_trip(body.len(), 2, order);
    encode_utf8_valid_utf8(chars);
    encode_utf8_decode_utf8(chars);
    assert(all.take(2) =~= head);
    assert(all.subrange(2, 2 + body.len() as int) =~= body);
}

impl Codec for String {
    open spec fn valid(value: Seq<char>) -> bool {
        true
    }

    proof fn lemma_round_trip(value: Seq<char>, order: ByteOrder, rest: Seq<u8>) {
        lemma_string_round_trip(value, order, rest);
    }
}

} // verus!
