//! Integers as runs of bytes: base-256 digits in either byte order, and
//! two's complement for the signed types.

use crate::data::{ByteOrder, DataInput, DataOutput, Decoded, Error};
use vstd::prelude::*;

verus! {

/// The number of values that `width` bytes tell apart: 256 to the power `width`.
pub open spec fn span(width: nat) -> nat
    decreases width,
{
    if width == 0 {
        1
    } else {
        256 * span((width - 1) as nat)
    }
}

/// The `width` low base-256 digits of `value`, least significant first.
pub open spec fn digits(value: nat, width: nat) -> Seq<u8>
    decreases width,
{
    if width == 0 {
        Seq::empty()
    } else {
        seq![(value % 256) as u8] + digits(value / 256, (width - 1) as nat)
    }
}

/// The number that base-256 digits stand for, least significant first.
pub open spec fn number(digits: Seq<u8>) -> nat
    decreases digits.len(),
{
    if digits.len() == 0 {
        0
    } else {
        digits[0] as nat + 256 * number(digits.drop_first())
    }
}

/// The `width` bytes that stand for `value` in the given byte order.
pub open spec fn unsigned_bytes(value: nat, width: nat, order: ByteOrder) -> Seq<u8> {
    match order {
        ByteOrder::LittleEndian => digits(value, width),
        ByteOrder::BigEndian => digits(value, width).reverse(),
    }
}

/// The number that `bytes` stand for in the given byte order.
pub open spec fn unsigned_value(bytes: Seq<u8>, order: ByteOrder) -> nat {
    match order {
        ByteOrder::LittleEndian => number(bytes),
        ByteOrder::BigEndian => number(bytes.reverse()),
    }
}

/// The unsigned number with the bit pattern of `value` in two's complement
/// of `width` bytes.
pub open spec fn twos_complement(value: int, width: nat) -> nat {
    if value < 0 {
        (value + span(width)) as nat
    } else {
        value as nat
    }
}

/// The signed number whose two's complement of `width` bytes is `raw`.
pub open spec fn from_twos_complement(raw: nat, width: nat) -> int {
    if 2 * raw >= span(width) {
        raw - span(width)
    } else {
        raw as int
    }
}

/// The spans of the widths that the integer types have.
pub proof fn lemma_spans()
    ensures
        span(0) == 1,
        span(1) == 0x100,
        span(2) == 0x1_0000,
        span(4) == 0x1_0000_0000,
        span(8) == 0x1_0000_0000_0000_0000,
        span(16) == 0x1_0000_0000_0000_0000_0000_0000_0000_0000,
{
    reveal_with_fuel(span, 17);
}

/// A wider run of bytes tells more values apart.
pub proof fn lemma_span_grows(narrow: nat, wide: nat)
    requires
        narrow <= wide,
    ensures
        0 < span(narrow) <= span(wide),
    decreases wide,
{
    if wide == 0 {
    } else if narrow == wide {
        lemma_span_grows(0, (wide - 1) as nat);
    } else {
        lemma_span_grows(narrow, (wide - 1) as nat);
    }
}

/// `digits` yields as many digits as it is asked for.
pub proof fn lemma_digits_len(value: nat, width: nat)
    ensures
        digits(value, width).len() == width,
    decreases width,
{
    if width > 0 {
        lemma_digits_len(value / 256, (width - 1) as nat);
    }
}

/// Digits stand for a number below the span of their count.
pub proof fn lemma_number_bound(d: Seq<u8>)
    ensures
        number(d) < span(d.len()),
    decreases d.len(),
{
    if d.len() > 0 {
        lemma_number_bound(d.drop_first());
    }
}

/// The digits of a number that fits stand for that number.
pub proof fn lemma_number_of_digits(value: nat, width: nat)
    requires
        value < span(width),
    ensures
        number(digits(value, width)) == value,
    decreases width,
{
    if width > 0 {
        let rest = digits(value / 256, (width - 1) as nat);
        lemma_number_of_digits(value / 256, (width - 1) as nat);
        assert(digits(value, width).drop_first() =~= rest);
    }
}

/// The number that digits stand for has those digits.
pub proof fn lemma_digits_of_number(d: Seq<u8>)
    ensures
        digits(number(d), d.len()) == d,
    decreases d.len(),
{
    if d.len() > 0 {
        lemma_digits_of_number(d.drop_first());
        assert(number(d) / 256 == number(d.drop_first()));
        assert(digits(number(d), d.len()) =~= d);
    } else {
        assert(digits(number(d), d.len()) =~= d);
    }
}

/// Reversing a run of bytes twice gives the run.
pub proof fn lemma_reverse_twice(s: Seq<u8>)
    ensures
        s.reverse().reverse() == s,
{
    assert(s.reverse().reverse() =~= s);
}

/// An unsigned number that fits in `width` bytes is read back from its
/// bytes, in either byte order.
pub proof fn lemma_unsigned_round_trip(value: nat, width: nat, order: ByteOrder)
    requires
        value < span(width),
    ensures
        unsigned_bytes(value, width, order).len() == width,
        unsigned_value(unsigned_bytes(value, width, order), order) == value,
{
    lemma_digits_len(value, width);
    lemma_number_of_digits(value, width);
    lemma_reverse_twice(digits(value, width));
}

/// Bytes are written back from the number they stand for, in either byte
/// order, and that number fits in as many bytes.
pub proof fn lemma_bytes_round_trip(bytes: Seq<u8>, order: ByteOrder)
    ensures
        unsigned_value(bytes, order) < span(bytes.len()),
        unsigned_bytes(unsigned_value(bytes, order), bytes.len(), order) == bytes,
{
    match order {
        ByteOrder::LittleEndian => {
            lemma_number_bound(bytes);
            lemma_digits_of_number(bytes);
        },
        ByteOrder::BigEndian => {
            lemma_number_bound(bytes.reverse());
            lemma_digits_of_number(bytes.reverse());
            lemma_reverse_twice(bytes);
        },
    }
}

/// Two's complement of `width` bytes keeps every signed number of that
/// width apart, and is undone by `from_twos_complement`.
pub proof fn lemma_twos_complement_round_trip(value: int, width: nat)
    requires
        width > 0,
        -(span(width) as int) <= 2 * value < span(width),
    ensures
        twos_complement(value, width) < span(width),
        from_twos_complement(twos_complement(value, width), width) == value,
{
}

/// `from_twos_complement` yields a signed number of the width, and is undone
/// by `twos_complement`.
pub proof fn lemma_from_twos_complement_round_trip(raw: nat, width: nat)
    requires
        width > 0,
        raw < span(width),
    ensures
        -(span(width) as int) <= 2 * from_twos_complement(raw, width) < span(width),
        twos_complement(from_twos_complement(raw, width), width) == raw,
{
}

/// What reading an unsigned number of `width` bytes makes of `bytes`.
pub open spec fn unsigned_decoding(bytes: Seq<u8>, width: nat, order: ByteOrder) -> Decoded<nat> {
    if bytes.len() < width {
        Decoded::Failed(Error::EndOfFile)
    } else {
        Decoded::Value(unsigned_value(bytes.take(width as int), order), width)
    }
}

/// The elements of `bytes` from the last to the first.
pub fn reversed(bytes: &Vec<u8>) -> (r: Vec<u8>)
    ensures
        r@ == bytes@.reverse(),
{
    let n = bytes.len();
    let mut r: Vec<u8> = Vec::with_capacity(n);
    let mut i: usize = 0;
    while i < n
        invariant
            i <= n,
            n == bytes@.len(),
            r@.len() == i,
            forall|k: int| 0 <= k < i ==> r@[k] == bytes@[n - 1 - k],
        decreases n - i,
    {
        r.push(bytes[n - 1 - i]);
        i = i + 1;
    }
    assert(r@ =~= bytes@.reverse());
    r
}

/// The `width` low bytes of `value` in the given byte order.
pub fn encode_unsigned(value: u128, width: usize, order: ByteOrder) -> (bytes: Vec<u8>)
    ensures
        bytes@ == unsigned_bytes(value as nat, width as nat, order),
{
    let mut low_first: Vec<u8> = Vec::with_capacity(width);
    let mut rest: u128 = value;
    let mut i: usize = 0;
    while i < width
        invariant
            i <= width,
            low_first@ + digits(rest as nat, (width - i) as nat) == digits(
                value as nat,
                width as nat,
            ),
        decreases width - i,
    {
        let ghost before = low_first@;
        low_first.push((rest % 256) as u8);
        assert(low_first@ + digits((rest / 256) as nat, (width - i - 1) as nat) =~= before
            + digits(rest as nat, (width - i) as nat));
        rest = rest / 256;
        i = i + 1;
    }
    assert(low_first@ =~= digits(value as nat, width as nat));
    match order {
        ByteOrder::LittleEndian => low_first,
        ByteOrder::BigEndian => reversed(&low_first),
    }
}

/// The number that at most sixteen bytes stand for in the given byte order.
pub fn decode_unsigned(bytes: &[u8], order: ByteOrder) -> (value: u128)
    requires
        bytes@.len() <= 16,
    ensures
        value == unsigned_value(bytes@, order),
{
    let n = bytes.len();
    let mut value: u128 = 0;
    let mut i: usize = 0;
    proof {
        lemma_spans();
    }
    match order {
        ByteOrder::BigEndian => {
            while i < n
                invariant
                    i <= n,
                    n == bytes@.len(),
                    n <= 16,
                    span(16) == 0x1_0000_0000_0000_0000_0000_0000_0000_0000,
                    value == number(bytes@.take(i as int).reverse()),
                decreases n - i,
            {
                proof {
                    let next = bytes@.take(i + 1).reverse();
                    assert(next.drop_first() =~= bytes@.take(i as int).reverse());
                    assert(next[0] == bytes@[i as int]);
                    lemma_number_bound(next);
                    lemma_span_grows((i + 1) as nat, 16);
                }
                value = value * 256 + bytes[i] as u128;
                i = i + 1;
            }
            assert(bytes@.take(n as int) =~= bytes@);
        },
        ByteOrder::LittleEndian => {
            while i < n
                invariant
                    i <= n,
                    n == bytes@.len(),
                    n <= 16,
                    span(16) == 0x1_0000_0000_0000_0000_0000_0000_0000_0000,
                    value == number(bytes@.skip(n - i)),
                decreases n - i,
            {
                proof {
                    let next = bytes@.skip(n - i - 1);
                    assert(next.drop_first() =~= bytes@.skip(n - i));
                    assert(next[0] == bytes@[n - i - 1]);
                    lemma_number_bound(next);
                    lemma_span_grows((i + 1) as nat, 16);
                }
                value = value * 256 + bytes[n - 1 - i] as u128;
                i = i + 1;
            }
            assert(bytes@.skip(0) =~= bytes@);
        },
    }
    value
}

/// The largest unsigned number of `width` bytes.
pub fn max_unsigned(width: usize) -> (max: u128)
    requires
        1 <= width <= 16,
    ensures
        max == span(width as nat) - 1,
{
    let mut max: u128 = 0;
    let mut i: usize = 0;
    proof {
        lemma_spans();
    }
    while i < width
        invariant
            i <= width <= 16,
            span(16) == 0x1_0000_0000_0000_0000_0000_0000_0000_0000,
            max == span(i as nat) - 1,
        decreases width - i,
    {
        proof {
            lemma_span_grows((i + 1) as nat, 16);
        }
        max = max * 256 + 255;
        i = i + 1;
    }
    max
}

/// The unsigned number with the bit pattern of `value` in `width` bytes.
pub fn signed_to_raw(value: i128, width: usize) -> (raw: u128)
    requires
        1 <= width <= 16,
        -(span(width as nat) as int) <= 2 * value < span(width as nat),
    ensures
        raw == twos_complement(value as int, width as nat),
        raw < span(width as nat),
{
    if value >= 0 {
        value as u128
    } else {
        let max = max_unsigned(width);
        max - ((-(value + 1)) as u128)
    }
}

/// The signed number with the bit pattern of `raw` in `width` bytes.
pub fn raw_to_signed(raw: u128, width: usize) -> (value: i128)
    requires
        1 <= width <= 16,
        raw < span(width as nat),
    ensures
        value == from_twos_complement(raw as nat, width as nat),
        -(span(width as nat) as int) <= 2 * value < span(width as nat),
{
    let max = max_unsigned(width);
    proof {
        lemma_span_grows(1, width as nat);
        lemma_span_grows(width as nat, 16);
        lemma_spans();
    }
    if raw > max / 2 {
        -((max - raw) as i128) - 1
    } else {
        raw as i128
    }
}

/// Writes the `width` low bytes of `value` in the byte order of `output`.
pub fn write_unsigned<W: DataOutput>(output: &mut W, value: u128, width: usize) -> (r: Result<
    (),
    Error,
>)
    ensures
        r is Ok,
        final(output).order() == old(output).order(),
        final(output).written() == old(output).written() + unsigned_bytes(
            value as nat,
            width as nat,
            old(output).order(),
        ),
{
    let bytes = encode_unsigned(value, width, output.byte_order());
    output.write_bytes(bytes.as_slice())
}

/// Reads `count` bytes.
pub fn read_bytes<R: DataInput>(input: &mut R, count: usize) -> (r: Result<Vec<u8>, Error>)
    ensures
        final(input).order() == old(input).order(),
        r is Ok <==> count <= old(input).remaining().len(),
        r is Ok ==> r->Ok_0@ == old(input).remaining().take(count as int)
            && final(input).remaining() == old(input).remaining().skip(count as int),
        r is Err ==> r->Err_0 == Error::EndOfFile,
{
    let mut buffer: Vec<u8> = vec![0u8; count];
    match input.read_fully(buffer.as_mut_slice()) {
        Ok(()) => Ok(buffer),
        Err(e) => Err(e),
    }
}

/// Reads an unsigned number of `width` bytes in the byte order of `input`.
pub fn read_unsigned<R: DataInput>(input: &mut R, width: usize) -> (r: Result<u128, Error>)
    requires
        width <= 16,
    ensures
        final(input).order() == old(input).order(),
        match unsigned_decoding(old(input).remaining(), width as nat, old(input).order()) {
            Decoded::Value(value, used) => r is Ok && r->Ok_0 == value && value < span(
                width as nat,
            ) && final(input).remaining() == old(input).remaining().skip(used as int),
            Decoded::Failed(e) => r is Err && r->Err_0 == e,
        },
{
    let order = input.byte_order();
    match read_bytes(input, width) {
        Ok(bytes) => {
            proof {
                lemma_bytes_round_trip(bytes@, order);
            }
            Ok(decode_unsigned(bytes.as_slice(), order))
        },
        Err(e) => Err(e),
    }
}

} // verus!
