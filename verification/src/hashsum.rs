//! The 32-bit hash codes by which the network layer checks what it frames.
//!
//! The hash of a run of values starts at 0 and, for each value in turn, is
//! multiplied by 31 and takes the hash of the value, without regard to
//! overflow.

use crate::uuid::UUID;
use crate::version::Version;
use vstd::prelude::*;

verus! {

/// Values that have a hash code.
pub trait Hashcode {
    /// The hash code of the value.
    spec fn hash_of(&self) -> i32;

    /// The hash code of the value.
    fn hashcode(&self) -> (hash: i32)
        ensures
            hash == self.hash_of(),
    ;
}

/// The hash of a number of 64 bits: its high half and its low half, bit by
/// bit one or the other.
pub open spec fn fold_halves(x: i64) -> i32 {
    ((x >> 32) as i32) ^ (x as i32)
}

/// The hash of a run of values with the given hashes, after `seed`.
pub open spec fn fold_hashes(seed: i32, hashes: Seq<i32>) -> i32
    decreases hashes.len(),
{
    if hashes.len() == 0 {
        seed
    } else {
        fold_hashes(seed, hashes.drop_last()).wrapping_mul(31).wrapping_add(hashes.last())
    }
}

impl Hashcode for bool {
    open spec fn hash_of(&self) -> i32 {
        if *self {
            1337
        } else {
            1331
        }
    }

    fn hashcode(&self) -> (hash: i32) {
        if *self {
            1337
        } else {
            1331
        }
    }
}

impl Hashcode for u8 {
    open spec fn hash_of(&self) -> i32 {
        *self as i32
    }

    fn hashcode(&self) -> (hash: i32) {
        *self as i32
    }
}

impl Hashcode for i8 {
    open spec fn hash_of(&self) -> i32 {
        *self as i32
    }

    fn hashcode(&self) -> (hash: i32) {
        *self as i32
    }
}

impl Hashcode for u16 {
    open spec fn hash_of(&self) -> i32 {
        *self as i32
    }

    fn hashcode(&self) -> (hash: i32) {
        *self as i32
    }
}

impl Hashcode for i16 {
    open spec fn hash_of(&self) -> i32 {
        *self as i32
    }

    fn hashcode(&self) -> (hash: i32) {
        *self as i32
    }
}

impl Hashcode for u32 {
    /// The signed number with the same 32 bits.
    open spec fn hash_of(&self) -> i32 {
        if *self >= 0x8000_0000 {
            (*self - 0x1_0000_0000) as i32
        } else {
            *self as i32
        }
    }

    fn hashcode(&self) -> (hash: i32) {
        if *self >= 0x8000_0000 {
            (*self as i64 - 0x1_0000_0000) as i32
        } else {
            *self as i32
        }
    }
}

impl Hashcode for i32 {
    open spec fn hash_of(&self) -> i32 {
        *self
    }

    fn hashcode(&self) -> (hash: i32) {
        *self
    }
}

impl Hashcode for i64 {
    open spec fn hash_of(&self) -> i32 {
        fold_halves(*self)
    }

    fn hashcode(&self) -> (hash: i32) {
        let x: i64 = *self;
        #[verifier::truncate]
        let high: i32 = (x >> 32) as i32;
        #[verifier::truncate]
        let low: i32 = x as i32;
        high ^ low
    }
}

/// The signed number with the same 64 bits.
pub fn reinterpret(x: u64) -> (y: i64)
    ensures
        y == if x >= 0x8000_0000_0000_0000 {
            x - 0x1_0000_0000_0000_0000
        } else {
            x as int
        },
{
    if x >= 0x8000_0000_0000_0000 {
        (x as i128 - 0x1_0000_0000_0000_0000) as i64
    } else {
        x as i64
    }
}

/// The signed number with the same 64 bits.
pub open spec fn reinterpreted(x: u64) -> i64 {
    if x >= 0x8000_0000_0000_0000 {
        (x - 0x1_0000_0000_0000_0000) as i64
    } else {
        x as i64
    }
}

impl Hashcode for UUID {
    /// The hash of the low field, times 31, plus the hash of the high field.
    open spec fn hash_of(&self) -> i32 {
        fold_halves(reinterpreted(self.fields().0)).wrapping_mul(31).wrapping_add(
            fold_halves(reinterpreted(self.fields().1)),
        )
    }

    fn hashcode(&self) -> (hash: i32) {
        let (first, second) = self.into_fields();
        reinterpret(first).hashcode().wrapping_mul(31).wrapping_add(reinterpret(second).hashcode())
    }
}

impl Hashcode for Version {
    /// The major part, times 31, plus the minor part.
    open spec fn hash_of(&self) -> i32 {
        (self.major_part() * 31 + self.minor_part()) as i32
    }

    fn hashcode(&self) -> (hash: i32) {
        self.major().hashcode() * 31 + self.minor().hashcode()
    }
}

/// The hashes of a run of values.
pub open spec fn hashes_of<T: Hashcode>(values: Seq<T>) -> Seq<i32> {
    Seq::new(values.len(), |i: int| values[i].hash_of())
}

/// The hash of a slice of values.
pub fn hashcode_of_slice<T: Hashcode>(values: &[T]) -> (hash: i32)
    ensures
        hash == fold_hashes(0, hashes_of(values@)),
{
    let n = values.len();
    let mut hash: i32 = 0;
    let mut i: usize = 0;
    let ghost hashes = hashes_of(values@);
    assert(hashes.take(0) =~= Seq::<i32>::empty());
    while i < n
        invariant
            i <= n,
            n == values@.len(),
            hashes == hashes_of(values@),
            hash == fold_hashes(0, hashes.take(i as int)),
        decreases n - i,
    {
        proof {
            assert(hashes.take(i + 1).drop_last() =~= hashes.take(i as int));
            assert(hashes.take(i + 1).last() == values@[i as int].hash_of());
        }
        hash = hash.wrapping_mul(31).wrapping_add(values[i].hashcode());
        i = i + 1;
    }
    assert(hashes.take(n as int) =~= hashes);
    hash
}

impl<T: Hashcode> Hashcode for Vec<T> {
    open spec fn hash_of(&self) -> i32 {
        fold_hashes(0, hashes_of(self@))
    }

    fn hashcode(&self) -> (hash: i32) {
        hashcode_of_slice(self.as_slice())
    }
}

impl Hashcode for String {
    /// The hash of the UTF-8 bytes of the string.
    open spec fn hash_of(&self) -> i32 {
        fold_hashes(0, hashes_of(vstd::utf8::encode_utf8(self@)))
    }

    fn hashcode(&self) -> (hash: i32) {
        hashcode_of_slice(self.as_str().as_bytes())
    }
}

impl<T: Hashcode> Hashcode for Option<T> {
    /// The hash of the value, and 0 where there is none.
    open spec fn hash_of(&self) -> i32 {
        match self {
            Some(x) => x.hash_of(),
            None => 0,
        }
    }

    fn hashcode(&self) -> (hash: i32) {
        match self {
            Some(x) => x.hashcode(),
            None => 0,
        }
    }
}

} // verus!
