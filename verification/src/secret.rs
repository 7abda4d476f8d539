//! Buffers of secret bytes that are wiped when they have served.

use crate::crypto::wipe;
use vstd::prelude::*;

verus! {

/// Things that hold a secret and can be made to forget it.
pub trait Destroyable {
    /// Whether the secret was forgotten.
    spec fn destroyed(&self) -> bool;

    /// Forgets the secret. What has no secret stays as it is.
    fn destroy(&mut self)
        ensures
            old(self).destroyed() ==> final(self).destroyed(),
    ;

    /// Whether the secret was forgotten.
    fn is_destroyed(&self) -> (destroyed: bool)
        ensures
            destroyed == self.destroyed(),
    ;
}

/// Bytes that are overwritten with zeros when they are destroyed.
pub struct DestroyableByteArray {
    bytes: Vec<u8>,
    destroyed: bool,
}

impl View for DestroyableByteArray {
    type V = Seq<u8>;

    closed spec fn view(&self) -> Seq<u8> {
        self.bytes@
    }
}

impl DestroyableByteArray {
    /// The buffer that holds `bytes`.
    pub fn new(bytes: Vec<u8>) -> (buffer: Self)
        ensures
            buffer@ == bytes@,
            !buffer.destroyed(),
    {
        DestroyableByteArray { bytes, destroyed: false }
    }

    /// The number of bytes held.
    pub fn len(&self) -> (n: usize)
        ensures
            n == self@.len(),
    {
        self.bytes.len()
    }

    /// The byte at `index` of a buffer that was not destroyed.
    pub fn get(&self, index: usize) -> (byte: u8)
        requires
            !self.destroyed(),
            index < self@.len(),
        ensures
            byte == self@[index as int],
    {
        self.bytes[index]
    }

    /// Puts `byte` at `index` of a buffer that was not destroyed.
    pub fn set(&mut self, index: usize, byte: u8)
        requires
            !old(self).destroyed(),
            index < old(self)@.len(),
        ensures
            final(self)@ == old(self)@.update(index as int, byte),
            !final(self).destroyed(),
    {
        self.bytes[index] = byte;
    }

    /// The bytes held.
    pub fn as_slice(&self) -> (bytes: &[u8])
        ensures
            bytes@ == self@,
    {
        self.bytes.as_slice()
    }

    /// A buffer with the same bytes, for one that was not destroyed.
    pub fn duplicate(&self) -> (copy: Self)
        ensures
            copy@ == self@,
            copy.destroyed() == self.destroyed(),
    {
        let n = self.bytes.len();
        let mut bytes: Vec<u8> = Vec::with_capacity(n);
        let mut i: usize = 0;
        while i < n
            invariant
                i <= n,
                n == self.bytes@.len(),
                bytes@ == self.bytes@.take(i as int),
            decreases n - i,
        {
            bytes.push(self.bytes[i]);
            assert(bytes@ =~= self.bytes@.take(i + 1));
            i = i + 1;
        }
        assert(bytes@ =~= self.bytes@);
        DestroyableByteArray { bytes, destroyed: self.destroyed }
    }
}

impl Destroyable for DestroyableByteArray {
    closed spec fn destroyed(&self) -> bool {
        self.destroyed
    }

    fn destroy(&mut self)
        ensures
            final(self).destroyed(),
            final(self)@.len() == 0,
    {
        wipe(&mut self.bytes);
        self.destroyed = true;
    }

    fn is_destroyed(&self) -> (destroyed: bool) {
        self.destroyed
    }
}

impl<T: Destroyable> Destroyable for Option<T> {
    /// Nothing, and what was destroyed, counts as destroyed.
    open spec fn destroyed(&self) -> bool {
        match self {
            Some(secret) => secret.destroyed(),
            None => true,
        }
    }

    fn destroy(&mut self)
        ensures
            *final(self) is None,
    {
        match self.take() {
            Some(mut secret) => {
                secret.destroy();
            },
            None => {},
        }
    }

    fn is_destroyed(&self) -> (destroyed: bool) {
        match self {
            Some(secret) => secret.is_destroyed(),
            None => true,
        }
    }
}

/// The parameters of a symmetric cipher.
pub trait SymmetricCipherParams: Destroyable + Default {

}

/// The parameters of a cipher that takes none.
#[derive(Default, Clone, Copy, Debug)]
pub struct EmptyParams {}

impl Destroyable for EmptyParams {
    /// There is nothing to forget.
    open spec fn destroyed(&self) -> bool {
        false
    }

    fn destroy(&mut self) {
    }

    fn is_destroyed(&self) -> (destroyed: bool) {
        false
    }
}

impl SymmetricCipherParams for EmptyParams {

}

/// The parameters of a cipher that takes an initialization vector.
pub struct IvParam {
    arr: DestroyableByteArray,
}

impl IvParam {
    /// The initialization vector held.
    pub closed spec fn iv(&self) -> Seq<u8> {
        self.arr@
    }

    /// The parameters with the given initialization vector.
    pub fn new(arr: Vec<u8>) -> (params: Self)
        ensures
            params.iv() == arr@,
            !params.destroyed(),
    {
        IvParam { arr: DestroyableByteArray::new(arr) }
    }

    /// The parameters with a copy of the given initialization vector.
    pub fn copy(arr: &DestroyableByteArray) -> (params: Self)
        ensures
            params.iv() == arr@,
            params.destroyed() == arr.destroyed(),
    {
        IvParam { arr: arr.duplicate() }
    }

    /// The initialization vector held.
    pub fn as_slice(&self) -> (bytes: &[u8])
        ensures
            bytes@ == self.iv(),
    {
        self.arr.as_slice()
    }
}

impl Default for IvParam {
    fn default() -> (params: Self)
        ensures
            params.iv() == Seq::<u8>::empty(),
    {
        IvParam::new(Vec::new())
    }
}

impl Destroyable for IvParam {
    closed spec fn destroyed(&self) -> bool {
        self.arr.destroyed()
    }

    fn destroy(&mut self)
        ensures
            final(self).destroyed(),
            final(self).iv().len() == 0,
    {
        self.arr.destroy();
    }

    fn is_destroyed(&self) -> (destroyed: bool) {
        self.arr.is_destroyed()
    }
}

impl SymmetricCipherParams for IvParam {

}

} // verus!
