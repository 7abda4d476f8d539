//! Byte devices: streams that report how each operation went as a status,
//! and three devices that need nothing behind them.

use vstd::prelude::*;
use vstd::string::StringExecFns;

verus! {

/// How an operation on a stream went.
#[derive(Clone, Debug, PartialEq, Eq)]
pub enum Status {
    /// The operation moved this many bytes.
    Moved(usize),
    /// The operation failed, for the reason given.
    Error(String),
    /// The stream has no more bytes.
    Eof,
}

impl Default for Status {
    fn default() -> (status: Self)
        ensures
            status == Status::Moved(0),
    {
        Status::Moved(0)
    }
}

impl Status {
    /// Whether the operation moved bytes.
    pub fn is_ok(&self) -> (ok: bool)
        ensures
            ok == (*self is Moved),
    {
        match self {
            Status::Moved(_) => true,
            _ => false,
        }
    }

    /// The number of bytes that the operation moved, if it moved any.
    pub fn as_size(&self) -> (size: Option<usize>)
        ensures
            size == match *self {
                Status::Moved(n) => Some(n),
                _ => None::<usize>,
            },
    {
        match self {
            Status::Moved(n) => Some(*n),
            _ => None,
        }
    }

    /// The number of bytes moved, or the reason why none were: that of the
    /// error, or that the stream was at its end.
    pub fn to_result(&self) -> (r: Result<usize, String>)
        ensures
            match *self {
                Status::Moved(n) => r == Ok::<usize, String>(n),
                Status::Error(reason) => r is Err && r->Err_0@ == reason@,
                Status::Eof => r is Err && r->Err_0@ == "Eof on stream"@,
            },
    {
        match self {
            Status::Moved(n) => Ok(*n),
            Status::Error(reason) => Err(reason.clone()),
            Status::Eof => Err(String::from_str("Eof on stream")),
        }
    }

    /// The status with the same outcome.
    pub fn duplicate(&self) -> (copy: Self)
        ensures
            copy is Moved == *self is Moved,
            copy is Eof == *self is Eof,
            copy is Error == *self is Error,
            *self matches Status::Moved(n) ==> copy == Status::Moved(n),
            *self matches Status::Error(reason) ==> copy->Error_0@ == reason@,
    {
        match self {
            Status::Moved(n) => Status::Moved(*n),
            Status::Error(reason) => Status::Error(reason.clone()),
            Status::Eof => Status::Eof,
        }
    }
}

/// A stream that bytes are read from.
pub trait InputStream {
    /// Reads bytes into `out`, and says how many.
    fn read(&mut self, out: &mut [u8]) -> (status: Status)
        ensures
            final(out)@.len() == old(out)@.len(),
            status matches Status::Moved(n) ==> n <= old(out)@.len(),
    ;

    /// Reads one byte.
    fn read_byte(&mut self) -> (byte: Option<u8>)
    ;

    /// How the last read went.
    fn last_read(&self) -> (status: Status)
    ;

    /// Forgets how the last read went.
    fn clear_read_error(&mut self)
    ;
}

/// A stream that bytes are written to.
pub trait OutputStream {
    /// Writes the bytes of `out`, and says how many were taken.
    fn write(&mut self, out: &[u8]) -> (status: Status)
        ensures
            status matches Status::Moved(n) ==> n <= out@.len(),
    ;

    /// Writes one byte.
    fn write_byte(&mut self, val: u8) -> (done: Option<()>)
    ;

    /// How the last write went.
    fn last_write(&self) -> (status: Status)
    ;

    /// Forgets how the last write went.
    fn clear_write_error(&mut self)
    ;

    /// Hands on what was held back.
    fn flush(&mut self)
    ;
}

/// The device that is always at its end and takes every byte.
#[derive(Default)]
pub struct NullDevice {
    wsz: usize,
}

impl NullDevice {
    /// The number of bytes that the last write took.
    pub closed spec fn taken(&self) -> usize {
        self.wsz
    }

    /// A null device.
    pub fn new() -> (device: Self)
        ensures
            device.taken() == 0,
    {
        NullDevice { wsz: 0 }
    }
}

impl InputStream for NullDevice {
    fn read(&mut self, out: &mut [u8]) -> (status: Status)
        ensures
            status == Status::Eof,
            final(out)@ == old(out)@,
            *final(self) == *old(self),
    {
        Status::Eof
    }

    fn read_byte(&mut self) -> (byte: Option<u8>)
        ensures
            byte is None,
            *final(self) == *old(self),
    {
        None
    }

    fn last_read(&self) -> (status: Status)
        ensures
            status == Status::Eof,
    {
        Status::Eof
    }

    fn clear_read_error(&mut self)
        ensures
            *final(self) == *old(self),
    {
    }
}

impl OutputStream for NullDevice {
    fn write(&mut self, out: &[u8]) -> (status: Status)
        ensures
            status == Status::Moved(out@.len() as usize),
            final(self).taken() == out@.len(),
    {
        self.wsz = out.len();
        Status::Moved(out.len())
    }

    fn write_byte(&mut self, val: u8) -> (done: Option<()>)
        ensures
            done is Some,
            final(self).taken() == 1,
    {
        self.wsz = 1;
        Some(())
    }

    fn last_write(&self) -> (status: Status)
        ensures
            status == Status::Moved(self.taken()),
    {
        Status::Moved(self.wsz)
    }

    fn clear_write_error(&mut self)
        ensures
            *final(self) == *old(self),
    {
    }

    fn flush(&mut self)
        ensures
            *final(self) == *old(self),
    {
    }
}

/// The device that yields zeros without end and takes every byte.
#[derive(Default)]
pub struct ZeroDevice {
    sz: usize,
}

impl ZeroDevice {
    /// The number of bytes that the last operation moved.
    pub closed spec fn moved(&self) -> usize {
        self.sz
    }

    /// A zero device.
    pub fn new() -> (device: Self)
        ensures
            device.moved() == 0,
    {
        ZeroDevice { sz: 0 }
    }
}

impl InputStream for ZeroDevice {
    fn read(&mut self, out: &mut [u8]) -> (status: Status)
        ensures
            status == Status::Moved(old(out)@.len() as usize),
            forall|i: int| 0 <= i < final(out)@.len() ==> final(out)@[i] == 0,
            final(self).moved() == old(out)@.len(),
    {
        let n = out.len();
        let mut i: usize = 0;
        while i < n
            invariant
                i <= n,
                n == out@.len(),
                forall|k: int| 0 <= k < i ==> out@[k] == 0,
            decreases n - i,
        {
            out[i] = 0;
            i = i + 1;
        }
        self.sz = n;
        Status::Moved(n)
    }

    fn read_byte(&mut self) -> (byte: Option<u8>)
        ensures
            byte == Some(0u8),
            final(self).moved() == 1,
    {
        self.sz = 1;
        Some(0)
    }

    fn last_read(&self) -> (status: Status)
        ensures
            status == Status::Moved(self.moved()),
    {
        Status::Moved(self.sz)
    }

    fn clear_read_error(&mut self)
        ensures
            *final(self) == *old(self),
    {
    }
}

impl OutputStream for ZeroDevice {
    fn write(&mut self, out: &[u8]) -> (status: Status)
        ensures
            status == Status::Moved(out@.len() as usize),
            final(self).moved() == out@.len(),
    {
        self.sz = out.len();
        Status::Moved(out.len())
    }

    fn write_byte(&mut self, val: u8) -> (done: Option<()>)
        ensures
            done is Some,
            final(self).moved() == 1,
    {
        self.sz = 1;
        Some(())
    }

    fn last_write(&self) -> (status: Status)
        ensures
            status == Status::Moved(self.moved()),
    {
        Status::Moved(self.sz)
    }

    fn clear_write_error(&mut self)
        ensures
            *final(self) == *old(self),
    {
    }

    fn flush(&mut self)
        ensures
            *final(self) == *old(self),
    {
    }
}

/// `getrandom::getrandom`: fills `out` with random bytes of the operating
/// system, and says why where it could not. Nothing is known of the bytes.
#[verifier::external_body]
fn fill_random(out: &mut [u8]) -> (failure: Option<String>)
    ensures
        final(out)@.len() == old(out)@.len(),
{
    match getrandom::getrandom(out) {
        Ok(()) => None,
        Err(e) => Some(e.to_string()),
    }
}

/// The device that yields random bytes of the operating system.
pub struct RandomDevice {
    err: Status,
}

impl RandomDevice {
    /// A random device.
    pub fn new() -> (device: Self)
        ensures
            device.failed() is None,
    {
        RandomDevice { err: Status::Moved(0) }
    }

    /// Why the last read failed, if it failed.
    pub closed spec fn failed(&self) -> Option<Seq<char>> {
        match self.err {
            Status::Error(reason) => Some(reason@),
            _ => None,
        }
    }
}

impl Default for RandomDevice {
    fn default() -> (device: Self)
        ensures
            device.failed() is None,
    {
        RandomDevice::new()
    }
}

impl InputStream for RandomDevice {
    fn read(&mut self, out: &mut [u8]) -> (status: Status)
        ensures
            status is Moved ==> status == Status::Moved(old(out)@.len() as usize)
                && final(self).failed() is None,
            status is Error ==> final(self).failed() == Some(status->Error_0@),
            !(status is Eof),
    {
        let n = out.len();
        match fill_random(out) {
            None => {
                self.err = Status::Moved(n);
                Status::Moved(n)
            },
            Some(reason) => {
                let copy = reason.clone();
                self.err = Status::Error(reason);
                Status::Error(copy)
            },
        }
    }

    fn read_byte(&mut self) -> (byte: Option<u8>)
        ensures
            byte is Some <==> final(self).failed() is None,
    {
        let mut one: Vec<u8> = vec![0u8; 1];
        match self.read(one.as_mut_slice()) {
            Status::Moved(_) => Some(one[0]),
            _ => None,
        }
    }

    fn last_read(&self) -> (status: Status)
        ensures
            status is Error <==> self.failed() is Some,
    {
        self.err.duplicate()
    }

    fn clear_read_error(&mut self)
        ensures
            final(self).failed() is None,
    {
        self.err = Status::Moved(0);
    }
}

} // verus!
