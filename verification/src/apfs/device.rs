//! The storage a container lives on.

use crate::apfs::bytes::{copy_range, put_bytes, splice};
use crate::apfs::error::IoError;
use vstd::pervasive::arbitrary;
use vstd::prelude::*;

verus! {

/// A range of a device of `len` bytes.
pub open spec fn in_range(len: nat, offset: int, count: int) -> bool {
    0 <= offset && offset + count <= len
}

/// Storage of a fixed size that can be read at any byte offset.
pub trait ReadAt {
    /// The contents. Of a device that does not say, nothing is known but what
    /// its methods promise.
    open spec fn bytes(&self) -> Seq<u8> {
        arbitrary()
    }

    /// Whether every request inside the device succeeds. Of a device that does
    /// not say, this is not relied on.
    open spec fn reliable(&self) -> bool {
        false
    }

    /// The size in bytes.
    fn size(&self) -> (n: u64)
        ensures
            n == self.bytes().len(),
    ;

    /// Read `count` bytes at `offset`. A range that reaches past the end is
    /// refused as a whole.
    fn read_at(&self, offset: u64, count: usize) -> (r: Result<Vec<u8>, IoError>)
        ensures
            match r {
                Ok(v) => in_range(self.bytes().len(), offset as int, count as int) && v@
                    == self.bytes().subrange(offset as int, offset + count),
                Err(e) => self.reliable() ==> !in_range(
                    self.bytes().len(),
                    offset as int,
                    count as int,
                ) && e == IoError::UnexpectedEof,
            },
    ;
}

/// Storage that can be written too.
pub trait WriteAt: ReadAt {
    /// Write `data` at `offset`. A range that reaches past the end is refused
    /// as a whole.
    fn write_at(&mut self, offset: u64, data: &[u8]) -> (r: Result<(), IoError>)
        ensures
            final(self).reliable() == old(self).reliable(),
            final(self).bytes().len() == old(self).bytes().len(),
            match r {
                Ok(_) => in_range(old(self).bytes().len(), offset as int, data.len() as int)
                    && final(self).bytes() == splice(old(self).bytes(), offset as int, data@),
                Err(e) => old(self).reliable() ==> !in_range(
                    old(self).bytes().len(),
                    offset as int,
                    data.len() as int,
                ) && e == IoError::WriteZero && final(self).bytes() == old(self).bytes(),
            },
    ;

    /// Bring everything written so far to the medium.
    fn flush(&mut self) -> (r: Result<(), IoError>)
        ensures
            final(self).reliable() == old(self).reliable(),
            final(self).bytes() == old(self).bytes(),
            old(self).reliable() ==> r is Ok,
    ;
}

/// A device held in memory.
#[derive(Debug)]
pub struct MemoryDevice {
    pub data: Vec<u8>,
}

impl MemoryDevice {
    pub fn new(data: Vec<u8>) -> (d: Self)
        ensures
            d.bytes() == data@,
            d.reliable(),
    {
        MemoryDevice { data }
    }
}

impl ReadAt for MemoryDevice {
    open spec fn bytes(&self) -> Seq<u8> {
        self.data@
    }

    open spec fn reliable(&self) -> bool {
        true
    }

    fn size(&self) -> (n: u64) {
        self.data.len() as u64
    }

    fn read_at(&self, offset: u64, count: usize) -> (r: Result<Vec<u8>, IoError>) {
        let len: u64 = self.data.len() as u64;
        if offset > len || count as u64 > len - offset {
            return Err(IoError::UnexpectedEof);
        }
        let from: usize = offset as usize;
        Ok(copy_range(self.data.as_slice(), from, from + count))
    }
}

impl WriteAt for MemoryDevice {
    fn write_at(&mut self, offset: u64, data: &[u8]) -> (r: Result<(), IoError>) {
        let len: u64 = self.data.len() as u64;
        if offset > len || data.len() as u64 > len - offset {
            return Err(IoError::WriteZero);
        }
        put_bytes(self.data.as_mut_slice(), offset as usize, data);
        Ok(())
    }

    fn flush(&mut self) -> (r: Result<(), IoError>) {
        Ok(())
    }
}

} // verus!
