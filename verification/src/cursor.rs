//! A bounds-checked sequential reader over a byte slice. Every read first
//! checks that enough bytes remain; on success it returns the value and
//! advances, on failure it returns a `Truncated` error carrying the current
//! offset and how many bytes were needed versus available, leaving the
//! position unchanged. No read ever touches memory past the end of the slice.

use crate::error::DecodeError;
use crate::wire;
use vstd::prelude::*;

verus! {

/// A position inside a borrowed byte slice.
pub struct Cursor<'a> {
    pub data: &'a [u8],
    pub pos: usize,
}

impl<'a> Cursor<'a> {
    /// The bytes this cursor reads from.
    pub open spec fn data_spec(self) -> Seq<u8> {
        self.data@
    }

    /// The current absolute offset.
    pub open spec fn pos_spec(self) -> int {
        self.pos as int
    }

    /// The position never lies past the end of the slice.
    pub open spec fn wf(self) -> bool {
        self.pos <= self.data@.len()
    }

    /// A cursor at the start of `data`.
    pub fn new(data: &'a [u8]) -> (r: Cursor<'a>)
        ensures
            r.wf(),
            r.data_spec() == data@,
            r.pos_spec() == 0,
    {
        Cursor { data: data, pos: 0 }
    }

    /// The absolute offset, for error reporting.
    pub fn position(&self) -> (r: usize)
        ensures
            r == self.pos_spec(),
    {
        self.pos
    }

    /// How many bytes are left to read.
    pub fn remaining(&self) -> (r: usize)
        requires
            self.wf(),
        ensures
            r == self.data_spec().len() - self.pos_spec(),
    {
        self.data.len() - self.pos
    }

    /// Read one byte.
    pub fn read_u8(&mut self) -> (r: Result<u8, DecodeError>)
        requires
            old(self).wf(),
        ensures
            final(self).wf(),
            final(self).data_spec() == old(self).data_spec(),
            match wire::r_u8(old(self).data_spec(), old(self).pos_spec()) {
                Ok((v, q)) => r == Ok::<u8, DecodeError>(v) && final(self).pos_spec() == q,
                Err(e) => r == Err::<u8, DecodeError>(e) && final(self).pos_spec() == old(
                    self,
                ).pos_spec(),
            },
    {
        if self.pos < self.data.len() {
            let b: u8 = self.data[self.pos];
            self.pos = self.pos + 1;
            Ok(b)
        } else {
            Err(
                DecodeError::Truncated {
                    offset: self.pos,
                    needed: 1,
                    available: self.data.len() - self.pos,
                },
            )
        }
    }

    /// Read a big-endian 16-bit integer.
    pub fn read_u16_be(&mut self) -> (r: Result<u16, DecodeError>)
        requires
            old(self).wf(),
        ensures
            final(self).wf(),
            final(self).data_spec() == old(self).data_spec(),
            match wire::r_u16(old(self).data_spec(), old(self).pos_spec()) {
                Ok((v, q)) => r == Ok::<u16, DecodeError>(v) && final(self).pos_spec() == q,
                Err(e) => r == Err::<u16, DecodeError>(e) && final(self).pos_spec() == old(
                    self,
                ).pos_spec(),
            },
    {
        if self.data.len() - self.pos >= 2 {
            let b0: u8 = self.data[self.pos];
            let b1: u8 = self.data[self.pos + 1];
            self.pos = self.pos + 2;
            Ok((b0 as u16) * 0x100 + (b1 as u16))
        } else {
            Err(
                DecodeError::Truncated {
                    offset: self.pos,
                    needed: 2,
                    available: self.data.len() - self.pos,
                },
            )
        }
    }

    /// Read a big-endian 32-bit integer.
    pub fn read_u32_be(&mut self) -> (r: Result<u32, DecodeError>)
        requires
            old(self).wf(),
        ensures
            final(self).wf(),
            final(self).data_spec() == old(self).data_spec(),
            match wire::r_u32(old(self).data_spec(), old(self).pos_spec()) {
                Ok((v, q)) => r == Ok::<u32, DecodeError>(v) && final(self).pos_spec() == q,
                Err(e) => r == Err::<u32, DecodeError>(e) && final(self).pos_spec() == old(
                    self,
                ).pos_spec(),
            },
    {
        if self.data.len() - self.pos >= 4 {
            let b0: u8 = self.data[self.pos];
            let b1: u8 = self.data[self.pos + 1];
            let b2: u8 = self.data[self.pos + 2];
            let b3: u8 = self.data[self.pos + 3];
            self.pos = self.pos + 4;
            Ok(
                (b0 as u32) * 0x1000000 + (b1 as u32) * 0x10000 + (b2 as u32) * 0x100 + (
                b3 as u32),
            )
        } else {
            Err(
                DecodeError::Truncated {
                    offset: self.pos,
                    needed: 4,
                    available: self.data.len() - self.pos,
                },
            )
        }
    }

    /// Read a big-endian 64-bit integer.
    pub fn read_u64_be(&mut self) -> (r: Result<u64, DecodeError>)
        requires
            old(self).wf(),
        ensures
            final(self).wf(),
            final(self).data_spec() == old(self).data_spec(),
            match wire::r_u64(old(self).data_spec(), old(self).pos_spec()) {
                Ok((v, q)) => r == Ok::<u64, DecodeError>(v) && final(self).pos_spec() == q,
                Err(e) => r == Err::<u64, DecodeError>(e) && final(self).pos_spec() == old(
                    self,
                ).pos_spec(),
            },
    {
        if self.data.len() - self.pos >= 8 {
            let hi: u32 = match self.read_u32_be() {
                Ok(v) => v,
                Err(e) => return Err(e),
            };
            let lo: u32 = match self.read_u32_be() {
                Ok(v) => v,
                Err(e) => return Err(e),
            };
            Ok((hi as u64) * 0x100000000 + (lo as u64))
        } else {
            Err(
                DecodeError::Truncated {
                    offset: self.pos,
                    needed: 8,
                    available: self.data.len() - self.pos,
                },
            )
        }
    }

    /// Read `n` raw bytes as a sub-slice.
    pub fn read_bytes(&mut self, n: usize) -> (r: Result<&'a [u8], DecodeError>)
        requires
            old(self).wf(),
        ensures
            final(self).wf(),
            final(self).data_spec() == old(self).data_spec(),
            if old(self).pos_spec() + n <= old(self).data_spec().len() {
                &&& r matches Ok(s) && s@ == old(self).data_spec().subrange(
                    old(self).pos_spec(),
                    old(self).pos_spec() + n,
                )
                &&& final(self).pos_spec() == old(self).pos_spec() + n
            } else {
                &&& r == Err::<&[u8], DecodeError>(
                    wire::truncated(
                        old(self).pos_spec(),
                        n as int,
                        old(self).data_spec().len() as int,
                    ),
                )
                &&& final(self).pos_spec() == old(self).pos_spec()
            },
    {
        if self.data.len() - self.pos >= n {
            let s: &'a [u8] = vstd::slice::slice_subrange(self.data, self.pos, self.pos + n);
            self.pos = self.pos + n;
            Ok(s)
        } else {
            Err(
                DecodeError::Truncated {
                    offset: self.pos,
                    needed: n,
                    available: self.data.len() - self.pos,
                },
            )
        }
    }
}

} // verus!
