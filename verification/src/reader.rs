//! Sequential reads over a byte buffer held in memory.

use vstd::prelude::*;
use vstd::slice::slice_subrange;
use vstd::slice::slice_to_vec;
use crate::error::PuppetError;

verus! {

/// The value of four bytes read as a big-endian unsigned integer.
pub open spec fn be_u32(b: Seq<u8>) -> int
    recommends
        b.len() == 4,
{
    b[0] as int * 0x100_0000 + b[1] as int * 0x1_0000 + b[2] as int * 0x100 + b[3] as int
}

/// The four bytes that hold `v` in big-endian order.
pub open spec fn be_bytes(v: int) -> Seq<u8>
    recommends
        0 <= v <= u32::MAX,
{
    seq![
        (v / 0x100_0000) as u8,
        (v / 0x1_0000 % 0x100) as u8,
        (v / 0x100 % 0x100) as u8,
        (v % 0x100) as u8,
    ]
}

/// A cursor over a borrowed byte buffer.
pub struct ByteReader<'a> {
    data: &'a [u8],
    pos: usize,
}

impl<'a> ByteReader<'a> {
    /// The cursor never runs past the end of the buffer.
    #[verifier::type_invariant]
    spec fn inv(self) -> bool {
        self.pos <= self.data@.len()
    }

    /// The bytes that have not been read yet.
    pub closed spec fn remaining(self) -> Seq<u8> {
        self.data@.skip(self.pos as int)
    }

    /// A reader positioned at the first byte of `data`.
    pub fn new(data: &'a [u8]) -> (reader: Self)
        ensures
            reader.remaining() == data@,
    {
        ByteReader { data, pos: 0 }
    }

    /// The number of bytes left to read.
    pub fn remaining_len(&self) -> (n: usize)
        ensures
            n == self.remaining().len(),
    {
        proof {
            use_type_invariant(self);
        }
        self.data.len() - self.pos
    }

    /// Takes the next `n` bytes as a borrowed slice, or leaves the reader
    /// where it is when fewer than `n` are left.
    pub fn take(&mut self, n: usize) -> (res: Result<&'a [u8], PuppetError>)
        ensures
            match res {
                Ok(s) => {
                    &&& n <= old(self).remaining().len()
                    &&& s@ == old(self).remaining().take(n as int)
                    &&& final(self).remaining() == old(self).remaining().skip(n as int)
                },
                Err(e) => {
                    &&& e == PuppetError::TruncatedInput
                    &&& n > old(self).remaining().len()
                    &&& *final(self) == *old(self)
                },
            },
    {
        proof {
            use_type_invariant(&*self);
        }
        if n > self.data.len() - self.pos {
            return Err(PuppetError::TruncatedInput);
        }
        let start: usize = self.pos;
        let s = slice_subrange(self.data, start, start + n);
        self.pos = start + n;
        assert(s@ =~= old(self).remaining().take(n as int));
        assert(self.remaining() =~= old(self).remaining().skip(n as int));
        Ok(s)
    }
}

/// Reads one byte.
pub fn read_u8(reader: &mut ByteReader) -> (res: Result<u8, PuppetError>)
    ensures
        match res {
            Ok(b) => {
                &&& old(reader).remaining().len() >= 1
                &&& b == old(reader).remaining()[0]
                &&& final(reader).remaining() == old(reader).remaining().skip(1)
            },
            Err(e) => {
                &&& e == PuppetError::TruncatedInput
                &&& old(reader).remaining().len() < 1
                &&& *final(reader) == *old(reader)
            },
        },
{
    let s = reader.take(1)?;
    Ok(s[0])
}

/// Reads four bytes as a big-endian unsigned integer.
pub fn read_be_u32(reader: &mut ByteReader) -> (res: Result<u32, PuppetError>)
    ensures
        match res {
            Ok(v) => {
                &&& old(reader).remaining().len() >= 4
                &&& v == be_u32(old(reader).remaining().take(4))
                &&& final(reader).remaining() == old(reader).remaining().skip(4)
            },
            Err(e) => {
                &&& e == PuppetError::TruncatedInput
                &&& old(reader).remaining().len() < 4
                &&& *final(reader) == *old(reader)
            },
        },
{
    let s = reader.take(4)?;
    let b0: u32 = s[0] as u32;
    let b1: u32 = s[1] as u32;
    let b2: u32 = s[2] as u32;
    let b3: u32 = s[3] as u32;
    Ok(b0 * 0x100_0000 + b1 * 0x1_0000 + b2 * 0x100 + b3)
}

/// Reads exactly `N` bytes into an array.
pub fn read_array<const N: usize>(reader: &mut ByteReader) -> (res: Result<[u8; N], PuppetError>)
    ensures
        match res {
            Ok(a) => {
                &&& old(reader).remaining().len() >= N
                &&& a@ == old(reader).remaining().take(N as int)
                &&& final(reader).remaining() == old(reader).remaining().skip(N as int)
            },
            Err(e) => {
                &&& e == PuppetError::TruncatedInput
                &&& old(reader).remaining().len() < N
                &&& *final(reader) == *old(reader)
            },
        },
{
    let s = reader.take(N)?;
    let mut a: [u8; N] = [0u8; N];
    let mut i: usize = 0;
    while i < N
        invariant
            i <= N,
            s@.len() == N,
            forall|j: int| 0 <= j < i ==> a@[j] == s@[j],
        decreases N - i,
    {
        a[i] = s[i];
        i += 1;
    }
    assert(a@ =~= s@);
    Ok(a)
}

/// Reads exactly `length` bytes into an owned buffer.
pub fn read_vec(reader: &mut ByteReader, length: u32) -> (res: Result<Vec<u8>, PuppetError>)
    ensures
        match res {
            Ok(v) => {
                &&& old(reader).remaining().len() >= length
                &&& v@ == old(reader).remaining().take(length as int)
                &&& final(reader).remaining() == old(reader).remaining().skip(length as int)
            },
            Err(e) => {
                &&& e == PuppetError::TruncatedInput
                &&& old(reader).remaining().len() < length
                &&& *final(reader) == *old(reader)
            },
        },
{
    let s = reader.take(length as usize)?;
    Ok(slice_to_vec(s))
}

} // verus!
