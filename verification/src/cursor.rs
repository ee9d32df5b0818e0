//! A read position over an immutable byte buffer, and the big-endian
//! integers found in it.

use vstd::prelude::*;

verus! {

/// A byte buffer together with the offset of the next byte to read.
///
/// The offset is not required to lie inside the buffer: a cursor placed at or
/// beyond the end simply has nothing left to read. Decoders advance the offset
/// past what they decoded and leave it alone when they fail.
#[derive(Debug, Clone, Copy)]
pub struct Cursor<'a> {
    pub bytes: &'a [u8],
    pub pos: usize,
}

/// Number of bytes of `s` at or after offset `at`.
pub open spec fn bytes_left(s: Seq<u8>, at: int) -> int {
    if 0 <= at <= s.len() {
        s.len() - at
    } else {
        0
    }
}

/// The unsigned 16-bit integer stored big-endian at `s[at]`, `s[at + 1]`.
pub open spec fn be_u16(s: Seq<u8>, at: int) -> u16 {
    (s[at] as int * 0x100 + s[at + 1] as int) as u16
}

/// The unsigned 32-bit integer stored big-endian at `s[at] .. s[at + 3]`.
pub open spec fn be_u32(s: Seq<u8>, at: int) -> u32 {
    (s[at] as int * 0x100_0000 + s[at + 1] as int * 0x1_0000 + s[at + 2] as int * 0x100 + s[at
        + 3] as int) as u32
}

/// Reads the big-endian 16-bit integer that starts at offset `at`.
pub(crate) fn read_be_u16(bytes: &[u8], at: usize) -> (v: u16)
    requires
        at + 2 <= bytes@.len(),
    ensures
        v == be_u16(bytes@, at as int),
{
    let hi: u16 = bytes[at] as u16;
    let lo: u16 = bytes[at + 1] as u16;
    hi * 0x100 + lo
}

/// Reads the big-endian 32-bit integer that starts at offset `at`.
pub(crate) fn read_be_u32(bytes: &[u8], at: usize) -> (v: u32)
    requires
        at + 4 <= bytes@.len(),
    ensures
        v == be_u32(bytes@, at as int),
{
    let b0: u32 = bytes[at] as u32;
    let b1: u32 = bytes[at + 1] as u32;
    let b2: u32 = bytes[at + 2] as u32;
    let b3: u32 = bytes[at + 3] as u32;
    b0 * 0x100_0000 + b1 * 0x1_0000 + b2 * 0x100 + b3
}

impl<'a> Cursor<'a> {
    /// A cursor at the start of `bytes`.
    pub fn new(bytes: &'a [u8]) -> (cur: Self)
        ensures
            cur.bytes@ == bytes@,
            cur.pos == 0,
    {
        Cursor { bytes, pos: 0 }
    }

    /// The offset of the next byte to read.
    pub fn position(&self) -> (pos: usize)
        ensures
            pos == self.pos,
    {
        self.pos
    }

    /// Moves the cursor to `pos`, which may lie beyond the end of the buffer.
    pub fn set_position(&mut self, pos: usize)
        ensures
            final(self).pos == pos,
            final(self).bytes == old(self).bytes,
    {
        self.pos = pos;
    }

    /// Number of bytes between the current offset and the end of the buffer.
    pub fn remaining(&self) -> (n: usize)
        ensures
            n == bytes_left(self.bytes@, self.pos as int),
            self.pos + n <= usize::MAX,
    {
        if self.pos <= self.bytes.len() {
            self.bytes.len() - self.pos
        } else {
            0
        }
    }
}

} // verus!
