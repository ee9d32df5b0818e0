//! The fixed twelve-byte header that opens every message.

use crate::cursor::{be_u16, bytes_left, read_be_u16, Cursor};
use vstd::prelude::*;

verus! {

/// Number of bytes the header occupies on the wire.
pub const HEADER_LEN: usize = 12;

/// The message header: transaction id, flag bits and the four section counts.
///
/// The flag bits are carried as they are; nothing here interprets them.
#[derive(Debug, Clone, Copy, PartialEq, Eq, Structural)]
pub struct Header {
    pub id: u16,
    pub flags: u16,
    pub num_questions: u16,
    pub num_answers: u16,
    pub num_authorities: u16,
    pub num_additionals: u16,
}

/// Why a header could not be decoded.
#[derive(Debug, Clone, Copy, PartialEq, Eq, Structural)]
pub enum HeaderError {
    /// Fewer than twelve bytes were left in the buffer.
    InsufficientData,
}

/// The header stored at offset `at` of `s`, if twelve bytes are there.
pub open spec fn decode_header(s: Seq<u8>, at: int) -> Option<Header> {
    if bytes_left(s, at) >= HEADER_LEN {
        Some(
            Header {
                id: be_u16(s, at),
                flags: be_u16(s, at + 2),
                num_questions: be_u16(s, at + 4),
                num_answers: be_u16(s, at + 6),
                num_authorities: be_u16(s, at + 8),
                num_additionals: be_u16(s, at + 10),
            },
        )
    } else {
        None
    }
}

impl Header {
    /// Decodes the header at the cursor and moves the cursor past it.
    ///
    /// Fails, without moving the cursor, when fewer than twelve bytes remain.
    pub fn from_bytes(cur: &mut Cursor) -> (res: Result<Header, HeaderError>)
        ensures
            final(cur).bytes == old(cur).bytes,
            res is Ok ==> old(cur).pos < final(cur).pos <= old(cur).bytes@.len(),
            match decode_header(old(cur).bytes@, old(cur).pos as int) {
                Some(h) => res == Ok::<Header, HeaderError>(h) && final(cur).pos == old(cur).pos
                    + HEADER_LEN,
                None => res == Err::<Header, HeaderError>(HeaderError::InsufficientData)
                    && final(cur).pos == old(cur).pos,
            },
    {
        if cur.remaining() < HEADER_LEN {
            return Err(HeaderError::InsufficientData);
        }
        let bytes = cur.bytes;
        let at = cur.pos;
        let header = Header {
            id: read_be_u16(bytes, at),
            flags: read_be_u16(bytes, at + 2),
            num_questions: read_be_u16(bytes, at + 4),
            num_answers: read_be_u16(bytes, at + 6),
            num_authorities: read_be_u16(bytes, at + 8),
            num_additionals: read_be_u16(bytes, at + 10),
        };
        cur.pos = at + HEADER_LEN;
        Ok(header)
    }
}

} // verus!
