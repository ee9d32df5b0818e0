//! Resource records: a name, type and class codes, a time to live and a
//! payload whose length the record itself announces.

use crate::cursor::{be_u16, be_u32, bytes_left, read_be_u16, read_be_u32, Cursor};
use crate::name::{decode_name, lemma_walk_prefix, lemma_walk_valid, valid_labels, Name, NameError};
use vstd::prelude::*;
use vstd::slice::{slice_subrange, slice_to_vec};

verus! {

/// Number of bytes between the name of a record and its payload: type,
/// class, time to live and payload length.
pub const RECORD_FIXED_LEN: usize = 10;

/// One resource record. The payload is kept as the bytes that were on the
/// wire; what they mean depends on the type code and is left to the reader.
#[derive(Debug, Clone, PartialEq, Eq)]
pub struct Record {
    pub name: Name,
    pub rtype: u16,
    pub rclass: u16,
    pub ttl: u32,
    pub rdata: Vec<u8>,
}

/// The mathematical value of a [`Record`].
pub struct RecordView {
    pub name: Seq<Seq<u8>>,
    pub rtype: u16,
    pub rclass: u16,
    pub ttl: u32,
    pub rdata: Seq<u8>,
}

impl View for Record {
    type V = RecordView;

    open spec fn view(&self) -> RecordView {
        RecordView {
            name: self.name@,
            rtype: self.rtype,
            rclass: self.rclass,
            ttl: self.ttl,
            rdata: self.rdata@,
        }
    }
}

/// Why a record could not be decoded.
#[derive(Debug, Clone, Copy, PartialEq, Eq, Structural)]
pub enum RecordError {
    /// The buffer ended inside the name, before the end of the fixed fields,
    /// or before the announced number of payload bytes.
    InsufficientData,
    /// The name of the record is malformed.
    MalformedName,
}

impl RecordError {
    /// The record error that a failure to decode the name amounts to.
    pub open spec fn of_name(e: NameError) -> RecordError {
        match e {
            NameError::InsufficientData => RecordError::InsufficientData,
            NameError::Malformed => RecordError::MalformedName,
        }
    }
}

impl From<NameError> for RecordError {
    fn from(e: NameError) -> (err: RecordError) {
        match e {
            NameError::InsufficientData => RecordError::InsufficientData,
            NameError::Malformed => RecordError::MalformedName,
        }
    }
}

impl vstd::std_specs::convert::FromSpecImpl<NameError> for RecordError {
    open spec fn obeys_from_spec() -> bool {
        true
    }

    open spec fn from_spec(e: NameError) -> RecordError {
        RecordError::of_name(e)
    }
}

/// The payload length announced by the record whose name ends at `mid`.
pub open spec fn rdlength(s: Seq<u8>, mid: int) -> int {
    be_u16(s, mid + 8) as int
}

/// The record stored at offset `at` of `s`, with the offset just past it.
pub open spec fn decode_record(s: Seq<u8>, at: int) -> Result<(RecordView, int), RecordError> {
    match decode_name(s, at) {
        Err(e) => Err(RecordError::of_name(e)),
        Ok((name, mid)) => {
            if bytes_left(s, mid) < RECORD_FIXED_LEN {
                Err(RecordError::InsufficientData)
            } else if bytes_left(s, mid + RECORD_FIXED_LEN) < rdlength(s, mid) {
                Err(RecordError::InsufficientData)
            } else {
                let data = mid + RECORD_FIXED_LEN;
                Ok(
                    (
                        RecordView {
                            name,
                            rtype: be_u16(s, mid),
                            rclass: be_u16(s, mid + 2),
                            ttl: be_u32(s, mid + 4),
                            rdata: s.subrange(data, data + rdlength(s, mid)),
                        },
                        data + rdlength(s, mid),
                    ),
                )
            }
        },
    }
}

impl Record {
    /// The name is well formed and the payload is short enough for its length
    /// to have been announced in sixteen bits.
    pub open spec fn wf(&self) -> bool {
        &&& valid_labels(self.name@)
        &&& self.rdata@.len() <= u16::MAX
    }

    /// Decodes the record at the cursor and moves the cursor past it.
    ///
    /// Fails, without moving the cursor, when the name cannot be decoded, when
    /// fewer than ten bytes follow it, or when fewer payload bytes remain than
    /// the record announces.
    pub fn from_bytes(cur: &mut Cursor) -> (res: Result<Record, RecordError>)
        ensures
            final(cur).bytes == old(cur).bytes,
            res is Ok ==> old(cur).pos < final(cur).pos <= old(cur).bytes@.len(),
            match decode_record(old(cur).bytes@, old(cur).pos as int) {
                Ok((record, end)) => {
                    &&& res matches Ok(r)
                    &&& r@ == record
                    &&& r.wf()
                    &&& final(cur).pos == end
                },
                Err(e) => res == Err::<Record, RecordError>(e) && final(cur).pos == old(cur).pos,
            },
    {
        let mut work = Cursor { bytes: cur.bytes, pos: cur.pos };
        let name = match Name::from_bytes(&mut work) {
            Ok(name) => name,
            Err(e) => {
                return Err(RecordError::from(e));
            },
        };
        let left = work.remaining();
        if left < RECORD_FIXED_LEN {
            return Err(RecordError::InsufficientData);
        }
        let bytes = work.bytes;
        let mid = work.pos;
        let rtype = read_be_u16(bytes, mid);
        let rclass = read_be_u16(bytes, mid + 2);
        let ttl = read_be_u32(bytes, mid + 4);
        let rdlen = read_be_u16(bytes, mid + 8) as usize;
        if left - RECORD_FIXED_LEN < rdlen {
            return Err(RecordError::InsufficientData);
        }
        let data = mid + RECORD_FIXED_LEN;
        let rdata = slice_to_vec(slice_subrange(bytes, data, data + rdlen));
        cur.pos = data + rdlen;
        Ok(Record { name, rtype, rclass, ttl, rdata })
    }
}

/// A record that decodes has a valid name and ends inside the buffer, at
/// least eleven bytes after its start.
pub proof fn lemma_decode_record_valid(s: Seq<u8>, at: int)
    requires
        decode_record(s, at) is Ok,
    ensures
        valid_labels(decode_record(s, at).unwrap().0.name),
        decode_record(s, at).unwrap().0.rdata.len() <= u16::MAX,
        at + 1 + RECORD_FIXED_LEN <= decode_record(s, at).unwrap().1 <= s.len(),
{
    lemma_walk_valid(s, at, 0, 0);
}

/// Once the name and the ten bytes after it are there, the announced payload
/// length alone decides: a record that announces more bytes than remain fails
/// with `InsufficientData`; one that announces no more than remain decodes,
/// its payload has exactly the announced length, and it ends right after the
/// payload.
pub proof fn lemma_record_payload_length(s: Seq<u8>, at: int)
    requires
        decode_name(s, at) is Ok,
        bytes_left(s, decode_name(s, at).unwrap().1) >= RECORD_FIXED_LEN,
    ensures
        ({
            let mid = decode_name(s, at).unwrap().1;
            let data = mid + RECORD_FIXED_LEN;
            if rdlength(s, mid) > s.len() - data {
                decode_record(s, at) == Err::<(RecordView, int), RecordError>(
                    RecordError::InsufficientData,
                )
            } else {
                &&& decode_record(s, at) matches Ok((record, end))
                &&& record.rdata.len() == rdlength(s, mid)
                &&& record.rdata == s.subrange(data, data + rdlength(s, mid))
                &&& end == data + rdlength(s, mid)
            }
        }),
{
    lemma_walk_valid(s, at, 0, 0);
}

/// For every buffer `s` and every `t` that `s` starts with, decoding a
/// record at the same offset of `t` gives what it gives on `s`, or
/// `InsufficientData`.
pub proof fn lemma_decode_record_prefix(t: Seq<u8>, s: Seq<u8>, at: int)
    requires
        t.is_prefix_of(s),
    ensures
        decode_record(t, at) == decode_record(s, at) || decode_record(t, at) == Err::<
            (RecordView, int),
            RecordError,
        >(RecordError::InsufficientData),
{
    lemma_walk_prefix(t, s, at, 0, 0);
    if let Ok((name, mid)) = decode_name(t, at) {
        lemma_walk_valid(t, at, 0, 0);
        if bytes_left(t, mid) >= RECORD_FIXED_LEN {
            assert forall|i: int| mid <= i < mid + RECORD_FIXED_LEN implies t[i] == s[i] by {}
            assert(be_u16(t, mid) == be_u16(s, mid));
            assert(be_u16(t, mid + 2) == be_u16(s, mid + 2));
            assert(be_u32(t, mid + 4) == be_u32(s, mid + 4));
            assert(be_u16(t, mid + 8) == be_u16(s, mid + 8));
            let data = mid + RECORD_FIXED_LEN;
            if bytes_left(t, data) >= rdlength(t, mid) {
                assert(t.subrange(data, data + rdlength(t, mid)) =~= s.subrange(
                    data,
                    data + rdlength(t, mid),
                ));
            }
        }
    }
}

} // verus!
