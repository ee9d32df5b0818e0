//! Entries of the question section: a name, a type code and a class code.

use crate::cursor::{be_u16, bytes_left, read_be_u16, Cursor};
use crate::name::{decode_name, lemma_walk_prefix, lemma_walk_valid, valid_labels, Name, NameError};
use vstd::prelude::*;

verus! {

/// Number of bytes that follow the name of a question.
pub const QUESTION_FIXED_LEN: usize = 4;

/// One entry of the question section.
#[derive(Debug, Clone, PartialEq, Eq)]
pub struct Question {
    pub name: Name,
    pub qtype: u16,
    pub qclass: u16,
}

/// The mathematical value of a [`Question`].
pub struct QuestionView {
    pub name: Seq<Seq<u8>>,
    pub qtype: u16,
    pub qclass: u16,
}

impl View for Question {
    type V = QuestionView;

    open spec fn view(&self) -> QuestionView {
        QuestionView { name: self.name@, qtype: self.qtype, qclass: self.qclass }
    }
}

/// Why a question could not be decoded.
#[derive(Debug, Clone, Copy, PartialEq, Eq, Structural)]
pub enum QuestionError {
    /// The buffer ended inside the name or before the type and class codes.
    InsufficientData,
    /// The name of the question is malformed.
    MalformedName,
}

impl QuestionError {
    /// The question error that a failure to decode the name amounts to.
    pub open spec fn of_name(e: NameError) -> QuestionError {
        match e {
            NameError::InsufficientData => QuestionError::InsufficientData,
            NameError::Malformed => QuestionError::MalformedName,
        }
    }
}

impl From<NameError> for QuestionError {
    fn from(e: NameError) -> (err: QuestionError) {
        match e {
            NameError::InsufficientData => QuestionError::InsufficientData,
            NameError::Malformed => QuestionError::MalformedName,
        }
    }
}

impl vstd::std_specs::convert::FromSpecImpl<NameError> for QuestionError {
    open spec fn obeys_from_spec() -> bool {
        true
    }

    open spec fn from_spec(e: NameError) -> QuestionError {
        QuestionError::of_name(e)
    }
}

/// The question stored at offset `at` of `s`, with the offset just past it.
pub open spec fn decode_question(s: Seq<u8>, at: int) -> Result<(QuestionView, int), QuestionError> {
    match decode_name(s, at) {
        Err(e) => Err(QuestionError::of_name(e)),
        Ok((name, mid)) => {
            if bytes_left(s, mid) < QUESTION_FIXED_LEN {
                Err(QuestionError::InsufficientData)
            } else {
                Ok(
                    (
                        QuestionView { name, qtype: be_u16(s, mid), qclass: be_u16(s, mid + 2) },
                        mid + QUESTION_FIXED_LEN,
                    ),
                )
            }
        },
    }
}

impl Question {
    /// The name is well formed.
    pub open spec fn wf(&self) -> bool {
        valid_labels(self.name@)
    }

    /// Decodes the question at the cursor and moves the cursor past it.
    ///
    /// Fails, without moving the cursor, when the name cannot be decoded or
    /// fewer than four bytes follow it.
    pub fn from_bytes(cur: &mut Cursor) -> (res: Result<Question, QuestionError>)
        ensures
            final(cur).bytes == old(cur).bytes,
            res is Ok ==> old(cur).pos < final(cur).pos <= old(cur).bytes@.len(),
            match decode_question(old(cur).bytes@, old(cur).pos as int) {
                Ok((question, end)) => {
                    &&& res matches Ok(q)
                    &&& q@ == question
                    &&& q.wf()
                    &&& final(cur).pos == end
                },
                Err(e) => res == Err::<Question, QuestionError>(e) && final(cur).pos == old(
                    cur,
                ).pos,
            },
    {
        let mut work = Cursor { bytes: cur.bytes, pos: cur.pos };
        let name = match Name::from_bytes(&mut work) {
            Ok(name) => name,
            Err(e) => {
                return Err(QuestionError::from(e));
            },
        };
        if work.remaining() < QUESTION_FIXED_LEN {
            return Err(QuestionError::InsufficientData);
        }
        let mid = work.pos;
        let qtype = read_be_u16(work.bytes, mid);
        let qclass = read_be_u16(work.bytes, mid + 2);
        cur.pos = mid + QUESTION_FIXED_LEN;
        Ok(Question { name, qtype, qclass })
    }
}

/// A question that decodes has a valid name and ends inside the buffer,
/// at least five bytes after its start.
pub proof fn lemma_decode_question_valid(s: Seq<u8>, at: int)
    requires
        decode_question(s, at) is Ok,
    ensures
        valid_labels(decode_question(s, at).unwrap().0.name),
        at + 1 + QUESTION_FIXED_LEN <= decode_question(s, at).unwrap().1 <= s.len(),
{
    lemma_walk_valid(s, at, 0, 0);
}

/// For every buffer `s` and every `t` that `s` starts with, decoding a
/// question at the same offset of `t` gives what it gives on `s`, or
/// `InsufficientData`.
pub proof fn lemma_decode_question_prefix(t: Seq<u8>, s: Seq<u8>, at: int)
    requires
        t.is_prefix_of(s),
    ensures
        decode_question(t, at) == decode_question(s, at) || decode_question(t, at) == Err::<
            (QuestionView, int),
            QuestionError,
        >(QuestionError::InsufficientData),
{
    lemma_walk_prefix(t, s, at, 0, 0);
    if let Ok((name, mid)) = decode_name(t, at) {
        lemma_walk_valid(t, at, 0, 0);
        if bytes_left(t, mid) >= QUESTION_FIXED_LEN {
            assert(t[mid] == s[mid]);
            assert(t[mid + 1] == s[mid + 1]);
            assert(t[mid + 2] == s[mid + 2]);
            assert(t[mid + 3] == s[mid + 3]);
        }
    }
}

} // verus!
