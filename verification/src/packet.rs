//! Whole messages: the header, then the questions of the first section and
//! the records of the other three, in the numbers the header announces.

use crate::cursor::Cursor;
use crate::header::{decode_header, Header, HeaderError, HEADER_LEN};
use crate::question::{
    decode_question, lemma_decode_question_prefix, lemma_decode_question_valid, Question,
    QuestionError, QuestionView,
};
use crate::record::{
    decode_record, lemma_decode_record_prefix, lemma_decode_record_valid, Record, RecordError,
    RecordView,
};
use vstd::prelude::*;

verus! {

/// A decoded message.
#[derive(Debug, Clone, PartialEq, Eq)]
pub struct Packet {
    pub header: Header,
    pub questions: Vec<Question>,
    pub answers: Vec<Record>,
    pub authorities: Vec<Record>,
    pub additionals: Vec<Record>,
}

/// The mathematical value of a [`Packet`].
pub struct PacketView {
    pub header: Header,
    pub questions: Seq<QuestionView>,
    pub answers: Seq<RecordView>,
    pub authorities: Seq<RecordView>,
    pub additionals: Seq<RecordView>,
}

/// The values of a vector of questions, in order.
pub open spec fn question_views(v: Seq<Question>) -> Seq<QuestionView> {
    v.map_values(|q: Question| q@)
}

/// The values of a vector of records, in order.
pub open spec fn record_views(v: Seq<Record>) -> Seq<RecordView> {
    v.map_values(|r: Record| r@)
}

impl View for Packet {
    type V = PacketView;

    open spec fn view(&self) -> PacketView {
        PacketView {
            header: self.header,
            questions: question_views(self.questions@),
            answers: record_views(self.answers@),
            authorities: record_views(self.authorities@),
            additionals: record_views(self.additionals@),
        }
    }
}

/// Why a message could not be decoded: the section in which decoding
/// stopped, and what went wrong there.
#[derive(Debug, Clone, Copy, PartialEq, Eq, Structural)]
pub enum PacketError {
    /// The header could not be decoded.
    Header(HeaderError),
    /// One of the announced questions could not be decoded.
    Question(QuestionError),
    /// One of the announced records could not be decoded.
    Record(RecordError),
}

impl PacketError {
    /// Decoding stopped because the buffer ended too early, in whatever
    /// section that was.
    pub open spec fn spec_is_insufficient_data(&self) -> bool {
        match *self {
            PacketError::Header(e) => e == HeaderError::InsufficientData,
            PacketError::Question(e) => e == QuestionError::InsufficientData,
            PacketError::Record(e) => e == RecordError::InsufficientData,
        }
    }

    /// Tells whether decoding stopped because the buffer ended too early,
    /// rather than because of what the bytes hold.
    #[verifier::when_used_as_spec(spec_is_insufficient_data)]
    pub fn is_insufficient_data(&self) -> (b: bool)
        ensures
            b == self.spec_is_insufficient_data(),
    {
        match self {
            PacketError::Header(e) => match e {
                HeaderError::InsufficientData => true,
            },
            PacketError::Question(e) => match e {
                QuestionError::InsufficientData => true,
                QuestionError::MalformedName => false,
            },
            PacketError::Record(e) => match e {
                RecordError::InsufficientData => true,
                RecordError::MalformedName => false,
            },
        }
    }
}

impl From<HeaderError> for PacketError {
    fn from(e: HeaderError) -> (err: PacketError) {
        PacketError::Header(e)
    }
}

impl vstd::std_specs::convert::FromSpecImpl<HeaderError> for PacketError {
    open spec fn obeys_from_spec() -> bool {
        true
    }

    open spec fn from_spec(e: HeaderError) -> PacketError {
        PacketError::Header(e)
    }
}

impl From<QuestionError> for PacketError {
    fn from(e: QuestionError) -> (err: PacketError) {
        PacketError::Question(e)
    }
}

impl vstd::std_specs::convert::FromSpecImpl<QuestionError> for PacketError {
    open spec fn obeys_from_spec() -> bool {
        true
    }

    open spec fn from_spec(e: QuestionError) -> PacketError {
        PacketError::Question(e)
    }
}

impl From<RecordError> for PacketError {
    fn from(e: RecordError) -> (err: PacketError) {
        PacketError::Record(e)
    }
}

impl vstd::std_specs::convert::FromSpecImpl<RecordError> for PacketError {
    open spec fn obeys_from_spec() -> bool {
        true
    }

    open spec fn from_spec(e: RecordError) -> PacketError {
        PacketError::Record(e)
    }
}

/// The `count` questions stored one after another from offset `at` of `s`,
/// with the offset just past the last one, or the error of the first one that
/// does not decode.
pub open spec fn decode_questions(s: Seq<u8>, at: int, count: nat) -> Result<
    (Seq<QuestionView>, int),
    QuestionError,
>
    decreases count,
{
    if count == 0 {
        Ok((Seq::empty(), at))
    } else {
        match decode_question(s, at) {
            Err(e) => Err(e),
            Ok((first, mid)) => match decode_questions(s, mid, (count - 1) as nat) {
                Err(e) => Err(e),
                Ok((rest, end)) => Ok((seq![first] + rest, end)),
            },
        }
    }
}

/// The `count` records stored one after another from offset `at` of `s`,
/// with the offset just past the last one, or the error of the first one that
/// does not decode.
pub open spec fn decode_records(s: Seq<u8>, at: int, count: nat) -> Result<
    (Seq<RecordView>, int),
    RecordError,
>
    decreases count,
{
    if count == 0 {
        Ok((Seq::empty(), at))
    } else {
        match decode_record(s, at) {
            Err(e) => Err(e),
            Ok((first, mid)) => match decode_records(s, mid, (count - 1) as nat) {
                Err(e) => Err(e),
                Ok((rest, end)) => Ok((seq![first] + rest, end)),
            },
        }
    }
}

/// The message stored at offset `at` of `s`, with the offset just past it, or
/// the first failure met on the way: in the header, then in the questions,
/// then in the answer, authority and additional records.
pub open spec fn decode_packet(s: Seq<u8>, at: int) -> Result<(PacketView, int), PacketError> {
    match decode_header(s, at) {
        None => Err(PacketError::Header(HeaderError::InsufficientData)),
        Some(header) => match decode_questions(s, at + HEADER_LEN, header.num_questions as nat) {
            Err(e) => Err(PacketError::Question(e)),
            Ok((questions, q_end)) => match decode_records(s, q_end, header.num_answers as nat) {
                Err(e) => Err(PacketError::Record(e)),
                Ok((answers, an_end)) => match decode_records(
                    s,
                    an_end,
                    header.num_authorities as nat,
                ) {
                    Err(e) => Err(PacketError::Record(e)),
                    Ok((authorities, ns_end)) => match decode_records(
                        s,
                        ns_end,
                        header.num_additionals as nat,
                    ) {
                        Err(e) => Err(PacketError::Record(e)),
                        Ok((additionals, end)) => Ok(
                            (
                                PacketView { header, questions, answers, authorities, additionals },
                                end,
                            ),
                        ),
                    },
                },
            },
        },
    }
}

/// What the questions of the section decode to, given those decoded so far
/// and what the ones still to come decode to.
spec fn questions_with(
    done: Seq<QuestionView>,
    tail: Result<(Seq<QuestionView>, int), QuestionError>,
) -> Result<(Seq<QuestionView>, int), QuestionError> {
    match tail {
        Ok((rest, end)) => Ok((done + rest, end)),
        Err(e) => Err(e),
    }
}

/// What the records of a section decode to, given those decoded so far and
/// what the ones still to come decode to.
spec fn records_with(
    done: Seq<RecordView>,
    tail: Result<(Seq<RecordView>, int), RecordError>,
) -> Result<(Seq<RecordView>, int), RecordError> {
    match tail {
        Ok((rest, end)) => Ok((done + rest, end)),
        Err(e) => Err(e),
    }
}

/// Decodes `count` questions at the cursor and moves the cursor past them.
///
/// Fails, without moving the cursor, with the error of the first question
/// that does not decode.
fn read_questions(cur: &mut Cursor, count: u16) -> (res: Result<Vec<Question>, QuestionError>)
    ensures
        final(cur).bytes == old(cur).bytes,
        old(cur).pos <= final(cur).pos,
        old(cur).pos <= old(cur).bytes@.len() ==> final(cur).pos <= old(cur).bytes@.len(),
        match decode_questions(old(cur).bytes@, old(cur).pos as int, count as nat) {
            Ok((questions, end)) => {
                &&& res matches Ok(v)
                &&& question_views(v@) == questions
                &&& v@.len() == count
                &&& forall|i: int| 0 <= i < v@.len() ==> (#[trigger] v@[i]).wf()
                &&& final(cur).pos == end
            },
            Err(e) => res == Err::<Vec<Question>, QuestionError>(e) && final(cur).pos == old(
                cur,
            ).pos,
        },
{
    let ghost s = cur.bytes@;
    let ghost start = cur.pos as int;
    let mut work = Cursor { bytes: cur.bytes, pos: cur.pos };
    let mut out: Vec<Question> = Vec::new();
    let mut i: u16 = 0;
    assert(question_views(out@) + Seq::<QuestionView>::empty() =~= Seq::<QuestionView>::empty());
    while i < count
        invariant
            i <= count,
            *cur == *old(cur),
            work.bytes@ == s,
            s == cur.bytes@,
            start == cur.pos,
            start <= work.pos,
            start <= s.len() ==> work.pos <= s.len(),
            out@.len() == i,
            forall|k: int| 0 <= k < out@.len() ==> (#[trigger] out@[k]).wf(),
            decode_questions(s, start, count as nat) == questions_with(
                question_views(out@),
                decode_questions(s, work.pos as int, (count - i) as nat),
            ),
        decreases count - i,
    {
        let ghost before = question_views(out@);
        match Question::from_bytes(&mut work) {
            Ok(q) => {
                proof {
                    let tail = decode_questions(s, work.pos as int, (count - i - 1) as nat);
                    if let Ok((rest, end)) = tail {
                        assert(before + (seq![q@] + rest) =~= before.push(q@) + rest);
                    }
                    assert(question_views(out@.push(q)) =~= before.push(q@));
                }
                out.push(q);
                i = i + 1;
            },
            Err(e) => {
                return Err(e);
            },
        }
    }
    proof {
        assert(question_views(out@) + Seq::<QuestionView>::empty() =~= question_views(out@));
    }
    cur.pos = work.pos;
    Ok(out)
}

/// Decodes `count` records at the cursor and moves the cursor past them.
///
/// Fails, without moving the cursor, with the error of the first record that
/// does not decode.
fn read_records(cur: &mut Cursor, count: u16) -> (res: Result<Vec<Record>, RecordError>)
    ensures
        final(cur).bytes == old(cur).bytes,
        old(cur).pos <= final(cur).pos,
        old(cur).pos <= old(cur).bytes@.len() ==> final(cur).pos <= old(cur).bytes@.len(),
        match decode_records(old(cur).bytes@, old(cur).pos as int, count as nat) {
            Ok((records, end)) => {
                &&& res matches Ok(v)
                &&& record_views(v@) == records
                &&& v@.len() == count
                &&& forall|i: int| 0 <= i < v@.len() ==> (#[trigger] v@[i]).wf()
                &&& final(cur).pos == end
            },
            Err(e) => res == Err::<Vec<Record>, RecordError>(e) && final(cur).pos == old(cur).pos,
        },
{
    let ghost s = cur.bytes@;
    let ghost start = cur.pos as int;
    let mut work = Cursor { bytes: cur.bytes, pos: cur.pos };
    let mut out: Vec<Record> = Vec::new();
    let mut i: u16 = 0;
    assert(record_views(out@) + Seq::<RecordView>::empty() =~= Seq::<RecordView>::empty());
    while i < count
        invariant
            i <= count,
            *cur == *old(cur),
            work.bytes@ == s,
            s == cur.bytes@,
            start == cur.pos,
            start <= work.pos,
            start <= s.len() ==> work.pos <= s.len(),
            out@.len() == i,
            forall|k: int| 0 <= k < out@.len() ==> (#[trigger] out@[k]).wf(),
            decode_records(s, start, count as nat) == records_with(
                record_views(out@),
                decode_records(s, work.pos as int, (count - i) as nat),
            ),
        decreases count - i,
    {
        let ghost before = record_views(out@);
        match Record::from_bytes(&mut work) {
            Ok(r) => {
                proof {
                    let tail = decode_records(s, work.pos as int, (count - i - 1) as nat);
                    if let Ok((rest, end)) = tail {
                        assert(before + (seq![r@] + rest) =~= before.push(r@) + rest);
                    }
                    assert(record_views(out@.push(r)) =~= before.push(r@));
                }
                out.push(r);
                i = i + 1;
            },
            Err(e) => {
                return Err(e);
            },
        }
    }
    proof {
        assert(record_views(out@) + Seq::<RecordView>::empty() =~= record_views(out@));
    }
    cur.pos = work.pos;
    Ok(out)
}

impl Packet {
    /// Each section holds as many entries as the header announces, and every
    /// entry is well formed.
    pub open spec fn wf(&self) -> bool {
        &&& self.questions@.len() == self.header.num_questions
        &&& self.answers@.len() == self.header.num_answers
        &&& self.authorities@.len() == self.header.num_authorities
        &&& self.additionals@.len() == self.header.num_additionals
        &&& forall|i: int| 0 <= i < self.questions@.len() ==> (#[trigger] self.questions@[i]).wf()
        &&& forall|i: int| 0 <= i < self.answers@.len() ==> (#[trigger] self.answers@[i]).wf()
        &&& forall|i: int|
            0 <= i < self.authorities@.len() ==> (#[trigger] self.authorities@[i]).wf()
        &&& forall|i: int|
            0 <= i < self.additionals@.len() ==> (#[trigger] self.additionals@[i]).wf()
    }

    /// Decodes the message at the cursor and moves the cursor past it.
    ///
    /// The header comes first, then as many questions as it announces, then
    /// its answer, authority and additional records, each section read in
    /// full before the next begins. The first entry that does not decode ends
    /// the attempt: the error names the section and the cursor is left where
    /// it was.
    pub fn from_bytes(cur: &mut Cursor) -> (res: Result<Packet, PacketError>)
        ensures
            final(cur).bytes == old(cur).bytes,
            res is Ok ==> old(cur).pos < final(cur).pos <= old(cur).bytes@.len(),
            match decode_packet(old(cur).bytes@, old(cur).pos as int) {
                Ok((packet, end)) => {
                    &&& res matches Ok(p)
                    &&& p@ == packet
                    &&& p.wf()
                    &&& final(cur).pos == end
                },
                Err(e) => res == Err::<Packet, PacketError>(e) && final(cur).pos == old(cur).pos,
            },
    {
        let mut work = Cursor { bytes: cur.bytes, pos: cur.pos };
        let header = match Header::from_bytes(&mut work) {
            Ok(header) => header,
            Err(e) => {
                return Err(PacketError::from(e));
            },
        };
        let questions = match read_questions(&mut work, header.num_questions) {
            Ok(questions) => questions,
            Err(e) => {
                return Err(PacketError::from(e));
            },
        };
        let answers = match read_records(&mut work, header.num_answers) {
            Ok(records) => records,
            Err(e) => {
                return Err(PacketError::from(e));
            },
        };
        let authorities = match read_records(&mut work, header.num_authorities) {
            Ok(records) => records,
            Err(e) => {
                return Err(PacketError::from(e));
            },
        };
        let additionals = match read_records(&mut work, header.num_additionals) {
            Ok(records) => records,
            Err(e) => {
                return Err(PacketError::from(e));
            },
        };
        cur.pos = work.pos;
        Ok(Packet { header, questions, answers, authorities, additionals })
    }
}

/// A run of questions that decodes holds as many as were asked for and ends
/// inside the buffer, provided it starts there.
pub proof fn lemma_decode_questions_valid(s: Seq<u8>, at: int, count: nat)
    requires
        at <= s.len(),
        decode_questions(s, at, count) is Ok,
    ensures
        decode_questions(s, at, count).unwrap().0.len() == count,
        at <= decode_questions(s, at, count).unwrap().1 <= s.len(),
    decreases count,
{
    if count > 0 {
        lemma_decode_question_valid(s, at);
        let mid = decode_question(s, at).unwrap().1;
        lemma_decode_questions_valid(s, mid, (count - 1) as nat);
    }
}

/// A run of records that decodes holds as many as were asked for and ends
/// inside the buffer, provided it starts there.
pub proof fn lemma_decode_records_valid(s: Seq<u8>, at: int, count: nat)
    requires
        at <= s.len(),
        decode_records(s, at, count) is Ok,
    ensures
        decode_records(s, at, count).unwrap().0.len() == count,
        at <= decode_records(s, at, count).unwrap().1 <= s.len(),
    decreases count,
{
    if count > 0 {
        lemma_decode_record_valid(s, at);
        let mid = decode_record(s, at).unwrap().1;
        lemma_decode_records_valid(s, mid, (count - 1) as nat);
    }
}

/// If the first `have` questions decode and the next one does not, asking
/// for more than `have` questions fails with the error of that next one.
pub proof fn lemma_decode_questions_shortfall(s: Seq<u8>, at: int, have: nat, count: nat)
    requires
        have < count,
        decode_questions(s, at, have) is Ok,
        decode_question(s, decode_questions(s, at, have).unwrap().1) is Err,
    ensures
        decode_questions(s, at, count) == Err::<(Seq<QuestionView>, int), QuestionError>(
            decode_question(s, decode_questions(s, at, have).unwrap().1)->Err_0,
        ),
    decreases have,
{
    if have > 0 {
        let mid = decode_question(s, at).unwrap().1;
        lemma_decode_questions_shortfall(s, mid, (have - 1) as nat, (count - 1) as nat);
    }
}

/// If the first `have` records decode and the next one does not, asking for
/// more than `have` records fails with the error of that next one.
pub proof fn lemma_decode_records_shortfall(s: Seq<u8>, at: int, have: nat, count: nat)
    requires
        have < count,
        decode_records(s, at, have) is Ok,
        decode_record(s, decode_records(s, at, have).unwrap().1) is Err,
    ensures
        decode_records(s, at, count) == Err::<(Seq<RecordView>, int), RecordError>(
            decode_record(s, decode_records(s, at, have).unwrap().1)->Err_0,
        ),
    decreases have,
{
    if have > 0 {
        let mid = decode_record(s, at).unwrap().1;
        lemma_decode_records_shortfall(s, mid, (have - 1) as nat, (count - 1) as nat);
    }
}

/// For every buffer `s` and every `t` that `s` starts with, decoding a run
/// of questions at the same offset of `t` gives what it gives on `s`, or
/// `InsufficientData`.
pub proof fn lemma_decode_questions_prefix(t: Seq<u8>, s: Seq<u8>, at: int, count: nat)
    requires
        t.is_prefix_of(s),
    ensures
        decode_questions(t, at, count) == decode_questions(s, at, count) || decode_questions(
            t,
            at,
            count,
        ) == Err::<(Seq<QuestionView>, int), QuestionError>(QuestionError::InsufficientData),
    decreases count,
{
    if count > 0 {
        lemma_decode_question_prefix(t, s, at);
        if let Ok((first, mid)) = decode_question(t, at) {
            lemma_decode_questions_prefix(t, s, mid, (count - 1) as nat);
        }
    }
}

/// For every buffer `s` and every `t` that `s` starts with, decoding a run
/// of records at the same offset of `t` gives what it gives on `s`, or
/// `InsufficientData`.
pub proof fn lemma_decode_records_prefix(t: Seq<u8>, s: Seq<u8>, at: int, count: nat)
    requires
        t.is_prefix_of(s),
    ensures
        decode_records(t, at, count) == decode_records(s, at, count) || decode_records(
            t,
            at,
            count,
        ) == Err::<(Seq<RecordView>, int), RecordError>(RecordError::InsufficientData),
    decreases count,
{
    if count > 0 {
        lemma_decode_record_prefix(t, s, at);
        if let Ok((first, mid)) = decode_record(t, at) {
            lemma_decode_records_prefix(t, s, mid, (count - 1) as nat);
        }
    }
}

/// A message that decodes holds in each section as many entries as its
/// header announces, and ends inside the buffer, after the header.
pub proof fn lemma_decode_packet_valid(s: Seq<u8>, at: int)
    requires
        decode_packet(s, at) is Ok,
    ensures
        ({
            let (packet, end) = decode_packet(s, at).unwrap();
            &&& packet.questions.len() == packet.header.num_questions
            &&& packet.answers.len() == packet.header.num_answers
            &&& packet.authorities.len() == packet.header.num_authorities
            &&& packet.additionals.len() == packet.header.num_additionals
            &&& 0 <= at
            &&& at + HEADER_LEN <= end <= s.len()
        }),
{
    let header = decode_header(s, at).unwrap();
    let body = at + HEADER_LEN;
    lemma_decode_questions_valid(s, body, header.num_questions as nat);
    let q_end = decode_questions(s, body, header.num_questions as nat).unwrap().1;
    lemma_decode_records_valid(s, q_end, header.num_answers as nat);
    let an_end = decode_records(s, q_end, header.num_answers as nat).unwrap().1;
    lemma_decode_records_valid(s, an_end, header.num_authorities as nat);
    let ns_end = decode_records(s, an_end, header.num_authorities as nat).unwrap().1;
    lemma_decode_records_valid(s, ns_end, header.num_additionals as nat);
}

/// Cutting a buffer short changes nothing but this: a message that reached
/// beyond the cut now fails for want of data.
///
/// For every buffer `s` and every `t` that `s` starts with, decoding a
/// message at the same offset of `t` gives what it gives on `s`, or an error
/// of the insufficient-data class.
pub proof fn lemma_decode_packet_prefix(t: Seq<u8>, s: Seq<u8>, at: int)
    requires
        t.is_prefix_of(s),
    ensures
        decode_packet(t, at) == decode_packet(s, at) || (decode_packet(t, at) matches Err(e)
            && e.is_insufficient_data()),
{
    if let Some(header) = decode_header(t, at) {
        assert forall|i: int| at <= i < at + HEADER_LEN implies t[i] == s[i] by {}
        assert(decode_header(s, at) == Some(header));
        let body = at + HEADER_LEN;
        lemma_decode_questions_prefix(t, s, body, header.num_questions as nat);
        if let Ok((questions, q_end)) = decode_questions(t, body, header.num_questions as nat) {
            lemma_decode_records_prefix(t, s, q_end, header.num_answers as nat);
            if let Ok((answers, an_end)) = decode_records(t, q_end, header.num_answers as nat) {
                lemma_decode_records_prefix(t, s, an_end, header.num_authorities as nat);
                if let Ok((authorities, ns_end)) = decode_records(
                    t,
                    an_end,
                    header.num_authorities as nat,
                ) {
                    lemma_decode_records_prefix(t, s, ns_end, header.num_additionals as nat);
                }
            }
        }
    }
}

/// A message cut anywhere before its end fails for want of data.
///
/// If a message decodes from `s` and ends at offset `end`, then from the
/// first `keep` bytes of `s`, for every `keep` below `end`, decoding fails
/// with an error of the insufficient-data class.
pub proof fn lemma_truncated_packet_fails(s: Seq<u8>, at: int, keep: int)
    requires
        decode_packet(s, at) is Ok,
        0 <= keep < decode_packet(s, at).unwrap().1,
    ensures
        decode_packet(s.take(keep), at) matches Err(e) && e.is_insufficient_data(),
{
    lemma_decode_packet_valid(s, at);
    let t = s.take(keep);
    assert(t.is_prefix_of(s));
    lemma_decode_packet_prefix(t, s, at);
    if decode_packet(t, at) is Ok {
        lemma_decode_packet_valid(t, at);
    }
}

/// A header that announces more questions than the buffer holds makes the
/// message fail in the question section.
///
/// If the header decodes and announces more than `have` questions, the first
/// `have` questions after it decode and the next one does not, then the
/// message fails with the question error of that next one.
pub proof fn lemma_missing_question_fails(s: Seq<u8>, at: int, have: nat)
    requires
        decode_header(s, at) is Some,
        have < decode_header(s, at).unwrap().num_questions,
        decode_questions(s, at + HEADER_LEN, have) is Ok,
        decode_question(s, decode_questions(s, at + HEADER_LEN, have).unwrap().1) is Err,
    ensures
        decode_packet(s, at) == Err::<(PacketView, int), PacketError>(
            PacketError::Question(
                decode_question(s, decode_questions(s, at + HEADER_LEN, have).unwrap().1)->Err_0,
            ),
        ),
{
    let count = decode_header(s, at).unwrap().num_questions as nat;
    lemma_decode_questions_shortfall(s, at + HEADER_LEN, have, count);
}

} // verus!
