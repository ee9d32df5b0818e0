//! The canonical wire form of a message, written without compression, and
//! the law that ties the decoders to it: a valid message, written out in
//! canonical form, decodes to itself.
//!
//! Nothing here runs. The functions describe bytes; the decoders are held to
//! them by proof.

use crate::cursor::{be_u16, be_u32};
use crate::header::{decode_header, Header, HEADER_LEN};
use crate::name::{
    decode_name, valid_labels, walk, wire_len, NameError, MAX_LABEL_LEN, MAX_NAME_LEN,
};
use crate::packet::{decode_packet, decode_questions, decode_records, PacketError, PacketView};
use crate::question::{decode_question, QuestionError, QuestionView};
use crate::record::{decode_record, RecordError, RecordView, RECORD_FIXED_LEN};
use vstd::prelude::*;

verus! {

/// The two bytes of `v`, most significant first.
pub open spec fn u16_bytes(v: u16) -> Seq<u8> {
    seq![(v / 0x100) as u8, (v % 0x100) as u8]
}

/// The four bytes of `v`, most significant first.
pub open spec fn u32_bytes(v: u32) -> Seq<u8> {
    seq![
        (v / 0x100_0000) as u8,
        (v / 0x1_0000 % 0x100) as u8,
        (v / 0x100 % 0x100) as u8,
        (v % 0x100) as u8,
    ]
}

/// A name without compression: each label behind its length, then a zero.
pub open spec fn name_bytes(labels: Seq<Seq<u8>>) -> Seq<u8>
    decreases labels.len(),
{
    if labels.len() == 0 {
        seq![0u8]
    } else {
        seq![labels[0].len() as u8] + labels[0] + name_bytes(labels.drop_first())
    }
}

/// The twelve bytes of a header.
pub open spec fn header_bytes(h: Header) -> Seq<u8> {
    u16_bytes(h.id) + u16_bytes(h.flags) + u16_bytes(h.num_questions) + u16_bytes(h.num_answers)
        + u16_bytes(h.num_authorities) + u16_bytes(h.num_additionals)
}

/// A question: its name, type code and class code.
pub open spec fn question_bytes(q: QuestionView) -> Seq<u8> {
    name_bytes(q.name) + u16_bytes(q.qtype) + u16_bytes(q.qclass)
}

/// A record: its name, type code, class code, time to live, payload length
/// and payload.
pub open spec fn record_bytes(r: RecordView) -> Seq<u8> {
    name_bytes(r.name) + u16_bytes(r.rtype) + u16_bytes(r.rclass) + u32_bytes(r.ttl) + u16_bytes(
        r.rdata.len() as u16,
    ) + r.rdata
}

/// Questions one after another.
pub open spec fn questions_bytes(qs: Seq<QuestionView>) -> Seq<u8>
    decreases qs.len(),
{
    if qs.len() == 0 {
        Seq::empty()
    } else {
        question_bytes(qs[0]) + questions_bytes(qs.drop_first())
    }
}

/// Records one after another.
pub open spec fn records_bytes(rs: Seq<RecordView>) -> Seq<u8>
    decreases rs.len(),
{
    if rs.len() == 0 {
        Seq::empty()
    } else {
        record_bytes(rs[0]) + records_bytes(rs.drop_first())
    }
}

/// A whole message: header, questions, then the three record sections.
pub open spec fn packet_bytes(p: PacketView) -> Seq<u8> {
    header_bytes(p.header) + questions_bytes(p.questions) + records_bytes(p.answers)
        + records_bytes(p.authorities) + records_bytes(p.additionals)
}

/// The name of the record is valid and its payload length fits in sixteen
/// bits.
pub open spec fn valid_record(r: RecordView) -> bool {
    valid_labels(r.name) && r.rdata.len() <= u16::MAX
}

/// Every question has a valid name.
pub open spec fn valid_questions(qs: Seq<QuestionView>) -> bool {
    forall|i: int| 0 <= i < qs.len() ==> valid_labels((#[trigger] qs[i]).name)
}

/// Every record is valid.
pub open spec fn valid_records(rs: Seq<RecordView>) -> bool {
    forall|i: int| 0 <= i < rs.len() ==> valid_record(#[trigger] rs[i])
}

/// Each section holds as many entries as the header announces, and every
/// entry is valid.
pub open spec fn valid_packet(p: PacketView) -> bool {
    &&& p.questions.len() == p.header.num_questions
    &&& p.answers.len() == p.header.num_answers
    &&& p.authorities.len() == p.header.num_authorities
    &&& p.additionals.len() == p.header.num_additionals
    &&& valid_questions(p.questions)
    &&& valid_records(p.answers)
    &&& valid_records(p.authorities)
    &&& valid_records(p.additionals)
}

/// The bytes `e` stand in `s` from offset `at` on.
pub open spec fn holds_at(s: Seq<u8>, at: int, e: Seq<u8>) -> bool {
    &&& 0 <= at
    &&& at + e.len() <= s.len()
    &&& forall|i: int| 0 <= i < e.len() ==> s[at + i] == #[trigger] e[i]
}

proof fn lemma_holds_split(s: Seq<u8>, at: int, a: Seq<u8>, b: Seq<u8>)
    requires
        holds_at(s, at, a + b),
    ensures
        holds_at(s, at, a),
        holds_at(s, at + a.len(), b),
{
    assert forall|i: int| 0 <= i < a.len() implies s[at + i] == #[trigger] a[i] by {
        assert((a + b)[i] == a[i]);
    }
    assert forall|i: int| 0 <= i < b.len() implies s[at + a.len() + i] == #[trigger] b[i] by {
        assert((a + b)[a.len() + i] == b[i]);
    }
}

proof fn lemma_holds_u16(s: Seq<u8>, at: int, v: u16)
    requires
        holds_at(s, at, u16_bytes(v)),
    ensures
        be_u16(s, at) == v,
{
    let e = u16_bytes(v);
    assert(s[at + 0] == e[0]);
    assert(s[at + 1] == e[1]);
}

proof fn lemma_holds_u32(s: Seq<u8>, at: int, v: u32)
    requires
        holds_at(s, at, u32_bytes(v)),
    ensures
        be_u32(s, at) == v,
{
    let e = u32_bytes(v);
    assert(s[at + 0] == e[0]);
    assert(s[at + 1] == e[1]);
    assert(s[at + 2] == e[2]);
    assert(s[at + 3] == e[3]);
}

/// The canonical form of a name is as long as `wire_len` says.
pub proof fn lemma_name_bytes_len(labels: Seq<Seq<u8>>)
    ensures
        name_bytes(labels).len() == wire_len(labels),
    decreases labels.len(),
{
    if labels.len() > 0 {
        lemma_name_bytes_len(labels.drop_first());
    }
}

/// Wherever the canonical form of a name with labels of 1 to 63 bytes stands
/// in a buffer, and the length allowance left covers it, decoding there gives
/// the name and ends right behind it.
pub proof fn lemma_walk_canonical(
    s: Seq<u8>,
    at: int,
    labels: Seq<Seq<u8>>,
    used: int,
    hops: int,
)
    requires
        holds_at(s, at, name_bytes(labels)),
        forall|i: int| 0 <= i < labels.len() ==> 1 <= #[trigger] labels[i].len() <= MAX_LABEL_LEN,
        used + wire_len(labels) <= MAX_NAME_LEN,
    ensures
        walk(s, at, used, hops) == Ok::<(Seq<Seq<u8>>, int), NameError>(
            (labels, at + wire_len(labels)),
        ),
    decreases labels.len(),
{
    let e = name_bytes(labels);
    lemma_name_bytes_len(labels);
    assert(s[at + 0] == e[0]);
    if labels.len() == 0 {
        assert(labels =~= Seq::empty());
    } else {
        let first = labels[0];
        let rest = labels.drop_first();
        let n = first.len() as int;
        assert(e[0] == n as u8);
        lemma_name_bytes_len(rest);
        lemma_holds_split(s, at, seq![n as u8] + first, name_bytes(rest));
        lemma_holds_split(s, at, seq![n as u8], first);
        assert forall|i: int| 0 <= i < rest.len() implies 1 <= #[trigger] rest[i].len()
            <= MAX_LABEL_LEN by {
            assert(rest[i] == labels[i + 1]);
        }
        lemma_walk_canonical(s, at + 1 + n, rest, used + 1 + n, hops);
        assert(s.subrange(at + 1, at + 1 + n) =~= first) by {
            assert forall|i: int| 0 <= i < n implies s[at + 1 + i] == first[i] by {
                assert(s[at + 1 + i] == first[i]);
            }
        }
        assert(seq![first] + rest =~= labels);
    }
}

proof fn lemma_question_canonical(s: Seq<u8>, at: int, q: QuestionView)
    requires
        holds_at(s, at, question_bytes(q)),
        valid_labels(q.name),
    ensures
        decode_question(s, at) == Ok::<(QuestionView, int), QuestionError>(
            (q, at + question_bytes(q).len()),
        ),
{
    let name = name_bytes(q.name);
    lemma_name_bytes_len(q.name);
    lemma_holds_split(s, at, name + u16_bytes(q.qtype), u16_bytes(q.qclass));
    lemma_holds_split(s, at, name, u16_bytes(q.qtype));
    lemma_walk_canonical(s, at, q.name, 0, 0);
    let mid = at + name.len();
    lemma_holds_u16(s, mid, q.qtype);
    lemma_holds_u16(s, mid + 2, q.qclass);
}

proof fn lemma_record_canonical(s: Seq<u8>, at: int, r: RecordView)
    requires
        holds_at(s, at, record_bytes(r)),
        valid_record(r),
    ensures
        decode_record(s, at) == Ok::<(RecordView, int), RecordError>(
            (r, at + record_bytes(r).len()),
        ),
{
    let name = name_bytes(r.name);
    let len = r.rdata.len() as u16;
    lemma_name_bytes_len(r.name);
    let b1 = name + u16_bytes(r.rtype);
    let b2 = b1 + u16_bytes(r.rclass);
    let b3 = b2 + u32_bytes(r.ttl);
    let b4 = b3 + u16_bytes(len);
    lemma_holds_split(s, at, b4, r.rdata);
    lemma_holds_split(s, at, b3, u16_bytes(len));
    lemma_holds_split(s, at, b2, u32_bytes(r.ttl));
    lemma_holds_split(s, at, b1, u16_bytes(r.rclass));
    lemma_holds_split(s, at, name, u16_bytes(r.rtype));
    lemma_walk_canonical(s, at, r.name, 0, 0);
    let mid = at + name.len();
    lemma_holds_u16(s, mid, r.rtype);
    lemma_holds_u16(s, mid + 2, r.rclass);
    lemma_holds_u32(s, mid + 4, r.ttl);
    lemma_holds_u16(s, mid + 8, len);
    let data = mid + RECORD_FIXED_LEN;
    assert(s.subrange(data, data + len) =~= r.rdata) by {
        assert forall|i: int| 0 <= i < len implies s[data + i] == r.rdata[i] by {
            assert(s[data + i] == r.rdata[i]);
        }
    }
}

proof fn lemma_questions_canonical(s: Seq<u8>, at: int, qs: Seq<QuestionView>)
    requires
        holds_at(s, at, questions_bytes(qs)),
        valid_questions(qs),
    ensures
        decode_questions(s, at, qs.len()) == Ok::<
            (Seq<QuestionView>, int),
            QuestionError,
        >((qs, at + questions_bytes(qs).len())),
    decreases qs.len(),
{
    if qs.len() == 0 {
        assert(qs =~= Seq::empty());
    } else {
        let rest = qs.drop_first();
        lemma_holds_split(s, at, question_bytes(qs[0]), questions_bytes(rest));
        lemma_question_canonical(s, at, qs[0]);
        assert forall|i: int| 0 <= i < rest.len() implies valid_labels((#[trigger] rest[i]).name) by {
            assert(rest[i] == qs[i + 1]);
        }
        lemma_questions_canonical(s, at + question_bytes(qs[0]).len(), rest);
        assert(seq![qs[0]] + rest =~= qs);
    }
}

proof fn lemma_records_canonical(s: Seq<u8>, at: int, rs: Seq<RecordView>)
    requires
        holds_at(s, at, records_bytes(rs)),
        valid_records(rs),
    ensures
        decode_records(s, at, rs.len()) == Ok::<
            (Seq<RecordView>, int),
            RecordError,
        >((rs, at + records_bytes(rs).len())),
    decreases rs.len(),
{
    if rs.len() == 0 {
        assert(rs =~= Seq::empty());
    } else {
        let rest = rs.drop_first();
        lemma_holds_split(s, at, record_bytes(rs[0]), records_bytes(rest));
        lemma_record_canonical(s, at, rs[0]);
        assert forall|i: int| 0 <= i < rest.len() implies valid_record(#[trigger] rest[i]) by {
            assert(rest[i] == rs[i + 1]);
        }
        lemma_records_canonical(s, at + record_bytes(rs[0]).len(), rest);
        assert(seq![rs[0]] + rest =~= rs);
    }
}

/// Wherever the canonical form of a valid name stands in a buffer, decoding
/// there gives the name and ends right behind it.
pub proof fn lemma_name_round_trip(s: Seq<u8>, at: int, labels: Seq<Seq<u8>>)
    requires
        holds_at(s, at, name_bytes(labels)),
        valid_labels(labels),
    ensures
        decode_name(s, at) == Ok::<(Seq<Seq<u8>>, int), NameError>(
            (labels, at + name_bytes(labels).len()),
        ),
{
    lemma_name_bytes_len(labels);
    lemma_walk_canonical(s, at, labels, 0, 0);
}

/// Wherever the canonical form of a valid message stands in a buffer,
/// decoding there gives the message and ends right behind it.
pub proof fn lemma_packet_round_trip_at(s: Seq<u8>, at: int, p: PacketView)
    requires
        holds_at(s, at, packet_bytes(p)),
        valid_packet(p),
    ensures
        decode_packet(s, at) == Ok::<(PacketView, int), PacketError>(
            (p, at + packet_bytes(p).len()),
        ),
{
    let h = p.header;
    let hb = header_bytes(h);
    let qb = questions_bytes(p.questions);
    let anb = records_bytes(p.answers);
    let nsb = records_bytes(p.authorities);
    let arb = records_bytes(p.additionals);
    lemma_holds_split(s, at, hb + qb + anb + nsb, arb);
    lemma_holds_split(s, at, hb + qb + anb, nsb);
    lemma_holds_split(s, at, hb + qb, anb);
    lemma_holds_split(s, at, hb, qb);
    let h1 = u16_bytes(h.id);
    let h2 = h1 + u16_bytes(h.flags);
    let h3 = h2 + u16_bytes(h.num_questions);
    let h4 = h3 + u16_bytes(h.num_answers);
    let h5 = h4 + u16_bytes(h.num_authorities);
    lemma_holds_split(s, at, h5, u16_bytes(h.num_additionals));
    lemma_holds_split(s, at, h4, u16_bytes(h.num_authorities));
    lemma_holds_split(s, at, h3, u16_bytes(h.num_answers));
    lemma_holds_split(s, at, h2, u16_bytes(h.num_questions));
    lemma_holds_split(s, at, h1, u16_bytes(h.flags));
    lemma_holds_u16(s, at, h.id);
    lemma_holds_u16(s, at + 2, h.flags);
    lemma_holds_u16(s, at + 4, h.num_questions);
    lemma_holds_u16(s, at + 6, h.num_answers);
    lemma_holds_u16(s, at + 8, h.num_authorities);
    lemma_holds_u16(s, at + 10, h.num_additionals);
    assert(decode_header(s, at) == Some(h));
    let body = at + HEADER_LEN;
    lemma_questions_canonical(s, body, p.questions);
    let q_end = body + qb.len();
    lemma_records_canonical(s, q_end, p.answers);
    let an_end = q_end + anb.len();
    lemma_records_canonical(s, an_end, p.authorities);
    let ns_end = an_end + nsb.len();
    lemma_records_canonical(s, ns_end, p.additionals);
}

/// A valid message, written out in canonical form, decodes to itself, and
/// decoding ends at the end of the buffer.
pub proof fn lemma_packet_round_trip(p: PacketView)
    requires
        valid_packet(p),
    ensures
        decode_packet(packet_bytes(p), 0) == Ok::<(PacketView, int), PacketError>(
            (p, packet_bytes(p).len() as int),
        ),
{
    lemma_packet_round_trip_at(packet_bytes(p), 0, p);
}

} // verus!
