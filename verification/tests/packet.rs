use dns_packet::cursor::Cursor;
use dns_packet::header::{Header, HeaderError};
use dns_packet::name::Name;
use dns_packet::packet::{Packet, PacketError};
use dns_packet::question::{Question, QuestionError};
use dns_packet::record::{Record, RecordError};

fn labels(parts: &[&str]) -> Vec<Vec<u8>> {
    parts.iter().map(|p| p.as_bytes().to_vec()).collect()
}

/// Header with the given counts, id 0x1234 and flags 0x0100.
fn header(qd: u16, an: u16, ns: u16, ar: u16) -> Vec<u8> {
    let mut out = vec![0x12, 0x34, 0x01, 0x00];
    for n in [qd, an, ns, ar] {
        out.push((n >> 8) as u8);
        out.push((n & 0xff) as u8);
    }
    out
}

/// `example.com`, type A, class IN.
fn example_question() -> Vec<u8> {
    let mut out = vec![7];
    out.extend_from_slice(b"example");
    out.push(3);
    out.extend_from_slice(b"com");
    out.extend_from_slice(&[0, 0, 1, 0, 1]);
    out
}

/// A record whose name is a pointer to offset 12.
fn pointer_record(rtype: u16, ttl: u32, rdata: &[u8]) -> Vec<u8> {
    let mut out = vec![0xC0, 12];
    out.extend_from_slice(&rtype.to_be_bytes());
    out.extend_from_slice(&[0, 1]);
    out.extend_from_slice(&ttl.to_be_bytes());
    out.extend_from_slice(&(rdata.len() as u16).to_be_bytes());
    out.extend_from_slice(rdata);
    out
}

/// One question and one record in each of the three record sections.
fn full_message() -> Vec<u8> {
    let mut bytes = header(1, 1, 1, 1);
    bytes.extend(example_question());
    bytes.extend(pointer_record(1, 300, &[93, 184, 216, 34]));
    bytes.extend(pointer_record(2, 86400, &[2, b'n', b's', 0xC0, 12]));
    bytes.extend(pointer_record(16, 0, &[2, b'h', b'i']));
    bytes
}

fn decode(bytes: &[u8]) -> (Result<Packet, PacketError>, usize) {
    let mut cur = Cursor::new(bytes);
    let res = Packet::from_bytes(&mut cur);
    (res, cur.position())
}

#[test]
fn single_question_message() {
    let mut bytes = header(1, 0, 0, 0);
    bytes.extend(example_question());
    let (res, pos) = decode(&bytes);
    let packet = res.unwrap();
    assert_eq!(
        packet.header,
        Header {
            id: 0x1234,
            flags: 0x0100,
            num_questions: 1,
            num_answers: 0,
            num_authorities: 0,
            num_additionals: 0,
        }
    );
    assert_eq!(packet.questions.len(), 1);
    assert_eq!(packet.questions[0].name.labels, labels(&["example", "com"]));
    assert_eq!(packet.questions[0].qtype, 1);
    assert_eq!(packet.questions[0].qclass, 1);
    assert!(packet.answers.is_empty());
    assert!(packet.authorities.is_empty());
    assert!(packet.additionals.is_empty());
    assert_eq!(pos, bytes.len());
    assert_eq!(pos, 29);
}

#[test]
fn answer_name_is_pointer_to_question_name() {
    let mut bytes = header(1, 1, 0, 0);
    bytes.extend(example_question());
    bytes.extend(pointer_record(1, 300, &[93, 184, 216, 34]));
    let (res, pos) = decode(&bytes);
    let packet = res.unwrap();
    assert_eq!(packet.answers.len(), 1);
    let answer = &packet.answers[0];
    assert_eq!(answer.name, packet.questions[0].name);
    assert_eq!(answer.name.labels, labels(&["example", "com"]));
    assert_eq!(answer.rtype, 1);
    assert_eq!(answer.rclass, 1);
    assert_eq!(answer.ttl, 300);
    assert_eq!(answer.rdata, vec![93, 184, 216, 34]);
    assert_eq!(pos, bytes.len());
}

#[test]
fn hand_built_message_decodes_field_for_field() {
    let bytes = full_message();
    let (res, pos) = decode(&bytes);
    let name = Name { labels: labels(&["example", "com"]) };
    let expected = Packet {
        header: Header {
            id: 0x1234,
            flags: 0x0100,
            num_questions: 1,
            num_answers: 1,
            num_authorities: 1,
            num_additionals: 1,
        },
        questions: vec![Question { name: name.clone(), qtype: 1, qclass: 1 }],
        answers: vec![Record {
            name: name.clone(),
            rtype: 1,
            rclass: 1,
            ttl: 300,
            rdata: vec![93, 184, 216, 34],
        }],
        authorities: vec![Record {
            name: name.clone(),
            rtype: 2,
            rclass: 1,
            ttl: 86400,
            rdata: vec![2, b'n', b's', 0xC0, 12],
        }],
        additionals: vec![Record {
            name: name.clone(),
            rtype: 16,
            rclass: 1,
            ttl: 0,
            rdata: vec![2, b'h', b'i'],
        }],
    };
    assert_eq!(res, Ok(expected));
    assert_eq!(pos, bytes.len());
}

#[test]
fn header_only_message() {
    let bytes = header(0, 0, 0, 0);
    let (res, pos) = decode(&bytes);
    let packet = res.unwrap();
    assert!(packet.questions.is_empty());
    assert!(packet.answers.is_empty());
    assert!(packet.authorities.is_empty());
    assert!(packet.additionals.is_empty());
    assert_eq!(pos, 12);
}

#[test]
fn sections_hold_the_announced_numbers_in_order() {
    let mut bytes = header(2, 3, 0, 1);
    bytes.extend(example_question());
    bytes.extend_from_slice(&[0xC0, 12, 0, 28, 0, 1]);
    for ttl in [10u32, 20, 30] {
        bytes.extend(pointer_record(1, ttl, &[ttl as u8]));
    }
    bytes.extend(pointer_record(41, 0, &[]));
    let (res, pos) = decode(&bytes);
    let packet = res.unwrap();
    assert_eq!(packet.questions.len(), 2);
    assert_eq!(packet.questions[1].qtype, 28);
    assert_eq!(packet.answers.len(), 3);
    assert_eq!(packet.answers[0].ttl, 10);
    assert_eq!(packet.answers[1].ttl, 20);
    assert_eq!(packet.answers[2].ttl, 30);
    assert_eq!(packet.answers[2].rdata, vec![30u8]);
    assert!(packet.authorities.is_empty());
    assert_eq!(packet.additionals.len(), 1);
    assert_eq!(packet.additionals[0].rtype, 41);
    assert_eq!(pos, bytes.len());
}

#[test]
fn bytes_after_the_message_are_left_alone() {
    let mut bytes = full_message();
    let end = bytes.len();
    bytes.extend_from_slice(&[0xDE, 0xAD]);
    let (res, pos) = decode(&bytes);
    assert!(res.is_ok());
    assert_eq!(pos, end);
}

#[test]
fn message_cut_at_any_offset_fails_for_want_of_data() {
    let bytes = full_message();
    assert!(decode(&bytes).0.is_ok());
    for cut in 0..bytes.len() {
        let (res, pos) = decode(&bytes[..cut]);
        let err = res.unwrap_err();
        assert!(err.is_insufficient_data(), "cut at {}: {:?}", cut, err);
        assert_eq!(pos, 0);
        let expected = if cut < 12 {
            PacketError::Header(HeaderError::InsufficientData)
        } else if cut < 29 {
            PacketError::Question(QuestionError::InsufficientData)
        } else {
            PacketError::Record(RecordError::InsufficientData)
        };
        assert_eq!(err, expected);
    }
}

#[test]
fn empty_buffer_fails_in_header() {
    let (res, pos) = decode(&[]);
    assert_eq!(res, Err(PacketError::Header(HeaderError::InsufficientData)));
    assert_eq!(pos, 0);
}

#[test]
fn missing_question_fails_in_question_section() {
    // two questions announced, one present
    let mut bytes = header(2, 0, 0, 0);
    bytes.extend(example_question());
    let (res, pos) = decode(&bytes);
    assert_eq!(res, Err(PacketError::Question(QuestionError::InsufficientData)));
    assert_eq!(pos, 0);
}

#[test]
fn malformed_second_question_fails_in_question_section() {
    let mut bytes = header(2, 0, 0, 0);
    bytes.extend(example_question());
    bytes.extend_from_slice(&[0x41, b'x', 0, 0, 1, 0, 1]);
    let (res, pos) = decode(&bytes);
    assert_eq!(res, Err(PacketError::Question(QuestionError::MalformedName)));
    assert_eq!(pos, 0);
}

#[test]
fn records_are_not_taken_for_missing_questions() {
    // two questions announced; what follows the first is a record
    let mut bytes = header(2, 1, 0, 0);
    bytes.extend(example_question());
    bytes.extend_from_slice(&[0xC0, 12, 0, 1, 0, 1]);
    let (res, _) = decode(&bytes);
    assert_eq!(res, Err(PacketError::Record(RecordError::InsufficientData)));
}

#[test]
fn missing_record_fails_in_record_section() {
    for (an, ns, ar) in [(1u16, 0u16, 0u16), (0, 1, 0), (0, 0, 1)] {
        let mut bytes = header(1, an, ns, ar);
        bytes.extend(example_question());
        let (res, pos) = decode(&bytes);
        assert_eq!(res, Err(PacketError::Record(RecordError::InsufficientData)));
        assert_eq!(pos, 0);
    }
}

#[test]
fn forward_pointer_in_record_is_malformed() {
    let mut bytes = header(1, 1, 0, 0);
    bytes.extend(example_question());
    bytes.extend_from_slice(&[0xC0, 29, 0, 1, 0, 1, 0, 0, 0, 0, 0, 0]);
    let (res, pos) = decode(&bytes);
    assert_eq!(res, Err(PacketError::Record(RecordError::MalformedName)));
    assert_eq!(pos, 0);
}

#[test]
fn payload_longer_than_the_rest_of_the_buffer_fails() {
    let mut bytes = header(1, 1, 0, 0);
    bytes.extend(example_question());
    let mut record = pointer_record(1, 300, &[1, 2, 3, 4]);
    record.pop();
    bytes.extend(record);
    let (res, pos) = decode(&bytes);
    assert_eq!(res, Err(PacketError::Record(RecordError::InsufficientData)));
    assert_eq!(pos, 0);
}

#[test]
fn message_that_starts_after_other_bytes() {
    // pointers count from the start of the buffer, not from the header
    let mut bytes = vec![0xEE, 0xEE];
    bytes.extend(header(1, 1, 0, 0));
    bytes.extend(example_question());
    bytes.extend_from_slice(&[0xC0, 14, 0, 1, 0, 1, 0, 0, 0, 5, 0, 0]);
    let mut cur = Cursor::new(&bytes);
    cur.set_position(2);
    let packet = Packet::from_bytes(&mut cur).unwrap();
    assert_eq!(packet.answers[0].name.labels, labels(&["example", "com"]));
    assert_eq!(cur.position(), bytes.len());
}

#[test]
fn packet_error_tells_truncation_from_malformation() {
    assert!(PacketError::Header(HeaderError::InsufficientData).is_insufficient_data());
    assert!(PacketError::Question(QuestionError::InsufficientData).is_insufficient_data());
    assert!(PacketError::Record(RecordError::InsufficientData).is_insufficient_data());
    assert!(!PacketError::Question(QuestionError::MalformedName).is_insufficient_data());
    assert!(!PacketError::Record(RecordError::MalformedName).is_insufficient_data());
}

#[test]
fn packet_error_from_section_errors() {
    assert_eq!(
        PacketError::from(HeaderError::InsufficientData),
        PacketError::Header(HeaderError::InsufficientData)
    );
    assert_eq!(
        PacketError::from(QuestionError::MalformedName),
        PacketError::Question(QuestionError::MalformedName)
    );
    assert_eq!(
        PacketError::from(RecordError::InsufficientData),
        PacketError::Record(RecordError::InsufficientData)
    );
}

#[test]
fn decoding_twice_gives_equal_packets() {
    let bytes = full_message();
    assert_eq!(decode(&bytes), decode(&bytes));
}
