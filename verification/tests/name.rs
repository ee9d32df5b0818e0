use dns_packet::cursor::Cursor;
use dns_packet::name::{Name, NameError, Tag, MAX_LABEL_LEN, MAX_NAME_LEN, MAX_POINTER_HOPS};

fn name_of(parts: &[&str]) -> Vec<Vec<u8>> {
    parts.iter().map(|p| p.as_bytes().to_vec()).collect()
}

/// Labels in plain wire form, closed by a zero byte.
fn plain(parts: &[&[u8]]) -> Vec<u8> {
    let mut out = Vec::new();
    for p in parts {
        out.push(p.len() as u8);
        out.extend_from_slice(p);
    }
    out.push(0);
    out
}

fn decode_at(bytes: &[u8], at: usize) -> (Result<Name, NameError>, usize) {
    let mut cur = Cursor::new(bytes);
    cur.set_position(at);
    let res = Name::from_bytes(&mut cur);
    (res, cur.position())
}

#[test]
fn limits_have_their_conventional_values() {
    assert_eq!(MAX_LABEL_LEN, 63);
    assert_eq!(MAX_NAME_LEN, 255);
    assert_eq!(MAX_POINTER_HOPS, 128);
}

#[test]
fn tag_bytes_are_classified() {
    assert_eq!(Tag::from_byte(0), Tag::End);
    assert_eq!(Tag::from_byte(1), Tag::Label(1));
    assert_eq!(Tag::from_byte(63), Tag::Label(63));
    assert_eq!(Tag::from_byte(64), Tag::Invalid);
    assert_eq!(Tag::from_byte(0x80), Tag::Invalid);
    assert_eq!(Tag::from_byte(0xBF), Tag::Invalid);
    assert_eq!(Tag::from_byte(0xC0), Tag::Pointer(0));
    assert_eq!(Tag::from_byte(0xC1), Tag::Pointer(1));
    assert_eq!(Tag::from_byte(0xFF), Tag::Pointer(63));
}

#[test]
fn plain_name_decodes() {
    let bytes = plain(&[b"example", b"com"]);
    let (res, pos) = decode_at(&bytes, 0);
    assert_eq!(res.unwrap().labels, name_of(&["example", "com"]));
    assert_eq!(pos, 13);
}

#[test]
fn root_name_has_no_labels() {
    let (res, pos) = decode_at(&[0, 9, 9], 0);
    assert_eq!(res.unwrap().labels, Vec::<Vec<u8>>::new());
    assert_eq!(pos, 1);
}

#[test]
fn labels_are_raw_bytes() {
    let bytes = plain(&[&[0x00, 0xFF, 0x2E]]);
    let (res, pos) = decode_at(&bytes, 0);
    assert_eq!(res.unwrap().labels, vec![vec![0x00u8, 0xFF, 0x2E]]);
    assert_eq!(pos, 5);
}

#[test]
fn label_of_63_bytes_is_accepted() {
    let label = [b'x'; 63];
    let bytes = plain(&[&label]);
    let (res, pos) = decode_at(&bytes, 0);
    assert_eq!(res.unwrap().labels, vec![label.to_vec()]);
    assert_eq!(pos, 65);
}

#[test]
fn tag_of_64_is_malformed() {
    let mut bytes = vec![64u8];
    bytes.extend_from_slice(&[b'x'; 64]);
    bytes.push(0);
    let (res, pos) = decode_at(&bytes, 0);
    assert_eq!(res, Err(NameError::Malformed));
    assert_eq!(pos, 0);
}

#[test]
fn tags_with_one_high_bit_are_malformed() {
    for tag in [0x40u8, 0x7F, 0x80, 0xBF] {
        let bytes = [tag, 0, 0, 0];
        assert_eq!(decode_at(&bytes, 0).0, Err(NameError::Malformed));
    }
}

#[test]
fn malformed_tag_after_a_label_is_reported() {
    let bytes = [1u8, b'a', 0x80, 0];
    let (res, pos) = decode_at(&bytes, 0);
    assert_eq!(res, Err(NameError::Malformed));
    assert_eq!(pos, 0);
}

#[test]
fn name_in_empty_buffer_is_insufficient_data() {
    assert_eq!(decode_at(&[], 0), (Err(NameError::InsufficientData), 0));
}

#[test]
fn name_with_cursor_beyond_the_end_is_insufficient_data() {
    assert_eq!(decode_at(&[0], 5), (Err(NameError::InsufficientData), 5));
}

#[test]
fn label_cut_short_is_insufficient_data() {
    let bytes = [3u8, b'c', b'o'];
    assert_eq!(decode_at(&bytes, 0), (Err(NameError::InsufficientData), 0));
}

#[test]
fn missing_terminator_is_insufficient_data() {
    let bytes = [3u8, b'c', b'o', b'm'];
    assert_eq!(decode_at(&bytes, 0), (Err(NameError::InsufficientData), 0));
}

#[test]
fn pointer_cut_after_first_byte_is_insufficient_data() {
    let bytes = [0u8, 0xC0];
    assert_eq!(decode_at(&bytes, 1), (Err(NameError::InsufficientData), 1));
}

#[test]
fn pointer_to_itself_is_malformed() {
    let bytes = [0u8, 0, 0xC0, 2];
    assert_eq!(decode_at(&bytes, 2), (Err(NameError::Malformed), 2));
}

#[test]
fn pointer_forward_is_malformed() {
    // the bytes it aims at hold a perfectly good name
    let bytes = [0xC0u8, 2, 1, b'a', 0];
    assert_eq!(decode_at(&bytes, 0), (Err(NameError::Malformed), 0));
}

#[test]
fn pointer_at_offset_zero_is_malformed() {
    let bytes = [0xC0u8, 0];
    assert_eq!(decode_at(&bytes, 0), (Err(NameError::Malformed), 0));
}

#[test]
fn pointer_backward_resolves_and_cursor_passes_two_bytes() {
    let mut bytes = plain(&[b"example", b"com"]);
    bytes.extend_from_slice(&[0xC0, 0, 0xAA, 0xBB]);
    let (direct, _) = decode_at(&bytes, 0);
    let (res, pos) = decode_at(&bytes, 13);
    let name = res.unwrap();
    assert_eq!(name.labels, name_of(&["example", "com"]));
    assert_eq!(name, direct.unwrap());
    assert_eq!(pos, 15);
}

#[test]
fn pointer_into_the_middle_of_a_name() {
    let mut bytes = plain(&[b"example", b"com"]);
    bytes.extend_from_slice(&[0xC0, 8]);
    let (res, pos) = decode_at(&bytes, 13);
    assert_eq!(res.unwrap().labels, name_of(&["com"]));
    assert_eq!(pos, 15);
}

#[test]
fn labels_followed_by_pointer() {
    let mut bytes = plain(&[b"example", b"com"]);
    bytes.extend_from_slice(&[3, b'w', b'w', b'w', 0xC0, 0, 0xEE]);
    let (res, pos) = decode_at(&bytes, 13);
    assert_eq!(res.unwrap().labels, name_of(&["www", "example", "com"]));
    assert_eq!(pos, 19);
}

#[test]
fn pointer_to_pointer() {
    let mut bytes = plain(&[b"com"]);
    bytes.extend_from_slice(&[0xC0, 0]); // at 5
    bytes.extend_from_slice(&[2, b'n', b's', 0xC0, 5]); // at 7
    let (res, pos) = decode_at(&bytes, 7);
    assert_eq!(res.unwrap().labels, name_of(&["ns", "com"]));
    assert_eq!(pos, 12);
}

#[test]
fn pointer_offset_uses_fourteen_bits() {
    let mut bytes = vec![0xEEu8; 0x1234];
    bytes.extend(plain(&[b"far"]));
    let at = bytes.len();
    bytes.extend_from_slice(&[0xD2, 0x34]);
    let (res, pos) = decode_at(&bytes, at);
    assert_eq!(res.unwrap().labels, name_of(&["far"]));
    assert_eq!(pos, at + 2);
}

#[test]
fn pointer_target_with_malformed_name_is_malformed() {
    let bytes = [0x80u8, 0, 0xC0, 0];
    assert_eq!(decode_at(&bytes, 2), (Err(NameError::Malformed), 2));
}

#[test]
fn pointer_target_running_off_the_end_is_insufficient_data() {
    // the name at the target runs on through the pointer and off the buffer
    let bytes = [5u8, b'a', 0xC0, 0];
    assert_eq!(decode_at(&bytes, 2), (Err(NameError::InsufficientData), 2));
}

#[test]
fn label_and_pointer_that_lead_back_to_each_other_are_malformed() {
    // the label at 0 runs into the pointer at 2, which aims at 0 again
    let bytes = [1u8, b'a', 0xC0, 0];
    assert_eq!(decode_at(&bytes, 0), (Err(NameError::Malformed), 0));
    assert_eq!(decode_at(&bytes, 2), (Err(NameError::Malformed), 2));
}

#[test]
fn name_of_255_bytes_is_accepted() {
    let a = [b'a'; 63];
    let b = [b'b'; 61];
    let bytes = plain(&[&a, &a, &a, &b]);
    assert_eq!(bytes.len(), 255);
    let (res, pos) = decode_at(&bytes, 0);
    assert_eq!(res.unwrap().labels, vec![a.to_vec(), a.to_vec(), a.to_vec(), b.to_vec()]);
    assert_eq!(pos, 255);
}

#[test]
fn name_of_256_bytes_is_malformed() {
    let a = [b'a'; 63];
    let b = [b'b'; 62];
    let bytes = plain(&[&a, &a, &a, &b]);
    assert_eq!(bytes.len(), 256);
    assert_eq!(decode_at(&bytes, 0), (Err(NameError::Malformed), 0));
}

#[test]
fn name_length_counts_labels_reached_through_pointers() {
    let a = [b'a'; 63];
    let mut bytes = plain(&[&a, &a, &a]); // 193 bytes
    let at = bytes.len();
    // 62 more bytes in front of 193: 255 in all
    bytes.push(61);
    bytes.extend_from_slice(&[b'b'; 61]);
    bytes.extend_from_slice(&[0xC0, 0]);
    let longer = bytes.len();
    // 63 more bytes in front of 193: 256 in all
    bytes.push(62);
    bytes.extend_from_slice(&[b'c'; 62]);
    bytes.extend_from_slice(&[0xC0, 0]);
    let (res, pos) = decode_at(&bytes, at);
    assert_eq!(res.unwrap().labels.len(), 4);
    assert_eq!(pos, longer);
    assert_eq!(decode_at(&bytes, longer), (Err(NameError::Malformed), longer));
}

#[test]
fn overlong_label_is_malformed_even_when_cut_short() {
    let a = [b'a'; 63];
    let mut bytes = Vec::new();
    for _ in 0..3 {
        bytes.push(63);
        bytes.extend_from_slice(&a);
    }
    bytes.push(63); // would make the name too long; its bytes are missing as well
    assert_eq!(decode_at(&bytes, 0), (Err(NameError::Malformed), 0));
}

/// A one-label name at offset 0, then `count` pointers, each aiming at the
/// one before it; the first aims at the name.
fn pointer_chain(count: usize) -> (Vec<u8>, usize) {
    let mut bytes = plain(&[b"a"]);
    let mut target = 0usize;
    let mut last = 0usize;
    for _ in 0..count {
        last = bytes.len();
        bytes.push(0xC0 | (target >> 8) as u8);
        bytes.push((target & 0xFF) as u8);
        target = last;
    }
    (bytes, last)
}

#[test]
fn chain_of_128_pointers_is_accepted() {
    let (bytes, last) = pointer_chain(128);
    let (res, pos) = decode_at(&bytes, last);
    assert_eq!(res.unwrap().labels, name_of(&["a"]));
    assert_eq!(pos, last + 2);
}

#[test]
fn chain_of_129_pointers_is_malformed() {
    let (bytes, last) = pointer_chain(129);
    assert_eq!(decode_at(&bytes, last), (Err(NameError::Malformed), last));
    // one pointer earlier it still resolves
    let (res, pos) = decode_at(&bytes, last - 2);
    assert_eq!(res.unwrap().labels, name_of(&["a"]));
    assert_eq!(pos, last);
}

#[test]
fn bytes_after_the_name_are_left_for_the_caller() {
    let mut bytes = plain(&[b"a", b"b"]);
    bytes.extend_from_slice(&[1, 2, 3]);
    let mut cur = Cursor::new(&bytes);
    let name = Name::from_bytes(&mut cur).unwrap();
    assert_eq!(name.labels, name_of(&["a", "b"]));
    assert_eq!(cur.position(), 5);
    assert_eq!(cur.remaining(), 3);
}

#[test]
fn two_names_in_a_row() {
    let mut bytes = plain(&[b"one"]);
    bytes.extend(plain(&[b"two"]));
    let mut cur = Cursor::new(&bytes);
    assert_eq!(Name::from_bytes(&mut cur).unwrap().labels, name_of(&["one"]));
    assert_eq!(Name::from_bytes(&mut cur).unwrap().labels, name_of(&["two"]));
    assert_eq!(cur.position(), 10);
    assert_eq!(Name::from_bytes(&mut cur), Err(NameError::InsufficientData));
    assert_eq!(cur.position(), 10);
}
