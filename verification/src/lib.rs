//! Decoding of DNS messages from their wire format.
//!
//! A message is a twelve-byte header followed by four sections: questions,
//! answers, authorities and additionals, each with as many entries as the
//! header announces. [`packet::Packet::from_bytes`] decodes a whole message
//! from a [`cursor::Cursor`]; the other modules decode its parts and can be
//! used on their own.
//!
//! Every decoder is specified by a function on byte sequences
//! (`decode_header`, `decode_name`, `decode_question`, `decode_record`,
//! `decode_packet`) and proved to compute it: the value, the offset at which
//! decoding ends, and the error on every input that does not decode. A
//! decoder that fails leaves its cursor where it was. The laws that hold of
//! those functions stand beside them as proof functions; [`canonical`] ties
//! them to the uncompressed wire form.

pub mod canonical;
pub mod cursor;
pub mod header;
pub mod name;
pub mod packet;
pub mod question;
pub mod record;
