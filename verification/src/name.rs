//! Domain names: sequences of labels, possibly stored with compression.
//!
//! On the wire a name is a run of elements, each opened by a tag byte. A tag
//! of zero ends the name; a tag of 1 to 63 announces a label of that many
//! bytes; a tag with its two high bits set forms, with the byte after it, a
//! 14-bit offset into the buffer at which the name continues. Such a pointer
//! must aim strictly below its own offset.

use crate::cursor::Cursor;
use vstd::prelude::*;
use vstd::slice::{slice_subrange, slice_to_vec};

verus! {

/// Longest label, in bytes.
pub const MAX_LABEL_LEN: usize = 63;

/// Longest name, counted as it would be stored without compression: one
/// length byte and the bytes of each label, and the closing zero byte.
pub const MAX_NAME_LEN: usize = 255;

/// Most compression pointers followed while decoding one name.
pub const MAX_POINTER_HOPS: usize = 128;

/// Why a name could not be decoded.
#[derive(Debug, Clone, Copy, PartialEq, Eq, Structural)]
pub enum NameError {
    /// The buffer ended before the name did.
    InsufficientData,
    /// A tag that is neither a label length nor a pointer, a pointer that does
    /// not aim strictly backward, more than `MAX_POINTER_HOPS` pointers, or a
    /// name longer than `MAX_NAME_LEN`.
    Malformed,
}

/// What the first byte of a name element announces.
#[derive(Debug, Clone, Copy, PartialEq, Eq, Structural)]
pub enum Tag {
    /// The name ends here.
    End,
    /// A label of this many bytes follows.
    Label(u8),
    /// A pointer; the field holds the upper six bits of its offset.
    Pointer(u8),
    /// Neither of the above.
    Invalid,
}

/// The meaning of tag byte `b`.
pub open spec fn classify(b: u8) -> Tag {
    if b == 0 {
        Tag::End
    } else if b <= MAX_LABEL_LEN {
        Tag::Label(b)
    } else if b >= 0xC0 {
        Tag::Pointer((b - 0xC0) as u8)
    } else {
        Tag::Invalid
    }
}

impl Tag {
    /// Classifies a tag byte.
    pub fn from_byte(b: u8) -> (tag: Tag)
        ensures
            tag == classify(b),
    {
        if b == 0 {
            Tag::End
        } else if b as usize <= MAX_LABEL_LEN {
            Tag::Label(b)
        } else if b >= 0xC0 {
            Tag::Pointer(b - 0xC0)
        } else {
            Tag::Invalid
        }
    }
}

/// A decoded name and the offset just past its own encoding.
pub type Walk = Result<(Seq<Seq<u8>>, int), NameError>;

/// `tail` with `label` put in front of its labels.
pub open spec fn prepend(label: Seq<u8>, tail: Walk) -> Walk {
    match tail {
        Ok((rest, end)) => Ok((seq![label] + rest, end)),
        Err(e) => Err(e),
    }
}

/// `tail` with its end offset replaced by `end`.
pub open spec fn landing(tail: Walk, end: int) -> Walk {
    match tail {
        Ok((labels, _)) => Ok((labels, end)),
        Err(e) => Err(e),
    }
}

/// The offset that the pointer stored at `s[at]`, `s[at + 1]` aims at.
pub open spec fn pointer_target(s: Seq<u8>, at: int) -> int {
    (s[at] - 0xC0) * 0x100 + s[at + 1]
}

/// Decodes the name that starts at offset `at` of `s`, when `used` bytes of
/// the length allowance and `hops` pointers have been spent on what precedes
/// it.
///
/// The end offset of the result is the one just past the name's own encoding:
/// past the closing zero byte, or past the first pointer when there is one.
pub open spec fn walk(s: Seq<u8>, at: int, used: int, hops: int) -> Walk
    decreases MAX_NAME_LEN - used, at,
{
    if !(0 <= at < s.len()) {
        Err(NameError::InsufficientData)
    } else {
        match classify(s[at]) {
            Tag::End => Ok((Seq::empty(), at + 1)),
            Tag::Label(n) => {
                if used + n + 2 > MAX_NAME_LEN {
                    Err(NameError::Malformed)
                } else if at + 1 + n > s.len() {
                    Err(NameError::InsufficientData)
                } else {
                    prepend(s.subrange(at + 1, at + 1 + n), walk(s, at + 1 + n, used + 1 + n, hops))
                }
            },
            Tag::Pointer(_) => {
                if at + 1 >= s.len() {
                    Err(NameError::InsufficientData)
                } else if pointer_target(s, at) >= at {
                    Err(NameError::Malformed)
                } else if hops >= MAX_POINTER_HOPS {
                    Err(NameError::Malformed)
                } else {
                    landing(walk(s, pointer_target(s, at), used, hops + 1), at + 2)
                }
            },
            Tag::Invalid => Err(NameError::Malformed),
        }
    }
}

/// Decodes the name that starts at offset `at` of `s`.
pub open spec fn decode_name(s: Seq<u8>, at: int) -> Walk {
    walk(s, at, 0, 0)
}

/// Length of `labels` as stored without compression.
pub open spec fn wire_len(labels: Seq<Seq<u8>>) -> int
    decreases labels.len(),
{
    if labels.len() == 0 {
        1
    } else {
        1 + labels[0].len() + wire_len(labels.drop_first())
    }
}

/// Every label has 1 to 63 bytes and the whole name fits in 255.
pub open spec fn valid_labels(labels: Seq<Seq<u8>>) -> bool {
    &&& forall|i: int| 0 <= i < labels.len() ==> 1 <= #[trigger] labels[i].len() <= MAX_LABEL_LEN
    &&& wire_len(labels) <= MAX_NAME_LEN
}

/// A domain name: its labels in order, the closing empty label left out.
#[derive(Debug, Clone, PartialEq, Eq)]
pub struct Name {
    pub labels: Vec<Vec<u8>>,
}

impl View for Name {
    type V = Seq<Seq<u8>>;

    open spec fn view(&self) -> Seq<Seq<u8>> {
        self.labels@.map_values(|label: Vec<u8>| label@)
    }
}

/// What the whole name decodes to, given the labels gathered so far, the
/// caller's resume offset if a pointer has been followed, and what remains to
/// be read at the read head.
spec fn resume_with(done: Seq<Seq<u8>>, resume: Option<usize>, tail: Walk) -> Walk {
    match tail {
        Ok((rest, end)) => Ok(
            (
                done + rest,
                match resume {
                    Some(r) => r as int,
                    None => end,
                },
            ),
        ),
        Err(e) => Err(e),
    }
}

proof fn lemma_resume_push(done: Seq<Seq<u8>>, label: Seq<u8>, resume: Option<usize>, tail: Walk)
    ensures
        resume_with(done, resume, prepend(label, tail)) == resume_with(
            done.push(label),
            resume,
            tail,
        ),
{
    if let Ok((rest, end)) = tail {
        assert(done + (seq![label] + rest) =~= done.push(label) + rest);
    }
}

impl Name {
    /// Every label has 1 to 63 bytes and the whole name fits in 255.
    pub open spec fn wf(&self) -> bool {
        valid_labels(self@)
    }

    /// Decodes the name at the cursor and moves the cursor past the name's own
    /// encoding: past its closing zero byte or, if the name holds a pointer,
    /// past the two bytes of the first one.
    ///
    /// Fails, without moving the cursor, when the buffer ends inside the name
    /// or the name is malformed.
    pub fn from_bytes(cur: &mut Cursor) -> (res: Result<Name, NameError>)
        ensures
            final(cur).bytes == old(cur).bytes,
            res is Ok ==> old(cur).pos < final(cur).pos <= old(cur).bytes@.len(),
            match decode_name(old(cur).bytes@, old(cur).pos as int) {
                Ok((labels, end)) => {
                    &&& res matches Ok(name)
                    &&& name@ == labels
                    &&& name.wf()
                    &&& final(cur).pos == end
                },
                Err(e) => res == Err::<Name, NameError>(e) && final(cur).pos == old(cur).pos,
            },
    {
        let bytes = cur.bytes;
        let len = bytes.len();
        let start = cur.pos;
        let mut head: usize = start;
        let mut used: usize = 0;
        let mut hops: usize = 0;
        let mut resume: Option<usize> = None;
        let mut labels: Vec<Vec<u8>> = Vec::new();
        assert(labels@.map_values(|label: Vec<u8>| label@) =~= Seq::<Seq<u8>>::empty());
        assert(Seq::<Seq<u8>>::empty() + Seq::<Seq<u8>>::empty() =~= Seq::<Seq<u8>>::empty());
        loop
            invariant
                len == bytes@.len(),
                bytes == cur.bytes,
                cur.pos == start,
                *old(cur) == *cur,
                used + 1 <= MAX_NAME_LEN,
                hops <= MAX_POINTER_HOPS,
                decode_name(bytes@, start as int) == resume_with(
                    labels@.map_values(|label: Vec<u8>| label@),
                    resume,
                    walk(bytes@, head as int, used as int, hops as int),
                ),
            decreases MAX_NAME_LEN - used, head,
        {
            if head >= len {
                return Err(NameError::InsufficientData);
            }
            match Tag::from_byte(bytes[head]) {
                Tag::End => {
                    let end = match resume {
                        Some(r) => r,
                        None => head + 1,
                    };
                    let name = Name { labels };
                    proof {
                        let done = name@;
                        assert(done + Seq::<Seq<u8>>::empty() =~= done);
                        lemma_walk_valid(bytes@, start as int, 0, 0);
                        assert(decode_name(bytes@, start as int) == Ok::<
                            (Seq<Seq<u8>>, int),
                            NameError,
                        >((done, end as int)));
                    }
                    cur.pos = end;
                    return Ok(name);
                },
                Tag::Label(n) => {
                    let n = n as usize;
                    if used + n + 2 > MAX_NAME_LEN {
                        return Err(NameError::Malformed);
                    }
                    if n > len - head - 1 {
                        return Err(NameError::InsufficientData);
                    }
                    let label = slice_to_vec(slice_subrange(bytes, head + 1, head + 1 + n));
                    proof {
                        let done = labels@.map_values(|label: Vec<u8>| label@);
                        lemma_resume_push(
                            done,
                            label@,
                            resume,
                            walk(
                                bytes@,
                                head as int + 1 + n as int,
                                used as int + 1 + n as int,
                                hops as int,
                            ),
                        );
                        assert(labels@.push(label).map_values(|label: Vec<u8>| label@)
                            =~= done.push(label@));
                    }
                    labels.push(label);
                    used = used + 1 + n;
                    head = head + 1 + n;
                },
                Tag::Pointer(high) => {
                    if len - head < 2 {
                        return Err(NameError::InsufficientData);
                    }
                    let target = high as usize * 0x100 + bytes[head + 1] as usize;
                    if target >= head {
                        return Err(NameError::Malformed);
                    }
                    if hops >= MAX_POINTER_HOPS {
                        return Err(NameError::Malformed);
                    }
                    if resume.is_none() {
                        resume = Some(head + 2);
                    }
                    hops = hops + 1;
                    head = target;
                },
                Tag::Invalid => {
                    return Err(NameError::Malformed);
                },
            }
        }
    }
}

/// A name that decodes has labels of 1 to 63 bytes, fits in what was left of
/// the length allowance, and ends inside the buffer, after its first byte.
pub proof fn lemma_walk_valid(s: Seq<u8>, at: int, used: int, hops: int)
    requires
        0 <= used < MAX_NAME_LEN,
        walk(s, at, used, hops) is Ok,
    ensures
        ({
            let (labels, end) = walk(s, at, used, hops).unwrap();
            &&& forall|i: int|
                0 <= i < labels.len() ==> 1 <= #[trigger] labels[i].len() <= MAX_LABEL_LEN
            &&& used + wire_len(labels) <= MAX_NAME_LEN
            &&& at < end <= s.len()
        }),
    decreases MAX_NAME_LEN - used, at,
{
    match classify(s[at]) {
        Tag::End => {},
        Tag::Label(n) => {
            let label = s.subrange(at + 1, at + 1 + n);
            let tail = walk(s, at + 1 + n, used + 1 + n, hops);
            lemma_walk_valid(s, at + 1 + n, used + 1 + n, hops);
            let (rest, end) = tail.unwrap();
            let labels = seq![label] + rest;
            assert(labels.drop_first() =~= rest);
            assert(labels[0] == label);
            assert forall|i: int| 0 <= i < labels.len() implies 1 <= #[trigger] labels[i].len()
                <= MAX_LABEL_LEN by {
                if i > 0 {
                    assert(labels[i] == rest[i - 1]);
                }
            }
        },
        Tag::Pointer(_) => {
            lemma_walk_valid(s, pointer_target(s, at), used, hops + 1);
        },
        Tag::Invalid => {},
    }
}

/// Spending fewer pointers beforehand never turns a name that decodes into
/// one that does not, nor changes what it decodes to.
pub proof fn lemma_walk_fewer_hops(s: Seq<u8>, at: int, used: int, hops: int, fewer: int)
    requires
        fewer <= hops,
        walk(s, at, used, hops) is Ok,
    ensures
        walk(s, at, used, fewer) == walk(s, at, used, hops),
    decreases MAX_NAME_LEN - used, at,
{
    match classify(s[at]) {
        Tag::Label(n) => {
            lemma_walk_fewer_hops(s, at + 1 + n, used + 1 + n, hops, fewer);
        },
        Tag::Pointer(_) => {
            lemma_walk_fewer_hops(s, pointer_target(s, at), used, hops + 1, fewer + 1);
        },
        _ => {},
    }
}

/// Cutting a buffer short changes nothing but this: a name that reached
/// beyond the cut now fails for want of data.
///
/// For every buffer `s` and every `t` that `s` starts with, decoding at the
/// same offset of `t` gives what it gives on `s`, or `InsufficientData`.
pub proof fn lemma_walk_prefix(t: Seq<u8>, s: Seq<u8>, at: int, used: int, hops: int)
    requires
        t.is_prefix_of(s),
    ensures
        walk(t, at, used, hops) == walk(s, at, used, hops) || walk(t, at, used, hops) == Err::<
            (Seq<Seq<u8>>, int),
            NameError,
        >(NameError::InsufficientData),
    decreases MAX_NAME_LEN - used, at,
{
    if 0 <= at < t.len() {
        assert(t[at] == s[at]);
        match classify(t[at]) {
            Tag::Label(n) => {
                if used + n + 2 <= MAX_NAME_LEN && at + 1 + n <= t.len() {
                    lemma_walk_prefix(t, s, at + 1 + n, used + 1 + n, hops);
                    assert(t.subrange(at + 1, at + 1 + n) =~= s.subrange(at + 1, at + 1 + n));
                }
            },
            Tag::Pointer(_) => {
                if at + 1 < t.len() {
                    assert(t[at + 1] == s[at + 1]);
                    if pointer_target(t, at) < at && hops < MAX_POINTER_HOPS {
                        lemma_walk_prefix(t, s, pointer_target(t, at), used, hops + 1);
                    }
                }
            },
            _ => {},
        }
    }
}

/// A pointer that aims at its own offset or beyond it is rejected as
/// malformed, whatever the bytes it aims at hold.
pub proof fn lemma_forward_pointer_rejected(s: Seq<u8>, at: int)
    requires
        0 <= at,
        at + 1 < s.len(),
        s[at] >= 0xC0,
        pointer_target(s, at) >= at,
    ensures
        decode_name(s, at) == Err::<(Seq<Seq<u8>>, int), NameError>(NameError::Malformed),
{
}

/// A pointer that aims strictly backward stands for the name found at its
/// target, and the name that consists of the pointer ends two bytes after the
/// pointer's offset, wherever the name at the target ends.
///
/// The name at the target must decode with one pointer already spent: the
/// pointer that leads to it counts against `MAX_POINTER_HOPS`.
pub proof fn lemma_backward_pointer_resolves(s: Seq<u8>, at: int)
    requires
        0 <= at,
        at + 1 < s.len(),
        s[at] >= 0xC0,
        pointer_target(s, at) < at,
        walk(s, pointer_target(s, at), 0, 1) is Ok,
    ensures
        decode_name(s, pointer_target(s, at)) is Ok,
        decode_name(s, at) == Ok::<(Seq<Seq<u8>>, int), NameError>(
            (decode_name(s, pointer_target(s, at)).unwrap().0, at + 2),
        ),
{
    lemma_walk_fewer_hops(s, pointer_target(s, at), 0, 1, 0);
}

} // verus!
