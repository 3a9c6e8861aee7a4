//! The OverRustle line format: `[2019-07-01 00:00:42 UTC] someuser: some words`.
//!
//! The instant stands at bytes 1 to 19 of a line and the closing bracket at byte 24. The
//! speaker's name starts at byte 26 and ends before the first colon after the bracket,
//! and the words start two bytes after that colon. A line that does not have this shape
//! is left out.

use vstd::prelude::*;
use vstd::string::*;
use vstd::utf8::*;
use crate::calendar::{parse_timestamp, rfc3339_weak_seconds};
use crate::message::{Fields, Message, Messages};
use crate::text::{is_char_range, slice_str};

verus! {

broadcast use {
    vstd::utf8::group_utf8_lib,
    vstd::seq::group_seq_axioms,
    vstd::slice::group_slice_axioms,
};

/// Offset in a line of the first byte of the instant.
pub const TS_START: usize = 1;

/// Offset in a line of the byte after the instant.
pub const TS_END: usize = 20;

/// Offset in a line of the byte after the closing bracket.
pub const BRACKET_END: usize = 25;

/// Offset in a line of the first byte of the speaker's name.
pub const USER_START: usize = 26;

/// The byte of the colon that ends the speaker's name.
pub const COLON: u8 = 0x3a;

/// The byte that ends a line.
pub const NEWLINE: u8 = 0x0a;

/// The first offset from `from` up to `to` at which `text` holds `byte`, or `to` where
/// it holds none there.
pub open spec fn first_byte(text: Seq<u8>, byte: u8, from: int, to: int) -> int
    decreases to - from,
{
    if from >= to {
        to
    } else if text[from] == byte {
        from
    } else {
        first_byte(text, byte, from + 1, to)
    }
}

/// `first_byte` finds the byte it names, and nothing before its result is that byte.
pub proof fn lemma_first_byte(text: Seq<u8>, byte: u8, from: int, to: int)
    requires
        0 <= from <= to <= text.len(),
    ensures
        from <= first_byte(text, byte, from, to) <= to,
        first_byte(text, byte, from, to) < to ==> text[first_byte(text, byte, from, to)] == byte,
        forall|i: int| from <= i < first_byte(text, byte, from, to) ==> text[i] != byte,
    decreases to - from,
{
    if from < to && text[from] != byte {
        lemma_first_byte(text, byte, from + 1, to);
    }
}

/// What the line that fills `text` from `start` up to `end` says, or `None` where it
/// does not have the shape of a message: it is too short for a name, no colon stands
/// after the bracket and before the line's last byte, the first such colon stands
/// before the place of the name, one of the fields would split a character, or the
/// instant cannot be read.
pub open spec fn line_fields(text: Seq<u8>, start: int, end: int) -> Option<Fields> {
    let colon = first_byte(text, COLON, start + BRACKET_END, end - 1);
    if end - start <= USER_START || colon >= end - 1 || colon < start + USER_START {
        None
    } else if !is_char_range(text, start + TS_START, start + TS_END) || !is_char_range(
        text,
        start + USER_START,
        colon,
    ) || !is_char_range(text, colon + 2, end) {
        None
    } else {
        match rfc3339_weak_seconds(
            decode_utf8(text.subrange(start + TS_START, start + TS_END)),
        ) {
            Some(secs) => Some(
                Fields { at: secs as int, user: (start + USER_START, colon), body: (colon + 2, end) },
            ),
            None => None,
        }
    }
}

/// First offset from `from` up to `to` at which `bytes` holds `byte`, or `to`.
fn find_byte(bytes: &[u8], byte: u8, from: usize, to: usize) -> (at: usize)
    requires
        from <= to <= bytes@.len(),
    ensures
        at == first_byte(bytes@, byte, from as int, to as int),
        from <= at <= to,
{
    let mut i: usize = from;
    while i < to && bytes[i] != byte
        invariant
            from <= i <= to <= bytes@.len(),
            first_byte(bytes@, byte, from as int, to as int) == first_byte(
                bytes@,
                byte,
                i as int,
                to as int,
            ),
        decreases to - i,
    {
        i = i + 1;
    }
    i
}

/// Reads the line that fills `text` from `start` up to `end`.
pub(crate) fn parse_span(text: &str, start: usize, end: usize) -> (r: Option<Message>)
    requires
        start <= end <= text.spec_bytes().len(),
    ensures
        r matches Some(m) ==> line_fields(text.spec_bytes(), start as int, end as int) == Some(
            m.fields(),
        ) && m.fits(text.spec_bytes()),
        r is None ==> line_fields(text.spec_bytes(), start as int, end as int) is None,
{
    let bytes = text.as_bytes();
    if end - start <= USER_START {
        return None;
    }
    let colon = find_byte(bytes, COLON, start + BRACKET_END, end - 1);
    if colon >= end - 1 || colon < start + USER_START {
        return None;
    }
    let stamp = match slice_str(text, start + TS_START, start + TS_END) {
        Some(s) => s,
        None => {
            return None;
        },
    };
    if !(text.is_char_boundary(start + USER_START) && text.is_char_boundary(colon)
        && text.is_char_boundary(colon + 2) && text.is_char_boundary(end)) {
        return None;
    }
    proof {
        assert(stamp@ == decode_utf8(stamp.spec_bytes()));
    }
    match parse_timestamp(stamp) {
        Some(secs) => Some(
            Message {
                timestamp: secs as i64,
                user_start: start + USER_START,
                user_end: colon,
                body_start: colon + 2,
                body_end: end,
            },
        ),
        None => None,
    }
}

/// Reads one line: its instant in seconds since 1970-01-01T00:00:00Z, the speaker's name
/// and the words, or `None` where the line does not have the shape of a message.
pub fn parse_line<'a>(line: &'a str) -> (r: Option<(i64, &'a str, &'a str)>)
    ensures
        match line_fields(line.spec_bytes(), 0, line.spec_bytes().len() as int) {
            Some(f) => r matches Some((at, user, words)) && at == f.at && user.spec_bytes()
                == line.spec_bytes().subrange(f.user.0, f.user.1) && words.spec_bytes()
                == line.spec_bytes().subrange(f.body.0, f.body.1),
            None => r is None,
        },
{
    let len = line.as_bytes().len();
    match parse_span(line, 0, len) {
        Some(m) => {
            let user = slice_str(line, m.user_start, m.user_end).unwrap();
            let words = slice_str(line, m.body_start, m.body_end).unwrap();
            Some((m.timestamp, user, words))
        },
        None => None,
    }
}

/// The offset of the line feed that ends the line starting at `from`, or the length of
/// `text` where none follows.
pub open spec fn line_end(text: Seq<u8>, from: int) -> int {
    first_byte(text, NEWLINE, from, text.len() as int)
}

/// What the lines of `text` from offset `from` on say, in their order, the lines without
/// the shape of a message left out. Lines end at a line feed or at the end of `text`.
pub open spec fn text_fields(text: Seq<u8>, from: int) -> Seq<Fields>
    decreases text.len() - from + 1,
{
    if from < 0 || from >= text.len() {
        Seq::empty()
    } else {
        let end = line_end(text, from);
        if end < from || end > text.len() {
            Seq::empty()
        } else {
            match line_fields(text, from, end) {
                Some(f) => seq![f] + text_fields(text, end + 1),
                None => text_fields(text, end + 1),
            }
        }
    }
}

/// The fields of each message of `entries`.
pub open spec fn fields_of(entries: Seq<Message>) -> Seq<Fields> {
    entries.map_values(|m: Message| m.fields())
}

/// Reads every line of `text` that has the shape of a message, in the order of the lines.
pub(crate) fn parse_lines(text: &str) -> (found: Vec<Message>)
    ensures
        fields_of(found@) == text_fields(text.spec_bytes(), 0),
        forall|i: int| 0 <= i < found@.len() ==> (#[trigger] found@[i]).fits(text.spec_bytes()),
{
    let bytes = text.as_bytes();
    let len = bytes.len();
    let mut found: Vec<Message> = Vec::new();
    let mut pos: usize = 0;
    assert(fields_of(found@) =~= Seq::<Fields>::empty());
    while pos < len
        invariant
            bytes@ == text.spec_bytes(),
            len == bytes@.len(),
            pos <= len,
            text_fields(bytes@, 0) == fields_of(found@) + text_fields(bytes@, pos as int),
            forall|i: int| 0 <= i < found@.len() ==> (#[trigger] found@[i]).fits(bytes@),
        decreases len - pos,
    {
        let end = find_byte(bytes, NEWLINE, pos, len);
        let ghost before = found@;
        match parse_span(text, pos, end) {
            Some(m) => {
                found.push(m);
                assert(fields_of(found@) =~= fields_of(before) + seq![m.fields()]);
            },
            None => {},
        }
        proof {
            let rest = text_fields(bytes@, end + 1);
            lemma_first_byte(bytes@, NEWLINE, pos as int, len as int);
            assert(text_fields(bytes@, pos as int) == match line_fields(
                bytes@,
                pos as int,
                end as int,
            ) {
                Some(f) => seq![f] + rest,
                None => rest,
            });
            if end == len {
                assert(rest =~= Seq::<Fields>::empty());
                assert(text_fields(bytes@, len as int) =~= Seq::<Fields>::empty());
            }
            assert(text_fields(bytes@, 0) =~= fields_of(found@) + rest);
        }
        if end == len {
            pos = len;
        } else {
            pos = end + 1;
        }
    }
    assert(text_fields(bytes@, pos as int) =~= Seq::<Fields>::empty());
    assert(fields_of(found@) =~= text_fields(bytes@, 0));
    found
}

/// Reads a partition in the OverRustle format. The lines of the archive are in the order
/// of time already, so the messages are left in the order of the lines.
pub fn parse_string(s: String) -> (r: Messages)
    ensures
        r.wf(),
        r.text() == encode_utf8(s@),
        fields_of(r.entries()) == text_fields(r.text(), 0),
{
    Messages::from_string(s, false)
}

} // verus!
