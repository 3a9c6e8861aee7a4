//! Splitting the words of a message into tokens.

use vstd::prelude::*;
use vstd::string::*;
use vstd::utf8::*;
use crate::text::{lemma_ascii_prefix_boundary, lemma_str_bytes_valid};

verus! {

broadcast use {
    vstd::utf8::group_utf8_lib,
    vstd::seq::group_seq_axioms,
    vstd::slice::group_slice_axioms,
};

/// `b` is a byte of ASCII white space: a space, a tab, a line feed, a form feed or a
/// carriage return.
pub open spec fn is_space(b: u8) -> bool {
    b == 0x20 || b == 0x09 || b == 0x0a || b == 0x0c || b == 0x0d
}

/// The first offset from `from` on at which `text` holds a byte that is white space, if
/// `space` is true, or is not, if it is false; the length of `text` where none follows.
pub open spec fn run_end(text: Seq<u8>, space: bool, from: int) -> int
    decreases text.len() - from,
{
    if from < 0 || from >= text.len() {
        text.len() as int
    } else if is_space(text[from]) == space {
        from
    } else {
        run_end(text, space, from + 1)
    }
}

/// `run_end` stops at the first byte of the kind it looks for.
pub proof fn lemma_run_end(text: Seq<u8>, space: bool, from: int)
    requires
        0 <= from <= text.len(),
    ensures
        from <= run_end(text, space, from) <= text.len(),
        run_end(text, space, from) < text.len() ==> is_space(text[run_end(text, space, from)])
            == space,
        forall|i: int| from <= i < run_end(text, space, from) ==> is_space(text[i]) != space,
    decreases text.len() - from,
{
    if from < text.len() && is_space(text[from]) != space {
        lemma_run_end(text, space, from + 1);
    }
}

/// The tokens of `text` from offset `from` on, each as the first and one-past-last
/// offset of a longest run of bytes that are not white space, in their order.
pub open spec fn token_spans(text: Seq<u8>, from: int) -> Seq<(int, int)>
    decreases text.len() - from + 1,
{
    let first = run_end(text, false, from);
    if from < 0 || first < from || first >= text.len() {
        Seq::empty()
    } else {
        let end = run_end(text, true, first);
        if end <= first || end > text.len() {
            Seq::empty()
        } else {
            seq![(first, end)] + token_spans(text, end)
        }
    }
}

/// The tokens of `text`: its longest runs of bytes that are not ASCII white space.
pub open spec fn tokens(text: Seq<u8>) -> Seq<Seq<u8>> {
    token_spans(text, 0).map_values(|s: (int, int)| text.subrange(s.0, s.1))
}

/// The bytes of each string of `words`.
pub open spec fn bytes_of_each(words: Seq<&str>) -> Seq<Seq<u8>> {
    words.map_values(|w: &str| w.spec_bytes())
}

/// Exec form of `run_end`.
fn find_run_end(bytes: &[u8], space: bool, from: usize) -> (at: usize)
    requires
        from <= bytes@.len(),
    ensures
        at == run_end(bytes@, space, from as int),
        from <= at <= bytes@.len(),
{
    let mut i: usize = from;
    while i < bytes.len() && is_space_byte(bytes[i]) != space
        invariant
            from <= i <= bytes@.len(),
            run_end(bytes@, space, from as int) == run_end(bytes@, space, i as int),
        decreases bytes@.len() - i,
    {
        i = i + 1;
    }
    i
}

/// Whether `b` is a byte of ASCII white space.
pub fn is_space_byte(b: u8) -> (r: bool)
    ensures
        r == is_space(b),
{
    b == 0x20 || b == 0x09 || b == 0x0a || b == 0x0c || b == 0x0d
}

/// Splits `text` at ASCII white space. The tokens are parts of `text`, in their order,
/// none of them empty.
pub fn normal<'a>(text: &'a str) -> (found: Vec<&'a str>)
    ensures
        bytes_of_each(found@) == tokens(text.spec_bytes()),
{
    let bytes = text.as_bytes();
    let len = bytes.len();
    let mut found: Vec<&'a str> = Vec::new();
    let mut rest: &'a str = text;
    let mut pos: usize = 0;
    let ghost mut spans: Seq<(int, int)> = Seq::empty();
    proof {
        assert(bytes@.subrange(0, len as int) =~= bytes@);
    }
    loop
        invariant
            bytes@ == text.spec_bytes(),
            len == bytes@.len(),
            pos <= len,
            rest.spec_bytes() == bytes@.subrange(pos as int, len as int),
            token_spans(bytes@, 0) == spans + token_spans(bytes@, pos as int),
            found@.len() == spans.len(),
            forall|i: int|
                0 <= i < spans.len() ==> (#[trigger] found@[i]).spec_bytes() == bytes@.subrange(
                    spans[i].0,
                    spans[i].1,
                ),
        ensures
            token_spans(bytes@, 0) == spans,
        decreases len - pos,
    {
        let first = find_run_end(bytes, false, pos);
        if first >= len {
            proof {
                assert(token_spans(bytes@, pos as int) =~= Seq::<(int, int)>::empty());
                assert(spans + Seq::<(int, int)>::empty() =~= spans);
            }
            break ;
        }
        let end = find_run_end(bytes, true, first);
        proof {
            lemma_run_end(bytes@, false, pos as int);
            lemma_run_end(bytes@, true, first as int);
            lemma_str_bytes_valid(rest);
            assert forall|i: int| 0 <= i < first - pos implies rest.spec_bytes()[i] <= 0x7f by {
                assert(rest.spec_bytes()[i] == bytes@[pos + i]);
                assert(is_space(bytes@[pos + i]));
            }
            lemma_ascii_prefix_boundary(rest.spec_bytes(), first - pos);
        }
        let (_, tail) = rest.split_at(first - pos);
        proof {
            assert(tail.spec_bytes() =~= bytes@.subrange(first as int, len as int));
            lemma_str_bytes_valid(tail);
            if end < len {
                assert(tail.spec_bytes()[end - first] == bytes@[end as int]);
                is_char_boundary_iff_not_is_continuation_byte(tail.spec_bytes(), end - first);
            } else {
                is_char_boundary_start_end_of_seq(tail.spec_bytes());
            }
        }
        let (token, after) = tail.split_at(end - first);
        proof {
            assert(token.spec_bytes() =~= bytes@.subrange(first as int, end as int));
            assert(after.spec_bytes() =~= bytes@.subrange(end as int, len as int));
            assert(token_spans(bytes@, pos as int) == seq![(first as int, end as int)]
                + token_spans(bytes@, end as int));
            assert(spans + (seq![(first as int, end as int)] + token_spans(bytes@, end as int))
                =~= spans.push((first as int, end as int)) + token_spans(bytes@, end as int));
            spans = spans.push((first as int, end as int));
        }
        found.push(token);
        rest = after;
        pos = end;
    }
    assert(bytes_of_each(found@) =~= tokens(bytes@));
    found
}

} // verus!
