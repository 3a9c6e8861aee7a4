//! Byte-level views of text.
//!
//! Log lines are cut at byte offsets, so every contract here speaks of a string's
//! UTF-8 bytes and of the offsets at which a character starts.

use vstd::prelude::*;
use vstd::string::*;
use vstd::utf8::*;

verus! {

broadcast use {
    vstd::utf8::group_utf8_lib,
    vstd::seq::group_seq_axioms,
    vstd::slice::group_slice_axioms,
};

/// `from..to` is a range of `bytes` that starts and ends where a character starts or the
/// text ends.
pub open spec fn is_char_range(bytes: Seq<u8>, from: int, to: int) -> bool {
    &&& 0 <= from <= to <= bytes.len()
    &&& is_char_boundary(bytes, from)
    &&& is_char_boundary(bytes, to)
}

/// The bytes of any string are valid UTF-8.
pub proof fn lemma_str_bytes_valid(s: &str)
    ensures
        valid_utf8(s.spec_bytes()),
{
    encode_utf8_valid_utf8(s@);
}

/// A character boundary of a text is also one of each prefix that reaches it.
pub proof fn lemma_boundary_in_prefix(bytes: Seq<u8>, from: int, to: int)
    requires
        valid_utf8(bytes),
        is_char_range(bytes, from, to),
    ensures
        valid_utf8(bytes.subrange(0, to)),
        is_char_boundary(bytes.subrange(0, to), from),
{
    valid_utf8_split(bytes, to);
    let head = bytes.subrange(0, to);
    if from == to {
        is_char_boundary_start_end_of_seq(head);
    } else {
        is_char_boundary_iff_not_is_continuation_byte(bytes, from);
        is_char_boundary_iff_not_is_continuation_byte(head, from);
    }
}

/// After a run of ASCII bytes at the start of a text a character starts, or the text ends.
pub proof fn lemma_ascii_prefix_boundary(bytes: Seq<u8>, n: int)
    requires
        valid_utf8(bytes),
        0 <= n <= bytes.len(),
        forall|i: int| 0 <= i < n ==> bytes[i] <= 0x7f,
    ensures
        is_char_boundary(bytes, n),
    decreases n,
{
    if n > 0 {
        let rest = pop_first_scalar(bytes);
        assert(bytes[0] <= 0x7f);
        assert(rest == bytes.subrange(1, bytes.len() as int));
        assert forall|i: int| 0 <= i < n - 1 implies rest[i] <= 0x7f by {
            assert(rest[i] == bytes[i + 1]);
        }
        lemma_ascii_prefix_boundary(rest, n - 1);
    }
}

/// The part of `s` between the byte offsets `from` and `to`, or `None` where these do not
/// bound a run of whole characters.
pub fn slice_str<'a>(s: &'a str, from: usize, to: usize) -> (r: Option<&'a str>)
    ensures
        r is Some <==> is_char_range(s.spec_bytes(), from as int, to as int),
        r matches Some(t) ==> t.spec_bytes() == s.spec_bytes().subrange(from as int, to as int),
{
    proof {
        lemma_str_bytes_valid(s);
    }
    let len = s.as_bytes().len();
    if from <= to && to <= len && s.is_char_boundary(from) && s.is_char_boundary(to) {
        let (head, _) = s.split_at(to);
        proof {
            lemma_boundary_in_prefix(s.spec_bytes(), from as int, to as int);
        }
        let (_, part) = head.split_at(from);
        assert(part.spec_bytes() =~= s.spec_bytes().subrange(from as int, to as int));
        Some(part)
    } else {
        None
    }
}

} // verus!
