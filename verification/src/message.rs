//! Messages of one day's log, kept as spans of the text they were read from.
//!
//! A [`Messages`] value owns the text of one partition. Each [`Message`] in it is an
//! instant and two byte ranges of that text, so no part of the text is ever copied.

use vstd::prelude::*;
use vstd::string::*;
use vstd::slice::*;
use crate::message::overrustle::{fields_of, parse_lines, text_fields};
use crate::text::{is_char_range, slice_str};

pub mod overrustle;
pub mod tokenizer;

verus! {

broadcast use {vstd::seq::group_seq_axioms, vstd::slice::group_slice_axioms};

/// One line of chat: when it was said, and where in the owning text the name of the
/// speaker and the words stand.
#[derive(Clone, Copy, Debug)]
pub struct Message {
    pub(crate) timestamp: i64,
    pub(crate) user_start: usize,
    pub(crate) user_end: usize,
    pub(crate) body_start: usize,
    pub(crate) body_end: usize,
}

/// The messages of one partition, in the order of its lines, with the text they point into.
pub struct Messages {
    pub(crate) data: String,
    pub(crate) messages: Vec<Message>,
}

/// What a message holds, as plain numbers: its instant and the byte offsets of its two
/// spans, each as first and one-past-last offset.
pub ghost struct Fields {
    pub at: int,
    pub user: (int, int),
    pub body: (int, int),
}

impl Message {
    /// The instant and the spans of the message.
    pub open spec fn fields(&self) -> Fields {
        Fields { at: self.at(), user: self.user_span(), body: self.body_span() }
    }

    /// The instant of the message, in seconds since 1970-01-01T00:00:00Z.
    pub closed spec fn at(&self) -> int {
        self.timestamp as int
    }

    /// First and one-past-last byte offset of the speaker's name.
    pub closed spec fn user_span(&self) -> (int, int) {
        (self.user_start as int, self.user_end as int)
    }

    /// First and one-past-last byte offset of the words.
    pub closed spec fn body_span(&self) -> (int, int) {
        (self.body_start as int, self.body_end as int)
    }

    /// Both spans lie in `text` and cut it between characters.
    pub open spec fn fits(&self, text: Seq<u8>) -> bool {
        &&& is_char_range(text, self.user_span().0, self.user_span().1)
        &&& is_char_range(text, self.body_span().0, self.body_span().1)
    }

    /// The bytes of the speaker's name in `text`.
    pub open spec fn user_in(&self, text: Seq<u8>) -> Seq<u8> {
        text.subrange(self.user_span().0, self.user_span().1)
    }

    /// The bytes of the words in `text`.
    pub open spec fn body_in(&self, text: Seq<u8>) -> Seq<u8> {
        text.subrange(self.body_span().0, self.body_span().1)
    }

    /// The instant of the message.
    pub fn timestamp(&self) -> (t: i64)
        ensures
            t == self.at(),
    {
        self.timestamp
    }

    /// The speaker's name, read from the partition that holds the message.
    pub fn user<'a>(&self, owner: &'a Messages) -> (name: &'a str)
        requires
            self.fits(owner.text()),
        ensures
            name.spec_bytes() == self.user_in(owner.text()),
    {
        slice_str(owner.data.as_str(), self.user_start, self.user_end).unwrap()
    }

    /// The words of the message, read from the partition that holds it.
    pub fn message<'a>(&self, owner: &'a Messages) -> (words: &'a str)
        requires
            self.fits(owner.text()),
        ensures
            words.spec_bytes() == self.body_in(owner.text()),
    {
        slice_str(owner.data.as_str(), self.body_start, self.body_end).unwrap()
    }
}

/// Every instant in `entries` is at or after those before it.
pub open spec fn chronological(entries: Seq<Message>) -> bool {
    forall|i: int, j: int| 0 <= i <= j < entries.len() ==> entries[i].at() <= entries[j].at()
}

/// `k` splits `entries` from index `from` on so that the instant just before it is earlier
/// than `t` and the instant at it is not.
pub open spec fn is_cut(entries: Seq<Message>, from: int, t: int, k: int) -> bool {
    &&& from <= k <= entries.len()
    &&& (k == from || entries[k - 1].at() < t)
    &&& (k == entries.len() || entries[k].at() >= t)
}

/// The instant `at` lies in the half-open window from `t0` up to, not including, `t1`.
pub open spec fn in_window(at: int, t0: int, t1: int) -> bool {
    t0 <= at < t1
}

/// `window` is a run of neighbours of `entries` that begins at a cut for `t0` and ends at
/// a cut for `t1`; where `entries` are chronological it is exactly the messages whose
/// instant lies in the half-open window from `t0` up to `t1`.
pub open spec fn is_temporal_slice(entries: Seq<Message>, t0: int, t1: int, window: Seq<Message>) -> bool {
    exists|lo: int, hi: int|
        {
            &&& is_cut(entries, 0, t0, lo)
            &&& is_cut(entries, lo, t1, hi)
            &&& window == #[trigger] entries.subrange(lo, hi)
            &&& chronological(entries) ==> forall|i: int|
                0 <= i < entries.len() ==> (lo <= i < hi <==> in_window(
                    #[trigger] entries[i].at(),
                    t0,
                    t1,
                ))
        }
}

/// A temporal slice of chronological messages holds the messages of the window and no
/// others: every message in it has its instant in the window, and every message whose
/// instant is in the window is in it, at its place among them.
pub proof fn lemma_slice_is_window(entries: Seq<Message>, t0: int, t1: int, window: Seq<Message>)
    requires
        chronological(entries),
        is_temporal_slice(entries, t0, t1, window),
    ensures
        forall|j: int| 0 <= j < window.len() ==> in_window((#[trigger] window[j]).at(), t0, t1),
        forall|i: int|
            0 <= i < entries.len() && in_window((#[trigger] entries[i]).at(), t0, t1)
                ==> window.contains(entries[i]),
        window == entries.filter(|m: Message| in_window(m.at(), t0, t1)),
{
    let (lo, hi) = choose|lo: int, hi: int|
        {
            &&& is_cut(entries, 0, t0, lo)
            &&& is_cut(entries, lo, t1, hi)
            &&& window == #[trigger] entries.subrange(lo, hi)
            &&& chronological(entries) ==> forall|i: int|
                0 <= i < entries.len() ==> (lo <= i < hi <==> in_window(
                    #[trigger] entries[i].at(),
                    t0,
                    t1,
                ))
        };
    assert forall|j: int| 0 <= j < window.len() implies in_window(
        (#[trigger] window[j]).at(),
        t0,
        t1,
    ) by {
        assert(window[j] == entries[lo + j]);
    }
    assert forall|i: int|
        0 <= i < entries.len() && in_window((#[trigger] entries[i]).at(), t0, t1) implies window.contains(
        entries[i],
    ) by {
        assert(window[i - lo] == entries[i]);
    }
    lemma_filter_of_run(entries, t0, t1, lo, hi, entries.len() as int);
    assert(entries.subrange(0, entries.len() as int) =~= entries);
}

/// The messages of a window among the first `n` of `entries` are those from `lo` up to
/// `hi` that are among the first `n`, where exactly the places from `lo` up to `hi`
/// hold an instant of the window.
proof fn lemma_filter_of_run(entries: Seq<Message>, t0: int, t1: int, lo: int, hi: int, n: int)
    requires
        0 <= lo <= hi <= entries.len(),
        0 <= n <= entries.len(),
        forall|i: int|
            0 <= i < entries.len() ==> (lo <= i < hi <==> in_window(
                #[trigger] entries[i].at(),
                t0,
                t1,
            )),
    ensures
        entries.subrange(0, n).filter(|m: Message| in_window(m.at(), t0, t1)) == entries.subrange(
            if lo < n { lo } else { n },
            if hi < n { hi } else { n },
        ),
    decreases n,
{
    let keep = |m: Message| in_window(m.at(), t0, t1);
    reveal(Seq::filter);
    if n == 0 {
        assert(entries.subrange(0, 0).filter(keep) =~= entries.subrange(0, 0));
    } else {
        lemma_filter_of_run(entries, t0, t1, lo, hi, n - 1);
        let head = entries.subrange(0, n);
        assert(head.drop_last() =~= entries.subrange(0, n - 1));
        assert(head.last() == entries[n - 1]);
        let a = if lo < n - 1 { lo } else { n - 1 };
        let b = if hi < n - 1 { hi } else { n - 1 };
        if keep(entries[n - 1]) {
            assert(lo <= n - 1 < hi);
            assert(entries.subrange(a, b).push(entries[n - 1]) =~= entries.subrange(lo, n));
        } else {
            assert(!(lo <= n - 1 < hi));
            assert(entries.subrange(a, b) =~= entries.subrange(
                if lo < n { lo } else { n },
                if hi < n { hi } else { n },
            ));
        }
    }
}

/// Windows are half-open: of chronological messages, one whose instant is exactly the
/// end of a window is not in that window's slice, and is in the slice of every window
/// that starts at or before its instant and ends after it.
pub proof fn lemma_half_open(
    entries: Seq<Message>,
    i: int,
    t0: int,
    t1: int,
    first: Seq<Message>,
    s0: int,
    s1: int,
    next: Seq<Message>,
)
    requires
        chronological(entries),
        0 <= i < entries.len(),
        entries[i].at() == t1,
        is_temporal_slice(entries, t0, t1, first),
        is_temporal_slice(entries, s0, s1, next),
        s0 <= t1 < s1,
    ensures
        forall|j: int| 0 <= j < first.len() ==> (#[trigger] first[j]).at() != t1,
        next.contains(entries[i]),
{
    lemma_slice_is_window(entries, t0, t1, first);
    lemma_slice_is_window(entries, s0, s1, next);
}

/// Binary search for the first message from index `from` on that is not earlier than `t`.
fn lower_bound(entries: &Vec<Message>, from: usize, t: i64) -> (k: usize)
    requires
        from <= entries.len(),
    ensures
        is_cut(entries@, from as int, t as int, k as int),
        chronological(entries@) ==> forall|i: int|
            from <= i < entries.len() ==> (i < k <==> #[trigger] entries[i].at() < t),
{
    let mut lo: usize = from;
    let mut hi: usize = entries.len();
    while lo < hi
        invariant
            from <= lo <= hi <= entries.len(),
            lo == from || entries[lo - 1].at() < t,
            hi == entries.len() || entries[hi as int].at() >= t,
        decreases hi - lo,
    {
        let mid: usize = lo + (hi - lo) / 2;
        if entries[mid].timestamp < t {
            lo = mid + 1;
        } else {
            hi = mid;
        }
    }
    lo
}

/// Puts `entries` in the order of their instants, through `sort_unstable_by_key` of std's
/// slices.
///
/// Believed of that function: it keeps every element, as often as it occurred, and
/// leaves the keys in ascending order; which of two messages of one instant comes first
/// is left open.
#[verifier::external_body]
fn sort_by_instant(entries: &mut Vec<Message>)
    ensures
        final(entries)@.to_multiset() == old(entries)@.to_multiset(),
        chronological(final(entries)@),
{
    entries.sort_unstable_by_key(|m| m.timestamp);
}

impl Messages {
    /// Reads the partition `data`, a text in the OverRustle format, and keeps it as the
    /// owner of the messages found. With `sort_messages` the messages are put in the
    /// order of their instants, else they stay in the order of their lines.
    pub fn from_string(data: String, sort_messages: bool) -> (r: Messages)
        ensures
            r.wf(),
            r.text() == vstd::utf8::encode_utf8(data@),
            !sort_messages ==> fields_of(r.entries()) == text_fields(r.text(), 0),
            sort_messages ==> chronological(r.entries()) && exists|lines: Seq<Message>|
                #[trigger] fields_of(lines) == text_fields(r.text(), 0) && r.entries().to_multiset()
                    == lines.to_multiset(),
    {
        let mut messages = parse_lines(data.as_str());
        let ghost lines = messages@;
        if sort_messages {
            sort_by_instant(&mut messages);
            proof {
                broadcast use vstd::seq_lib::group_to_multiset_ensures;
                assert forall|i: int| 0 <= i < messages@.len() implies (#[trigger] messages@[i]).fits(
                    vstd::utf8::encode_utf8(data@),
                ) by {
                    let m = messages@[i];
                    assert(messages@.contains(m));
                    assert(lines.to_multiset().count(m) > 0);
                    assert(lines.contains(m));
                }
            }
        }
        Messages { data, messages }
    }

    /// The bytes of the text that the messages point into.
    pub closed spec fn text(&self) -> Seq<u8> {
        vstd::utf8::encode_utf8(self.data@)
    }

    /// The messages, in the order of the lines they came from.
    pub closed spec fn entries(&self) -> Seq<Message> {
        self.messages@
    }

    /// Every message points at whole characters of the text.
    #[verifier::type_invariant]
    pub closed spec fn wf(&self) -> bool {
        forall|i: int| 0 <= i < self.messages@.len() ==> (#[trigger] self.messages@[i]).fits(
            vstd::utf8::encode_utf8(self.data@),
        )
    }

    /// A partition without text and without messages.
    pub fn empty() -> (r: Messages)
        ensures
            r.wf(),
            r.entries() == Seq::<Message>::empty(),
            r.text() == Seq::<u8>::empty(),
    {
        let r = Messages { data: String::new(), messages: Vec::new() };
        proof {
            vstd::utf8::encode_utf8_decode_utf8(r.data@);
            assert(vstd::utf8::encode_utf8(r.data@) =~= Seq::<u8>::empty());
        }
        r
    }

    /// The messages as a vector.
    pub fn vec(&self) -> (v: &Vec<Message>)
        ensures
            v@ == self.entries(),
            forall|i: int| 0 <= i < v@.len() ==> (#[trigger] v@[i]).fits(self.text()),
    {
        proof {
            use_type_invariant(self);
        }
        &self.messages
    }

    /// The messages whose instant lies in the half-open window from `t0` up to `t1`.
    ///
    /// The range is found by two binary searches, so it is the whole window only where
    /// the partition is chronological. Whatever the order, it is a run of neighbours that
    /// begins and ends at a cut for `t0` and for `t1`.
    pub fn temporal_slice(&self, t0: i64, t1: i64) -> (window: &[Message])
        ensures
            is_temporal_slice(self.entries(), t0 as int, t1 as int, window@),
            forall|i: int| 0 <= i < window@.len() ==> (#[trigger] window@[i]).fits(self.text()),
    {
        proof {
            use_type_invariant(self);
        }
        let lo = lower_bound(&self.messages, 0, t0);
        let hi = lower_bound(&self.messages, lo, t1);
        let window = slice_subrange(self.messages.as_slice(), lo, hi);
        proof {
            let entries = self.entries();
            if chronological(entries) {
                assert forall|i: int| 0 <= i < entries.len() implies (lo <= i < hi <==> in_window(
                    #[trigger] entries[i].at(),
                    t0 as int,
                    t1 as int,
                )) by {
                    if i < lo {
                        assert(entries[i].at() < t0);
                    } else {
                        assert(!(entries[i].at() < t0));
                        assert(i < hi <==> entries[i].at() < t1);
                    }
                }
            }
            assert(window@ == entries.subrange(lo as int, hi as int));
        }
        window
    }
}

} // verus!
