//! Token statistics of one window.
//!
//! The words of every message of a window are split into tokens, a caller's filter
//! decides which of them count, and those are counted.

use vstd::prelude::*;
use vstd::string::*;
use vstd::utf8::*;
use crate::counts::{chars_of_each, TokenCounts};
use crate::message::tokenizer::{bytes_of_each, normal, tokens};
use crate::message::Message;
use crate::window::{total_len, Part, Window};

verus! {

broadcast use {
    vstd::seq::group_seq_axioms,
    vstd::seq_lib::group_to_multiset_ensures,
    vstd::multiset::group_multiset_axioms,
};

/// The tokens of the words of each of `entries`, which point into `text`, in the order
/// of the messages.
pub open spec fn words_of(entries: Seq<Message>, text: Seq<u8>) -> Seq<Seq<u8>>
    decreases entries.len(),
{
    if entries.len() == 0 {
        Seq::empty()
    } else {
        words_of(entries.drop_last(), text) + tokens(entries.last().body_in(text))
    }
}

/// The tokens of every message of `pieces`, in the order of the parts and of their
/// messages.
pub open spec fn window_words(pieces: Seq<Part>) -> Seq<Seq<u8>>
    decreases pieces.len(),
{
    if pieces.len() == 0 {
        Seq::empty()
    } else {
        window_words(pieces.drop_last()) + words_of(
            pieces.last().entries(),
            pieces.last().owner().text(),
        )
    }
}

/// Those of `words` for which `keep` holds `true` at the same place, in their order.
pub open spec fn kept(words: Seq<Seq<char>>, keep: Seq<bool>) -> Seq<Seq<char>>
    decreases words.len(),
{
    if words.len() == 0 {
        Seq::empty()
    } else {
        let before = kept(words.drop_last(), keep);
        if keep[words.len() - 1] {
            before.push(words.last())
        } else {
            before
        }
    }
}

/// The different words of `words`, each at the place of its first occurrence.
pub open spec fn first_seen(words: Seq<Seq<char>>) -> Seq<Seq<char>>
    decreases words.len(),
{
    if words.len() == 0 {
        Seq::empty()
    } else {
        let before = first_seen(words.drop_last());
        if before.contains(words.last()) {
            before
        } else {
            before.push(words.last())
        }
    }
}

/// No more words are kept than there are.
pub proof fn lemma_kept_len(words: Seq<Seq<char>>, keep: Seq<bool>)
    ensures
        kept(words, keep).len() <= words.len(),
    decreases words.len(),
{
    if words.len() > 0 {
        lemma_kept_len(words.drop_last(), keep);
    }
}

/// Statistics computed over the tokens of one window.
pub struct WindowStats<'a> {
    /// Number of messages in the window.
    pub n_messages: u64,
    /// Number of tokens in the window, before the filter.
    pub n_tokens: u64,
    /// Number of tokens that the filter let through.
    pub n_tokens_filtered: u64,
    /// How often each token that the filter let through occurs.
    pub token_counts: TokenCounts<'a>,
}

/// `stats` are the statistics of a window of the parts `pieces` whose tokens are `words`
/// and for which the filter answered `keep`.
pub open spec fn stats_agree(
    pieces: Seq<Part>,
    words: Seq<&str>,
    keep: Seq<bool>,
    stats: WindowStats,
) -> bool {
    let counted = kept(chars_of_each(words), keep);
    &&& bytes_of_each(words) == window_words(pieces)
    &&& keep.len() == words.len()
    &&& stats.n_messages == total_len(pieces) || (stats.n_messages == usize::MAX && total_len(pieces)
        > usize::MAX)
    &&& stats.n_tokens == words.len()
    &&& stats.n_tokens_filtered == counted.len()
    &&& stats.token_counts.wf()
    &&& stats.token_counts.bag() == counted.to_multiset()
    &&& stats.token_counts.keys() == first_seen(counted)
}

/// The statistics of `window`: its messages and tokens are counted, `filter` is asked
/// about each token once, in the order of the messages, and the tokens it lets through
/// are counted one by one.
pub fn window_stats<'a, Filter: Fn(&str) -> bool>(window: &Window<'a>, filter: &Filter) -> (stats:
    WindowStats<'a>)
    requires
        forall|t: &str| call_requires(*filter, (t,)),
    ensures
        exists|words: Seq<&str>, keep: Seq<bool>|
            {
                &&& #[trigger] stats_agree(window.pieces(), words, keep, stats)
                &&& forall|i: int|
                    0 <= i < words.len() ==> call_ensures(*filter, (words[i],), #[trigger] keep[i])
            },
{
    let tokens = window_tokens(window);
    let keep = ask_filter(&tokens, filter);
    let token_counts = tally_tokens(&tokens, &keep);
    let stats = WindowStats {
        n_messages: window.len() as u64,
        n_tokens: tokens.len() as u64,
        n_tokens_filtered: token_counts.total(),
        token_counts,
    };
    assert(stats_agree(window.pieces(), tokens@, keep@, stats));
    stats
}

/// Every token of every message of `window`, in the order of the messages.
pub fn window_tokens<'a>(window: &Window<'a>) -> (found: Vec<&'a str>)
    ensures
        bytes_of_each(found@) == window_words(window.pieces()),
{
    let parts = window.parts();
    let mut found: Vec<&'a str> = Vec::new();
    let mut p: usize = 0;
    assert(parts@.take(0) =~= Seq::<Part>::empty());
    assert(bytes_of_each(found@) =~= Seq::<Seq<u8>>::empty());
    while p < parts.len()
        invariant
            p <= parts@.len(),
            bytes_of_each(found@) == window_words(parts@.take(p as int)),
        decreases parts@.len() - p,
    {
        let part = &parts[p];
        let n = part.len();
        let ghost text = part.owner().text();
        let ghost done = found@;
        let mut i: usize = 0;
        assert(part.entries().take(0) =~= Seq::<Message>::empty());
        assert(bytes_of_each(found@) + Seq::<Seq<u8>>::empty() =~= bytes_of_each(found@));
        while i < n
            invariant
                n == part.entries().len(),
                i <= n,
                text == part.owner().text(),
                bytes_of_each(found@) == bytes_of_each(done) + words_of(
                    part.entries().take(i as int),
                    text,
                ),
            decreases n - i,
        {
            let mut words = normal(part.message(i));
            let ghost held = found@;
            let ghost new = words@;
            found.append(&mut words);
            proof {
                assert(part.entries().take(i + 1).drop_last() =~= part.entries().take(i as int));
                assert(part.entries().take(i + 1).last() == part.entries()[i as int]);
                assert(bytes_of_each(held + new) =~= bytes_of_each(held) + bytes_of_each(new));
                assert(bytes_of_each(found@) =~= bytes_of_each(done) + words_of(
                    part.entries().take(i + 1),
                    text,
                ));
            }
            i = i + 1;
        }
        proof {
            assert(part.entries().take(n as int) =~= part.entries());
            assert(parts@.take(p + 1).drop_last() =~= parts@.take(p as int));
            assert(parts@.take(p + 1).last() == parts@[p as int]);
        }
        p = p + 1;
    }
    assert(parts@.take(p as int) =~= parts@);
    found
}

/// Asks `filter` about each of `tokens`, in their order, and keeps its answers.
pub fn ask_filter<Filter: Fn(&str) -> bool>(tokens: &Vec<&str>, filter: &Filter) -> (keep: Vec<bool>)
    requires
        forall|t: &str| call_requires(*filter, (t,)),
    ensures
        keep@.len() == tokens@.len(),
        forall|i: int| 0 <= i < tokens@.len() ==> call_ensures(*filter, (tokens@[i],), #[trigger] keep@[i]),
{
    let mut keep: Vec<bool> = Vec::new();
    let mut i: usize = 0;
    while i < tokens.len()
        invariant
            i <= tokens@.len(),
            keep@.len() == i,
            forall|t: &str| call_requires(*filter, (t,)),
            forall|j: int| 0 <= j < i ==> call_ensures(*filter, (tokens@[j],), #[trigger] keep@[j]),
        decreases tokens@.len() - i,
    {
        let answer = filter(tokens[i]);
        keep.push(answer);
        i = i + 1;
    }
    keep
}

/// Counts those of `tokens` for which `keep` holds `true` at the same place.
pub fn tally_tokens<'a>(tokens: &Vec<&'a str>, keep: &Vec<bool>) -> (counts: TokenCounts<'a>)
    requires
        keep@.len() == tokens@.len(),
    ensures
        counts.wf(),
        counts.bag() == kept(chars_of_each(tokens@), keep@).to_multiset(),
        counts.keys() == first_seen(kept(chars_of_each(tokens@), keep@)),
        counts.sum() == kept(chars_of_each(tokens@), keep@).len(),
{
    let mut counts = TokenCounts::new();
    let ghost words = chars_of_each(tokens@);
    let mut i: usize = 0;
    assert(words.take(0) =~= Seq::<Seq<char>>::empty());
    while i < tokens.len()
        invariant
            i <= tokens@.len(),
            keep@.len() == tokens@.len(),
            words == chars_of_each(tokens@),
            counts.wf(),
            counts.bag() == kept(words.take(i as int), keep@).to_multiset(),
            counts.keys() == first_seen(kept(words.take(i as int), keep@)),
            counts.sum() == kept(words.take(i as int), keep@).len(),
        decreases tokens@.len() - i,
    {
        proof {
            assert(words.take(i + 1).drop_last() =~= words.take(i as int));
            assert(words.take(i + 1).last() == tokens@[i as int]@);
            lemma_kept_len(words.take(i as int), keep@);
        }
        if keep[i] {
            let ghost before = kept(words.take(i as int), keep@);
            counts.add(tokens[i]);
            proof {
                let now = kept(words.take(i + 1), keep@);
                assert(now == before.push(tokens@[i as int]@));
                assert(now.drop_last() =~= before);
                assert(before.contains(tokens@[i as int]@) <==> first_seen(before).contains(
                    tokens@[i as int]@,
                )) by {
                    lemma_first_seen_contains(before, tokens@[i as int]@);
                }
            }
        }
        i = i + 1;
    }
    assert(words.take(i as int) =~= words);
    counts
}

/// The first occurrences of `words` hold a word exactly where `words` does.
pub proof fn lemma_first_seen_contains(words: Seq<Seq<char>>, w: Seq<char>)
    ensures
        first_seen(words).contains(w) <==> words.contains(w),
    decreases words.len(),
{
    if words.len() > 0 {
        let before = words.drop_last();
        lemma_first_seen_contains(before, w);
        lemma_first_seen_contains(before, words.last());
        if words.contains(w) {
            let i = choose|i: int| 0 <= i < words.len() && words[i] == w;
            if i < words.len() - 1 {
                assert(before[i] == w);
            }
        }
        if before.contains(w) {
            let i = choose|i: int| 0 <= i < before.len() && before[i] == w;
            assert(words[i] == w);
        }
        if first_seen(before).contains(words.last()) {
        } else {
            let f = first_seen(before).push(words.last());
            assert(f[f.len() - 1] == words.last());
            if first_seen(before).contains(w) {
                let i = choose|i: int| 0 <= i < first_seen(before).len() && first_seen(before)[i] == w;
                assert(f[i] == w);
            }
        }
        assert(words[words.len() - 1] == words.last());
    }
}

} // verus!
