//! Small helpers shared by the log sources and the jobs built on them.

use vstd::prelude::*;
use vstd::multiset::Multiset;
use vstd::string::*;
use crate::counts::TokenCounts;

verus! {

broadcast use vstd::seq::group_seq_axioms;

/// Whether progress is shown while partitions are discovered and fetched. The value is
/// handed to whatever draws the bars.
#[derive(Clone, Copy, Debug, PartialEq, Eq, Structural)]
pub struct Progress {
    pub enabled: bool,
}

impl Progress {
    /// The length of the bar to draw for `count` units of work, or `None` where
    /// progress is not shown.
    pub fn bar_length(&self, count: usize) -> (len: Option<u64>)
        ensures
            len == (if self.enabled {
                Some(count as u64)
            } else {
                None
            }),
    {
        if self.enabled {
            Some(count as u64)
        } else {
            None
        }
    }
}

/// Turns the display of progress on or off.
pub fn progress_bar(enabled: bool) -> (p: Progress)
    ensures
        p.enabled == enabled,
{
    Progress { enabled }
}

/// The upper-case form of an ASCII letter; any other character is left as it is.
pub open spec fn upper(c: char) -> char {
    if 'a' <= c <= 'z' {
        ((c as u8) - 32) as char
    } else {
        c
    }
}

/// `text` with its first character in upper case.
pub open spec fn capitalized_chars(text: Seq<char>) -> Seq<char> {
    seq![upper(text[0])] + text.skip(1)
}

/// `text` can be capitalized: it is not empty and starts with an ASCII character.
pub open spec fn can_capitalize(text: Seq<char>) -> bool {
    text.len() > 0 && text[0] <= '\u{7f}'
}

/// The upper-case form of `text`, through `to_ascii_uppercase` of std's `str`.
///
/// Believed of that function: it maps the letters `a` to `z` to `A` to `Z` and leaves
/// every other character as it is.
#[verifier::external_body]
fn ascii_uppercase(text: &str) -> (r: String)
    ensures
        r@ == text@.map_values(|c: char| upper(c)),
{
    text.to_ascii_uppercase()
}

/// Whether `s` can be capitalized.
pub fn capitalizable(s: &str) -> (b: bool)
    ensures
        b == can_capitalize(s@),
{
    let n = s.unicode_len();
    n > 0 && (s.get_char(0) as u32) <= 0x7f
}

/// `s` with its first character in upper case.
pub fn capitalized(s: &String) -> (r: String)
    requires
        can_capitalize(s@),
    ensures
        r@ == capitalized_chars(s@),
{
    let text = s.as_str();
    let n = text.unicode_len();
    let head = text.substring_char(0, 1);
    let tail = text.substring_char(1, n);
    let r = ascii_uppercase(head).concat(tail);
    proof {
        assert(head@.map_values(|c: char| upper(c)) =~= seq![upper(s@[0])]);
        assert(tail@ =~= s@.skip(1));
    }
    r
}

/// A token by its characters, with its count.
pub type Ranked = (Seq<char>, u64);

/// The key that std's ascending sort puts in the order of falling counts.
fn rank_key(item: &(&str, u64)) -> (k: u64)
    ensures
        k == u64::MAX - item.1,
{
    u64::MAX - item.1
}

/// Item `x` of `items` comes before item `y` in a ranking: its count is higher, or the
/// counts are equal and `x` stands before `y`.
pub open spec fn outranks(items: Seq<(&str, u64)>, x: int, y: int) -> bool {
    items[x].1 > items[y].1 || (items[x].1 == items[y].1 && x < y)
}

/// Some item of `pos` is `m`.
pub open spec fn reaches(pos: Seq<int>, m: int) -> bool {
    exists|j: int| 0 <= j < pos.len() && #[trigger] pos[j] == m
}

/// `after` holds the items of `before`, item `j` of `after` being item `pos[j]` of
/// `before`, in the order of falling counts, items of one count in the order in which
/// they stood in `before`.
pub open spec fn is_stable_ranking(
    before: Seq<(&str, u64)>,
    after: Seq<(&str, u64)>,
    pos: Seq<int>,
) -> bool {
    &&& pos.len() == before.len()
    &&& after.len() == before.len()
    &&& forall|j: int|
        0 <= j < pos.len() ==> 0 <= #[trigger] pos[j] < before.len() && after[j] == before[pos[j]]
    &&& forall|m: int| 0 <= m < before.len() ==> #[trigger] reaches(pos, m)
    &&& forall|a: int, b: int| 0 <= a < b < pos.len() ==> outranks(before, #[trigger] pos[a], #[trigger] pos[b])
}

/// Sorts `items` by falling count, through `sort_by_key` of std's slices.
///
/// Believed of that function: it keeps every item, puts the keys in ascending order,
/// and is stable, so items of one key stay in the order in which they stood.
#[verifier::external_body]
fn sort_by_rank<'a>(items: &mut Vec<(&'a str, u64)>)
    ensures
        exists|pos: Seq<int>| #[trigger] is_stable_ranking(old(items)@, final(items)@, pos),
{
    items.sort_by_key(|item| rank_key(item));
}

/// The characters and the count of each item of `items`.
pub open spec fn ranked_view(items: Seq<(&str, u64)>) -> Seq<Ranked> {
    items.map_values(|e: (&str, u64)| (e.0@, e.1))
}

/// Item `a` of `ranked` may stand before item `b`: its count is higher, or the counts
/// are equal and its key was seen first.
pub open spec fn in_rank_order(ranked: Seq<Ranked>, pos: Seq<int>, a: int, b: int) -> bool {
    ranked[a].1 > ranked[b].1 || (ranked[a].1 == ranked[b].1 && pos[a] < pos[b])
}

/// `ranked` lists the keys that `bag` holds more than `threshold` times, each once with
/// its count, item `j` being the key with number `pos[j]`, in the order of falling
/// counts, keys of one count in the order of `keys`.
pub open spec fn is_ranking_by(
    keys: Seq<Seq<char>>,
    bag: Multiset<Seq<char>>,
    threshold: u64,
    ranked: Seq<Ranked>,
    pos: Seq<int>,
) -> bool {
    &&& pos.len() == ranked.len()
    &&& forall|j: int|
        0 <= j < pos.len() ==> {
            &&& 0 <= #[trigger] pos[j] < keys.len()
            &&& ranked[j].0 == keys[pos[j]]
            &&& ranked[j].1 == bag.count(keys[pos[j]])
            &&& ranked[j].1 > threshold
        }
    &&& forall|i: int|
        0 <= i < keys.len() && bag.count(#[trigger] keys[i]) > threshold ==> exists|j: int|
            0 <= j < pos.len() && #[trigger] pos[j] == i
    &&& forall|a: int, b: int| 0 <= a < b < pos.len() ==> #[trigger] in_rank_order(ranked, pos, a, b)
}

/// `ranked` is the ranking of the keys that `bag` holds more than `threshold` times.
pub open spec fn is_ranking(
    keys: Seq<Seq<char>>,
    bag: Multiset<Seq<char>>,
    threshold: u64,
    ranked: Seq<Ranked>,
) -> bool {
    exists|pos: Seq<int>| #[trigger] is_ranking_by(keys, bag, threshold, ranked, pos)
}

/// Where items `a` and `b` of `ranked` have one count and are the keys with the numbers
/// `x` and `y`, `x` is before `y`.
pub open spec fn tie_keeps_order(
    keys: Seq<Seq<char>>,
    ranked: Seq<Ranked>,
    a: int,
    b: int,
    x: int,
    y: int,
) -> bool {
    (ranked[a].1 == ranked[b].1 && keys[x] == ranked[a].0 && keys[y] == ranked[b].0) ==> x < y
}

/// What a ranking is worth: it lists every key counted more than `threshold` times and
/// no other, each once and with its count; the counts never rise along it; and of two
/// keys of one count the one that stands first in `keys` comes first.
pub proof fn lemma_ranking(
    keys: Seq<Seq<char>>,
    bag: Multiset<Seq<char>>,
    threshold: u64,
    ranked: Seq<Ranked>,
)
    requires
        keys.no_duplicates(),
        is_ranking(keys, bag, threshold, ranked),
    ensures
        forall|i: int|
            0 <= i < keys.len() && bag.count(#[trigger] keys[i]) > threshold ==> exists|j: int|
                0 <= j < ranked.len() && #[trigger] ranked[j].0 == keys[i],
        forall|j: int|
            0 <= j < ranked.len() ==> keys.contains((#[trigger] ranked[j]).0) && ranked[j].1
                == bag.count(ranked[j].0) && ranked[j].1 > threshold,
        forall|a: int, b: int|
            0 <= a < b < ranked.len() ==> (#[trigger] ranked[a]).1 >= (#[trigger] ranked[b]).1,
        forall|a: int, b: int|
            0 <= a < b < ranked.len() ==> (#[trigger] ranked[a]).0 != (#[trigger] ranked[b]).0,
        forall|a: int, b: int, x: int, y: int|
            0 <= a < b < ranked.len() && 0 <= x < keys.len() && 0 <= y < keys.len()
                ==> #[trigger] tie_keeps_order(keys, ranked, a, b, x, y),
{
    let pos = choose|pos: Seq<int>| #[trigger] is_ranking_by(keys, bag, threshold, ranked, pos);
    assert forall|i: int|
        0 <= i < keys.len() && bag.count(#[trigger] keys[i]) > threshold implies exists|j: int|
        0 <= j < ranked.len() && #[trigger] ranked[j].0 == keys[i] by {
        let j = choose|j: int| 0 <= j < pos.len() && #[trigger] pos[j] == i;
        assert(ranked[j].0 == keys[i]);
    }
    assert forall|j: int| 0 <= j < ranked.len() implies keys.contains((#[trigger] ranked[j]).0)
        && ranked[j].1 == bag.count(ranked[j].0) && ranked[j].1 > threshold by {
        assert(keys[pos[j]] == ranked[j].0);
    }
    assert forall|a: int, b: int| 0 <= a < b < ranked.len() implies (#[trigger] ranked[a]).1
        >= (#[trigger] ranked[b]).1 by {
        assert(in_rank_order(ranked, pos, a, b));
    }
    assert forall|a: int, b: int| 0 <= a < b < ranked.len() implies (#[trigger] ranked[a]).0
        != (#[trigger] ranked[b]).0 by {
        assert(in_rank_order(ranked, pos, a, b));
        assert(keys[pos[a]] == ranked[a].0 && keys[pos[b]] == ranked[b].0);
        if ranked[a].0 == ranked[b].0 {
            assert(pos[a] == pos[b]);
        }
    }
    assert forall|a: int, b: int, x: int, y: int|
        0 <= a < b < ranked.len() && 0 <= x < keys.len() && 0 <= y
            < keys.len() implies #[trigger] tie_keeps_order(keys, ranked, a, b, x, y) by {
        assert(in_rank_order(ranked, pos, a, b));
        assert(keys[pos[a]] == ranked[a].0 && keys[pos[b]] == ranked[b].0);
        if ranked[a].1 == ranked[b].1 && keys[x] == ranked[a].0 && keys[y] == ranked[b].0 {
            assert(pos[a] == x && pos[b] == y);
        }
    }
}

/// The first `n` places of two rankings of the same counts name the same keys.
proof fn lemma_rankings_agree(
    keys: Seq<Seq<char>>,
    bag: Multiset<Seq<char>>,
    threshold: u64,
    r1: Seq<Ranked>,
    p1: Seq<int>,
    r2: Seq<Ranked>,
    p2: Seq<int>,
    n: int,
)
    requires
        is_ranking_by(keys, bag, threshold, r1, p1),
        is_ranking_by(keys, bag, threshold, r2, p2),
        0 <= n <= p1.len(),
        n <= p2.len(),
    ensures
        forall|j: int| 0 <= j < n ==> p1[j] == p2[j],
    decreases n,
{
    if n > 0 {
        lemma_rankings_agree(keys, bag, threshold, r1, p1, r2, p2, n - 1);
        let j = n - 1;
        let x = p1[j];
        let y = p2[j];
        if x != y {
            // each of the two keys stands somewhere in the other ranking
            assert(bag.count(keys[x]) > threshold);
            assert(bag.count(keys[y]) > threshold);
            let m2 = choose|m: int| 0 <= m < p2.len() && #[trigger] p2[m] == x;
            let m1 = choose|m: int| 0 <= m < p1.len() && #[trigger] p1[m] == y;
            if m2 < j {
                assert(p1[m2] == p2[m2]);
                assert(in_rank_order(r1, p1, m2, j));
            } else if m1 < j {
                assert(p1[m1] == p2[m1]);
                assert(in_rank_order(r2, p2, m1, j));
            } else {
                assert(m2 > j && m1 > j);
                assert(in_rank_order(r2, p2, j, m2));
                assert(in_rank_order(r1, p1, j, m1));
            }
        }
    }
}

/// Counts have one ranking only: the contract of `most_common` leaves nothing open.
pub proof fn lemma_ranking_unique(
    keys: Seq<Seq<char>>,
    bag: Multiset<Seq<char>>,
    threshold: u64,
    r1: Seq<Ranked>,
    r2: Seq<Ranked>,
)
    requires
        is_ranking(keys, bag, threshold, r1),
        is_ranking(keys, bag, threshold, r2),
    ensures
        r1 == r2,
{
    let p1 = choose|pos: Seq<int>| #[trigger] is_ranking_by(keys, bag, threshold, r1, pos);
    let p2 = choose|pos: Seq<int>| #[trigger] is_ranking_by(keys, bag, threshold, r2, pos);
    let n = if p1.len() <= p2.len() {
        p1.len() as int
    } else {
        p2.len() as int
    };
    lemma_rankings_agree(keys, bag, threshold, r1, p1, r2, p2, n);
    if p1.len() > n {
        let x = p1[n];
        assert(bag.count(keys[x]) > threshold);
        let m = choose|m: int| 0 <= m < p2.len() && #[trigger] p2[m] == x;
        assert(p1[m] == p2[m]);
        assert(in_rank_order(r1, p1, m, n));
    }
    if p2.len() > n {
        let x = p2[n];
        assert(bag.count(keys[x]) > threshold);
        let m = choose|m: int| 0 <= m < p1.len() && #[trigger] p1[m] == x;
        assert(p1[m] == p2[m]);
        assert(in_rank_order(r2, p2, m, n));
    }
    assert forall|j: int| 0 <= j < r1.len() implies r1[j] == r2[j] by {
        assert(p1[j] == p2[j]);
    }
    assert(r1 =~= r2);
}

/// The tokens counted more than `threshold` times, each with its count, most frequent
/// first; tokens of one count stand in the order in which they were first seen.
pub fn most_common<'a>(counts: &TokenCounts<'a>, threshold: u64) -> (ranked: Vec<(&'a str, u64)>)
    ensures
        is_ranking(counts.keys(), counts.bag(), threshold, ranked_view(ranked@)),
{
    let mut items: Vec<(&'a str, u64)> = Vec::new();
    let ghost mut from: Seq<int> = Seq::empty();
    let n = counts.len();
    let mut i: usize = 0;
    while i < n
        invariant
            n == counts.keys().len(),
            i <= n,
            from.len() == items@.len(),
            forall|m: int|
                0 <= m < from.len() ==> {
                    &&& 0 <= #[trigger] from[m] < i
                    &&& items@[m].0@ == counts.keys()[from[m]]
                    &&& items@[m].1 == counts.bag().count(counts.keys()[from[m]])
                    &&& items@[m].1 > threshold
                },
            forall|a: int, b: int| 0 <= a < b < from.len() ==> #[trigger] from[a] < #[trigger] from[b],
            forall|k: int|
                0 <= k < i && counts.bag().count(#[trigger] counts.keys()[k]) > threshold
                    ==> exists|m: int| 0 <= m < from.len() && #[trigger] from[m] == k,
        decreases n - i,
    {
        let token = counts.key(i);
        let seen = counts.count(token);
        if seen > threshold {
            let ghost held = from;
            items.push((token, seen));
            proof {
                from = from.push(i as int);
                assert forall|k: int|
                    0 <= k < i + 1 && counts.bag().count(#[trigger] counts.keys()[k])
                        > threshold implies exists|m: int|
                    0 <= m < from.len() && #[trigger] from[m] == k by {
                    if k < i {
                        let m = choose|m: int| 0 <= m < held.len() && #[trigger] held[m] == k;
                        assert(from[m] == k);
                    } else {
                        assert(from[from.len() - 1] == k);
                    }
                }
            }
        }
        i = i + 1;
    }
    let ghost before = items@;
    sort_by_rank(&mut items);
    proof {
        let keys = counts.keys();
        let bag = counts.bag();
        let pos = choose|pos: Seq<int>| #[trigger] is_stable_ranking(before, items@, pos);
        let ranked = ranked_view(items@);
        let kpos = Seq::new(pos.len(), |j: int| from[pos[j]]);
        assert forall|j: int| 0 <= j < kpos.len() implies {
            &&& 0 <= #[trigger] kpos[j] < keys.len()
            &&& ranked[j].0 == keys[kpos[j]]
            &&& ranked[j].1 == bag.count(keys[kpos[j]])
            &&& ranked[j].1 > threshold
        } by {
            assert(items@[j] == before[pos[j]]);
        }
        assert forall|k: int|
            0 <= k < keys.len() && bag.count(#[trigger] keys[k]) > threshold implies exists|j: int|
            0 <= j < kpos.len() && #[trigger] kpos[j] == k by {
            let m = choose|m: int| 0 <= m < from.len() && #[trigger] from[m] == k;
            assert(reaches(pos, m));
            let j = choose|j: int| 0 <= j < pos.len() && #[trigger] pos[j] == m;
            assert(kpos[j] == k);
        }
        assert forall|a: int, b: int| 0 <= a < b < kpos.len() implies #[trigger] in_rank_order(
            ranked,
            kpos,
            a,
            b,
        ) by {
            assert(outranks(before, pos[a], pos[b]));
            assert(items@[a] == before[pos[a]]);
            assert(items@[b] == before[pos[b]]);
            assert(kpos[a] == from[pos[a]]);
            assert(kpos[b] == from[pos[b]]);
            if pos[a] < pos[b] {
                assert(from[pos[a]] < from[pos[b]]);
            }
        }
        assert(kpos.len() == ranked.len());
        assert(is_ranking_by(keys, bag, threshold, ranked, kpos));
    }
    items
}

/// The characters and the count of each item of `items`.
pub open spec fn owned_view(items: Seq<(String, u64)>) -> Seq<Ranked> {
    items.map_values(|e: (String, u64)| (e.0@, e.1))
}

/// The first `top` items of the ranking of `counts`, each token as a string of its own;
/// the whole ranking where it has no more than `top` items.
pub fn top_tokens(counts: &TokenCounts, threshold: u64, top: usize) -> (best: Vec<(String, u64)>)
    ensures
        exists|ranked: Seq<Ranked>|
            #[trigger] is_ranking(counts.keys(), counts.bag(), threshold, ranked) && owned_view(
                best@,
            ) == ranked.take(if top < ranked.len() { top as int } else { ranked.len() as int }),
{
    let ranked = most_common(counts, threshold);
    let n = if top < ranked.len() {
        top
    } else {
        ranked.len()
    };
    let mut best: Vec<(String, u64)> = Vec::new();
    let mut i: usize = 0;
    while i < n
        invariant
            i <= n <= ranked@.len(),
            owned_view(best@) == ranked_view(ranked@).take(i as int),
        decreases n - i,
    {
        let ghost held = owned_view(best@);
        let token = String::from_str(ranked[i].0);
        best.push((token, ranked[i].1));
        assert(owned_view(best@) =~= held.push((ranked@[i as int].0@, ranked@[i as int].1)));
        assert(owned_view(best@) =~= ranked_view(ranked@).take(i + 1));
        i = i + 1;
    }
    assert(is_ranking(counts.keys(), counts.bag(), threshold, ranked_view(ranked@)));
    best
}

/// `b` is an ASCII letter or digit.
pub open spec fn is_alnum(b: u8) -> bool {
    (0x30 <= b <= 0x39) || (0x41 <= b <= 0x5a) || (0x61 <= b <= 0x7a)
}

/// `token` may be the name of an emote: 2 to 32 bytes, all of them ASCII letters or
/// digits.
pub open spec fn emote_like(token: Seq<u8>) -> bool {
    2 <= token.len() <= 32 && forall|i: int| 0 <= i < token.len() ==> is_alnum(#[trigger] token[i])
}

/// Whether `token` may be the name of an emote.
pub fn is_emote_like(token: &str) -> (b: bool)
    ensures
        b == emote_like(token.spec_bytes()),
{
    let bytes = token.as_bytes();
    if bytes.len() < 2 || bytes.len() > 32 {
        return false;
    }
    let mut i: usize = 0;
    while i < bytes.len()
        invariant
            bytes@ == token.spec_bytes(),
            i <= bytes@.len(),
            forall|j: int| 0 <= j < i ==> is_alnum(#[trigger] bytes@[j]),
        decreases bytes@.len() - i,
    {
        let b = bytes[i];
        if !((0x30 <= b && b <= 0x39) || (0x41 <= b && b <= 0x5a) || (0x61 <= b && b <= 0x7a)) {
            return false;
        }
        i = i + 1;
    }
    true
}

} // verus!
