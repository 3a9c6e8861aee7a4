//! Counting tokens.
//!
//! A [`TokenCounts`] keeps how often each token was seen in a `counter::Counter`, and
//! beside it the tokens in the order in which each was first seen, which the counter
//! does not keep.

use vstd::prelude::*;
use vstd::multiset::Multiset;
use counter::Counter;
use std::collections::hash_map::RandomState;

verus! {

broadcast use {vstd::seq::group_seq_axioms, vstd::multiset::group_multiset_axioms};

/// The counter of the `counter` crate.
#[verifier::external_type_specification]
#[verifier::external_body]
#[verifier::reject_recursive_types(T)]
#[verifier::reject_recursive_types(N)]
#[verifier::reject_recursive_types(S)]
pub struct ExCounter<T, N, S>(Counter<T, N, S>);

/// What a counter of tokens holds: each token, by its characters, as often as it was
/// counted.
pub uninterp spec fn tally(c: Counter<&str, u64, RandomState>) -> Multiset<Seq<char>>;

/// A counter that holds nothing, from `Counter::new`.
#[verifier::external_body]
fn counter_new<'a>() -> (c: Counter<&'a str, u64, RandomState>)
    ensures
        tally(c) == Multiset::<Seq<char>>::empty(),
{
    Counter::new()
}

/// How often `key` was counted, from the counter's `Index`: the count of a token that
/// the counter holds, and zero for any other. Tokens are told apart by their characters.
#[verifier::external_body]
fn counter_get<'a>(c: &Counter<&'a str, u64, RandomState>, key: &str) -> (n: u64)
    ensures
        n == tally(*c).count(key@),
{
    c[&key]
}

/// Counts `key` once more, through `Counter::update` on an iterator of that one token.
/// The crate adds one to the token's count, which starts at zero; the addition must
/// not leave `u64`.
#[verifier::external_body]
fn counter_add<'a>(c: &mut Counter<&'a str, u64, RandomState>, key: &'a str)
    requires
        tally(*old(c)).count(key@) < u64::MAX,
    ensures
        tally(*final(c)) == tally(*old(c)).insert(key@),
{
    c.update(std::iter::once(key));
}

/// The characters of each string of `words`.
pub open spec fn chars_of_each(words: Seq<&str>) -> Seq<Seq<char>> {
    words.map_values(|w: &str| w@)
}

/// How often each token was seen, with the tokens in the order in which each was first
/// seen.
pub struct TokenCounts<'a> {
    order: Vec<&'a str>,
    counter: Counter<&'a str, u64, RandomState>,
    total: u64,
}

impl<'a> TokenCounts<'a> {
    /// The tokens seen, each once, in the order in which each was first seen.
    pub closed spec fn keys(&self) -> Seq<Seq<char>> {
        chars_of_each(self.order@)
    }

    /// Every token as often as it was seen.
    pub closed spec fn bag(&self) -> Multiset<Seq<char>> {
        tally(self.counter)
    }

    /// Number of tokens seen, each as often as it was seen.
    pub closed spec fn sum(&self) -> int {
        self.total as int
    }

    /// The keys are the tokens that were seen, none of them twice, and the sum is the
    /// number of tokens in the bag.
    pub open spec fn wf(&self) -> bool {
        &&& self.keys().no_duplicates()
        &&& forall|k: Seq<char>| self.keys().contains(k) <==> self.bag().count(k) > 0
        &&& self.bag().len() == self.sum()
        &&& self.sum() <= u64::MAX
    }

    /// Counts that hold nothing.
    pub fn new() -> (r: TokenCounts<'a>)
        ensures
            r.wf(),
            r.keys() == Seq::<Seq<char>>::empty(),
            r.bag() == Multiset::<Seq<char>>::empty(),
            r.sum() == 0,
    {
        let r = TokenCounts { order: Vec::new(), counter: counter_new(), total: 0 };
        assert(r.keys() =~= Seq::<Seq<char>>::empty());
        r
    }

    /// How often `token` was seen.
    pub fn count(&self, token: &str) -> (n: u64)
        ensures
            n == self.bag().count(token@),
    {
        counter_get(&self.counter, token)
    }

    /// Number of different tokens seen.
    pub fn len(&self) -> (n: usize)
        ensures
            n == self.keys().len(),
    {
        self.order.len()
    }

    /// Number of tokens seen, each as often as it was seen.
    pub fn total(&self) -> (n: u64)
        ensures
            n == self.sum(),
    {
        self.total
    }

    /// The token with number `i` in the order of first sight.
    pub fn key(&self, i: usize) -> (token: &'a str)
        requires
            i < self.keys().len(),
        ensures
            token@ == self.keys()[i as int],
    {
        self.order[i]
    }

    /// Counts `token` once more. A token not seen before becomes the last key.
    pub fn add(&mut self, token: &'a str)
        requires
            old(self).wf(),
            old(self).sum() < u64::MAX,
        ensures
            final(self).wf(),
            final(self).bag() == old(self).bag().insert(token@),
            final(self).sum() == old(self).sum() + 1,
            final(self).keys() == (if old(self).keys().contains(token@) {
                old(self).keys()
            } else {
                old(self).keys().push(token@)
            }),
    {
        let seen = counter_get(&self.counter, token);
        proof {
            lemma_count_le_len(self.bag(), token@);
        }
        if seen == 0 {
            self.order.push(token);
            assert(self.keys() =~= old(self).keys().push(token@));
        }
        counter_add(&mut self.counter, token);
        self.total = self.total + 1;
        proof {
            let keys = self.keys();
            assert(self.bag().len() == old(self).bag().len() + 1);
            assert(keys.no_duplicates()) by {
                if seen == 0 {
                    assert(!old(self).keys().contains(token@));
                    assert forall|i: int, j: int|
                        0 <= i < keys.len() && 0 <= j < keys.len() && i != j implies keys[i]
                        != keys[j] by {
                        if i < keys.len() - 1 {
                            assert(old(self).keys()[i] == keys[i]);
                        }
                        if j < keys.len() - 1 {
                            assert(old(self).keys()[j] == keys[j]);
                        }
                    }
                }
            }
            assert forall|k: Seq<char>| keys.contains(k) <==> self.bag().count(k) > 0 by {
                if k == token@ {
                    if seen == 0 {
                        assert(keys[keys.len() - 1] == k);
                    }
                } else {
                    if old(self).keys().contains(k) {
                        let i = choose|i: int| 0 <= i < old(self).keys().len() && old(self).keys()[i] == k;
                        assert(keys[i] == k);
                    }
                    if keys.contains(k) {
                        let i = choose|i: int| 0 <= i < keys.len() && keys[i] == k;
                        assert(old(self).keys()[i] == k);
                    }
                }
            }
        }
    }
}

/// No element occurs in a multiset more often than the multiset has elements.
pub proof fn lemma_count_le_len(bag: Multiset<Seq<char>>, k: Seq<char>)
    ensures
        bag.count(k) <= bag.len(),
    decreases bag.len(),
{
    if bag.count(k) > 0 {
        let rest = bag.remove(k);
        assert(rest.count(k) == bag.count(k) - 1);
        lemma_count_le_len(rest, k);
    }
}

} // verus!
