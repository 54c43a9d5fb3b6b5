//! Ranking by tiers: every word of the query must occur in a candidate, and
//! a candidate is as good as its best word.

use vstd::prelude::*;
use crate::occurrence::{first_occurrence, lemma_first_occurrence_is};
use crate::ranking::{
    before, is_kept, is_ranking, lemma_kept_as_often, lemma_pick_all, lemma_ranking_is_ranking,
    lemma_ranking_of_equal_keys, pick, ranking,
};
use crate::sorting::{key_int, key_view, ranked, IntKeys};
use crate::text::{chars_of, find, is_space, is_whitespace, text_views};

verus! {

/// How well a word, or a query, matches a candidate. Earlier is better.
#[derive(Clone, Copy, Debug, PartialEq, Eq, Structural)]
pub enum Tier {
    /// A word is the whole candidate.
    Exact,
    /// A word starts the candidate and is shorter than it.
    Prefix,
    /// A word occurs in the candidate, and not at its start.
    Substring,
}

/// The words of a query: its maximal runs of characters that are not white
/// space, in order.
pub open spec fn words(query: Seq<char>) -> Seq<Seq<char>>
    decreases query.len(),
{
    if query.len() == 0 {
        Seq::empty()
    } else {
        let front = words(query.drop_last());
        let c = query.last();
        if is_space(c) {
            front
        } else if query.len() >= 2 && !is_space(query[query.len() - 2]) {
            front.drop_last().push(front.last().push(c))
        } else {
            front.push(seq![c])
        }
    }
}

/// How one word matches a candidate, by its leftmost occurrence. A word that
/// does not occur has no tier.
pub open spec fn word_tier(word: Seq<char>, item: Seq<char>) -> Option<Tier> {
    match first_occurrence(item, word) {
        None => None,
        Some(at) => Some(
            if at != 0 {
                Tier::Substring
            } else if word.len() == item.len() {
                Tier::Exact
            } else {
                Tier::Prefix
            },
        ),
    }
}

/// Some word of `words` matches `item` in tier `tier`.
pub open spec fn some_word_in(words: Seq<Seq<char>>, item: Seq<char>, tier: Tier) -> bool {
    exists|k: int| 0 <= k < words.len() && word_tier(#[trigger] words[k], item) == Some(tier)
}

/// Every word of `words` occurs in `item`.
pub open spec fn all_words_occur(words: Seq<Seq<char>>, item: Seq<char>) -> bool {
    forall|k: int| 0 <= k < words.len() ==> word_tier(#[trigger] words[k], item) is Some
}

/// The tier of a candidate: the best tier that any word reaches, provided
/// there is a word and every word occurs in the candidate.
pub open spec fn tier_of(words: Seq<Seq<char>>, item: Seq<char>) -> Option<Tier> {
    if words.len() == 0 || !all_words_occur(words, item) {
        None
    } else if some_word_in(words, item, Tier::Exact) {
        Some(Tier::Exact)
    } else if some_word_in(words, item, Tier::Prefix) {
        Some(Tier::Prefix)
    } else {
        Some(Tier::Substring)
    }
}

/// The place of a tier in the result: exact first, then prefix, then substring.
pub open spec fn tier_rank(tier: Tier) -> int {
    match tier {
        Tier::Exact => 0,
        Tier::Prefix => 1,
        Tier::Substring => 2,
    }
}

/// The key of a candidate: the rank of its tier. With an empty query every
/// candidate is kept, all with one key.
pub open spec fn tiered_key(query: Seq<char>, item: Seq<char>) -> Option<int> {
    if query.len() == 0 {
        Some(0)
    } else {
        match tier_of(words(query), item) {
            Some(tier) => Some(tier_rank(tier)),
            None => None,
        }
    }
}

/// The keys of all candidates.
pub open spec fn tiered_keys(query: Seq<char>, items: Seq<Seq<char>>) -> Seq<Option<int>> {
    Seq::new(items.len(), |i: int| tiered_key(query, items[i]))
}

/// The candidates that have a tier: the exact ones, then the prefix ones, then
/// the substring ones, each tier in input order.
pub open spec fn tiered_matches(query: Seq<char>, items: Seq<Seq<char>>) -> Seq<Seq<char>> {
    pick(items, ranking(tiered_keys(query, items)))
}

/// Splits a query into its words.
pub fn split_words(query: &Vec<char>) -> (out: Vec<Vec<char>>)
    ensures
        text_views(out@) == words(query@),
{
    let mut out: Vec<Vec<char>> = Vec::new();
    let mut current: Vec<char> = Vec::new();
    let mut i: usize = 0;
    proof {
        assert(query@.take(0) =~= Seq::<char>::empty());
        assert(text_views(out@) =~= Seq::<Seq<char>>::empty());
    }
    while i < query.len()
        invariant
            0 <= i <= query.len(),
            (current.len() == 0) <==> (i == 0 || is_space(query[i - 1])),
            words(query@.take(i as int)) == if current.len() == 0 {
                text_views(out@)
            } else {
                text_views(out@).push(current@)
            },
        decreases query.len() - i,
    {
        let c = query[i];
        let ghost upto = query@.take(i + 1);
        let ghost done = text_views(out@);
        let ghost run = current@;
        proof {
            assert(upto.drop_last() =~= query@.take(i as int));
            assert(upto.last() == c);
            if i >= 1 {
                assert(upto[upto.len() - 2] == query[i - 1]);
            }
        }
        if is_whitespace(c) {
            if current.len() > 0 {
                out.push(current);
                current = Vec::new();
                proof {
                    assert(text_views(out@) =~= done.push(run));
                }
            }
        } else {
            current.push(c);
            proof {
                if run.len() > 0 {
                    assert(done.push(run).drop_last() =~= done);
                } else {
                    assert(current@ =~= seq![c]);
                }
            }
        }
        i = i + 1;
    }
    proof {
        assert(query@.take(i as int) =~= query@);
    }
    if current.len() > 0 {
        let ghost done = text_views(out@);
        let ghost run = current@;
        out.push(current);
        proof {
            assert(text_views(out@) =~= done.push(run));
        }
    }
    out
}

/// How one word matches a candidate.
pub fn tier_of_word(word: &Vec<char>, item: &Vec<char>) -> (tier: Option<Tier>)
    ensures
        tier == word_tier(word@, item@),
{
    match find(item, word) {
        None => None,
        Some((at, _)) => {
            if at != 0 {
                Some(Tier::Substring)
            } else if word.len() == item.len() {
                Some(Tier::Exact)
            } else {
                Some(Tier::Prefix)
            }
        },
    }
}

/// The tier of a candidate for the words of a query.
pub fn tier_of_item(list: &Vec<Vec<char>>, item: &Vec<char>) -> (tier: Option<Tier>)
    ensures
        tier == tier_of(text_views(list@), item@),
{
    let ghost ws = text_views(list@);
    let mut exact = false;
    let mut prefix = false;
    let mut k: usize = 0;
    while k < list.len()
        invariant
            0 <= k <= list.len(),
            ws == text_views(list@),
            forall|p: int| 0 <= p < k ==> word_tier(#[trigger] ws[p], item@) is Some,
            exact <==> exists|p: int|
                0 <= p < k && word_tier(#[trigger] ws[p], item@) == Some(Tier::Exact),
            prefix <==> exists|p: int|
                0 <= p < k && word_tier(#[trigger] ws[p], item@) == Some(Tier::Prefix),
        decreases list.len() - k,
    {
        proof {
            assert(ws[k as int] == list[k as int]@);
        }
        match tier_of_word(&list[k], item) {
            None => {
                return None;
            },
            Some(Tier::Exact) => {
                exact = true;
            },
            Some(Tier::Prefix) => {
                prefix = true;
            },
            Some(Tier::Substring) => {},
        }
        k = k + 1;
    }
    if list.len() == 0 {
        None
    } else if exact {
        Some(Tier::Exact)
    } else if prefix {
        Some(Tier::Prefix)
    } else {
        Some(Tier::Substring)
    }
}

/// The key of one candidate for a query that is not empty.
fn key_of(list: &Vec<Vec<char>>, item: &String) -> (key: Option<i128>)
    ensures
        key_int(key) == match tier_of(text_views(list@), item@) {
            Some(tier) => Some(tier_rank(tier)),
            None => None,
        },
{
    let hay = chars_of(item.as_str());
    match tier_of_item(list, &hay) {
        None => None,
        Some(Tier::Exact) => Some(0),
        Some(Tier::Prefix) => Some(1),
        Some(Tier::Substring) => Some(2),
    }
}

/// Keeps the candidates in which every word of `text` occurs, and orders
/// them by tier: first those that some word equals, then those that some word
/// starts, then the rest. Within a tier the input order stays. An empty
/// `text` keeps every candidate; a `text` of white space alone keeps none.
pub fn dmenu_match(text: &String, items: &Vec<String>) -> (found: Vec<String>)
    ensures
        found.deep_view() == tiered_matches(text@, items.deep_view()),
{
    let query = chars_of(text.as_str());
    let list = split_words(&query);
    let mut keys: Vec<Option<i128>> = Vec::new();
    let mut i: usize = 0;
    while i < items.len()
        invariant
            0 <= i <= items.len(),
            keys.len() == i,
            query@ == text@,
            text_views(list@) == words(text@),
            forall|p: int|
                0 <= p < i ==> key_int(#[trigger] keys[p]) == tiered_key(text@, items[p]@),
        decreases items.len() - i,
    {
        let key = if query.len() == 0 {
            Some(0)
        } else {
            key_of(&list, &items[i])
        };
        keys.push(key);
        i = i + 1;
    }
    proof {
        assert(key_view(keys@) =~= tiered_keys(text@, items.deep_view()));
    }
    ranked(items, &IntKeys { keys })
}

/// No candidate is invented and none is doubled: a candidate that has a
/// tier stands in the result as often as in the input, and any other text
/// does not stand in it.
pub proof fn lemma_tiered_subset(query: Seq<char>, items: Seq<Seq<char>>, e: Seq<char>)
    ensures
        tiered_matches(query, items).to_multiset().count(e) == if items.contains(e) && tiered_key(
            query,
            e,
        ) is Some {
            items.to_multiset().count(e)
        } else {
            0
        },
{
    let keys = tiered_keys(query, items);
    lemma_kept_as_often(items, keys, e);
    if is_kept(items, keys, e) {
        let i = choose|i: int| 0 <= i < items.len() && #[trigger] items[i] == e && keys[i] is Some;
        assert(items.contains(e));
    }
    if items.contains(e) && tiered_key(query, e) is Some {
        let i = choose|i: int| 0 <= i < items.len() && items[i] == e;
        assert(items[i] == e && keys[i] is Some);
    }
}

/// The result is ordered by tier, and candidates of one tier stand as they
/// stood in the input: of two places in the result the earlier holds the
/// candidate of the better tier or, where the tiers are the same, the
/// candidate that came earlier in the input.
pub proof fn lemma_tiered_stable(query: Seq<char>, items: Seq<Seq<char>>, a: int, b: int)
    requires
        0 <= a < b < ranking(tiered_keys(query, items)).len(),
    ensures
        ({
            let order = ranking(tiered_keys(query, items));
            let first = tiered_key(query, items[order[a]]);
            let second = tiered_key(query, items[order[b]]);
            &&& 0 <= order[a] < items.len() && 0 <= order[b] < items.len()
            &&& first is Some && second is Some
            &&& first->0 <= second->0
            &&& first->0 == second->0 ==> order[a] < order[b]
        }),
{
    let keys = tiered_keys(query, items);
    lemma_ranking_is_ranking(keys);
    let order = ranking(keys);
    assert(is_ranking(order, keys));
    assert(before(keys, order[a], order[b]));
}

/// With an empty query the result is the input.
pub proof fn lemma_tiered_empty_query(items: Seq<Seq<char>>)
    ensures
        tiered_matches(Seq::empty(), items) == items,
{
    lemma_ranking_of_equal_keys(tiered_keys(Seq::empty(), items));
    lemma_pick_all(items);
}

/// A candidate in which every word occurs and which one word equals is in
/// the exact tier, whatever tier the other words reach.
pub proof fn lemma_equal_word_is_exact(list: Seq<Seq<char>>, item: Seq<char>, k: int)
    requires
        all_words_occur(list, item),
        0 <= k < list.len(),
        list[k] == item,
    ensures
        tier_of(list, item) == Some(Tier::Exact),
{
    assert(item.subrange(0, item.len() as int) =~= item);
    lemma_first_occurrence_is(item, item, 0);
    assert(word_tier(list[k], item) == Some(Tier::Exact));
}

/// A candidate that one word of the query equals, and in which all its
/// words occur, has the key of the exact tier: it stands before every
/// candidate of another tier.
pub proof fn lemma_equal_word_is_first(query: Seq<char>, item: Seq<char>, k: int)
    requires
        all_words_occur(words(query), item),
        0 <= k < words(query).len(),
        words(query)[k] == item,
    ensures
        tiered_key(query, item) == Some(0int),
{
    lemma_equal_word_is_exact(words(query), item, k);
}

} // verus!
