//! Ranking by where the query first occurs in a candidate.

use vstd::prelude::*;
use crate::occurrence::lemma_first_occurrence_is;
use crate::ranking::{
    before, is_kept, is_ranking, lemma_kept_as_often, lemma_pick_all, lemma_ranking_is_ranking,
    lemma_ranking_of_equal_keys, pick, ranking,
};
use crate::sorting::{key_int, key_view, ranked, IntKeys};
use crate::text::{chars_of, find, first_byte_offset};

verus! {

/// The key of a candidate: the byte offset at which the query first occurs
/// in it. A candidate in which the query does not occur has none.
pub open spec fn positional_key(query: Seq<char>, item: Seq<char>) -> Option<int> {
    first_byte_offset(item, query)
}

/// The keys of all candidates.
pub open spec fn positional_keys(query: Seq<char>, items: Seq<Seq<char>>) -> Seq<Option<int>> {
    Seq::new(items.len(), |i: int| positional_key(query, items[i]))
}

/// The candidates in which the query occurs, those in which it occurs
/// furthest left first; candidates with the same offset stay in input order.
pub open spec fn positional_matches(query: Seq<char>, items: Seq<Seq<char>>) -> Seq<Seq<char>> {
    pick(items, ranking(positional_keys(query, items)))
}

/// The key of one candidate.
fn key_of(query: &Vec<char>, item: &String) -> (key: Option<i128>)
    ensures
        key_int(key) == positional_key(query@, item@),
{
    let hay = chars_of(item.as_str());
    match find(&hay, query) {
        Some((_, bytes)) => Some(bytes),
        None => None,
    }
}

/// Keeps the candidates that hold `text` as a substring and orders them by
/// the byte offset of its leftmost occurrence, ascending. Candidates with the
/// same offset keep their input order.
pub fn simple_match(text: &String, items: &Vec<String>) -> (found: Vec<String>)
    ensures
        found.deep_view() == positional_matches(text@, items.deep_view()),
{
    let query = chars_of(text.as_str());
    let mut keys: Vec<Option<i128>> = Vec::new();
    let mut i: usize = 0;
    while i < items.len()
        invariant
            0 <= i <= items.len(),
            keys.len() == i,
            query@ == text@,
            forall|p: int| 0 <= p < i ==> key_int(#[trigger] keys[p]) == positional_key(text@, items[p]@),
        decreases items.len() - i,
    {
        let key = key_of(&query, &items[i]);
        keys.push(key);
        i = i + 1;
    }
    proof {
        assert(key_view(keys@) =~= positional_keys(text@, items.deep_view()));
    }
    ranked(items, &IntKeys { keys })
}

/// No candidate is invented and none is doubled: a candidate in which the
/// query occurs stands in the result as often as in the input, and any
/// other text does not stand in it.
pub proof fn lemma_positional_subset(query: Seq<char>, items: Seq<Seq<char>>, e: Seq<char>)
    ensures
        positional_matches(query, items).to_multiset().count(e) == if items.contains(e)
            && positional_key(query, e) is Some {
            items.to_multiset().count(e)
        } else {
            0
        },
{
    let keys = positional_keys(query, items);
    lemma_kept_as_often(items, keys, e);
    if is_kept(items, keys, e) {
        let i = choose|i: int| 0 <= i < items.len() && #[trigger] items[i] == e && keys[i] is Some;
        assert(items.contains(e));
    }
    if items.contains(e) && positional_key(query, e) is Some {
        let i = choose|i: int| 0 <= i < items.len() && items[i] == e;
        assert(items[i] == e && keys[i] is Some);
    }
}

/// The result is ordered by ascending offset, and candidates with the same
/// offset stand as they stood in the input: of two places in the result the
/// earlier holds the candidate with the smaller offset or, where the offsets
/// are the same, the candidate that came earlier in the input.
pub proof fn lemma_positional_stable(query: Seq<char>, items: Seq<Seq<char>>, a: int, b: int)
    requires
        0 <= a < b < ranking(positional_keys(query, items)).len(),
    ensures
        ({
            let order = ranking(positional_keys(query, items));
            let first = positional_key(query, items[order[a]]);
            let second = positional_key(query, items[order[b]]);
            &&& 0 <= order[a] < items.len() && 0 <= order[b] < items.len()
            &&& first is Some && second is Some
            &&& first->0 <= second->0
            &&& first->0 == second->0 ==> order[a] < order[b]
        }),
{
    let keys = positional_keys(query, items);
    lemma_ranking_is_ranking(keys);
    let order = ranking(keys);
    assert(is_ranking(order, keys));
    assert(before(keys, order[a], order[b]));
}

/// With an empty query the result is the input.
pub proof fn lemma_positional_empty_query(items: Seq<Seq<char>>)
    ensures
        positional_matches(Seq::empty(), items) == items,
{
    let query = Seq::<char>::empty();
    let keys = positional_keys(query, items);
    assert forall|i: int| 0 <= i < keys.len() implies keys[i] == Some(0int) by {
        let item = items[i];
        assert(item.subrange(0, 0) =~= query);
        lemma_first_occurrence_is(item, query, 0);
        assert(item.take(0) =~= Seq::<char>::empty());
    }
    lemma_ranking_of_equal_keys(keys);
    lemma_pick_all(items);
}

} // verus!
