//! Ranking by a forward scan: the characters of the query must occur in a
//! candidate in order, and the nearer each is to the one before, the better.

use vstd::prelude::*;
use crate::occurrence::{
    first_occurrence, lemma_first_occurrence, lemma_first_occurrence_is, occurs_at,
};
use crate::ranking::{
    before, is_kept, is_ranking, lemma_kept_as_often, lemma_pick_all, lemma_ranking_is_ranking,
    lemma_ranking_of_equal_keys, pick, ranking,
};
use crate::sorting::{key_int, key_view, ranked, IntKeys};
use crate::text::{byte_len, chars_of, lemma_byte_len_push, utf8_width};

verus! {

/// What the characters of `query` add to the score of a candidate of which
/// `view` is still to be scanned. Each character is looked for from the start
/// of the view and adds ten less the byte offset at which it is found; the
/// view then starts at the character found. There is no sum where a character
/// is not found.
pub open spec fn scan_bonus(query: Seq<char>, view: Seq<char>) -> Option<int>
    decreases query.len(),
{
    if query.len() == 0 {
        Some(0)
    } else {
        match first_occurrence(view, seq![query[0]]) {
            None => None,
            Some(at) => match scan_bonus(query.drop_first(), view.skip(at)) {
                None => None,
                Some(rest) => Some(10 - byte_len(view.take(at)) + rest),
            },
        }
    }
}

/// The score of a candidate: one more than what the characters of the query
/// add, or zero where one of them is not found.
pub open spec fn fuzzy_score(query: Seq<char>, item: Seq<char>) -> int {
    match scan_bonus(query, item) {
        Some(bonus) => 1 + bonus,
        None => 0,
    }
}

/// The key of a candidate: its score, negated so that the highest score comes
/// first. A candidate whose score is not positive has none.
pub open spec fn fuzzy_key(query: Seq<char>, item: Seq<char>) -> Option<int> {
    if fuzzy_score(query, item) > 0 {
        Some(-fuzzy_score(query, item))
    } else {
        None
    }
}

/// The keys of all candidates.
pub open spec fn fuzzy_keys(query: Seq<char>, items: Seq<Seq<char>>) -> Seq<Option<int>> {
    Seq::new(items.len(), |i: int| fuzzy_key(query, items[i]))
}

/// The candidates with a positive score, highest score first; candidates
/// with the same score stay in input order.
pub open spec fn fuzzy_matches(query: Seq<char>, items: Seq<Seq<char>>) -> Seq<Seq<char>> {
    pick(items, ranking(fuzzy_keys(query, items)))
}

/// The leftmost `c` in `hay` at `start` or later: how many characters and
/// how many bytes lie between `start` and it.
fn find_char(hay: &Vec<char>, start: usize, c: char) -> (r: Option<(usize, i128)>)
    requires
        start <= hay.len(),
    ensures
        match r {
            Some((at, bytes)) => first_occurrence(hay@.skip(start as int), seq![c]) == Some(
                at as int,
            ) && bytes == byte_len(hay@.skip(start as int).take(at as int)) && start + at
                < hay.len() && 0 <= bytes <= 4 * at,
            None => first_occurrence(hay@.skip(start as int), seq![c]) is None,
        },
{
    let ghost view = hay@.skip(start as int);
    let ghost needle = seq![c];
    let mut at: usize = 0;
    let mut bytes: i128 = 0;
    proof {
        assert(view.take(0) =~= Seq::<char>::empty());
    }
    while start + at < hay.len()
        invariant
            start + at <= hay.len(),
            view == hay@.skip(start as int),
            needle == seq![c],
            bytes == byte_len(view.take(at as int)),
            0 <= bytes <= 4 * at,
            forall|b: int| 0 <= b < at ==> !occurs_at(view, needle, b),
        decreases hay.len() - start - at,
    {
        let d = hay[start + at];
        proof {
            assert(view[at as int] == d);
            assert(view.subrange(at as int, at + 1)[0] == d);
            assert(needle[0] == c);
        }
        if d == c {
            proof {
                assert(view.subrange(at as int, at + 1) =~= needle);
                lemma_first_occurrence_is(view, needle, at as int);
            }
            return Some((at, bytes));
        }
        proof {
            lemma_byte_len_push(view.take(at as int), d);
            assert(view.take(at + 1) =~= view.take(at as int).push(d));
        }
        bytes = bytes + utf8_width(d) as i128;
        at = at + 1;
    }
    proof {
        lemma_first_occurrence(view, needle);
        match first_occurrence(view, needle) {
            Some(b) => {
                assert(occurs_at(view, needle, b));
            },
            None => {},
        }
    }
    None
}

/// The score of one candidate.
pub fn score_of(query: &Vec<char>, hay: &Vec<char>) -> (score: i128)
    ensures
        score == fuzzy_score(query@, hay@),
{
    let mut bonus: i128 = 0;
    let mut start: usize = 0;
    let mut k: usize = 0;
    proof {
        assert(query@.skip(0) =~= query@);
        assert(hay@.skip(0) =~= hay@);
    }
    while k < query.len()
        invariant
            0 <= k <= query.len(),
            0 <= start <= hay.len(),
            -4 * start <= bonus <= 10 * k,
            scan_bonus(query@, hay@) == match scan_bonus(
                query@.skip(k as int),
                hay@.skip(start as int),
            ) {
                Some(rest) => Some(bonus + rest),
                None => None,
            },
        decreases query.len() - k,
    {
        let ghost rest_query = query@.skip(k as int);
        let ghost view = hay@.skip(start as int);
        proof {
            assert(rest_query[0] == query[k as int]);
            assert(rest_query.drop_first() =~= query@.skip(k + 1));
        }
        match find_char(hay, start, query[k]) {
            None => {
                return 0;
            },
            Some((at, bytes)) => {
                proof {
                    assert(view.skip(at as int) =~= hay@.skip(start + at));
                }
                bonus = bonus + (10 - bytes);
                start = start + at;
            },
        }
        k = k + 1;
    }
    proof {
        assert(query@.skip(k as int).len() == 0);
    }
    1 + bonus
}

/// The key of one candidate.
fn key_of(query: &Vec<char>, item: &String) -> (key: Option<i128>)
    ensures
        key_int(key) == fuzzy_key(query@, item@),
{
    let hay = chars_of(item.as_str());
    let score = score_of(query, &hay);
    if score > 0 {
        Some(-score)
    } else {
        None
    }
}

/// Keeps the candidates in which the characters of `text` occur in order,
/// scored by how near each character is to the one before, and orders them
/// by score, highest first. A score that is not positive drops the
/// candidate. Candidates with the same score keep their input order.
pub fn fuzzy_match(text: &String, items: &Vec<String>) -> (found: Vec<String>)
    ensures
        found.deep_view() == fuzzy_matches(text@, items.deep_view()),
{
    let query = chars_of(text.as_str());
    let mut keys: Vec<Option<i128>> = Vec::new();
    let mut i: usize = 0;
    while i < items.len()
        invariant
            0 <= i <= items.len(),
            keys.len() == i,
            query@ == text@,
            forall|p: int|
                0 <= p < i ==> key_int(#[trigger] keys[p]) == fuzzy_key(text@, items[p]@),
        decreases items.len() - i,
    {
        let key = key_of(&query, &items[i]);
        keys.push(key);
        i = i + 1;
    }
    proof {
        assert(key_view(keys@) =~= fuzzy_keys(text@, items.deep_view()));
    }
    ranked(items, &IntKeys { keys })
}

/// No candidate is invented and none is doubled: a candidate with a
/// positive score stands in the result as often as in the input, and any
/// other text does not stand in it.
pub proof fn lemma_fuzzy_subset(query: Seq<char>, items: Seq<Seq<char>>, e: Seq<char>)
    ensures
        fuzzy_matches(query, items).to_multiset().count(e) == if items.contains(e) && fuzzy_score(
            query,
            e,
        ) > 0 {
            items.to_multiset().count(e)
        } else {
            0
        },
{
    let keys = fuzzy_keys(query, items);
    lemma_kept_as_often(items, keys, e);
    if is_kept(items, keys, e) {
        let i = choose|i: int| 0 <= i < items.len() && #[trigger] items[i] == e && keys[i] is Some;
        assert(items.contains(e));
    }
    if items.contains(e) && fuzzy_score(query, e) > 0 {
        let i = choose|i: int| 0 <= i < items.len() && items[i] == e;
        assert(items[i] == e && keys[i] is Some);
    }
}

/// The result is ordered by descending score, and candidates with the same
/// score stand as they stood in the input: of two places in the result the
/// earlier holds the candidate with the higher score or, where the scores
/// are the same, the candidate that came earlier in the input.
pub proof fn lemma_fuzzy_stable(query: Seq<char>, items: Seq<Seq<char>>, a: int, b: int)
    requires
        0 <= a < b < ranking(fuzzy_keys(query, items)).len(),
    ensures
        ({
            let order = ranking(fuzzy_keys(query, items));
            let first = fuzzy_score(query, items[order[a]]);
            let second = fuzzy_score(query, items[order[b]]);
            &&& 0 <= order[a] < items.len() && 0 <= order[b] < items.len()
            &&& first > 0 && second > 0
            &&& first >= second
            &&& first == second ==> order[a] < order[b]
        }),
{
    let keys = fuzzy_keys(query, items);
    lemma_ranking_is_ranking(keys);
    let order = ranking(keys);
    assert(is_ranking(order, keys));
    assert(before(keys, order[a], order[b]));
}

/// With an empty query every candidate scores one, and the result is the
/// input.
pub proof fn lemma_fuzzy_empty_query(items: Seq<Seq<char>>)
    ensures
        forall|i: int| 0 <= i < items.len() ==> fuzzy_score(Seq::empty(), #[trigger] items[i]) == 1,
        fuzzy_matches(Seq::empty(), items) == items,
{
    lemma_ranking_of_equal_keys(fuzzy_keys(Seq::empty(), items));
    lemma_pick_all(items);
}

/// The characters of `query` stand in `view` in order, each at the place of
/// the one before it or behind it: the query is empty, or the first character
/// of the view is the first of the query and the rest of the query stands in
/// the view, or the query stands in the view without its first character.
pub open spec fn stands_in_order(query: Seq<char>, view: Seq<char>) -> bool
    decreases view.len(), query.len(),
{
    if query.len() == 0 {
        true
    } else if view.len() == 0 {
        false
    } else {
        (view[0] == query[0] && stands_in_order(query.drop_first(), view)) || stands_in_order(
            query,
            view.drop_first(),
        )
    }
}

/// Where a query stands, the query without its first character stands too.
proof fn lemma_shorter_stands(query: Seq<char>, view: Seq<char>)
    requires
        query.len() > 0,
        stands_in_order(query, view),
    ensures
        stands_in_order(query.drop_first(), view),
    decreases view.len(), query.len(),
{
    if view.len() > 0 {
        if !(view[0] == query[0] && stands_in_order(query.drop_first(), view)) {
            lemma_shorter_stands(query, view.drop_first());
        }
    }
}

/// The scan finds every character of the query exactly if the characters of
/// the query stand in the candidate in order.
pub proof fn lemma_scan_finds_what_stands_in_order(query: Seq<char>, view: Seq<char>)
    ensures
        scan_bonus(query, view) is Some <==> stands_in_order(query, view),
    decreases view.len(), query.len(),
{
    if query.len() > 0 {
        let needle = seq![query[0]];
        lemma_first_occurrence(view, needle);
        assert(needle[0] == query[0]);
        if view.len() == 0 {
            match first_occurrence(view, needle) {
                Some(at) => {
                    assert(occurs_at(view, needle, at));
                },
                None => {},
            }
        } else if view[0] == query[0] {
            assert(view.subrange(0, 1) =~= needle);
            lemma_first_occurrence_is(view, needle, 0);
            assert(view.skip(0) =~= view);
            lemma_scan_finds_what_stands_in_order(query.drop_first(), view);
            if stands_in_order(query, view.drop_first()) {
                lemma_shorter_stands(query, view.drop_first());
            }
        } else {
            let rest = view.drop_first();
            lemma_first_occurrence(rest, needle);
            lemma_scan_finds_what_stands_in_order(query, rest);
            match first_occurrence(rest, needle) {
                Some(at) => {
                    assert(view.subrange(at + 1, at + 2) =~= rest.subrange(at, at + 1));
                    assert forall|b: int| 0 <= b < at + 1 implies !occurs_at(view, needle, b) by {
                        if b == 0 {
                            assert(view.subrange(0, 1)[0] == view[0]);
                        } else {
                            assert(view.subrange(b, b + 1) =~= rest.subrange(b - 1, b));
                            assert(!occurs_at(rest, needle, b - 1));
                        }
                    }
                    lemma_first_occurrence_is(view, needle, at + 1);
                    assert(view.skip(at + 1) =~= rest.skip(at));
                },
                None => {
                    match first_occurrence(view, needle) {
                        Some(at) => {
                            assert(occurs_at(view, needle, at));
                            if at == 0 {
                                assert(view.subrange(0, 1)[0] == view[0]);
                            } else {
                                assert(view.subrange(at, at + 1) =~= rest.subrange(at - 1, at));
                                assert(occurs_at(rest, needle, at - 1));
                            }
                        },
                        None => {},
                    }
                },
            }
        }
    }
}

/// A candidate in the result holds the characters of the query in order.
pub proof fn lemma_fuzzy_kept_in_order(query: Seq<char>, item: Seq<char>)
    requires
        fuzzy_key(query, item) is Some,
    ensures
        stands_in_order(query, item),
{
    lemma_scan_finds_what_stands_in_order(query, item);
}

} // verus!
