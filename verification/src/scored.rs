//! Ranking by given scores: the higher score first, and among candidates
//! with the same score the one whose text comes first.

use vstd::prelude::*;
use crate::ranking::{
    before, is_kept, is_ranking, lemma_kept_as_often, lemma_ranking_is_ranking, pick, ranking,
};
use crate::sorting::{ranked, Keyed};
use crate::text::{chars_of, text_views};

verus! {

/// `a` comes before `b` in the order of texts: at the first place where they
/// differ `a` has the smaller character, or `a` ends there and `b` goes on.
pub open spec fn text_lt(a: Seq<char>, b: Seq<char>) -> bool
    decreases a.len(),
{
    if b.len() == 0 {
        false
    } else if a.len() == 0 {
        true
    } else if a[0] != b[0] {
        a[0] < b[0]
    } else {
        text_lt(a.drop_first(), b.drop_first())
    }
}

/// How many of `items` come before `text` in the order of texts.
pub open spec fn text_rank(items: Seq<Seq<char>>, text: Seq<char>) -> nat
    decreases items.len(),
{
    if items.len() == 0 {
        0
    } else {
        text_rank(items.drop_last(), text) + if text_lt(items.last(), text) {
            1nat
        } else {
            0nat
        }
    }
}

/// The score of candidate `i`; zero where no score was handed over for it.
pub open spec fn score_at(scores: Seq<i128>, i: int) -> int {
    if 0 <= i < scores.len() {
        scores[i] as int
    } else {
        0
    }
}

/// The key of candidate `i`: smaller for a higher score, and for the same
/// score smaller for the text that comes first. A candidate whose score is
/// not positive has none.
pub open spec fn scored_key(items: Seq<Seq<char>>, scores: Seq<i128>, i: int) -> Option<int> {
    if score_at(scores, i) > 0 {
        Some(text_rank(items, items[i]) - score_at(scores, i) * (items.len() + 1))
    } else {
        None
    }
}

/// The keys of all candidates.
pub open spec fn scored_keys(items: Seq<Seq<char>>, scores: Seq<i128>) -> Seq<Option<int>> {
    Seq::new(items.len(), |i: int| scored_key(items, scores, i))
}

/// The candidates with a positive score, highest score first; among
/// candidates with the same score the text that comes first, and equal texts
/// in input order.
pub open spec fn scored_matches(items: Seq<Seq<char>>, scores: Seq<i128>) -> Seq<Seq<char>> {
    pick(items, ranking(scored_keys(items, scores)))
}

/// No text comes before itself.
pub proof fn lemma_text_lt_irreflexive(a: Seq<char>)
    ensures
        !text_lt(a, a),
    decreases a.len(),
{
    if a.len() > 0 {
        lemma_text_lt_irreflexive(a.drop_first());
    }
}

/// Of two different texts one comes before the other.
pub proof fn lemma_text_lt_total(a: Seq<char>, b: Seq<char>)
    ensures
        text_lt(a, b) || text_lt(b, a) || a == b,
        !(text_lt(a, b) && text_lt(b, a)),
    decreases a.len(),
{
    if a.len() > 0 && b.len() > 0 {
        if a[0] == b[0] {
            lemma_text_lt_total(a.drop_first(), b.drop_first());
            if a.drop_first() == b.drop_first() {
                assert(a =~= seq![a[0]] + a.drop_first());
                assert(b =~= seq![b[0]] + b.drop_first());
            }
        }
    } else if a.len() == 0 && b.len() == 0 {
        assert(a =~= b);
    }
}

/// What comes before a text comes before all that the text comes before.
pub proof fn lemma_text_lt_transitive(a: Seq<char>, b: Seq<char>, c: Seq<char>)
    requires
        text_lt(a, b),
        text_lt(b, c),
    ensures
        text_lt(a, c),
    decreases a.len(),
{
    if a.len() > 0 {
        if a[0] == b[0] && b[0] == c[0] {
            lemma_text_lt_transitive(a.drop_first(), b.drop_first(), c.drop_first());
        }
    }
}

/// A text has no more texts before it than there are.
pub proof fn lemma_text_rank_bound(items: Seq<Seq<char>>, text: Seq<char>)
    ensures
        text_rank(items, text) <= items.len(),
    decreases items.len(),
{
    if items.len() > 0 {
        lemma_text_rank_bound(items.drop_last(), text);
    }
}

/// A later text has no fewer texts before it, and more where the earlier
/// text is one of the candidates.
pub proof fn lemma_text_rank_grows(items: Seq<Seq<char>>, a: Seq<char>, b: Seq<char>)
    requires
        text_lt(a, b),
    ensures
        text_rank(items, a) <= text_rank(items, b),
        items.contains(a) ==> text_rank(items, a) < text_rank(items, b),
    decreases items.len(),
{
    if items.len() > 0 {
        let front = items.drop_last();
        lemma_text_rank_grows(front, a, b);
        if text_lt(items.last(), a) {
            lemma_text_lt_transitive(items.last(), a, b);
        }
        lemma_text_lt_irreflexive(a);
        if items.contains(a) {
            let k = choose|k: int| 0 <= k < items.len() && items[k] == a;
            if k < items.len() - 1 {
                assert(front[k] == a);
            }
        }
    }
}

/// Candidate `i` comes before candidate `j` exactly if it has the higher
/// score, or the same score and the text that comes first, or the same score
/// and text and the earlier place in the input.
pub proof fn lemma_scored_order(items: Seq<Seq<char>>, scores: Seq<i128>, i: int, j: int)
    requires
        0 <= i < items.len(),
        0 <= j < items.len(),
        score_at(scores, i) > 0,
        score_at(scores, j) > 0,
    ensures
        before(scored_keys(items, scores), i, j) <==> (score_at(scores, i) > score_at(scores, j)
            || (score_at(scores, i) == score_at(scores, j) && (text_lt(items[i], items[j]) || (
        items[i] == items[j] && i < j)))),
        scored_keys(items, scores)[i]->0 <= scored_keys(items, scores)[j]->0 <==> (score_at(
            scores,
            i,
        ) > score_at(scores, j) || (score_at(scores, i) == score_at(scores, j) && !text_lt(
            items[j],
            items[i],
        ))),
{
    let n = items.len() as int;
    let si = score_at(scores, i);
    let sj = score_at(scores, j);
    let ri = text_rank(items, items[i]) as int;
    let rj = text_rank(items, items[j]) as int;
    lemma_text_rank_bound(items, items[i]);
    lemma_text_rank_bound(items, items[j]);
    lemma_text_lt_total(items[i], items[j]);
    if text_lt(items[i], items[j]) {
        lemma_text_rank_grows(items, items[i], items[j]);
    }
    if text_lt(items[j], items[i]) {
        lemma_text_rank_grows(items, items[j], items[i]);
    }
    if si > sj {
        assert(si * (n + 1) >= (sj + 1) * (n + 1)) by (nonlinear_arith)
            requires
                si >= sj + 1,
                n >= 0,
        ;
        assert((sj + 1) * (n + 1) == sj * (n + 1) + n + 1) by (nonlinear_arith);
    }
    if sj > si {
        assert(sj * (n + 1) >= (si + 1) * (n + 1)) by (nonlinear_arith)
            requires
                sj >= si + 1,
                n >= 0,
        ;
        assert((si + 1) * (n + 1) == si * (n + 1) + n + 1) by (nonlinear_arith);
    }
}

/// Whether `a` does not come after `b` in the order of texts.
pub fn text_not_after(a: &Vec<char>, b: &Vec<char>) -> (r: bool)
    ensures
        r == !text_lt(b@, a@),
{
    let mut k: usize = 0;
    proof {
        assert(a@.skip(0) =~= a@);
        assert(b@.skip(0) =~= b@);
    }
    loop
        invariant
            0 <= k <= a.len(),
            k <= b.len(),
            text_lt(b@, a@) == text_lt(b@.skip(k as int), a@.skip(k as int)),
        decreases a.len() - k,
    {
        if k == a.len() {
            return true;
        }
        if k == b.len() {
            return false;
        }
        proof {
            assert(a@.skip(k as int)[0] == a[k as int]);
            assert(b@.skip(k as int)[0] == b[k as int]);
            assert(a@.skip(k as int).drop_first() =~= a@.skip(k + 1));
            assert(b@.skip(k as int).drop_first() =~= b@.skip(k + 1));
        }
        if a[k] != b[k] {
            return a[k] < b[k];
        }
        k = k + 1;
    }
}

/// Candidates with the scores handed over for them.
pub struct ScoredTexts {
    pub texts: Vec<Vec<char>>,
    pub scores: Vec<i128>,
}

impl Keyed for ScoredTexts {
    open spec fn keys(&self) -> Seq<Option<int>> {
        scored_keys(text_views(self.texts@), self.scores@)
    }

    fn count(&self) -> (n: usize) {
        self.texts.len()
    }

    fn is_kept(&self, i: usize) -> (kept: bool) {
        i < self.scores.len() && self.scores[i] > 0
    }

    fn not_greater(&self, i: usize, j: usize) -> (r: bool) {
        proof {
            lemma_scored_order(text_views(self.texts@), self.scores@, i as int, j as int);
        }
        if self.scores[i] != self.scores[j] {
            self.scores[i] > self.scores[j]
        } else {
            text_not_after(&self.texts[i], &self.texts[j])
        }
    }
}

/// Keeps the candidates whose score is positive and orders them by score,
/// highest first; candidates with the same score by their texts, and equal
/// texts in input order. `scores` holds the score of each candidate at the
/// candidate's place; a candidate for which it holds none is dropped.
pub fn ranked_by_score(items: &Vec<String>, scores: &Vec<i128>) -> (found: Vec<String>)
    ensures
        found.deep_view() == scored_matches(items.deep_view(), scores@),
{
    let mut texts: Vec<Vec<char>> = Vec::new();
    let mut own: Vec<i128> = Vec::new();
    let mut i: usize = 0;
    while i < items.len()
        invariant
            0 <= i <= items.len(),
            texts.len() == i,
            own.len() == i,
            forall|p: int| 0 <= p < i ==> #[trigger] texts[p]@ == items[p]@,
            forall|p: int| 0 <= p < i ==> #[trigger] own[p] == score_at(scores@, p),
        decreases items.len() - i,
    {
        texts.push(chars_of(items[i].as_str()));
        own.push(
            if i < scores.len() {
                scores[i]
            } else {
                0
            },
        );
        i = i + 1;
    }
    let keys = ScoredTexts { texts, scores: own };
    proof {
        assert(text_views(keys.texts@) =~= items.deep_view());
        assert(keys.keys() =~= scored_keys(items.deep_view(), scores@));
    }
    ranked(items, &keys)
}

/// The score one. Scores are whole numbers of this unit's parts.
pub const FULL_SCORE: i128 = 0x4000_0000;

/// `item` starts with a dot.
pub open spec fn is_dotted(item: Seq<char>) -> bool {
    item.len() > 0 && item[0] == '.'
}

/// The score of a candidate for an empty query: zero for one that starts
/// with a dot, one for any other.
pub open spec fn unqueried_score(item: Seq<char>) -> i128 {
    if is_dotted(item) {
        0
    } else {
        FULL_SCORE
    }
}

/// The score of a candidate for an empty query.
pub fn score_unqueried(item: &str) -> (score: i128)
    ensures
        score == unqueried_score(item@),
{
    if !item.is_empty() && item.get_char(0) == '.' {
        0
    } else {
        FULL_SCORE
    }
}

/// The scores of all candidates for an empty query.
pub open spec fn unqueried_scores(items: Seq<Seq<char>>) -> Seq<i128> {
    Seq::new(items.len(), |i: int| unqueried_score(items[i]))
}

/// No candidate is invented and none is doubled: a candidate stands in
/// the result as often as in the input, provided its score is positive
/// wherever it stands in the input and all candidates have a score; a text
/// that is no candidate does not stand in it.
pub proof fn lemma_scored_subset(items: Seq<Seq<char>>, scores: Seq<i128>, e: Seq<char>)
    requires
        forall|i: int, j: int|
            0 <= i < items.len() && 0 <= j < items.len() && #[trigger] items[i] == #[trigger] items[j]
                ==> (score_at(scores, i) > 0 <==> score_at(scores, j) > 0),
    ensures
        scored_matches(items, scores).to_multiset().count(e) == if is_kept(
            items,
            scored_keys(items, scores),
            e,
        ) {
            items.to_multiset().count(e)
        } else {
            0
        },
{
    lemma_kept_as_often(items, scored_keys(items, scores), e);
}

/// The result is ordered by descending score, candidates with the same
/// score by their texts, and equal texts stand as they stood in the input.
pub proof fn lemma_scored_stable(items: Seq<Seq<char>>, scores: Seq<i128>, a: int, b: int)
    requires
        0 <= a < b < ranking(scored_keys(items, scores)).len(),
    ensures
        ({
            let order = ranking(scored_keys(items, scores));
            let first = score_at(scores, order[a]);
            let second = score_at(scores, order[b]);
            &&& 0 <= order[a] < items.len() && 0 <= order[b] < items.len()
            &&& first > 0 && second > 0
            &&& first >= second
            &&& first == second ==> !text_lt(items[order[b]], items[order[a]])
            &&& first == second && items[order[a]] == items[order[b]] ==> order[a] < order[b]
        }),
{
    let keys = scored_keys(items, scores);
    lemma_ranking_is_ranking(keys);
    let order = ranking(keys);
    assert(is_ranking(order, keys));
    assert(before(keys, order[a], order[b]));
    lemma_scored_order(items, scores, order[a], order[b]);
    lemma_text_lt_irreflexive(items[order[a]]);
    lemma_text_lt_total(items[order[a]], items[order[b]]);
}

/// For an empty query a candidate stands in the result as often as in the
/// input if it does not start with a dot, and not at all if it does.
pub proof fn lemma_unqueried_subset(items: Seq<Seq<char>>, e: Seq<char>)
    ensures
        scored_matches(items, unqueried_scores(items)).to_multiset().count(e) == if items.contains(
            e,
        ) && !is_dotted(e) {
            items.to_multiset().count(e)
        } else {
            0
        },
{
    let scores = unqueried_scores(items);
    let keys = scored_keys(items, scores);
    lemma_scored_subset(items, scores, e);
    if is_kept(items, keys, e) {
        let i = choose|i: int| 0 <= i < items.len() && #[trigger] items[i] == e && keys[i] is Some;
        assert(items.contains(e));
    }
    if items.contains(e) && !is_dotted(e) {
        let i = choose|i: int| 0 <= i < items.len() && items[i] == e;
        assert(items[i] == e && keys[i] is Some);
    }
}

} // verus!
