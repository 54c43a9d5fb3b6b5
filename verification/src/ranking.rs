//! The order in which kept candidates are handed back.
//!
//! Every matcher gives each candidate a key, or none where the candidate is
//! dropped. The kept candidates come out by ascending key; candidates with
//! the same key stay in the order in which they were given.

use vstd::prelude::*;
use vstd::seq_lib::{to_multiset_build, to_multiset_contains, to_multiset_insert};

verus! {

/// Candidate `i` comes before candidate `j`: it has the smaller key, or the
/// same key and the earlier place in the input.
pub open spec fn before(keys: Seq<Option<int>>, i: int, j: int) -> bool {
    keys[i]->0 < keys[j]->0 || (keys[i]->0 == keys[j]->0 && i < j)
}

/// `order` lists kept candidates only, each one before the next.
pub open spec fn is_ordered(order: Seq<int>, keys: Seq<Option<int>>) -> bool {
    &&& forall|a: int|
        0 <= a < order.len() ==> 0 <= #[trigger] order[a] < keys.len() && keys[order[a]] is Some
    &&& forall|a: int, b: int|
        0 <= a < b < order.len() ==> before(keys, #[trigger] order[a], #[trigger] order[b])
}

/// `order` is the ranking that `keys` ask for: the kept candidates, all of
/// them, by ascending key and, for equal keys, in input order.
pub open spec fn is_ranking(order: Seq<int>, keys: Seq<Option<int>>) -> bool {
    &&& is_ordered(order, keys)
    &&& forall|i: int| 0 <= i < keys.len() && keys[i] is Some ==> order.contains(i)
}

/// `order` with candidate `i` put behind every candidate whose key is not
/// greater than its own.
pub open spec fn placed(order: Seq<int>, keys: Seq<Option<int>>, i: int) -> Seq<int>
    decreases order.len(),
{
    if order.len() == 0 || keys[order.last()]->0 <= keys[i]->0 {
        order.push(i)
    } else {
        placed(order.drop_last(), keys, i).push(order.last())
    }
}

/// The ranking of the candidates: their indices, best first.
pub open spec fn ranking(keys: Seq<Option<int>>) -> Seq<int>
    decreases keys.len(),
{
    if keys.len() == 0 {
        Seq::empty()
    } else {
        let rest = ranking(keys.drop_last());
        if keys.last() is Some {
            placed(rest, keys, keys.len() - 1)
        } else {
            rest
        }
    }
}

/// The candidates that `order` names, in that order.
pub open spec fn pick<T>(items: Seq<T>, order: Seq<int>) -> Seq<T> {
    Seq::new(order.len(), |a: int| items[order[a]])
}

/// Where `placed` puts a candidate that stands behind all others in the input.
proof fn lemma_placed(order: Seq<int>, keys: Seq<Option<int>>, i: int) -> (at: int)
    requires
        is_ordered(order, keys),
        0 <= i < keys.len(),
        keys[i] is Some,
        forall|a: int| 0 <= a < order.len() ==> order[a] < i,
    ensures
        0 <= at <= order.len(),
        placed(order, keys, i) == order.insert(at, i),
        is_ordered(placed(order, keys, i), keys),
    decreases order.len(),
{
    if order.len() == 0 || keys[order.last()]->0 <= keys[i]->0 {
        let at = order.len() as int;
        assert(order.insert(at, i) =~= order.push(i));
        at
    } else {
        let front = order.drop_last();
        let at = lemma_placed(front, keys, i);
        let inner = placed(front, keys, i);
        let out = inner.push(order.last());
        assert(out =~= order.insert(at, i));
        assert forall|a: int, b: int| 0 <= a < b < out.len() implies before(
            keys,
            #[trigger] out[a],
            #[trigger] out[b],
        ) by {
            if b < out.len() - 1 {
                assert(out[a] == inner[a] && out[b] == inner[b]);
            } else if a < at {
                assert(out[a] == order[a]);
            } else if a > at {
                assert(out[a] == order[a - 1]);
            }
        }
        at
    }
}

/// An ordered list with one more candidate put in where it belongs is what
/// `placed` builds.
proof fn lemma_placed_unique(order: Seq<int>, keys: Seq<Option<int>>, i: int, at: int)
    requires
        0 <= at <= order.len(),
        is_ordered(order.insert(at, i), keys),
        forall|a: int| 0 <= a < order.len() ==> order[a] < i,
    ensures
        placed(order, keys, i) == order.insert(at, i),
    decreases order.len(),
{
    let full = order.insert(at, i);
    assert(full[at] == i);
    if order.len() == 0 {
        assert(full =~= order.push(i));
    } else {
        let n = order.len() as int;
        if keys[order.last()]->0 <= keys[i]->0 {
            if at < n {
                assert(full[n] == order[n - 1]);
                assert(before(keys, full[at], full[n]));
            }
            assert(full =~= order.push(i));
        } else {
            if at == n {
                assert(full[n - 1] == order[n - 1]);
                assert(before(keys, full[n - 1], full[at]));
            }
            let front = order.drop_last();
            let shorter = front.insert(at, i);
            assert(shorter =~= full.drop_last());
            assert(full =~= shorter.push(order.last()));
            lemma_placed_unique(front, keys, i, at);
        }
    }
}

/// What `keys` say of the candidates but the last is what the shorter list says.
proof fn lemma_ordered_front(order: Seq<int>, keys: Seq<Option<int>>)
    requires
        keys.len() > 0,
        forall|a: int| 0 <= a < order.len() ==> 0 <= #[trigger] order[a] < keys.len() - 1,
    ensures
        is_ordered(order, keys) <==> is_ordered(order, keys.drop_last()),
{
    let front = keys.drop_last();
    assert forall|a: int, b: int| 0 <= a < b < order.len() implies (before(
        keys,
        #[trigger] order[a],
        #[trigger] order[b],
    ) <==> before(front, order[a], order[b])) by {
        assert(front[order[a]] == keys[order[a]]);
        assert(front[order[b]] == keys[order[b]]);
    }
    assert forall|a: int| 0 <= a < order.len() implies front[#[trigger] order[a]]
        == keys[order[a]] by {}
}

/// The ranking lists exactly the kept candidates, by ascending key, and keeps
/// the input order among candidates with the same key.
pub proof fn lemma_ranking_is_ranking(keys: Seq<Option<int>>)
    ensures
        is_ranking(ranking(keys), keys),
    decreases keys.len(),
{
    if keys.len() > 0 {
        let n = keys.len() as int;
        let front = keys.drop_last();
        let rest = ranking(front);
        lemma_ranking_is_ranking(front);
        lemma_ordered_front(rest, keys);
        if keys.last() is Some {
            let at = lemma_placed(rest, keys, n - 1);
            let out = ranking(keys);
            assert(out == rest.insert(at, n - 1));
            assert forall|i: int| 0 <= i < keys.len() && keys[i] is Some implies out.contains(
                i,
            ) by {
                if i == n - 1 {
                    assert(out[at] == i);
                } else {
                    assert(front[i] is Some);
                    assert(rest.contains(i));
                    let c = choose|c: int| 0 <= c < rest.len() && rest[c] == i;
                    if c < at {
                        assert(out[c] == i);
                    } else {
                        assert(out[c + 1] == i);
                    }
                }
            }
        } else {
            assert forall|i: int| 0 <= i < keys.len() && keys[i] is Some implies ranking(
                keys,
            ).contains(i) by {
                assert(front[i] is Some);
            }
        }
    }
}

/// Only one order is a ranking for given keys.
pub proof fn lemma_ranking_unique(order: Seq<int>, keys: Seq<Option<int>>)
    requires
        is_ranking(order, keys),
    ensures
        order == ranking(keys),
    decreases keys.len(),
{
    if keys.len() == 0 {
        if order.len() > 0 {
            assert(0 <= order[0] < keys.len());
        }
        assert(order =~= Seq::empty());
    } else {
        let n = keys.len() as int;
        let front = keys.drop_last();
        if keys.last() is Some {
            assert(order.contains(n - 1));
            let at = choose|at: int| 0 <= at < order.len() && order[at] == n - 1;
            let shorter = order.remove(at);
            assert forall|a: int| 0 <= a < shorter.len() implies 0 <= #[trigger] shorter[a] < n
                - 1 by {
                if a < at {
                    assert(shorter[a] == order[a]);
                    assert(before(keys, order[a], order[at]));
                } else {
                    assert(shorter[a] == order[a + 1]);
                    assert(before(keys, order[at], order[a + 1]));
                }
            }
            assert(is_ordered(shorter, keys)) by {
                assert forall|a: int, b: int| 0 <= a < b < shorter.len() implies before(
                    keys,
                    #[trigger] shorter[a],
                    #[trigger] shorter[b],
                ) by {
                    let a2 = if a < at { a } else { a + 1 };
                    let b2 = if b < at { b } else { b + 1 };
                    assert(shorter[a] == order[a2] && shorter[b] == order[b2]);
                }
                assert forall|a: int| 0 <= a < shorter.len() implies keys[#[trigger] shorter[a]] is Some by {
                    let a2 = if a < at { a } else { a + 1 };
                    assert(shorter[a] == order[a2]);
                }
            }
            lemma_ordered_front(shorter, keys);
            assert forall|i: int| 0 <= i < front.len() && front[i] is Some implies shorter.contains(
                i,
            ) by {
                assert(keys[i] is Some);
                assert(order.contains(i));
                let c = choose|c: int| 0 <= c < order.len() && order[c] == i;
                if c < at {
                    assert(shorter[c] == i);
                } else {
                    assert(shorter[c - 1] == i);
                }
            }
            lemma_ranking_unique(shorter, front);
            assert(order =~= shorter.insert(at, n - 1));
            lemma_placed_unique(shorter, keys, n - 1, at);
        } else {
            assert forall|a: int| 0 <= a < order.len() implies 0 <= #[trigger] order[a] < n
                - 1 by {}
            lemma_ordered_front(order, keys);
            assert forall|i: int| 0 <= i < front.len() && front[i] is Some implies order.contains(
                i,
            ) by {
                assert(keys[i] is Some);
            }
            lemma_ranking_unique(order, front);
        }
    }
}

/// Two kept candidates with the same key stand in the ranking as they stood
/// in the input, and a candidate with a smaller key stands before one with a
/// greater key.
pub proof fn lemma_ranking_order(keys: Seq<Option<int>>, a: int, b: int)
    requires
        0 <= a < ranking(keys).len(),
        0 <= b < ranking(keys).len(),
    ensures
        a < b <==> before(keys, ranking(keys)[a], ranking(keys)[b]),
{
    lemma_ranking_is_ranking(keys);
    let order = ranking(keys);
    if a < b {
        assert(before(keys, order[a], order[b]));
    } else if b < a {
        assert(before(keys, order[b], order[a]));
    }
}

/// Where every candidate is kept and all keys are equal, the ranking is the
/// input order.
pub proof fn lemma_ranking_of_equal_keys(keys: Seq<Option<int>>)
    requires
        forall|i: int| 0 <= i < keys.len() ==> keys[i] is Some,
        forall|i: int, j: int| 0 <= i < keys.len() && 0 <= j < keys.len() ==> keys[i] == keys[j],
    ensures
        ranking(keys) == Seq::new(keys.len(), |i: int| i),
{
    let same = Seq::new(keys.len(), |i: int| i);
    assert forall|i: int| 0 <= i < keys.len() && keys[i] is Some implies same.contains(i) by {
        assert(same[i] == i);
    }
    lemma_ranking_unique(same, keys);
}

/// Picking every candidate in input order gives the input.
pub proof fn lemma_pick_all<T>(items: Seq<T>)
    ensures
        pick(items, Seq::new(items.len(), |i: int| i)) == items,
{
    assert(pick(items, Seq::new(items.len(), |i: int| i)) =~= items);
}

/// `e` is a candidate that is kept.
pub open spec fn is_kept<T>(items: Seq<T>, keys: Seq<Option<int>>, e: T) -> bool {
    exists|i: int| 0 <= i < items.len() && #[trigger] items[i] == e && keys[i] is Some
}

/// Where equal candidates are kept or dropped alike, a kept candidate stands
/// in the result as often as in the input, and a dropped one not at all.
pub proof fn lemma_kept_as_often<T>(items: Seq<T>, keys: Seq<Option<int>>, e: T)
    requires
        keys.len() == items.len(),
        forall|i: int, j: int|
            0 <= i < items.len() && 0 <= j < items.len() && #[trigger] items[i] == #[trigger] items[j]
                ==> (keys[i] is Some <==> keys[j] is Some),
    ensures
        pick(items, ranking(keys)).to_multiset().count(e) == if is_kept(items, keys, e) {
            items.to_multiset().count(e)
        } else {
            0
        },
    decreases keys.len(),
{
    let out = pick(items, ranking(keys));
    if keys.len() == 0 {
        assert(out =~= Seq::<T>::empty());
        to_multiset_contains(out, e);
    } else {
        let n = keys.len() as int;
        let front = keys.drop_last();
        let fewer = items.drop_last();
        let rest = ranking(front);
        let part = pick(fewer, rest);
        lemma_kept_as_often(fewer, front, e);
        lemma_ranking_is_ranking(front);
        assert(pick(items, rest) =~= part);
        assert(items =~= fewer.push(items.last()));
        to_multiset_build(fewer, items.last());
        to_multiset_contains(fewer, e);
        if is_kept(fewer, front, e) {
            let i = choose|i: int| 0 <= i < fewer.len() && #[trigger] fewer[i] == e && front[i] is Some;
            assert(items[i] == e && keys[i] is Some);
        }
        if is_kept(items, keys, e) && !is_kept(fewer, front, e) {
            let i = choose|i: int| 0 <= i < items.len() && #[trigger] items[i] == e && keys[i] is Some;
            if i < n - 1 {
                assert(fewer[i] == e && front[i] is Some);
            }
            assert(items[n - 1] == e && keys[n - 1] is Some);
            if fewer.contains(e) {
                let j = choose|j: int| 0 <= j < fewer.len() && fewer[j] == e;
                assert(items[j] == items[n - 1]);
                assert(fewer[j] == e && front[j] is Some);
            }
        }
        if keys.last() is Some {
            lemma_ordered_front(rest, keys);
            let at = lemma_placed(rest, keys, n - 1);
            assert(out =~= part.insert(at, items.last()));
            to_multiset_insert(part, at, items.last());
            if items.last() == e {
                assert(items[n - 1] == e && keys[n - 1] is Some);
            }
        } else {
            assert(out =~= part);
            if items.last() == e && is_kept(items, keys, e) {
                let i = choose|i: int| 0 <= i < items.len() && #[trigger] items[i] == e && keys[i] is Some;
                assert(items[i] == items[n - 1]);
            }
        }
    }
}

} // verus!
