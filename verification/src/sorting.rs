//! Computing the ranking: a merge sort that keeps equal keys in input order.

use vstd::prelude::*;
use crate::ranking::{
    before, is_ordered, lemma_ranking_is_ranking, lemma_ranking_unique, pick, ranking,
};

verus! {

/// The mathematical key that a machine key stands for.
pub open spec fn key_int(key: Option<i128>) -> Option<int> {
    match key {
        Some(k) => Some(k as int),
        None => None,
    }
}

/// The mathematical keys that machine keys stand for.
pub open spec fn key_view(keys: Seq<Option<i128>>) -> Seq<Option<int>> {
    Seq::new(keys.len(), |i: int| key_int(keys[i]))
}

/// Machine indices as mathematical ones.
pub open spec fn index_view(order: Seq<usize>) -> Seq<int> {
    Seq::new(order.len(), |a: int| order[a] as int)
}

/// `x` is one of the first `n` entries of `s`.
pub open spec fn among(s: Seq<usize>, n: int, x: usize) -> bool {
    exists|a: int| 0 <= a < n && #[trigger] s[a] == x
}

/// Candidates with keys that can be compared.
pub trait Keyed {
    /// The key of each candidate, or none where the candidate is dropped.
    spec fn keys(&self) -> Seq<Option<int>>;

    /// How many candidates there are.
    fn count(&self) -> (n: usize)
        ensures
            n == self.keys().len(),
    ;

    /// Whether candidate `i` is kept.
    fn is_kept(&self, i: usize) -> (kept: bool)
        requires
            i < self.keys().len(),
        ensures
            kept == self.keys()[i as int] is Some,
    ;

    /// Whether the key of candidate `i` is not greater than that of `j`.
    fn not_greater(&self, i: usize, j: usize) -> (r: bool)
        requires
            i < self.keys().len(),
            j < self.keys().len(),
            self.keys()[i as int] is Some,
            self.keys()[j as int] is Some,
        ensures
            r == (self.keys()[i as int]->0 <= self.keys()[j as int]->0),
    ;
}

/// Keys held as machine integers.
pub struct IntKeys {
    pub keys: Vec<Option<i128>>,
}

impl Keyed for IntKeys {
    open spec fn keys(&self) -> Seq<Option<int>> {
        key_view(self.keys@)
    }

    fn count(&self) -> (n: usize) {
        self.keys.len()
    }

    fn is_kept(&self, i: usize) -> (kept: bool) {
        self.keys[i].is_some()
    }

    fn not_greater(&self, i: usize, j: usize) -> (r: bool) {
        match (self.keys[i], self.keys[j]) {
            (Some(a), Some(b)) => a <= b,
            _ => true,
        }
    }
}

/// Merges two ordered runs, the first holding earlier candidates than the second.
fn merge_runs<K: Keyed>(left: &Vec<usize>, right: &Vec<usize>, keys: &K) -> (out: Vec<usize>)
    requires
        is_ordered(index_view(left@), keys.keys()),
        is_ordered(index_view(right@), keys.keys()),
        forall|a: int, b: int|
            0 <= a < left.len() && 0 <= b < right.len() ==> #[trigger] left[a] < #[trigger] right[b],
        left.len() + right.len() <= usize::MAX,
    ensures
        out.len() == left.len() + right.len(),
        is_ordered(index_view(out@), keys.keys()),
        forall|x: usize|
            among(out@, out.len() as int, x) <==> among(left@, left.len() as int, x) || among(
                right@,
                right.len() as int,
                x,
            ),
{
    let ghost ks = keys.keys();
    let mut out: Vec<usize> = Vec::new();
    let mut i: usize = 0;
    let mut j: usize = 0;
    while i < left.len() || j < right.len()
        invariant
            0 <= i <= left.len(),
            0 <= j <= right.len(),
            left.len() + right.len() <= usize::MAX,
            ks == keys.keys(),
            out.len() == i + j,
            is_ordered(index_view(left@), ks),
            is_ordered(index_view(right@), ks),
            forall|a: int, b: int|
                0 <= a < left.len() && 0 <= b < right.len() ==> #[trigger] left[a]
                    < #[trigger] right[b],
            is_ordered(index_view(out@), ks),
            forall|c: int, a: int|
                0 <= c < out.len() && i <= a < left.len() ==> before(
                    ks,
                    #[trigger] out[c] as int,
                    #[trigger] left[a] as int,
                ),
            forall|c: int, b: int|
                0 <= c < out.len() && j <= b < right.len() ==> before(
                    ks,
                    #[trigger] out[c] as int,
                    #[trigger] right[b] as int,
                ),
            forall|c: int|
                0 <= c < out.len() ==> among(left@, i as int, #[trigger] out[c]) || among(
                    right@,
                    j as int,
                    out[c],
                ),
            forall|a: int| 0 <= a < i ==> among(out@, out.len() as int, #[trigger] left[a]),
            forall|b: int| 0 <= b < j ==> among(out@, out.len() as int, #[trigger] right[b]),
        decreases left.len() - i + right.len() - j,
    {
        let ghost before_push = out@;
        let take_left = if i == left.len() {
            false
        } else if j == right.len() {
            true
        } else {
            proof {
                assert(index_view(left@)[i as int] == left[i as int]);
                assert(index_view(right@)[j as int] == right[j as int]);
            }
            keys.not_greater(left[i], right[j])
        };
        let x = if take_left { left[i] } else { right[j] };
        let ghost i0 = i as int;
        let ghost j0 = j as int;
        proof {
            assert(index_view(left@).len() == left.len());
            assert(index_view(right@).len() == right.len());
            if take_left {
                assert(index_view(left@)[i0] == x);
            } else {
                assert(index_view(right@)[j0] == x);
            }
            assert forall|a: int| i0 <= a < left.len() && !(take_left && a == i0) implies before(
                ks,
                x as int,
                #[trigger] left[a] as int,
            ) by {
                assert(index_view(left@)[a] == left[a]);
                assert(index_view(left@)[i0] == left[i0]);
                if a > i0 {
                    assert(before(ks, index_view(left@)[i0], index_view(left@)[a]));
                }
            }
            assert forall|b: int| j0 <= b < right.len() && !(!take_left && b == j0) implies before(
                ks,
                x as int,
                #[trigger] right[b] as int,
            ) by {
                assert(index_view(right@)[b] == right[b]);
                assert(index_view(right@)[j0] == right[j0]);
                if b > j0 {
                    assert(before(ks, index_view(right@)[j0], index_view(right@)[b]));
                }
                if take_left {
                    assert(left[i0] < right[b]);
                }
            }
        }
        out.push(x);
        if take_left {
            i = i + 1;
        } else {
            j = j + 1;
        }
        proof {
            let n = before_push.len() as int;
            assert(out@ == before_push.push(x));
            assert forall|a: int, b: int| 0 <= a < b < out.len() implies before(
                ks,
                #[trigger] index_view(out@)[a],
                #[trigger] index_view(out@)[b],
            ) by {
                if b < n {
                    assert(index_view(before_push)[a] == out[a]);
                    assert(index_view(before_push)[b] == out[b]);
                } else {
                    assert(out[a] == before_push[a]);
                }
            }
            assert forall|a: int| 0 <= a < out.len() implies 0 <= #[trigger] index_view(out@)[a]
                < ks.len() && ks[index_view(out@)[a]] is Some by {
                if a < n {
                    assert(index_view(before_push)[a] == out[a]);
                }
            }
            assert forall|c: int| 0 <= c < out.len() implies among(
                left@,
                i as int,
                #[trigger] out[c],
            ) || among(right@, j as int, out[c]) by {
                if c < n {
                    assert(out[c] == before_push[c]);
                    if among(left@, i as int - if take_left { 1int } else { 0int }, out[c]) {
                        let a = choose|a: int|
                            0 <= a < i as int - if take_left { 1int } else { 0int } && left[a] == out[c];
                        assert(left[a] == out[c]);
                    } else {
                        let b = choose|b: int|
                            0 <= b < j as int - if take_left { 0int } else { 1int } && right[b] == out[c];
                        assert(right[b] == out[c]);
                    }
                } else {
                    if take_left {
                        assert(left[i - 1] == out[c]);
                    } else {
                        assert(right[j - 1] == out[c]);
                    }
                }
            }
            assert forall|a: int| 0 <= a < i implies among(
                out@,
                out.len() as int,
                #[trigger] left[a],
            ) by {
                if take_left && a == i - 1 {
                    assert(out[n] == left[a]);
                } else {
                    let c = choose|c: int| 0 <= c < n && before_push[c] == left[a];
                    assert(out[c] == left[a]);
                }
            }
            assert forall|b: int| 0 <= b < j implies among(
                out@,
                out.len() as int,
                #[trigger] right[b],
            ) by {
                if !take_left && b == j - 1 {
                    assert(out[n] == right[b]);
                } else {
                    let c = choose|c: int| 0 <= c < n && before_push[c] == right[b];
                    assert(out[c] == right[b]);
                }
            }
        }
    }
    proof {
        assert forall|x: usize|
            among(out@, out.len() as int, x) <==> among(left@, left.len() as int, x) || among(
                right@,
                right.len() as int,
                x,
            ) by {
            if among(out@, out.len() as int, x) {
                let c = choose|c: int| 0 <= c < out.len() && out[c] == x;
                assert(among(left@, i as int, out[c]) || among(right@, j as int, out[c]));
            }
            if among(left@, left.len() as int, x) {
                let a = choose|a: int| 0 <= a < left.len() && left[a] == x;
                assert(among(out@, out.len() as int, left[a]));
            }
            if among(right@, right.len() as int, x) {
                let b = choose|b: int| 0 <= b < right.len() && right[b] == x;
                assert(among(out@, out.len() as int, right[b]));
            }
        }
    }
    out
}

/// Orders the candidates that `kept` names from place `lo` up to `hi`.
fn sort_run<K: Keyed>(kept: &Vec<usize>, lo: usize, hi: usize, keys: &K) -> (out: Vec<usize>)
    requires
        lo <= hi <= kept.len(),
        forall|a: int|
            0 <= a < kept.len() ==> #[trigger] kept[a] < keys.keys().len() && keys.keys()[kept[a] as int] is Some,
        forall|a: int, b: int| 0 <= a < b < kept.len() ==> #[trigger] kept[a] < #[trigger] kept[b],
    ensures
        out.len() == hi - lo,
        is_ordered(index_view(out@), keys.keys()),
        forall|x: usize|
            among(out@, out.len() as int, x) <==> (exists|p: int|
                lo <= p < hi && #[trigger] kept[p] == x),
    decreases hi - lo,
{
    if hi - lo == 0 {
        Vec::new()
    } else if hi - lo == 1 {
        let mut out: Vec<usize> = Vec::new();
        out.push(kept[lo]);
        proof {
            assert(out[0] == kept[lo as int]);
            assert forall|x: usize| (exists|p: int| lo <= p < hi && #[trigger] kept[p] == x) implies among(
                out@,
                out.len() as int,
                x,
            ) by {
                assert(out[0] == x);
            }
        }
        out
    } else {
        let mid = lo + (hi - lo) / 2;
        let left = sort_run(kept, lo, mid, keys);
        let right = sort_run(kept, mid, hi, keys);
        proof {
            assert forall|a: int, b: int|
                0 <= a < left.len() && 0 <= b < right.len() implies #[trigger] left[a]
                < #[trigger] right[b] by {
                assert(among(left@, left.len() as int, left[a]));
                assert(among(right@, right.len() as int, right[b]));
                let p = choose|p: int| lo <= p < mid && #[trigger] kept[p] == left[a];
                let q = choose|q: int| mid <= q < hi && #[trigger] kept[q] == right[b];
                assert(kept[p] < kept[q]);
            }
        }
        let out = merge_runs(&left, &right, keys);
        proof {
            assert forall|x: usize|
                among(out@, out.len() as int, x) <==> (exists|p: int|
                    lo <= p < hi && #[trigger] kept[p] == x) by {
                if among(left@, left.len() as int, x) {
                    let p = choose|p: int| lo <= p < mid && #[trigger] kept[p] == x;
                    assert(lo <= p < hi && kept[p] == x);
                }
                if among(right@, right.len() as int, x) {
                    let p = choose|p: int| mid <= p < hi && #[trigger] kept[p] == x;
                    assert(lo <= p < hi && kept[p] == x);
                }
                if exists|p: int| lo <= p < hi && #[trigger] kept[p] == x {
                    let p = choose|p: int| lo <= p < hi && #[trigger] kept[p] == x;
                    if p < mid {
                        assert(lo <= p < mid && kept[p] == x);
                    } else {
                        assert(mid <= p < hi && kept[p] == x);
                    }
                }
            }
        }
        out
    }
}

/// The ranking that `keys` ask for: the indices of the kept candidates, by
/// ascending key, candidates with the same key in input order.
pub fn rank<K: Keyed>(keys: &K) -> (order: Vec<usize>)
    ensures
        index_view(order@) == ranking(keys.keys()),
{
    let mut kept: Vec<usize> = Vec::new();
    let mut i: usize = 0;
    let n = keys.count();
    while i < n
        invariant
            0 <= i <= n,
            n == keys.keys().len(),
            kept.len() <= i,
            forall|a: int|
                0 <= a < kept.len() ==> #[trigger] kept[a] < i && keys.keys()[kept[a] as int] is Some,
            forall|a: int, b: int|
                0 <= a < b < kept.len() ==> #[trigger] kept[a] < #[trigger] kept[b],
            forall|p: int|
                0 <= p < i && keys.keys()[p] is Some ==> among(kept@, kept.len() as int, p as usize),
        decreases n - i,
    {
        let ghost earlier = kept@;
        if keys.is_kept(i) {
            kept.push(i);
        }
        proof {
            assert forall|p: int| 0 <= p < i + 1 && keys.keys()[p] is Some implies among(
                kept@,
                kept.len() as int,
                p as usize,
            ) by {
                if p < i {
                    assert(among(earlier, earlier.len() as int, p as usize));
                    let a = choose|a: int| 0 <= a < earlier.len() && earlier[a] == p as usize;
                    assert(kept[a] == p as usize);
                } else {
                    assert(kept[kept.len() - 1] == p as usize);
                }
            }
        }
        i = i + 1;
    }
    let order = sort_run(&kept, 0, kept.len(), keys);
    proof {
        let ks = keys.keys();
        let ord = index_view(order@);
        assert forall|p: int| 0 <= p < ks.len() && ks[p] is Some implies ord.contains(p) by {
            assert(among(kept@, kept.len() as int, p as usize));
            let a = choose|a: int| 0 <= a < kept.len() && kept[a] == p as usize;
            assert(0 <= a < kept.len() && kept[a] == p as usize);
            assert(among(order@, order.len() as int, p as usize));
            let c = choose|c: int| 0 <= c < order.len() && order[c] == p as usize;
            assert(ord[c] == p);
        }
        lemma_ranking_unique(ord, ks);
    }
    order
}

/// The kept candidates in ranking order.
pub(crate) fn ranked<K: Keyed>(items: &Vec<String>, keys: &K) -> (out: Vec<String>)
    requires
        keys.keys().len() == items.len(),
    ensures
        out.deep_view() == pick(items.deep_view(), ranking(keys.keys())),
{
    let order = rank(keys);
    let ghost want = pick(items.deep_view(), ranking(keys.keys()));
    proof {
        lemma_ranking_is_ranking(keys.keys());
    }
    let mut out: Vec<String> = Vec::new();
    let mut a: usize = 0;
    while a < order.len()
        invariant
            0 <= a <= order.len(),
            out.len() == a,
            keys.keys().len() == items.len(),
            index_view(order@) == ranking(keys.keys()),
            is_ordered(ranking(keys.keys()), keys.keys()),
            want == pick(items.deep_view(), ranking(keys.keys())),
            forall|b: int| 0 <= b < a ==> out[b]@ == want[b],
        decreases order.len() - a,
    {
        proof {
            assert(index_view(order@)[a as int] == order[a as int]);
        }
        out.push(items[order[a]].clone());
        a = a + 1;
    }
    proof {
        assert(index_view(order@).len() == order.len());
        assert(out.deep_view() =~= want);
    }
    out
}

} // verus!
