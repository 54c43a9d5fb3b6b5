//! Occurrences of one sequence inside another.

use vstd::prelude::*;

verus! {

/// `needle` stands in `hay` at offset `at`.
pub open spec fn occurs_at<T>(hay: Seq<T>, needle: Seq<T>, at: int) -> bool {
    &&& 0 <= at
    &&& at + needle.len() <= hay.len()
    &&& hay.subrange(at, at + needle.len()) == needle
}

/// `at` is the offset of the leftmost occurrence of `needle` in `hay`.
pub open spec fn is_first_occurrence<T>(hay: Seq<T>, needle: Seq<T>, at: int) -> bool {
    &&& occurs_at(hay, needle, at)
    &&& forall|b: int| 0 <= b < at ==> !occurs_at(hay, needle, b)
}

/// Offset of the leftmost occurrence of `needle` in `hay` that starts at
/// `from` or later, if there is one.
pub open spec fn first_occurrence_from<T>(hay: Seq<T>, needle: Seq<T>, from: int) -> Option<int>
    decreases hay.len() + 1 - from,
{
    if from < 0 || from + needle.len() > hay.len() {
        None
    } else if occurs_at(hay, needle, from) {
        Some(from)
    } else {
        first_occurrence_from(hay, needle, from + 1)
    }
}

/// Offset of the leftmost occurrence of `needle` in `hay`, if there is one.
pub open spec fn first_occurrence<T>(hay: Seq<T>, needle: Seq<T>) -> Option<int> {
    first_occurrence_from(hay, needle, 0)
}

/// What a search from `from` finds, given that nothing occurs before `from`.
proof fn lemma_first_occurrence_from<T>(hay: Seq<T>, needle: Seq<T>, from: int)
    requires
        0 <= from,
        forall|b: int| 0 <= b < from ==> !occurs_at(hay, needle, b),
    ensures
        match first_occurrence_from(hay, needle, from) {
            Some(at) => is_first_occurrence(hay, needle, at),
            None => forall|b: int| !occurs_at(hay, needle, b),
        },
    decreases hay.len() + 1 - from,
{
    if from + needle.len() <= hay.len() && !occurs_at(hay, needle, from) {
        lemma_first_occurrence_from(hay, needle, from + 1);
    }
}

/// The leftmost occurrence is an occurrence with none before it, and where
/// there is no leftmost occurrence there is none at all.
pub proof fn lemma_first_occurrence<T>(hay: Seq<T>, needle: Seq<T>)
    ensures
        match first_occurrence(hay, needle) {
            Some(at) => is_first_occurrence(hay, needle, at),
            None => forall|b: int| !occurs_at(hay, needle, b),
        },
{
    lemma_first_occurrence_from(hay, needle, 0);
}

/// An occurrence with none before it is the leftmost occurrence.
pub proof fn lemma_first_occurrence_is<T>(hay: Seq<T>, needle: Seq<T>, at: int)
    requires
        is_first_occurrence(hay, needle, at),
    ensures
        first_occurrence(hay, needle) == Some(at),
{
    lemma_first_occurrence(hay, needle);
    match first_occurrence(hay, needle) {
        Some(other) => {
            if other < at {
                assert(!occurs_at(hay, needle, other));
            }
            if at < other {
                assert(!occurs_at(hay, needle, at));
            }
        },
        None => {},
    }
}

} // verus!
