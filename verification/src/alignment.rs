//! Ranking by the best alignment of the query inside a candidate: the
//! characters of the query must stand in the candidate in order, and a match
//! is worth more at the start of a word and right behind the match before it.
//! The search tries later places for each character too, and keeps the scores
//! that it has found in a table.
//!
//! Scores are whole numbers of parts of the score one, so that all
//! arithmetic on them is exact.

use vstd::prelude::*;
use crate::ranking::{is_kept, ranking};
use crate::scored::{
    is_dotted, lemma_scored_stable, lemma_scored_subset, lemma_unqueried_subset, ranked_by_score,
    score_unqueried, scored_keys, scored_matches, text_lt, unqueried_score, unqueried_scores,
    FULL_SCORE,
};
use crate::sorting::key_view;
use crate::text::chars_of;

verus! {

/// What a matching character is worth, by what stands before it.
#[derive(Clone, Copy, Debug, PartialEq, Eq, Structural)]
pub enum Bonus {
    /// It follows a slash.
    AfterSlash,
    /// It follows a hyphen, an underscore, a space or a digit.
    AfterSeparator,
    /// It is an upper-case letter that follows a lower-case one.
    CamelHump,
    /// It follows a dot.
    AfterDot,
    /// None of these, and it stands this far behind the last match; the
    /// distance is two at least.
    Gap(usize),
    /// None of these, and it stands at the last match or right behind it.
    Full,
}

/// `c` is one of the letters `a` to `z`.
pub open spec fn is_lower(c: char) -> bool {
    'a' <= c <= 'z'
}

/// `c` is one of the letters `A` to `Z`.
pub open spec fn is_upper(c: char) -> bool {
    'A' <= c <= 'Z'
}

/// `c` is a hyphen, an underscore, a space or one of the digits 0 to 9.
pub open spec fn is_separator(c: char) -> bool {
    c == '-' || c == '_' || c == ' ' || ('0' <= c <= '9')
}

/// What a match on the character `cur` is worth where `prev` stands before
/// it, if anything does, and the last match lies `distance` characters back.
pub open spec fn bonus_of(prev: Option<char>, cur: char, distance: usize) -> Bonus {
    if prev == Some('/') {
        Bonus::AfterSlash
    } else if prev is Some && is_separator(prev->0) {
        Bonus::AfterSeparator
    } else if prev is Some && is_lower(prev->0) && is_upper(cur) {
        Bonus::CamelHump
    } else if prev == Some('.') {
        Bonus::AfterDot
    } else if distance <= 1 {
        Bonus::Full
    } else {
        Bonus::Gap(distance)
    }
}

/// The number of the character that `c` is compared as: that of the
/// lower-case letter for one of the letters `A` to `Z`, its own for any other.
pub open spec fn folded(c: char) -> u32 {
    if is_upper(c) {
        (c as u32 + 32) as u32
    } else {
        c as u32
    }
}

/// A character of a candidate matches a character of the query: folded to
/// lower case it is that character. The query's character is not folded.
pub open spec fn fold_matches(hay: char, needle: char) -> bool {
    folded(hay) == needle as u32
}

/// What a match on the character `cur` is worth where `prev` stands before
/// it, if anything does, and the last match lies `distance` characters back.
pub fn bonus_for(prev: Option<char>, cur: char, distance: usize) -> (bonus: Bonus)
    ensures
        bonus == bonus_of(prev, cur, distance),
{
    match prev {
        Some(p) => {
            if p == '/' {
                Bonus::AfterSlash
            } else if p == '-' || p == '_' || p == ' ' || ('0' <= p && p <= '9') {
                Bonus::AfterSeparator
            } else if 'a' <= p && p <= 'z' && 'A' <= cur && cur <= 'Z' {
                Bonus::CamelHump
            } else if p == '.' {
                Bonus::AfterDot
            } else if distance <= 1 {
                Bonus::Full
            } else {
                Bonus::Gap(distance)
            }
        },
        None => {
            if distance <= 1 {
                Bonus::Full
            } else {
                Bonus::Gap(distance)
            }
        },
    }
}

/// Whether a character of a candidate matches a character of the query.
pub fn matches_folded(hay: char, needle: char) -> (r: bool)
    ensures
        r == fold_matches(hay, needle),
{
    if 'A' <= hay && hay <= 'Z' {
        hay as u32 + 32 == needle as u32
    } else {
        hay == needle
    }
}

/// What each kind of match is worth, in parts of the score one.
#[derive(Clone, Copy, Debug, PartialEq, Eq, Structural)]
pub struct Weights {
    /// A match with nothing taken off.
    pub full: u32,
    /// A match behind a slash.
    pub after_slash: u32,
    /// A match behind a separator.
    pub after_separator: u32,
    /// A match on an upper-case letter behind a lower-case one.
    pub camel_hump: u32,
    /// A match behind a dot.
    pub after_dot: u32,
    /// What a match far from the last one is worth before it is divided by
    /// its distance.
    pub gap_base: u32,
}

/// What a match of the kind `bonus` is worth.
pub open spec fn weight_of(weights: Weights, bonus: Bonus) -> int {
    match bonus {
        Bonus::AfterSlash => weights.after_slash as int,
        Bonus::AfterSeparator => weights.after_separator as int,
        Bonus::CamelHump => weights.camel_hump as int,
        Bonus::AfterDot => weights.after_dot as int,
        Bonus::Gap(distance) => if distance == 0 {
            0
        } else {
            weights.gap_base as int / distance as int
        },
        Bonus::Full => weights.full as int,
    }
}

/// The first place at `from` or later where a character of the candidate
/// matches `c`, if there is one.
pub open spec fn first_fold_match(hay: Seq<char>, from: int, c: char) -> Option<int>
    decreases hay.len() - from,
{
    if from < 0 || from >= hay.len() {
        None
    } else if fold_matches(hay[from], c) {
        Some(from)
    } else {
        first_fold_match(hay, from + 1, c)
    }
}

/// The character before place `at`, if there is one.
pub open spec fn char_before(hay: Seq<char>, at: int) -> Option<char> {
    if 1 <= at <= hay.len() {
        Some(hay[at - 1])
    } else {
        None
    }
}

/// What the match at place `at` is worth when the last match was at `last`.
pub open spec fn gain_at(hay: Seq<char>, weights: Weights, at: int, last: int) -> int {
    weight_of(weights, bonus_of(char_before(hay, at), hay[at], (at - last) as usize))
}

/// The score that the table holds for the part of the query from
/// `needle_at` on and the part of the candidate from `hay_at` on, if it holds
/// one. The table has a row for each place in the query and in each row an
/// entry for each place in the candidate.
pub open spec fn held(table: Seq<Seq<Option<int>>>, needle_at: int, hay_at: int) -> Option<int> {
    if 0 <= needle_at < table.len() && 0 <= hay_at < table[needle_at].len() {
        table[needle_at][hay_at]
    } else {
        None
    }
}

/// The table once it holds `score` for the two places.
pub open spec fn stored(
    table: Seq<Seq<Option<int>>>,
    needle_at: int,
    hay_at: int,
    score: int,
) -> Seq<Seq<Option<int>>> {
    if 0 <= needle_at < table.len() && 0 <= hay_at < table[needle_at].len() {
        table.update(needle_at, table[needle_at].update(hay_at, Some(score)))
    } else {
        table
    }
}

/// A first match lies at the place where the search began or behind it, and
/// inside the candidate.
pub proof fn lemma_first_fold_match(hay: Seq<char>, from: int, c: char)
    ensures
        match first_fold_match(hay, from, c) {
            Some(at) => 0 <= from <= at < hay.len() && fold_matches(hay[at], c)
                && forall|k: int| from <= k < at ==> !fold_matches(#[trigger] hay[k], c),
            None => forall|k: int| 0 <= from <= k < hay.len() ==> !fold_matches(#[trigger] hay[k], c),
        },
    decreases hay.len() - from,
{
    if 0 <= from < hay.len() && !fold_matches(hay[from], c) {
        lemma_first_fold_match(hay, from + 1, c);
    }
}

/// The score for the part of the query from `needle_at` on inside the part
/// of the candidate from `hay_at` on, with the table of scores as it is
/// afterwards. `last` is the place of the last match so far and `carried` the
/// score so far.
///
/// A score that the table holds is taken from it. Where less of the
/// candidate is left than of the query the score is zero. Otherwise it is
/// what `walk` finds. The table then holds the score.
pub open spec fn align(
    hay: Seq<char>,
    needle: Seq<char>,
    weights: Weights,
    table: Seq<Seq<Option<int>>>,
    hay_at: int,
    needle_at: int,
    last: int,
    carried: int,
) -> (int, Seq<Seq<Option<int>>>)
    decreases hay.len() - hay_at, 1int,
{
    if held(table, needle_at, hay_at) is Some {
        (held(table, needle_at, hay_at)->0, table)
    } else if hay.len() - hay_at < needle.len() - needle_at {
        (0, stored(table, needle_at, hay_at, 0))
    } else {
        let found = walk(hay, needle, weights, table, hay_at, needle_at, last, carried, 0);
        (found.0, stored(found.1, needle_at, hay_at, found.0))
    }
}

/// Takes the characters of the query from `needle_at` on, one after the
/// other, each at its first match in the candidate at `hay_at` or later.
/// Before a match is taken, the same character is tried from one place later
/// on, and the best score of such tries is kept as `seen`. The match then adds
/// what it is worth to `score`, and the search goes on behind it. A
/// character without a match makes the score zero. At the end of the query
/// the score is the greater of `score` and `seen`.
pub open spec fn walk(
    hay: Seq<char>,
    needle: Seq<char>,
    weights: Weights,
    table: Seq<Seq<Option<int>>>,
    hay_at: int,
    needle_at: int,
    last: int,
    score: int,
    seen: int,
) -> (int, Seq<Seq<Option<int>>>)
    decreases hay.len() - hay_at, 0int,
{
    if needle_at < 0 || needle_at >= needle.len() {
        (if score >= seen {
            score
        } else {
            seen
        }, table)
    } else {
        match first_fold_match(hay, hay_at, needle[needle_at]) {
            None => (0, table),
            Some(at) => {
                proof {
                    lemma_first_fold_match(hay, hay_at, needle[needle_at]);
                }
                let tried = if at + 1 < hay.len() {
                    align(hay, needle, weights, table, at + 1, needle_at, last, score)
                } else {
                    (0int, table)
                };
                walk(
                    hay,
                    needle,
                    weights,
                    tried.1,
                    at + 1,
                    needle_at + 1,
                    at,
                    score + gain_at(hay, weights, at, last),
                    if seen >= tried.0 {
                        seen
                    } else {
                        tried.0
                    },
                )
            },
        }
    }
}

/// A table of `rows` rows of `columns` entries that holds no score.
pub open spec fn empty_table(rows: nat, columns: nat) -> Seq<Seq<Option<int>>> {
    Seq::new(rows, |i: int| Seq::new(columns, |j: int| None::<int>))
}

/// The score of the best alignment of `needle` inside `hay` that the search
/// finds: zero where there is none, and zero for an empty `needle`.
pub open spec fn alignment_score(hay: Seq<char>, needle: Seq<char>, weights: Weights) -> int {
    align(hay, needle, weights, empty_table(needle.len(), hay.len()), 0, 0, 0, 0).0
}

/// The scores that a table in memory holds.
pub open spec fn table_view(table: Seq<Vec<Option<i128>>>) -> Seq<Seq<Option<int>>> {
    Seq::new(table.len(), |i: int| key_view(table[i]@))
}

/// No score in the table is negative or greater than `bound`.
pub open spec fn table_within(table: Seq<Vec<Option<i128>>>, bound: int) -> bool {
    forall|i: int, j: int|
        0 <= i < table.len() && 0 <= j < table[i].len() && (#[trigger] table[i][j]) is Some ==> 0
            <= table[i][j]->0 <= bound
}

/// The table has a row for each place in the query and in each row an entry
/// for each place in the candidate.
pub open spec fn table_fits(table: Seq<Vec<Option<i128>>>, rows: int, columns: int) -> bool {
    &&& table.len() == rows
    &&& forall|i: int| 0 <= i < table.len() ==> (#[trigger] table[i]).len() == columns
}

/// The most that one match is worth.
pub open spec fn top_weight() -> int {
    0xFFFF_FFFF
}

/// The first place at `from` or later where a character of the candidate
/// matches `c`.
pub fn find_fold(hay: &Vec<char>, from: usize, c: char) -> (r: Option<usize>)
    ensures
        match r {
            Some(at) => first_fold_match(hay@, from as int, c) == Some(at as int) && from <= at
                < hay.len(),
            None => first_fold_match(hay@, from as int, c) is None,
        },
{
    let mut at: usize = from;
    while at < hay.len()
        invariant
            from <= at,
            first_fold_match(hay@, from as int, c) == first_fold_match(hay@, at as int, c),
        decreases hay.len() - at,
    {
        if matches_folded(hay[at], c) {
            return Some(at);
        }
        at = at + 1;
    }
    None
}

/// What the match at place `at` is worth when the last match was at `last`.
fn gain(hay: &Vec<char>, weights: &Weights, at: usize, last: usize) -> (worth: u32)
    requires
        last <= at < hay.len(),
    ensures
        worth == gain_at(hay@, *weights, at as int, last as int),
{
    let prev = if at >= 1 {
        Some(hay[at - 1])
    } else {
        None
    };
    match bonus_for(prev, hay[at], at - last) {
        Bonus::AfterSlash => weights.after_slash,
        Bonus::AfterSeparator => weights.after_separator,
        Bonus::CamelHump => weights.camel_hump,
        Bonus::AfterDot => weights.after_dot,
        Bonus::Gap(distance) => {
            if distance == 0 {
                0
            } else {
                let share: u64 = weights.gap_base as u64 / distance as u64;
                share as u32
            }
        },
        Bonus::Full => weights.full,
    }
}

/// The score for the rest of the query inside the rest of the candidate,
/// taken from the table where the table holds it, and put there where not.
fn align_from(
    hay: &Vec<char>,
    needle: &Vec<char>,
    weights: &Weights,
    table: &mut Vec<Vec<Option<i128>>>,
    hay_at: usize,
    needle_at: usize,
    last: usize,
    carried: i128,
) -> (score: i128)
    requires
        table_fits(old(table)@, needle.len() as int, hay.len() as int),
        table_within(old(table)@, needle.len() * top_weight()),
        hay_at < hay.len(),
        needle_at < needle.len(),
        last <= hay_at,
        0 <= carried <= needle_at * top_weight(),
    ensures
        (score as int, table_view(final(table)@)) == align(
            hay@,
            needle@,
            *weights,
            table_view(old(table)@),
            hay_at as int,
            needle_at as int,
            last as int,
            carried as int,
        ),
        table_fits(final(table)@, needle.len() as int, hay.len() as int),
        table_within(final(table)@, needle.len() * top_weight()),
        0 <= score <= needle.len() * top_weight(),
    decreases hay.len() - hay_at, 1int,
{
    let ghost before = table_view(table@);
    proof {
        assert(before[needle_at as int] == key_view(table[needle_at as int]@));
        assert(needle.len() * top_weight() >= 0) by (nonlinear_arith)
            requires
                needle.len() >= 0,
                top_weight() >= 0,
        ;
    }
    match table[needle_at][hay_at] {
        Some(score) => {
            return score;
        },
        None => {},
    }
    let score = if hay.len() - hay_at < needle.len() - needle_at {
        0
    } else {
        walk_from(hay, needle, weights, table, hay_at, needle_at, last, carried)
    };
    let ghost walked = table_view(table@);
    let ghost rows = table@;
    table[needle_at][hay_at] = Some(score);
    proof {
        assert(walked[needle_at as int] == key_view(rows[needle_at as int]@));
        assert(table_view(table@) =~= stored(walked, needle_at as int, hay_at as int, score as int))
            by {
            assert forall|i: int| 0 <= i < table@.len() implies #[trigger] table_view(table@)[i]
                =~= stored(walked, needle_at as int, hay_at as int, score as int)[i] by {
                if i != needle_at {
                    assert(table@[i] == rows[i]);
                }
            }
        }
        assert forall|i: int, j: int|
            0 <= i < table@.len() && 0 <= j < table@[i].len() && (#[trigger] table@[i][j]) is Some
            implies 0 <= table@[i][j]->0 <= needle.len() * top_weight() by {
            if i != needle_at {
                assert(table@[i] == rows[i]);
                assert(rows[i][j] is Some);
            } else if j != hay_at {
                assert(rows[i][j] is Some);
            }
        }
    }
    score
}

/// The score that taking the rest of the query, character by character,
/// gives.
fn walk_from(
    hay: &Vec<char>,
    needle: &Vec<char>,
    weights: &Weights,
    table: &mut Vec<Vec<Option<i128>>>,
    hay_at: usize,
    needle_at: usize,
    last: usize,
    carried: i128,
) -> (score: i128)
    requires
        table_fits(old(table)@, needle.len() as int, hay.len() as int),
        table_within(old(table)@, needle.len() * top_weight()),
        hay_at <= hay.len(),
        needle_at <= needle.len(),
        last <= hay_at,
        0 <= carried <= needle_at * top_weight(),
    ensures
        (score as int, table_view(final(table)@)) == walk(
            hay@,
            needle@,
            *weights,
            table_view(old(table)@),
            hay_at as int,
            needle_at as int,
            last as int,
            carried as int,
            0,
        ),
        table_fits(final(table)@, needle.len() as int, hay.len() as int),
        table_within(final(table)@, needle.len() * top_weight()),
        0 <= score <= needle.len() * top_weight(),
    decreases hay.len() - hay_at, 0int,
{
    let ghost whole = walk(
        hay@,
        needle@,
        *weights,
        table_view(table@),
        hay_at as int,
        needle_at as int,
        last as int,
        carried as int,
        0,
    );
    let ghost top = needle.len() * top_weight();
    let mut h: usize = hay_at;
    let mut i: usize = needle_at;
    let mut l: usize = last;
    let mut score: i128 = carried;
    let mut seen: i128 = 0;
    proof {
        assert(needle_at * top_weight() <= needle.len() * top_weight()) by (nonlinear_arith)
            requires
                needle_at <= needle.len(),
                top_weight() >= 0,
        ;
    }
    while i < needle.len()
        invariant
            hay_at <= h <= hay.len(),
            needle_at <= i <= needle.len(),
            l <= h,
            top == needle.len() * top_weight(),
            0 <= score <= i * top_weight(),
            0 <= seen <= top,
            i * top_weight() <= top,
            table_fits(table@, needle.len() as int, hay.len() as int),
            table_within(table@, top),
            whole == walk(
                hay@,
                needle@,
                *weights,
                table_view(old(table)@),
                hay_at as int,
                needle_at as int,
                last as int,
                carried as int,
                0,
            ),
            whole == walk(
                hay@,
                needle@,
                *weights,
                table_view(table@),
                h as int,
                i as int,
                l as int,
                score as int,
                seen as int,
            ),
        decreases needle.len() - i,
    {
        match find_fold(hay, h, needle[i]) {
            None => {
                proof {
                    assert(top >= 0);
                    assert(walk(
                        hay@,
                        needle@,
                        *weights,
                        table_view(table@),
                        h as int,
                        i as int,
                        l as int,
                        score as int,
                        seen as int,
                    ) == (0int, table_view(table@)));
                }
                return 0;
            },
            Some(at) => {
                let tried = if at + 1 < hay.len() {
                    align_from(hay, needle, weights, table, at + 1, i, l, score)
                } else {
                    0
                };
                let worth = gain(hay, weights, at, l);
                if tried > seen {
                    seen = tried;
                }
                proof {
                    assert((i + 1) * top_weight() == i * top_weight() + top_weight())
                        by (nonlinear_arith);
                    assert((i + 1) * top_weight() <= needle.len() * top_weight())
                        by (nonlinear_arith)
                        requires
                            i + 1 <= needle.len(),
                            top_weight() >= 0,
                    ;
                }
                score = score + worth as i128;
                l = at;
                h = at + 1;
                i = i + 1;
            },
        }
    }
    if score >= seen {
        score
    } else {
        seen
    }
}

/// What a match with nothing taken off is worth for a candidate of
/// `hay_len` characters and a query of `needle_len`: half the sum of the
/// score one divided by the one length and by the other, each division
/// rounded down.
pub open spec fn unit_weight(hay_len: nat, needle_len: nat) -> int {
    if hay_len == 0 || needle_len == 0 {
        0
    } else {
        (FULL_SCORE as int / hay_len as int + FULL_SCORE as int / needle_len as int) / 2
    }
}

/// What each kind of match is worth for the two lengths: the whole unit,
/// nine tenths of it behind a slash, eight tenths behind a separator and
/// on a camel hump, seven tenths behind a dot, and three quarters of it,
/// divided by the distance, far from the last match. Each is rounded down.
pub open spec fn weights_of(hay_len: nat, needle_len: nat) -> Weights {
    let unit = unit_weight(hay_len, needle_len);
    Weights {
        full: unit as u32,
        after_slash: (unit * 9 / 10) as u32,
        after_separator: (unit * 8 / 10) as u32,
        camel_hump: (unit * 8 / 10) as u32,
        after_dot: (unit * 7 / 10) as u32,
        gap_base: (unit * 3 / 4) as u32,
    }
}

/// What each kind of match is worth for the two lengths.
pub fn weights_for(hay_len: usize, needle_len: usize) -> (weights: Weights)
    ensures
        weights == weights_of(hay_len as nat, needle_len as nat),
{
    let unit: u64 = if hay_len == 0 || needle_len == 0 {
        0
    } else {
        let by_hay: u64 = 0x4000_0000u64 / hay_len as u64;
        let by_needle: u64 = 0x4000_0000u64 / needle_len as u64;
        proof {
            assert(0x4000_0000int / hay_len as int <= 0x4000_0000) by (nonlinear_arith)
                requires
                    hay_len >= 1,
            ;
            assert(0x4000_0000int / needle_len as int <= 0x4000_0000) by (nonlinear_arith)
                requires
                    needle_len >= 1,
            ;
        }
        (by_hay + by_needle) / 2
    };
    Weights {
        full: unit as u32,
        after_slash: (unit * 9 / 10) as u32,
        after_separator: (unit * 8 / 10) as u32,
        camel_hump: (unit * 8 / 10) as u32,
        after_dot: (unit * 7 / 10) as u32,
        gap_base: (unit * 3 / 4) as u32,
    }
}

/// A table of `rows` rows of `columns` entries that holds no score.
fn new_table(rows: usize, columns: usize) -> (table: Vec<Vec<Option<i128>>>)
    ensures
        table_fits(table@, rows as int, columns as int),
        table_view(table@) == empty_table(rows as nat, columns as nat),
{
    let mut table: Vec<Vec<Option<i128>>> = Vec::new();
    let mut i: usize = 0;
    while i < rows
        invariant
            0 <= i <= rows,
            table.len() == i,
            forall|r: int| 0 <= r < i ==> (#[trigger] table[r]).len() == columns,
            forall|r: int, c: int| 0 <= r < i && 0 <= c < columns ==> (#[trigger] table[r][c]) is None,
        decreases rows - i,
    {
        let mut row: Vec<Option<i128>> = Vec::new();
        let mut j: usize = 0;
        while j < columns
            invariant
                0 <= j <= columns,
                row.len() == j,
                forall|c: int| 0 <= c < j ==> (#[trigger] row[c]) is None,
            decreases columns - j,
        {
            row.push(None);
            j = j + 1;
        }
        table.push(row);
        i = i + 1;
    }
    proof {
        assert forall|r: int| 0 <= r < rows implies #[trigger] table_view(table@)[r] =~= empty_table(
            rows as nat,
            columns as nat,
        )[r] by {
            assert forall|c: int| 0 <= c < columns implies key_view(table[r]@)[c] == None::<int> by {
                assert(table[r][c] is None);
            }
        }
        assert(table_view(table@) =~= empty_table(rows as nat, columns as nat));
    }
    table
}

/// The score of the best alignment of `needle` inside `hay` that the search
/// finds, with what `weights` say each kind of match is worth.
pub fn score_alignment(hay: &Vec<char>, needle: &Vec<char>, weights: &Weights) -> (score: i128)
    ensures
        score == alignment_score(hay@, needle@, *weights),
{
    if needle.len() == 0 || hay.len() < needle.len() {
        proof {
            let table = empty_table(needle.len() as nat, hay.len() as nat);
            assert(held(table, 0, 0) is None);
        }
        return 0;
    }
    let mut table = new_table(needle.len(), hay.len());
    proof {
        assert(needle.len() * top_weight() >= 0) by (nonlinear_arith)
            requires
                needle.len() >= 0,
                top_weight() >= 0,
        ;
        assert forall|i: int, j: int|
            0 <= i < table@.len() && 0 <= j < table@[i].len() && (#[trigger] table@[i][j]) is Some
            implies 0 <= table@[i][j]->0 <= needle.len() * top_weight() by {
            assert(table_view(table@)[i][j] is None);
        }
    }
    align_from(hay, needle, weights, &mut table, 0, 0, 0, 0)
}

/// The score of a candidate for a query: for an empty query what
/// `unqueried_score` says, for any other the score of the best alignment
/// found with the weights that the two lengths give.
pub open spec fn recursive_score(query: Seq<char>, item: Seq<char>) -> int {
    if query.len() == 0 {
        unqueried_score(item) as int
    } else {
        alignment_score(item, query, weights_of(item.len(), query.len()))
    }
}

/// The scores of all candidates.
pub open spec fn recursive_scores(query: Seq<char>, items: Seq<Seq<char>>) -> Seq<i128> {
    Seq::new(items.len(), |i: int| recursive_score(query, items[i]) as i128)
}

/// Keeps the candidates inside which the characters of `text` are found
/// in order, upper-case letters of the candidate taken as lower-case ones,
/// and orders them by the score of the best alignment found, highest
/// first; candidates with the same score by their texts. An empty `text`
/// keeps the candidates that do not start with a dot.
pub fn alignment_match(text: &String, items: &Vec<String>) -> (found: Vec<String>)
    ensures
        found.deep_view() == scored_matches(
            items.deep_view(),
            recursive_scores(text@, items.deep_view()),
        ),
{
    let needle = chars_of(text.as_str());
    let mut scores: Vec<i128> = Vec::new();
    let mut i: usize = 0;
    while i < items.len()
        invariant
            0 <= i <= items.len(),
            scores.len() == i,
            needle@ == text@,
            forall|p: int| 0 <= p < i ==> #[trigger] scores[p] == recursive_score(text@, items[p]@),
        decreases items.len() - i,
    {
        let score = if needle.len() == 0 {
            score_unqueried(items[i].as_str())
        } else {
            let hay = chars_of(items[i].as_str());
            let weights = weights_for(hay.len(), needle.len());
            score_alignment(&hay, &needle, &weights)
        };
        scores.push(score);
        i = i + 1;
    }
    proof {
        assert(scores@ =~= recursive_scores(text@, items.deep_view()));
    }
    ranked_by_score(items, &scores)
}

/// No candidate is invented and none is doubled: a candidate with a
/// positive score stands in the result as often as in the input, and any
/// other text does not stand in it.
pub proof fn lemma_alignment_subset(query: Seq<char>, items: Seq<Seq<char>>, e: Seq<char>)
    ensures
        scored_matches(items, recursive_scores(query, items)).to_multiset().count(e)
            == if items.contains(e) && recursive_score(query, e) as i128 > 0 {
            items.to_multiset().count(e)
        } else {
            0
        },
{
    let scores = recursive_scores(query, items);
    let keys = scored_keys(items, scores);
    lemma_scored_subset(items, scores, e);
    if is_kept(items, keys, e) {
        let i = choose|i: int| 0 <= i < items.len() && #[trigger] items[i] == e && keys[i] is Some;
        assert(items.contains(e));
    }
    if items.contains(e) && recursive_score(query, e) as i128 > 0 {
        let i = choose|i: int| 0 <= i < items.len() && items[i] == e;
        assert(items[i] == e && keys[i] is Some);
    }
}

/// With an empty query a candidate that starts with a dot scores zero and
/// is left out; any other scores one and stands in the result as often as in
/// the input.
pub proof fn lemma_alignment_empty_query(items: Seq<Seq<char>>, e: Seq<char>)
    ensures
        recursive_score(Seq::empty(), e) == if is_dotted(e) {
            0
        } else {
            FULL_SCORE as int
        },
        scored_matches(items, recursive_scores(Seq::empty(), items)).to_multiset().count(e)
            == if items.contains(e) && !is_dotted(e) {
            items.to_multiset().count(e)
        } else {
            0
        },
{
    assert(recursive_scores(Seq::empty(), items) =~= unqueried_scores(items));
    lemma_unqueried_subset(items, e);
}

/// The result is ordered by descending score, candidates with the same
/// score by their texts, and equal texts stand as they stood in the input.
pub proof fn lemma_alignment_stable(query: Seq<char>, items: Seq<Seq<char>>, a: int, b: int)
    requires
        0 <= a < b < ranking(scored_keys(items, recursive_scores(query, items))).len(),
    ensures
        ({
            let order = ranking(scored_keys(items, recursive_scores(query, items)));
            let first = recursive_score(query, items[order[a]]) as i128;
            let second = recursive_score(query, items[order[b]]) as i128;
            &&& 0 <= order[a] < items.len() && 0 <= order[b] < items.len()
            &&& first > 0 && second > 0
            &&& first >= second
            &&& first == second ==> !text_lt(items[order[b]], items[order[a]])
            &&& first == second && items[order[a]] == items[order[b]] ==> order[a] < order[b]
        }),
{
    lemma_scored_stable(items, recursive_scores(query, items), a, b);
}

/// The characters of `needle` stand in `hay` in order, each behind the one
/// before it, upper-case letters of `hay` taken as lower-case ones.
pub open spec fn folds_into(needle: Seq<char>, hay: Seq<char>) -> bool
    decreases hay.len(),
{
    if needle.len() == 0 {
        true
    } else if hay.len() == 0 {
        false
    } else {
        (fold_matches(hay[0], needle[0]) && folds_into(needle.drop_first(), hay.drop_first()))
            || folds_into(needle, hay.drop_first())
    }
}

/// Every positive score that the table holds is the score of a part of the
/// query that stands in its part of the candidate.
pub open spec fn table_is_sound(table: Seq<Seq<Option<int>>>, hay: Seq<char>, needle: Seq<char>) -> bool {
    forall|i: int, j: int|
        0 <= i < table.len() && 0 <= j < table[i].len() && (#[trigger] table[i][j]) is Some
            && table[i][j]->0 > 0 ==> folds_into(needle.skip(i), hay.skip(j))
}

/// What stands in a later part of the candidate stands in an earlier part.
proof fn lemma_folds_into_earlier(needle: Seq<char>, hay: Seq<char>, from: int, to: int)
    requires
        0 <= from <= to <= hay.len(),
        folds_into(needle, hay.skip(to)),
    ensures
        folds_into(needle, hay.skip(from)),
    decreases to - from,
{
    if from < to {
        lemma_folds_into_earlier(needle, hay, from + 1, to);
        assert(hay.skip(from).drop_first() =~= hay.skip(from + 1));
    }
}

/// Storing the score of a part of the query that stands in its part of the
/// candidate, or a score of zero, leaves the table sound.
proof fn lemma_stored_is_sound(
    table: Seq<Seq<Option<int>>>,
    hay: Seq<char>,
    needle: Seq<char>,
    needle_at: int,
    hay_at: int,
    score: int,
)
    requires
        table_is_sound(table, hay, needle),
        score > 0 ==> folds_into(needle.skip(needle_at), hay.skip(hay_at)),
    ensures
        table_is_sound(stored(table, needle_at, hay_at, score), hay, needle),
{
    let after = stored(table, needle_at, hay_at, score);
    assert forall|i: int, j: int|
        0 <= i < after.len() && 0 <= j < after[i].len() && (#[trigger] after[i][j]) is Some
            && after[i][j]->0 > 0 implies folds_into(needle.skip(i), hay.skip(j)) by {
        if i != needle_at || j != hay_at {
            assert(table[i][j] == after[i][j]);
        }
    }
}

/// A positive score is the score of a part of the query that stands in its
/// part of the candidate, and the table stays sound.
proof fn lemma_align_is_sound(
    hay: Seq<char>,
    needle: Seq<char>,
    weights: Weights,
    table: Seq<Seq<Option<int>>>,
    hay_at: int,
    needle_at: int,
    last: int,
    carried: int,
)
    requires
        table_is_sound(table, hay, needle),
        0 <= hay_at <= hay.len(),
        0 <= needle_at <= needle.len(),
    ensures
        table_is_sound(
            align(hay, needle, weights, table, hay_at, needle_at, last, carried).1,
            hay,
            needle,
        ),
        align(hay, needle, weights, table, hay_at, needle_at, last, carried).0 > 0 ==> folds_into(
            needle.skip(needle_at),
            hay.skip(hay_at),
        ),
    decreases hay.len() - hay_at, 1int,
{
    if held(table, needle_at, hay_at) is Some {
        assert(table[needle_at][hay_at] is Some);
    } else if hay.len() - hay_at < needle.len() - needle_at {
        lemma_stored_is_sound(table, hay, needle, needle_at, hay_at, 0);
    } else {
        lemma_walk_is_sound(hay, needle, weights, table, hay_at, needle_at, last, carried, 0);
        let found = walk(hay, needle, weights, table, hay_at, needle_at, last, carried, 0);
        lemma_stored_is_sound(found.1, hay, needle, needle_at, hay_at, found.0);
    }
}

/// A walk that ends with a positive score has found every character, and
/// the table stays sound.
proof fn lemma_walk_is_sound(
    hay: Seq<char>,
    needle: Seq<char>,
    weights: Weights,
    table: Seq<Seq<Option<int>>>,
    hay_at: int,
    needle_at: int,
    last: int,
    score: int,
    seen: int,
)
    requires
        table_is_sound(table, hay, needle),
        0 <= hay_at <= hay.len(),
        0 <= needle_at <= needle.len(),
    ensures
        table_is_sound(
            walk(hay, needle, weights, table, hay_at, needle_at, last, score, seen).1,
            hay,
            needle,
        ),
        walk(hay, needle, weights, table, hay_at, needle_at, last, score, seen).0 > 0
            ==> folds_into(needle.skip(needle_at), hay.skip(hay_at)),
    decreases hay.len() - hay_at, 0int,
{
    if needle_at >= needle.len() {
        assert(needle.skip(needle_at).len() == 0);
    } else {
        lemma_first_fold_match(hay, hay_at, needle[needle_at]);
        match first_fold_match(hay, hay_at, needle[needle_at]) {
            None => {},
            Some(at) => {
                let tried = if at + 1 < hay.len() {
                    align(hay, needle, weights, table, at + 1, needle_at, last, score)
                } else {
                    (0int, table)
                };
                if at + 1 < hay.len() {
                    lemma_align_is_sound(hay, needle, weights, table, at + 1, needle_at, last, score);
                }
                let gained = score + gain_at(hay, weights, at, last);
                let best = if seen >= tried.0 {
                    seen
                } else {
                    tried.0
                };
                lemma_walk_is_sound(
                    hay,
                    needle,
                    weights,
                    tried.1,
                    at + 1,
                    needle_at + 1,
                    at,
                    gained,
                    best,
                );
                if walk(hay, needle, weights, tried.1, at + 1, needle_at + 1, at, gained, best).0
                    > 0 {
                    let here = hay.skip(at);
                    let rest = needle.skip(needle_at);
                    assert(here[0] == hay[at]);
                    assert(rest[0] == needle[needle_at]);
                    assert(here.drop_first() =~= hay.skip(at + 1));
                    assert(rest.drop_first() =~= needle.skip(needle_at + 1));
                    assert(folds_into(rest, here));
                    lemma_folds_into_earlier(rest, hay, hay_at, at);
                }
            },
        }
    }
}

/// A positive score is the score of a query that stands in the candidate.
pub proof fn lemma_alignment_score_is_sound(hay: Seq<char>, needle: Seq<char>, weights: Weights)
    requires
        alignment_score(hay, needle, weights) > 0,
    ensures
        folds_into(needle, hay),
{
    let table = empty_table(needle.len(), hay.len());
    assert(table_is_sound(table, hay, needle));
    lemma_align_is_sound(hay, needle, weights, table, 0, 0, 0, 0);
    assert(needle.skip(0) =~= needle);
    assert(hay.skip(0) =~= hay);
}

/// A candidate in the result for a query that is not empty holds the
/// characters of the query in order.
pub proof fn lemma_alignment_kept_folds_in(query: Seq<char>, item: Seq<char>)
    requires
        query.len() > 0,
        recursive_score(query, item) > 0,
    ensures
        folds_into(query, item),
{
    lemma_alignment_score_is_sound(item, query, weights_of(item.len(), query.len()));
}

/// Every kind of match is worth something in a candidate of `hay_len`
/// characters: no weight is zero, and the weight of a far match is not less
/// than the greatest distance there can be.
pub open spec fn all_matches_count(weights: Weights, hay_len: nat) -> bool {
    &&& weights.full > 0
    &&& weights.after_slash > 0
    &&& weights.after_separator > 0
    &&& weights.camel_hump > 0
    &&& weights.after_dot > 0
    &&& weights.gap_base >= hay_len
}

/// Where every kind of match is worth something, a match behind the last
/// one is worth one at least.
proof fn lemma_gain_counts(hay: Seq<char>, weights: Weights, at: int, last: int)
    requires
        all_matches_count(weights, hay.len()),
        0 <= last <= at < hay.len(),
        hay.len() <= usize::MAX,
    ensures
        gain_at(hay, weights, at, last) >= 1,
{
    let distance = (at - last) as usize;
    match bonus_of(char_before(hay, at), hay[at], distance) {
        Bonus::Gap(d) => {
            assert(d == distance);
            assert(weights.gap_base as int / d as int >= 1) by (nonlinear_arith)
                requires
                    1 <= d <= weights.gap_base,
            ;
        },
        _ => {},
    }
}

/// Where the query stands in a part of the candidate, its first character
/// has a first match there, and the rest of the query stands behind it.
proof fn lemma_first_match_serves(needle: Seq<char>, hay: Seq<char>, from: int)
    requires
        0 <= from <= hay.len(),
        needle.len() > 0,
        folds_into(needle, hay.skip(from)),
    ensures
        first_fold_match(hay, from, needle[0]) is Some,
        folds_into(needle.drop_first(), hay.skip(first_fold_match(hay, from, needle[0])->0 + 1)),
    decreases hay.len() - from,
{
    let view = hay.skip(from);
    if from < hay.len() {
        assert(view[0] == hay[from]);
        assert(view.drop_first() =~= hay.skip(from + 1));
        if fold_matches(hay[from], needle[0]) {
            if !folds_into(needle.drop_first(), hay.skip(from + 1)) {
                lemma_first_match_serves(needle, hay, from + 1);
                let later = first_fold_match(hay, from + 1, needle[0])->0;
                lemma_first_fold_match(hay, from + 1, needle[0]);
                lemma_folds_into_earlier(needle.drop_first(), hay, from + 1, later + 1);
            }
        } else {
            lemma_first_match_serves(needle, hay, from + 1);
        }
    }
}

/// Where every kind of match is worth something, a walk through a part of
/// the candidate in which the rest of the query stands ends with a score
/// that has grown by one at least for each character of that rest.
proof fn lemma_walk_is_complete(
    hay: Seq<char>,
    needle: Seq<char>,
    weights: Weights,
    table: Seq<Seq<Option<int>>>,
    hay_at: int,
    needle_at: int,
    last: int,
    score: int,
    seen: int,
)
    requires
        all_matches_count(weights, hay.len()),
        hay.len() <= usize::MAX,
        0 <= last <= hay_at <= hay.len(),
        0 <= needle_at <= needle.len(),
        folds_into(needle.skip(needle_at), hay.skip(hay_at)),
    ensures
        walk(hay, needle, weights, table, hay_at, needle_at, last, score, seen).0 >= score
            + needle.len() - needle_at,
    decreases needle.len() - needle_at,
{
    if needle_at < needle.len() {
        let rest = needle.skip(needle_at);
        assert(rest[0] == needle[needle_at]);
        assert(rest.drop_first() =~= needle.skip(needle_at + 1));
        lemma_first_match_serves(rest, hay, hay_at);
        lemma_first_fold_match(hay, hay_at, needle[needle_at]);
        let at = first_fold_match(hay, hay_at, needle[needle_at])->0;
        let tried = if at + 1 < hay.len() {
            align(hay, needle, weights, table, at + 1, needle_at, last, score)
        } else {
            (0int, table)
        };
        lemma_gain_counts(hay, weights, at, last);
        lemma_walk_is_complete(
            hay,
            needle,
            weights,
            tried.1,
            at + 1,
            needle_at + 1,
            at,
            score + gain_at(hay, weights, at, last),
            if seen >= tried.0 {
                seen
            } else {
                tried.0
            },
        );
    }
}

/// Where every kind of match is worth something, a query that is not empty
/// and stands in the candidate has a positive score.
pub proof fn lemma_alignment_score_is_complete(hay: Seq<char>, needle: Seq<char>, weights: Weights)
    requires
        all_matches_count(weights, hay.len()),
        hay.len() <= usize::MAX,
        needle.len() > 0,
        folds_into(needle, hay),
    ensures
        alignment_score(hay, needle, weights) > 0,
{
    let table = empty_table(needle.len(), hay.len());
    assert(needle.skip(0) =~= needle);
    assert(hay.skip(0) =~= hay);
    lemma_folds_into_fits(needle, hay);
    assert(held(table, 0, 0) is None);
    lemma_walk_is_complete(hay, needle, weights, table, 0, 0, 0, 0, 0);
}

/// What stands in a text is not longer than the text.
proof fn lemma_folds_into_fits(needle: Seq<char>, hay: Seq<char>)
    requires
        folds_into(needle, hay),
    ensures
        needle.len() <= hay.len(),
    decreases hay.len(),
{
    if needle.len() > 0 && hay.len() > 0 {
        if fold_matches(hay[0], needle[0]) && folds_into(needle.drop_first(), hay.drop_first()) {
            lemma_folds_into_fits(needle.drop_first(), hay.drop_first());
        } else {
            lemma_folds_into_fits(needle, hay.drop_first());
        }
    }
}

/// For a candidate of no more than 16384 characters and a query that is
/// not longer, every kind of match is worth something.
pub proof fn lemma_weights_count(hay_len: nat, needle_len: nat)
    requires
        1 <= needle_len <= hay_len <= 0x4000,
    ensures
        all_matches_count(weights_of(hay_len, needle_len), hay_len),
{
    let by_hay = FULL_SCORE as int / hay_len as int;
    let by_needle = FULL_SCORE as int / needle_len as int;
    assert(0x1_0000 <= by_hay <= 0x4000_0000) by (nonlinear_arith)
        requires
            by_hay == 0x4000_0000int / hay_len as int,
            1 <= hay_len <= 0x4000,
    ;
    assert(0x1_0000 <= by_needle <= 0x4000_0000) by (nonlinear_arith)
        requires
            by_needle == 0x4000_0000int / needle_len as int,
            1 <= needle_len <= 0x4000,
    ;
}

/// For a candidate of no more than 16384 characters, a query that is not
/// empty has a positive score exactly if its characters stand in the
/// candidate in order.
pub proof fn lemma_alignment_keeps_what_folds_in(query: Seq<char>, item: Seq<char>)
    requires
        query.len() > 0,
        item.len() <= 0x4000,
    ensures
        recursive_score(query, item) > 0 <==> folds_into(query, item),
{
    let weights = weights_of(item.len(), query.len());
    if recursive_score(query, item) > 0 {
        lemma_alignment_score_is_sound(item, query, weights);
    }
    if folds_into(query, item) {
        lemma_folds_into_fits(query, item);
        lemma_weights_count(item.len(), query.len());
        lemma_alignment_score_is_complete(item, query, weights);
    }
}

} // verus!
