use rumenu::alignment::{
    alignment_match, bonus_for, find_fold, matches_folded, score_alignment, weights_for,
    Bonus, Weights,
};
use rumenu::scored::{ranked_by_score, score_unqueried, text_not_after, FULL_SCORE};

fn strings(items: &[&str]) -> Vec<String> {
    items.iter().map(|s| s.to_string()).collect()
}

fn chars(s: &str) -> Vec<char> {
    s.chars().collect()
}

fn score(hay: &str, needle: &str) -> i128 {
    let hay = chars(hay);
    let needle = chars(needle);
    score_alignment(&hay, &needle, &weights_for(hay.len(), needle.len()))
}

#[test]
fn empty_needle_drops_dotted_candidates() {
    assert_eq!(score_unqueried(".bashrc"), 0);
    assert_eq!(score_unqueried("bashrc"), FULL_SCORE);
    assert_eq!(score_unqueried(""), FULL_SCORE);
    assert_eq!(score_unqueried("a.b"), FULL_SCORE);
    let items = strings(&["zsh", ".bashrc", "bash", ".", "a.b", "bash"]);
    assert_eq!(alignment_match(&String::new(), &items), strings(&["a.b", "bash", "bash", "zsh"]));
}

#[test]
fn weights_follow_the_two_lengths() {
    let w = weights_for(4, 2);
    // (2^30 / 4 + 2^30 / 2) / 2
    assert_eq!(w.full, 402653184);
    assert_eq!(w.after_slash, 362387865);
    assert_eq!(w.after_separator, 322122547);
    assert_eq!(w.camel_hump, 322122547);
    assert_eq!(w.after_dot, 281857228);
    assert_eq!(w.gap_base, 301989888);
    assert_eq!(weights_for(1, 1).full, 1 << 30);
    assert_eq!(weights_for(3, 2).full, 447392426);
    let none = Weights { full: 0, after_slash: 0, after_separator: 0, camel_hump: 0, after_dot: 0, gap_base: 0 };
    assert_eq!(weights_for(0, 2), none);
    assert_eq!(weights_for(2, 0), none);
}

#[test]
fn bonus_goes_by_the_character_before() {
    assert_eq!(bonus_for(Some('/'), 'a', 1), Bonus::AfterSlash);
    assert_eq!(bonus_for(Some('/'), 'a', 5), Bonus::AfterSlash);
    assert_eq!(bonus_for(Some('-'), 'a', 5), Bonus::AfterSeparator);
    assert_eq!(bonus_for(Some('_'), 'a', 5), Bonus::AfterSeparator);
    assert_eq!(bonus_for(Some(' '), 'a', 5), Bonus::AfterSeparator);
    assert_eq!(bonus_for(Some('0'), 'a', 5), Bonus::AfterSeparator);
    assert_eq!(bonus_for(Some('9'), 'A', 5), Bonus::AfterSeparator);
    assert_eq!(bonus_for(Some('a'), 'B', 5), Bonus::CamelHump);
    assert_eq!(bonus_for(Some('z'), 'Z', 1), Bonus::CamelHump);
    assert_eq!(bonus_for(Some('A'), 'B', 5), Bonus::Gap(5));
    assert_eq!(bonus_for(Some('a'), 'b', 5), Bonus::Gap(5));
    assert_eq!(bonus_for(Some('.'), 'b', 5), Bonus::AfterDot);
    assert_eq!(bonus_for(Some('x'), 'b', 2), Bonus::Gap(2));
    assert_eq!(bonus_for(Some('x'), 'b', 1), Bonus::Full);
    assert_eq!(bonus_for(Some('x'), 'b', 0), Bonus::Full);
    assert_eq!(bonus_for(None, 'b', 0), Bonus::Full);
    assert_eq!(bonus_for(None, 'B', 0), Bonus::Full);
}

#[test]
fn candidate_letters_are_folded_and_query_letters_are_not() {
    assert!(matches_folded('A', 'a'));
    assert!(matches_folded('a', 'a'));
    assert!(matches_folded('Z', 'z'));
    assert!(!matches_folded('a', 'A'));
    assert!(!matches_folded('A', 'A'));
    assert!(!matches_folded('@', '`'));
    assert!(!matches_folded('[', '{'));
    assert!(matches_folded('é', 'é'));
    assert!(!matches_folded('É', 'é'));
    assert_eq!(find_fold(&chars("xxAbA"), 0, 'a'), Some(2));
    assert_eq!(find_fold(&chars("xxAbA"), 3, 'a'), Some(4));
    assert_eq!(find_fold(&chars("xxAbA"), 5, 'a'), None);
    assert_eq!(find_fold(&chars("xxAbA"), 9, 'a'), None);
    assert_eq!(find_fold(&chars("xxAbA"), 0, 'A'), None);
}

#[test]
fn whole_match_scores_one() {
    assert_eq!(score("ab", "ab"), FULL_SCORE);
    assert_eq!(score("a", "a"), FULL_SCORE);
    assert_eq!(score("A", "a"), FULL_SCORE);
}

#[test]
fn scores_of_single_alignments() {
    // 3 characters against 2: the unit is (2^30/3 + 2^30/2) / 2 = 447392426.
    assert_eq!(score("a/b", "ab"), 447392426 + 402653183);
    // Three quarters of the unit, 335544319, divided by the distance.
    assert_eq!(score("axb", "ab"), 447392426 + 335544319 / 2);
    assert_eq!(score("axxb", "ab"), 402653184 + 301989888 / 3);
    assert_eq!(score("a.b", "ab"), 447392426 + 313174698);
    assert_eq!(score("a-b", "ab"), 447392426 + 357913940);
    assert_eq!(score("xab", "ab"), 2 * 447392426);
    assert_eq!(score("ba", "ab"), 0);
    assert_eq!(score("a", "ab"), 0);
    assert_eq!(score("", "a"), 0);
    assert_eq!(score("abc", ""), 0);
    // 6 against 2: the unit is 357913941; "B" is a camel hump.
    assert_eq!(score("FooBar", "fb"), 357913941 + 286331152);
    assert_eq!(score("FooBar", "FB"), 0);
}

#[test]
fn a_later_alignment_can_win() {
    // Taking the first "a" leaves "b" three places away: 1 + 0.75 / 3 units.
    // Taking the second "a", behind the underscore, gives 0.8 + 1 units.
    assert_eq!(score("a_ab", "ab"), 322122547 + 402653184);
}

#[test]
fn a_query_that_cannot_be_finished_scores_nothing() {
    assert_eq!(score("aab", "abb"), 0);
    assert_eq!(score("abab", "abc"), 0);
}

#[test]
fn alignment_match_orders_by_score() {
    let items = strings(&["axb", "ba", "a/b", "xab", "ab", "AB"]);
    assert_eq!(
        alignment_match(&"ab".to_string(), &items),
        strings(&["AB", "ab", "xab", "a/b", "axb"])
    );
    assert_eq!(alignment_match(&"zz".to_string(), &items), Vec::<String>::new());
    assert_eq!(alignment_match(&"ab".to_string(), &Vec::new()), Vec::<String>::new());
}

#[test]
fn alignment_match_breaks_ties_by_text() {
    let items = strings(&["xb", "xa", "xc", "xa"]);
    assert_eq!(alignment_match(&"x".to_string(), &items), strings(&["xa", "xa", "xb", "xc"]));
}

#[test]
fn ranked_by_score_keeps_positive_scores() {
    let items = strings(&["d", "c", "b", "a", "e"]);
    assert_eq!(ranked_by_score(&items, &vec![5, 0, 7, 5, -3]), strings(&["b", "a", "d"]));
    // A candidate without a score is dropped.
    assert_eq!(ranked_by_score(&items, &vec![1, 1]), strings(&["c", "d"]));
    assert_eq!(ranked_by_score(&items, &vec![]), Vec::<String>::new());
    assert_eq!(ranked_by_score(&items, &vec![1, 1, 1, 1, 1, 9, 9]), strings(&["a", "b", "c", "d", "e"]));
}

#[test]
fn texts_are_ordered_character_by_character() {
    assert!(text_not_after(&chars(""), &chars("")));
    assert!(text_not_after(&chars(""), &chars("a")));
    assert!(!text_not_after(&chars("a"), &chars("")));
    assert!(text_not_after(&chars("ab"), &chars("ab")));
    assert!(text_not_after(&chars("ab"), &chars("abc")));
    assert!(!text_not_after(&chars("abc"), &chars("ab")));
    assert!(text_not_after(&chars("abc"), &chars("abd")));
    assert!(!text_not_after(&chars("b"), &chars("abd")));
    assert!(text_not_after(&chars("Z"), &chars("a")));
    assert!(text_not_after(&chars("z"), &chars("é")));
    assert_eq!(text_not_after(&chars("é"), &chars("z")), "é" <= "z");
}

#[test]
fn alignment_match_same_input_same_output() {
    let items = strings(&["src/main.rs", "src/matches.rs", "Makefile", "README.md", ".gitignore"]);
    let first = alignment_match(&"ma".to_string(), &items);
    assert_eq!(first, alignment_match(&"ma".to_string(), &items));
    for e in &first {
        assert_eq!(first.iter().filter(|x| *x == e).count(), 1);
        assert!(items.contains(e));
    }
    assert!(!first.contains(&"README.md".to_string()));
}
