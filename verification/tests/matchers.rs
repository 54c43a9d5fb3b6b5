use rumenu::sorting::{rank, IntKeys};
use rumenu::{dmenu_match, fuzzy_match, simple_match};

fn strings(items: &[&str]) -> Vec<String> {
    items.iter().map(|s| s.to_string()).collect()
}

#[test]
fn test_simple_match_normal_case() {
    let match_results = simple_match(&"test".to_string(), &vec!["atest".to_string(), "test".to_string(), "testa".to_string(), "nomatch".to_string()]);
    assert!(match_results.len() == 3);
    assert!(match_results[0] == "test".to_string());
    assert!(match_results[1] == "testa".to_string());
    assert!(match_results[2] == "atest".to_string());
}

#[test]
fn test_simple_match_no_matches() {
    let match_results = simple_match(&"bad-search".to_string(), &vec!["test1".to_string(), "test2".to_string(), "test3".to_string()]);
    assert!(match_results.len() == 0);
}

#[test]
fn simple_match_empty_query_keeps_everything() {
    let items = strings(&["b", "a", "", "b", "zz"]);
    assert_eq!(simple_match(&String::new(), &items), items);
}

#[test]
fn simple_match_empty_list() {
    assert_eq!(simple_match(&"x".to_string(), &Vec::new()), Vec::<String>::new());
    assert_eq!(simple_match(&String::new(), &Vec::new()), Vec::<String>::new());
}

#[test]
fn simple_match_query_longer_than_candidate() {
    let items = strings(&["ab", "abc", "abcd", ""]);
    assert_eq!(simple_match(&"abcd".to_string(), &items), strings(&["abcd"]));
}

#[test]
fn simple_match_match_at_last_index() {
    let items = strings(&["abcx", "x", "ax"]);
    assert_eq!(simple_match(&"x".to_string(), &items), strings(&["x", "ax", "abcx"]));
}

#[test]
fn simple_match_orders_by_offset_and_keeps_ties() {
    let items = strings(&["__ab", "ab2", "_ab", "ab1", "_ab_", "ba"]);
    assert_eq!(
        simple_match(&"ab".to_string(), &items),
        strings(&["ab2", "ab1", "_ab", "_ab_", "__ab"])
    );
}

#[test]
fn simple_match_counts_offsets_in_bytes() {
    // "é" takes two bytes, so "x" stands at byte 3 in both candidates.
    let items = strings(&["abcx", "éax", "aax"]);
    assert_eq!(simple_match(&"x".to_string(), &items), strings(&["aax", "abcx", "éax"]));
    let items = strings(&["éax", "abcx"]);
    assert_eq!(simple_match(&"x".to_string(), &items), strings(&["éax", "abcx"]));
}

#[test]
fn simple_match_keeps_duplicates() {
    let items = strings(&["ab", "b", "ab", "c", "b"]);
    assert_eq!(simple_match(&"b".to_string(), &items), strings(&["b", "b", "ab", "ab"]));
}

#[test]
fn simple_match_is_case_sensitive() {
    let items = strings(&["Test", "test", "TEST"]);
    assert_eq!(simple_match(&"test".to_string(), &items), strings(&["test"]));
}

#[test]
fn simple_match_same_input_same_output() {
    let items = strings(&["cab", "abc", "bca", "zzz", "ab"]);
    let first = simple_match(&"ab".to_string(), &items);
    let second = simple_match(&"ab".to_string(), &items);
    assert_eq!(first, second);
    assert_eq!(first, strings(&["abc", "ab", "cab"]));
}

#[test]
fn dmenu_match_empty_query_returns_input() {
    let items = strings(&["test", "", "atest", "test", "other"]);
    assert_eq!(dmenu_match(&String::new(), &items), items);
    assert_eq!(dmenu_match(&String::new(), &Vec::new()), Vec::<String>::new());
}

#[test]
fn dmenu_match_prefix_before_substring() {
    let items = strings(&["test", "atest", "other"]);
    assert_eq!(dmenu_match(&"te".to_string(), &items), strings(&["test", "atest"]));
}

#[test]
fn dmenu_match_tiers_in_order() {
    let items = strings(&["xfoo", "foobar", "foo", "afoo", "foo", "bar", "food"]);
    assert_eq!(
        dmenu_match(&"foo".to_string(), &items),
        strings(&["foo", "foo", "foobar", "food", "xfoo", "afoo"])
    );
}

#[test]
fn dmenu_match_needs_every_word() {
    let items = strings(&["foo bar", "foo", "bar", "barfoo", "xbarxfoo"]);
    assert_eq!(
        dmenu_match(&"foo bar".to_string(), &items),
        strings(&["foo bar", "barfoo", "xbarxfoo"])
    );
}

#[test]
fn dmenu_match_equal_word_wins_over_weaker_words() {
    // "foobar" is equalled by the first word; "bar" occurs in it further right.
    let items = strings(&["xfoobar", "foobarbar", "foobar"]);
    assert_eq!(
        dmenu_match(&"foobar bar".to_string(), &items),
        strings(&["foobar", "foobarbar", "xfoobar"])
    );
    assert_eq!(
        dmenu_match(&"bar foobar".to_string(), &items),
        strings(&["foobar", "foobarbar", "xfoobar"])
    );
}

#[test]
fn dmenu_match_white_space_only_keeps_nothing() {
    let items = strings(&["a", " ", "b c"]);
    assert_eq!(dmenu_match(&" ".to_string(), &items), Vec::<String>::new());
    assert_eq!(dmenu_match(&" \t\n".to_string(), &items), Vec::<String>::new());
}

#[test]
fn dmenu_match_splits_on_any_white_space() {
    let items = strings(&["ab", "a", "b", "ba"]);
    assert_eq!(dmenu_match(&"  a\t\tb ".to_string(), &items), strings(&["ab", "ba"]));
    assert_eq!(dmenu_match(&"a\u{a0}b".to_string(), &items), strings(&["ab", "ba"]));
    assert_eq!(dmenu_match(&"a\u{3000}b\u{2003}".to_string(), &items), strings(&["ab", "ba"]));
    assert_eq!(dmenu_match(&"a\u{200b}b".to_string(), &items), Vec::<String>::new());
}

#[test]
fn dmenu_match_same_input_same_output() {
    let items = strings(&["ls", "lsof", "false", "ls", "also"]);
    let first = dmenu_match(&"ls".to_string(), &items);
    assert_eq!(first, dmenu_match(&"ls".to_string(), &items));
    assert_eq!(first, strings(&["ls", "ls", "lsof", "false", "also"]));
}

#[test]
fn fuzzy_match_empty_query_returns_input() {
    let items = strings(&["b", "", "a", "b"]);
    assert_eq!(fuzzy_match(&String::new(), &items), items);
}

#[test]
fn fuzzy_match_scores() {
    // "ab" in "ab": 1 + (10 - 0) + (10 - 1) = 20; in "a_b": 1 + 10 + 8 = 19;
    // in "xab": 1 + 9 + 9 = 19; "ba" has no "b" behind its "a".
    let items = strings(&["xab", "a_b", "ba", "ab"]);
    assert_eq!(fuzzy_match(&"ab".to_string(), &items), strings(&["ab", "xab", "a_b"]));
}

#[test]
fn fuzzy_match_same_character_twice_is_found_in_place() {
    // The view starts at the character found, so "aa" is found in "a":
    // 1 + 10 + 10 = 21, as in "aa".
    let items = strings(&["ba", "aa", "a"]);
    assert_eq!(fuzzy_match(&"aa".to_string(), &items), strings(&["aa", "a", "ba"]));
}

#[test]
fn fuzzy_match_far_offsets_lower_the_score() {
    // "z" at offset 10 scores 1 + 0 = 1 and stays; at offset 11 it scores 0
    // and at offset 12 it scores -1: both are dropped.
    let items = strings(&["0123456789abz", "0123456789az", "0123456789z", "z"]);
    assert_eq!(fuzzy_match(&"z".to_string(), &items), strings(&["z", "0123456789z"]));
}

#[test]
fn fuzzy_match_counts_offsets_in_bytes() {
    // Five two-byte characters put "z" at byte offset 10: score 1.
    // Six of them put it at byte offset 12: score -1.
    let items = strings(&["ééééééz", "éééééz"]);
    assert_eq!(fuzzy_match(&"z".to_string(), &items), strings(&["éééééz"]));
}

#[test]
fn fuzzy_match_keeps_ties_in_input_order() {
    let items = strings(&["b1a", "a1", "c2a", "a2", "nothing"]);
    assert_eq!(fuzzy_match(&"a".to_string(), &items), strings(&["a1", "a2", "b1a", "c2a"]));
}

fn count(items: &[String], e: &String) -> usize {
    items.iter().filter(|x| *x == e).count()
}

#[test]
fn results_hold_candidates_as_often_as_the_input() {
    let items = strings(&["ab", "b", "ab", "ba", "c", "", "ab", "b a"]);
    for query in ["", "a", "b", "ab", "a b", "zz"] {
        let query = query.to_string();
        for out in [
            simple_match(&query, &items),
            dmenu_match(&query, &items),
            fuzzy_match(&query, &items),
        ] {
            for e in &out {
                assert_eq!(count(&out, e), count(&items, e));
            }
        }
    }
}

#[test]
fn rank_orders_kept_candidates_by_key() {
    let keys = vec![Some(3), None, Some(-1), Some(3), Some(0), None, Some(-1)];
    assert_eq!(rank(&IntKeys { keys }), vec![2, 6, 4, 0, 3]);
    assert_eq!(rank(&IntKeys { keys: vec![] }), Vec::<usize>::new());
    assert_eq!(rank(&IntKeys { keys: vec![None, None] }), Vec::<usize>::new());
    assert_eq!(rank(&IntKeys { keys: vec![Some(7); 5] }), vec![0, 1, 2, 3, 4]);
    let many: Vec<Option<i128>> = (0..1000).map(|i| Some(((i * 7919) % 13) as i128)).collect();
    let order = rank(&IntKeys { keys: many.clone() });
    assert_eq!(order.len(), 1000);
    for pair in order.windows(2) {
        let (a, b) = (pair[0], pair[1]);
        assert!(many[a] < many[b] || (many[a] == many[b] && a < b));
    }
}
