use rumenu::editing::{index_at, insert_at, remove_at, string_of};
use rumenu::keys::{find_matches, keypress, remap, Key, Outcome, Press, Status};
use rumenu::settings::{settings_from, MenuArgs, Settings};

fn strings(items: &[&str]) -> Vec<String> {
    items.iter().map(|s| s.to_string()).collect()
}

fn settings(matcher: &str, lines: &str) -> Settings {
    settings_from(MenuArgs {
        version: false,
        topbar: false,
        help: false,
        caseinsensitive: false,
        lines: Some(lines.to_string()),
        cache: None,
        prompt: None,
        matcher: Some(matcher.to_string()),
        font: None,
        background: None,
        foreground: None,
        sbackground: None,
        sforeground: None,
    })
}

fn menu(items: &[&str]) -> Status {
    Status::start(strings(items), settings("simple", "0"))
}

fn plain(key: Key) -> Press {
    Press { key, control: false, mod1: false, shift: false, typed: '\0', printable: false }
}

fn typed(c: char) -> Press {
    Press { key: Key::Other, control: false, mod1: false, shift: false, typed: c, printable: true }
}

fn control(key: Key) -> Press {
    Press { key, control: true, mod1: false, shift: false, typed: '\u{1}', printable: false }
}

fn mod1(key: Key) -> Press {
    Press { key, control: false, mod1: true, shift: false, typed: 'x', printable: true }
}

fn is(outcome: &Outcome, wanted: &str) -> bool {
    format!("{:?}", outcome) == wanted
}

#[test]
fn start_selects_the_first_match() {
    let status = menu(&["beta", "alpha", "alps"]);
    assert_eq!(status.text, "");
    assert_eq!(status.matches, strings(&["beta", "alpha", "alps"]));
    assert_eq!(status.selected, "beta");
    assert_eq!(status.page, 0);
    let empty = menu(&[]);
    assert_eq!(empty.selected, "");
}

#[test]
fn typing_filters_the_matches() {
    let mut status = menu(&["beta", "alpha", "alps"]);
    status.page = 3;
    let mut cursor = 0;
    assert!(is(&keypress(&mut status, &mut cursor, &typed('a')), "Redraw"));
    assert_eq!(status.text, "a");
    assert_eq!(cursor, 1);
    assert_eq!(status.matches, strings(&["alpha", "alps", "beta"]));
    assert_eq!(status.selected, "beta");
    assert_eq!(status.page, 0);
    assert!(is(&keypress(&mut status, &mut cursor, &typed('l')), "Redraw"));
    assert_eq!(status.text, "al");
    assert_eq!(cursor, 2);
    assert_eq!(status.matches, strings(&["alpha", "alps"]));
    // "beta" is no match any more: the first match is selected.
    assert_eq!(status.selected, "alpha");
    // Typing in the middle.
    cursor = 1;
    assert!(is(&keypress(&mut status, &mut cursor, &typed('x')), "Redraw"));
    assert_eq!(status.text, "axl");
    assert_eq!(cursor, 2);
    assert!(status.matches.is_empty());
    assert_eq!(status.selected, "");
}

#[test]
fn a_control_character_types_nothing() {
    let mut status = menu(&["a"]);
    let mut cursor = 0;
    let press = Press { printable: false, ..typed('\u{7}') };
    assert!(is(&keypress(&mut status, &mut cursor, &press), "Redraw"));
    assert_eq!(status.text, "");
    assert_eq!(cursor, 0);
}

#[test]
fn backspace_and_delete_take_out_one_character() {
    let mut status = menu(&["abc", "ac", "bc"]);
    let mut cursor = 0;
    for c in ['a', 'b', 'c'] {
        keypress(&mut status, &mut cursor, &typed(c));
    }
    assert_eq!(status.matches, strings(&["abc"]));
    cursor = 2;
    assert!(is(&keypress(&mut status, &mut cursor, &plain(Key::BackSpace)), "Redraw"));
    assert_eq!(status.text, "ac");
    assert_eq!(cursor, 1);
    assert_eq!(status.matches, strings(&["ac"]));
    assert!(is(&keypress(&mut status, &mut cursor, &plain(Key::Delete)), "Redraw"));
    assert_eq!(status.text, "a");
    assert_eq!(cursor, 1);
    // Nothing stands at the cursor now.
    assert!(is(&keypress(&mut status, &mut cursor, &plain(Key::Delete)), "Fault"));
    assert_eq!(status.text, "a");
    cursor = 0;
    assert!(is(&keypress(&mut status, &mut cursor, &plain(Key::BackSpace)), "Redraw"));
    assert_eq!(status.text, "a");
    // A cursor behind the text: Delete does nothing.
    cursor = 5;
    assert!(is(&keypress(&mut status, &mut cursor, &plain(Key::Delete)), "Redraw"));
    assert_eq!(status.text, "a");
}

#[test]
fn the_cursor_counts_bytes() {
    let mut status = menu(&["é"]);
    let mut cursor = 0;
    assert!(is(&keypress(&mut status, &mut cursor, &typed('é')), "Redraw"));
    assert_eq!(status.text, "é");
    assert_eq!(cursor, 1);
    // The cursor stands inside the character now.
    assert!(is(&keypress(&mut status, &mut cursor, &typed('x')), "Fault"));
    assert_eq!(status.text, "é");
    assert_eq!(cursor, 1);
    assert!(is(&keypress(&mut status, &mut cursor, &plain(Key::End)), "Redraw"));
    assert_eq!(cursor, 2);
    assert!(is(&keypress(&mut status, &mut cursor, &typed('x')), "Redraw"));
    assert_eq!(status.text, "éx");
    assert_eq!(cursor, 3);
}

#[test]
fn home_and_end_move_selection_then_cursor() {
    let mut status = menu(&["a", "b", "c"]);
    status.text = "ab".to_string();
    let mut cursor = 1;
    assert!(is(&keypress(&mut status, &mut cursor, &plain(Key::End)), "Redraw"));
    assert_eq!(cursor, 2);
    assert_eq!(status.selected, "a");
    assert!(is(&keypress(&mut status, &mut cursor, &plain(Key::End)), "Redraw"));
    assert_eq!(status.selected, "c");
    assert!(is(&keypress(&mut status, &mut cursor, &plain(Key::Home)), "Redraw"));
    assert_eq!(status.selected, "a");
    assert_eq!(cursor, 2);
    assert!(is(&keypress(&mut status, &mut cursor, &plain(Key::Home)), "Redraw"));
    assert_eq!(cursor, 0);
}

#[test]
fn arrows_walk_through_sorted_matches() {
    let mut status = menu(&["a", "b", "c"]);
    let mut cursor = 0;
    assert!(is(&keypress(&mut status, &mut cursor, &plain(Key::Right)), "Redraw"));
    assert_eq!(status.selected, "b");
    assert!(is(&keypress(&mut status, &mut cursor, &plain(Key::Down)), "Redraw"));
    assert_eq!(status.selected, "c");
    assert!(is(&keypress(&mut status, &mut cursor, &plain(Key::Down)), "Ignore"));
    assert_eq!(status.selected, "c");
    assert!(is(&keypress(&mut status, &mut cursor, &plain(Key::Left)), "Redraw"));
    assert_eq!(status.selected, "b");
    assert!(is(&keypress(&mut status, &mut cursor, &plain(Key::Up)), "Redraw"));
    assert_eq!(status.selected, "a");
    assert!(is(&keypress(&mut status, &mut cursor, &plain(Key::Up)), "Ignore"));
    // On the first match Left moves the cursor.
    status.text = "zz".to_string();
    cursor = 2;
    assert!(is(&keypress(&mut status, &mut cursor, &plain(Key::Left)), "Redraw"));
    assert_eq!(cursor, 1);
    assert!(is(&keypress(&mut status, &mut cursor, &plain(Key::Right)), "Redraw"));
    assert_eq!(cursor, 2);
    assert_eq!(status.selected, "a");
}

#[test]
fn left_loses_a_selection_that_is_not_found() {
    let mut status = menu(&["a", "b", "c"]);
    status.selected = "zz".to_string();
    let mut cursor = 0;
    assert!(is(&keypress(&mut status, &mut cursor, &plain(Key::Left)), "Redraw"));
    assert_eq!(status.selected, "");
    // With a vertical list Left leaves the selection alone.
    let mut status = Status::start(strings(&["a", "b", "c"]), settings("simple", "4"));
    status.selected = "c".to_string();
    assert!(is(&keypress(&mut status, &mut cursor, &plain(Key::Left)), "Redraw"));
    assert_eq!(status.selected, "c");
}

#[test]
fn return_prints_the_selection_or_the_text() {
    let mut status = menu(&["alpha", "beta"]);
    status.text = "al".to_string();
    let mut cursor = 2;
    assert!(is(&keypress(&mut status, &mut cursor, &plain(Key::Return)), "Print(\"alpha\")"));
    assert!(is(&keypress(&mut status, &mut cursor, &plain(Key::KpEnter)), "Print(\"alpha\")"));
    let shifted = Press { shift: true, ..plain(Key::Return) };
    assert!(is(&keypress(&mut status, &mut cursor, &shifted), "Print(\"al\")"));
    status.selected = String::new();
    assert!(is(&keypress(&mut status, &mut cursor, &plain(Key::Return)), "Print(\"al\")"));
    assert!(is(&keypress(&mut status, &mut cursor, &plain(Key::Escape)), "Quit"));
    assert_eq!(status.text, "al");
}

#[test]
fn tab_takes_the_selection_as_text() {
    let mut status = menu(&["beta", "alpha"]);
    let mut cursor = 0;
    keypress(&mut status, &mut cursor, &typed('a'));
    assert_eq!(status.selected, "beta");
    assert_eq!(status.matches, strings(&["alpha", "beta"]));
    assert!(is(&keypress(&mut status, &mut cursor, &plain(Key::Tab)), "Redraw"));
    assert_eq!(status.text, "beta");
    assert_eq!(cursor, 4);
    assert_eq!(status.matches, strings(&["beta"]));
    assert_eq!(status.selected, "beta");
    let mut none = menu(&[]);
    let mut at = 0;
    assert!(is(&keypress(&mut none, &mut at, &plain(Key::Tab)), "Redraw"));
    assert_eq!(none.text, "");
}

#[test]
fn pages_turn() {
    let mut status = menu(&["a"]);
    let mut cursor = 0;
    assert!(is(&keypress(&mut status, &mut cursor, &plain(Key::Prior)), "Redraw"));
    assert_eq!(status.page, 0);
    assert!(is(&keypress(&mut status, &mut cursor, &plain(Key::Next)), "Redraw"));
    assert!(is(&keypress(&mut status, &mut cursor, &plain(Key::Next)), "Redraw"));
    assert_eq!(status.page, 2);
    assert!(is(&keypress(&mut status, &mut cursor, &plain(Key::Prior)), "Redraw"));
    assert_eq!(status.page, 1);
    status.page = u32::MAX;
    assert!(is(&keypress(&mut status, &mut cursor, &plain(Key::Next)), "Fault"));
    assert_eq!(status.page, u32::MAX);
}

#[test]
fn control_and_mod1_stand_for_other_keys() {
    assert_eq!(remap(&control(Key::A)), Some(Key::Home));
    assert_eq!(remap(&control(Key::B)), Some(Key::Left));
    assert_eq!(remap(&control(Key::C)), Some(Key::Escape));
    assert_eq!(remap(&control(Key::D)), Some(Key::Delete));
    assert_eq!(remap(&control(Key::E)), Some(Key::End));
    assert_eq!(remap(&control(Key::F)), Some(Key::Right));
    assert_eq!(remap(&control(Key::H)), Some(Key::BackSpace));
    assert_eq!(remap(&control(Key::I)), Some(Key::Tab));
    assert_eq!(remap(&control(Key::J)), Some(Key::Return));
    assert_eq!(remap(&control(Key::M)), Some(Key::Return));
    assert_eq!(remap(&control(Key::N)), Some(Key::Down));
    assert_eq!(remap(&control(Key::P)), Some(Key::Up));
    assert_eq!(remap(&control(Key::K)), Some(Key::K));
    assert_eq!(remap(&control(Key::G)), None);
    assert_eq!(remap(&control(Key::Return)), None);
    assert_eq!(remap(&mod1(Key::G)), Some(Key::Home));
    assert_eq!(remap(&mod1(Key::ShiftG)), Some(Key::End));
    assert_eq!(remap(&mod1(Key::H)), Some(Key::Up));
    assert_eq!(remap(&mod1(Key::J)), Some(Key::Next));
    assert_eq!(remap(&mod1(Key::K)), Some(Key::Prior));
    assert_eq!(remap(&mod1(Key::L)), Some(Key::Down));
    assert_eq!(remap(&mod1(Key::A)), None);
    assert_eq!(remap(&plain(Key::A)), Some(Key::A));
    // Control goes before the first modifier.
    let both = Press { mod1: true, ..control(Key::H) };
    assert_eq!(remap(&both), Some(Key::BackSpace));

    let mut status = menu(&["a", "b"]);
    let mut cursor = 0;
    assert!(is(&keypress(&mut status, &mut cursor, &control(Key::G)), "Ignore"));
    assert!(is(&keypress(&mut status, &mut cursor, &mod1(Key::A)), "Ignore"));
    assert_eq!(status.text, "");
    assert!(is(&keypress(&mut status, &mut cursor, &control(Key::C)), "Quit"));
    assert!(is(&keypress(&mut status, &mut cursor, &control(Key::N)), "Redraw"));
    assert_eq!(status.selected, "b");
    assert!(is(&keypress(&mut status, &mut cursor, &mod1(Key::H)), "Redraw"));
    assert_eq!(status.selected, "a");
    assert!(is(&keypress(&mut status, &mut cursor, &mod1(Key::J)), "Redraw"));
    assert_eq!(status.page, 1);
}

#[test]
fn control_k_takes_out_the_character_at_the_cursor() {
    let mut status = menu(&["abc", "ac"]);
    status.text = "abc".to_string();
    let mut cursor = 1;
    assert!(is(&keypress(&mut status, &mut cursor, &control(Key::K)), "Redraw"));
    assert_eq!(status.text, "ac");
    assert_eq!(cursor, 1);
    assert_eq!(status.matches, strings(&["ac"]));
    assert!(is(&keypress(&mut status, &mut cursor, &control(Key::U)), "Redraw"));
    assert_eq!(status.text, "a");
    assert!(is(&keypress(&mut status, &mut cursor, &control(Key::U)), "Fault"));
    assert_eq!(status.text, "a");
}

#[test]
fn control_w_takes_out_runs_at_the_cursor() {
    // At the end of the text nothing stands at the cursor.
    let mut status = menu(&[]);
    status.text = "ab cd".to_string();
    let mut cursor = 5;
    assert!(is(&keypress(&mut status, &mut cursor, &control(Key::W)), "Fault"));
    assert_eq!(status.text, "ab cd");
    // At the start nothing is taken out.
    cursor = 0;
    assert!(is(&keypress(&mut status, &mut cursor, &control(Key::W)), "Redraw"));
    assert_eq!(status.text, "ab cd");
    // "a  xyz", cursor at 2: the space at 2 goes, the cursor moves to 1; the
    // space now at 1 goes, the cursor moves to 0. Nothing more.
    status.text = "a  xyz".to_string();
    cursor = 2;
    assert!(is(&keypress(&mut status, &mut cursor, &control(Key::W)), "Redraw"));
    assert_eq!(status.text, "axyz");
    assert_eq!(cursor, 0);
    // "abcde", cursor at 1: "b" is no space and ends the first run; then
    // "c", now at 1, goes and the cursor moves to 0.
    status.text = "abcde".to_string();
    cursor = 1;
    assert!(is(&keypress(&mut status, &mut cursor, &control(Key::W)), "Redraw"));
    assert_eq!(status.text, "ade");
    assert_eq!(cursor, 0);
}

#[test]
fn find_matches_goes_by_the_name() {
    let items = strings(&["xab", "ab", "a_b", ".ab"]);
    let text = "ab".to_string();
    assert_eq!(find_matches(&"simple".to_string(), &text, &items), strings(&["ab", "xab", ".ab"]));
    assert_eq!(find_matches(&"anything".to_string(), &text, &items), strings(&["ab", "xab", ".ab"]));
    assert_eq!(find_matches(&"dmenu".to_string(), &text, &items), strings(&["ab", "xab", ".ab"]));
    assert_eq!(find_matches(&"fuzzy".to_string(), &text, &items), strings(&["ab", "xab", "a_b", ".ab"]));
    assert_eq!(
        find_matches(&"recursive".to_string(), &String::new(), &items),
        strings(&["a_b", "ab", "xab"])
    );
}

#[test]
fn editing_goes_by_byte_offsets() {
    let text: Vec<char> = "aéb".chars().collect();
    assert_eq!(index_at(&text, 0), Some(0));
    assert_eq!(index_at(&text, 1), Some(1));
    assert_eq!(index_at(&text, 2), None);
    assert_eq!(index_at(&text, 3), Some(2));
    assert_eq!(index_at(&text, 4), Some(3));
    assert_eq!(index_at(&text, 5), None);
    assert_eq!(string_of(&text), "aéb");
    let s = "aéb".to_string();
    assert_eq!(remove_at(&s, 1), Some(("ab".to_string(), 'é')));
    assert_eq!(remove_at(&s, 2), None);
    assert_eq!(remove_at(&s, 3), Some(("aé".to_string(), 'b')));
    assert_eq!(remove_at(&s, 4), None);
    assert_eq!(insert_at(&s, 4, '!'), Some("aéb!".to_string()));
    assert_eq!(insert_at(&s, 0, '!'), Some("!aéb".to_string()));
    assert_eq!(insert_at(&s, 2, '!'), None);
    assert_eq!(insert_at(&s, 5, '!'), None);
}
