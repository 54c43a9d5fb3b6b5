use rumenu::filecheck::{get_config, split_paths, FileFacts, FileKind};
use rumenu::keys::Status;
use rumenu::pager::{items_page, longest_of, plan_menu, width_for_list, Draw};
use rumenu::settings::{settings_from, MenuArgs};

fn strings(items: &[&str]) -> Vec<String> {
    items.iter().map(|s| s.to_string()).collect()
}

fn status(items: &[&str], prompt: Option<&str>, lines: &str) -> Status {
    Status::start(
        strings(items),
        settings_from(MenuArgs {
            version: false,
            topbar: false,
            help: false,
            caseinsensitive: false,
            lines: Some(lines.to_string()),
            cache: None,
            prompt: prompt.map(|p| p.to_string()),
            matcher: None,
            font: None,
            background: None,
            foreground: None,
            sbackground: None,
            sforeground: None,
        }),
    )
}

#[test]
fn longest_counts_bytes() {
    assert_eq!(longest_of(&strings(&[])), 0);
    assert_eq!(longest_of(&strings(&["ab", "abcd", "a"])), 4);
    assert_eq!(longest_of(&strings(&["éé", "abc"])), 4);
}

#[test]
fn width_left_for_the_list() {
    // 800 - 2 - (3 * 6 + 4) - (6 * 10 + 8) - (6 + 4) - (6 - 7)
    assert_eq!(width_for_list(800, 6, &"run".to_string(), 10), 699);
    assert_eq!(width_for_list(0, 6, &String::new(), 0), -23);
}

#[test]
fn pages_hold_what_fits() {
    // Each item is 2 * 5 + 10 = 20 wide; 50 hold two of them.
    let items = strings(&["aa", "bb", "cc", "dd", "ee", "ff", "gg"]);
    // The item that opens a page is not shown on it.
    assert_eq!(items_page(&items, 5, 50, 0), Some((strings(&["aa", "bb"]), 4)));
    assert_eq!(items_page(&items, 5, 50, 1), Some((strings(&["dd"]), 4)));
    assert_eq!(items_page(&items, 5, 50, 2), Some((strings(&["ff"]), 4)));
    assert_eq!(items_page(&items, 5, 50, 3), Some((strings(&[]), 4)));
    assert_eq!(items_page(&items, 5, 60, 1), Some((strings(&["ee", "ff"]), 3)));
    assert_eq!(items_page(&items, 5, 1000, 0), Some((items.clone(), 1)));
    assert_eq!(items_page(&strings(&[]), 5, 50, 0), Some((strings(&[]), 1)));
    // Nothing fits: every item opens a page.
    assert_eq!(items_page(&items, 5, 10, 0), Some((strings(&[]), 8)));
    assert_eq!(items_page(&items, 5, -4, 0), Some((strings(&[]), 8)));
}

#[test]
fn the_menu_is_drawn_from_left_to_right() {
    let mut s = status(&["aa", "bbb", "c"], Some("go"), "0");
    s.text = "ab".to_string();
    s.selected = "bbb".to_string();
    let plan = plan_menu(&s, 1, 400, 6).unwrap();
    let shown: Vec<String> = plan.iter().map(|d| format!("{:?}", d)).collect();
    assert_eq!(
        shown,
        vec![
            "Background".to_string(),
            format!("{:?}", Draw::Text { x: 2, padding: 5, text: "go".to_string(), selected: false }),
            // 2 + 2 * 6 + 4
            format!("{:?}", Draw::Text { x: 18, padding: 0, text: "ab".to_string(), selected: false }),
            format!("{:?}", Draw::Cursor { x: 24 }),
            // 18 + 6 * 3 + 8
            format!("{:?}", Draw::Text { x: 44, padding: 5, text: "aa".to_string(), selected: false }),
            format!("{:?}", Draw::Text { x: 66, padding: 5, text: "bbb".to_string(), selected: true }),
            format!("{:?}", Draw::Text { x: 94, padding: 5, text: "c".to_string(), selected: false }),
        ]
    );
}

#[test]
fn the_menu_shows_arrows_to_other_pages() {
    let mut s = status(&["aa", "bb", "cc", "dd", "ee", "ff", "gg"], None, "0");
    // The list is 79 - 2 - 4 - (5 * 2 + 8) - (5 + 4) - (5 - 7) = 48 wide.
    s.page = 1;
    let plan = plan_menu(&s, 0, 79, 5).unwrap();
    let shown: Vec<String> = plan.iter().map(|d| format!("{:?}", d)).collect();
    assert_eq!(
        shown,
        vec![
            "Background".to_string(),
            format!("{:?}", Draw::Text { x: 2, padding: 0, text: String::new(), selected: false }),
            format!("{:?}", Draw::Cursor { x: 2 }),
            format!("{:?}", Draw::Text { x: 20, padding: 5, text: "<".to_string(), selected: false }),
            format!("{:?}", Draw::Text { x: 69, padding: 5, text: ">".to_string(), selected: false }),
            format!("{:?}", Draw::Text { x: 29, padding: 5, text: "dd".to_string(), selected: false }),
        ]
    );
    // The last page has no arrow to a next one.
    s.page = 3;
    let plan = plan_menu(&s, 0, 79, 5).unwrap();
    assert_eq!(plan.len(), 4);
    assert_eq!(
        format!("{:?}", plan[3]),
        format!("{:?}", Draw::Text { x: 20, padding: 5, text: "<".to_string(), selected: false })
    );
    s.page = 0;
    let plan = plan_menu(&s, 0, 79, 5).unwrap();
    assert_eq!(plan.len(), 6);
    assert_eq!(
        format!("{:?}", plan[3]),
        format!("{:?}", Draw::Text { x: 69, padding: 5, text: ">".to_string(), selected: false })
    );
    assert_eq!(
        format!("{:?}", plan[5]),
        format!("{:?}", Draw::Text { x: 40, padding: 5, text: "bb".to_string(), selected: false })
    );
}

#[test]
fn a_vertical_list_is_not_drawn() {
    let s = status(&["aa", "bb"], None, "3");
    assert_eq!(plan_menu(&s, 0, 400, 6).unwrap().len(), 3);
}

#[test]
fn a_cursor_inside_a_character_cannot_be_drawn() {
    let mut s = status(&["aa"], None, "0");
    s.text = "é".to_string();
    assert!(plan_menu(&s, 1, 400, 6).is_none());
    assert!(plan_menu(&s, 3, 400, 6).is_none());
    assert!(plan_menu(&s, 2, 400, 6).is_some());
}

#[test]
fn paths_are_split_at_colons() {
    assert_eq!(split_paths("/usr/bin:/bin"), strings(&["/usr/bin", "/bin"]));
    assert_eq!(split_paths("/bin"), strings(&["/bin"]));
    assert_eq!(split_paths(""), strings(&[""]));
    assert_eq!(split_paths(":a::b:"), strings(&["", "a", "", "b", ""]));
    for text in ["", ":", "a:b", "::", "a:", ":a", "é:ü"] {
        let std: Vec<String> = text.split(":").map(|s| s.to_string()).collect();
        assert_eq!(split_paths(text), std);
    }
    let config = get_config(strings(&["rutest", "-l", "/a:/b", "/c"])).unwrap();
    assert_eq!(config.paths_to_test(), strings(&["/a", "/b"]));
    let config = get_config(strings(&["rutest"])).unwrap();
    assert_eq!(config.paths_to_test(), strings(&[""]));
    let dir = FileFacts { kind: FileKind::Directory, mode: 0o755, mtime: 0, size: 0 };
    let file = FileFacts { kind: FileKind::Regular, mode: 0o755, mtime: 0, size: 0 };
    let listing = get_config(strings(&["rutest", "-l"])).unwrap();
    assert!(listing.lists_entries(&dir));
    assert!(!listing.lists_entries(&file));
    assert!(!config.lists_entries(&dir));
}
