use rumenu::number::parse_number;
use rumenu::settings::{parse_args, settings_from, MenuArgs};

fn args(items: &[&str]) -> Vec<String> {
    items.iter().map(|s| s.to_string()).collect()
}

fn nothing_given() -> MenuArgs {
    MenuArgs {
        version: false,
        topbar: false,
        help: false,
        caseinsensitive: false,
        lines: None,
        cache: None,
        prompt: None,
        matcher: None,
        font: None,
        background: None,
        foreground: None,
        sbackground: None,
        sforeground: None,
    }
}

#[test]
fn parse_number_reads_digits_between_white_space() {
    assert_eq!(parse_number("0"), 0);
    assert_eq!(parse_number("12"), 12);
    assert_eq!(parse_number("  12\t\n"), 12);
    assert_eq!(parse_number("+12"), 12);
    assert_eq!(parse_number("007"), 7);
    assert_eq!(parse_number("4294967295"), 4294967295);
    assert_eq!(parse_number("\u{a0}5\u{3000}"), 5);
}

#[test]
fn parse_number_gives_zero_for_what_is_no_number() {
    assert_eq!(parse_number(""), 0);
    assert_eq!(parse_number("   "), 0);
    assert_eq!(parse_number("+"), 0);
    assert_eq!(parse_number("-3"), 0);
    assert_eq!(parse_number("++3"), 0);
    assert_eq!(parse_number("3+"), 0);
    assert_eq!(parse_number("1 2"), 0);
    assert_eq!(parse_number("12a"), 0);
    assert_eq!(parse_number("4294967296"), 0);
    assert_eq!(parse_number("99999999999999999999999999"), 0);
    assert_eq!(parse_number("٣"), 0);
}

#[test]
fn parse_number_agrees_with_the_standard_parser() {
    for text in ["", " 1", "1 ", "+0", "+", "-0", "0x10", "4294967295", "4294967296", "1_000", " +42 "] {
        assert_eq!(parse_number(text), text.trim().parse::<u32>().unwrap_or(0), "{:?}", text);
    }
}

#[test]
fn settings_default_where_nothing_is_given() {
    let s = settings_from(nothing_given());
    assert!(!s.topbar);
    assert!(s.casesensitive);
    assert_eq!(s.lines, 0);
    assert_eq!(s.prompt, "");
    assert_eq!(s.font, "fixed");
    assert_eq!(s.normbgcolor, "rgb:22/22/22");
    assert_eq!(s.normfgcolor, "rgb:bb/bb/bb");
    assert_eq!(s.selbgcolor, "rgb:00/55/77");
    assert_eq!(s.selfgcolor, "rgb:ee/ee/ee");
    assert_eq!(s.cache_file, "-");
    assert_eq!(s.matcher, "simple");
}

#[test]
fn settings_take_what_is_given() {
    let mut given = nothing_given();
    given.topbar = true;
    given.caseinsensitive = true;
    given.lines = Some(" 7 ".to_string());
    given.prompt = Some("run:".to_string());
    given.matcher = Some("fuzzy".to_string());
    given.cache = Some("/tmp/cache".to_string());
    given.background = Some("black".to_string());
    let s = settings_from(given);
    assert!(s.topbar);
    assert!(!s.casesensitive);
    assert_eq!(s.lines, 7);
    assert_eq!(s.prompt, "run:");
    assert_eq!(s.matcher, "fuzzy");
    assert_eq!(s.cache_file, "/tmp/cache");
    assert_eq!(s.normbgcolor, "black");
    assert_eq!(s.normfgcolor, "rgb:bb/bb/bb");
}

#[test]
fn parse_args_reads_the_command_line() {
    let launch = parse_args(args(&["rumenu"])).unwrap();
    assert!(!launch.exit);
    assert!(!launch.show_version);
    assert_eq!(launch.usage, None);
    assert_eq!(launch.settings.matcher, "simple");

    let launch = parse_args(args(&[
        "rumenu", "-b", "-i", "-l", "5", "-p", "go", "-m", "dmenu", "--font", "mono",
        "--cache=/c", "--sforeground", "white",
    ]))
    .unwrap();
    assert!(!launch.exit);
    assert!(launch.settings.topbar);
    assert!(!launch.settings.casesensitive);
    assert_eq!(launch.settings.lines, 5);
    assert_eq!(launch.settings.prompt, "go");
    assert_eq!(launch.settings.matcher, "dmenu");
    assert_eq!(launch.settings.font, "mono");
    assert_eq!(launch.settings.cache_file, "/c");
    assert_eq!(launch.settings.selfgcolor, "white");
    assert_eq!(launch.settings.selbgcolor, "rgb:00/55/77");
}

#[test]
fn parse_args_lines_that_are_no_number_count_as_zero() {
    let launch = parse_args(args(&["rumenu", "-l", "many"])).unwrap();
    assert_eq!(launch.settings.lines, 0);
}

#[test]
fn parse_args_version_and_help_ask_to_leave() {
    let launch = parse_args(args(&["rumenu", "-v"])).unwrap();
    assert!(launch.exit && launch.show_version);
    assert_eq!(launch.usage, None);
    let launch = parse_args(args(&["rumenu", "--help"])).unwrap();
    assert!(launch.exit && !launch.show_version);
    let usage = launch.usage.unwrap();
    assert!(usage.starts_with("Usage: rumenu [options]"));
    assert!(usage.contains("--matcher"));
    assert!(usage.contains("simple|dmenu|fuzzy"));
}

#[test]
fn parse_args_says_what_does_not_fit() {
    assert!(parse_args(args(&["rumenu", "--nothing"])).is_err());
    assert!(parse_args(args(&["rumenu", "-l"])).is_err());
    assert!(parse_args(args(&["rumenu", "-b", "-b"])).is_err());
    let message = parse_args(args(&["rumenu", "-z"])).unwrap_err();
    assert!(message.contains("z"));
}
