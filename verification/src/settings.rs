//! The settings of the menu and how the command line gives them.

use vstd::prelude::*;
use vstd::string::StringExecFns;
use getopts::{Matches, Options};
use crate::number::{number_or_zero, parse_number};
use crate::options::{
    add_flag, add_value, arg_views, behind_first, declared, fail_text, first_value, has_name,
    names_of, new_options, occurrences, opt_present, opt_str, parse, parsed, text_of, usage,
    usage_text,
};

verus! {

/// How the menu looks and behaves.
#[derive(Clone, Debug)]
pub struct Settings {
    /// The menu stands at the top of the screen.
    pub topbar: bool,
    /// Upper and lower case differ.
    pub casesensitive: bool,
    /// Lines of the vertical list; zero for a horizontal one.
    pub lines: u32,
    /// Text to the left of the input field.
    pub prompt: String,
    /// Font or font set.
    pub font: String,
    /// Background colour.
    pub normbgcolor: String,
    /// Foreground colour.
    pub normfgcolor: String,
    /// Background colour of the selected item.
    pub selbgcolor: String,
    /// Foreground colour of the selected item.
    pub selfgcolor: String,
    /// File that holds the candidates; `-` for standard input.
    pub cache_file: String,
    /// Name of the matcher.
    pub matcher: String,
}

/// What settings hold, as plain values.
pub struct SettingsView {
    pub topbar: bool,
    pub casesensitive: bool,
    pub lines: u32,
    pub prompt: Seq<char>,
    pub font: Seq<char>,
    pub normbgcolor: Seq<char>,
    pub normfgcolor: Seq<char>,
    pub selbgcolor: Seq<char>,
    pub selfgcolor: Seq<char>,
    pub cache_file: Seq<char>,
    pub matcher: Seq<char>,
}

impl View for Settings {
    type V = SettingsView;

    open spec fn view(&self) -> SettingsView {
        SettingsView {
            topbar: self.topbar,
            casesensitive: self.casesensitive,
            lines: self.lines,
            prompt: self.prompt@,
            font: self.font@,
            normbgcolor: self.normbgcolor@,
            normfgcolor: self.normfgcolor@,
            selbgcolor: self.selbgcolor@,
            selfgcolor: self.selfgcolor@,
            cache_file: self.cache_file@,
            matcher: self.matcher@,
        }
    }
}

/// What the command line gave for each option of the menu.
#[derive(Clone, Debug)]
pub struct MenuArgs {
    pub version: bool,
    pub topbar: bool,
    pub help: bool,
    pub caseinsensitive: bool,
    pub lines: Option<String>,
    pub cache: Option<String>,
    pub prompt: Option<String>,
    pub matcher: Option<String>,
    pub font: Option<String>,
    pub background: Option<String>,
    pub foreground: Option<String>,
    pub sbackground: Option<String>,
    pub sforeground: Option<String>,
}

/// What the command line gave, as plain values.
pub struct MenuArgsView {
    pub version: bool,
    pub topbar: bool,
    pub help: bool,
    pub caseinsensitive: bool,
    pub lines: Option<Seq<char>>,
    pub cache: Option<Seq<char>>,
    pub prompt: Option<Seq<char>>,
    pub matcher: Option<Seq<char>>,
    pub font: Option<Seq<char>>,
    pub background: Option<Seq<char>>,
    pub foreground: Option<Seq<char>>,
    pub sbackground: Option<Seq<char>>,
    pub sforeground: Option<Seq<char>>,
}

impl View for MenuArgs {
    type V = MenuArgsView;

    open spec fn view(&self) -> MenuArgsView {
        MenuArgsView {
            version: self.version,
            topbar: self.topbar,
            help: self.help,
            caseinsensitive: self.caseinsensitive,
            lines: text_of(self.lines),
            cache: text_of(self.cache),
            prompt: text_of(self.prompt),
            matcher: text_of(self.matcher),
            font: text_of(self.font),
            background: text_of(self.background),
            foreground: text_of(self.foreground),
            sbackground: text_of(self.sbackground),
            sforeground: text_of(self.sforeground),
        }
    }
}

/// The value given, or the default.
pub open spec fn or_default(value: Option<Seq<char>>, default: Seq<char>) -> Seq<char> {
    match value {
        Some(text) => text,
        None => default,
    }
}

/// The settings that a command line asks for: each value as given, or its
/// default. The number of lines is zero where none, or no number, is given.
pub open spec fn settings_of(given: MenuArgsView) -> SettingsView {
    SettingsView {
        topbar: given.topbar,
        casesensitive: !given.caseinsensitive,
        lines: match given.lines {
            Some(text) => number_or_zero(text) as u32,
            None => 0,
        },
        prompt: or_default(given.prompt, ""@),
        font: or_default(given.font, "fixed"@),
        normbgcolor: or_default(given.background, "rgb:22/22/22"@),
        normfgcolor: or_default(given.foreground, "rgb:bb/bb/bb"@),
        selbgcolor: or_default(given.sbackground, "rgb:00/55/77"@),
        selfgcolor: or_default(given.sforeground, "rgb:ee/ee/ee"@),
        cache_file: or_default(given.cache, "-"@),
        matcher: or_default(given.matcher, "simple"@),
    }
}

/// The value given, or the default.
fn value_or(value: Option<String>, default: &str) -> (text: String)
    ensures
        text@ == or_default(text_of(value), default@),
{
    match value {
        Some(text) => text,
        None => default.to_owned(),
    }
}

/// The settings that a command line asks for.
pub fn settings_from(given: MenuArgs) -> (settings: Settings)
    ensures
        settings@ == settings_of(given@),
{
    let lines = match &given.lines {
        Some(text) => parse_number(text.as_str()),
        None => 0,
    };
    Settings {
        topbar: given.topbar,
        casesensitive: !given.caseinsensitive,
        lines,
        prompt: value_or(given.prompt, ""),
        font: value_or(given.font, "fixed"),
        normbgcolor: value_or(given.background, "rgb:22/22/22"),
        normfgcolor: value_or(given.foreground, "rgb:bb/bb/bb"),
        selbgcolor: value_or(given.sbackground, "rgb:00/55/77"),
        selfgcolor: value_or(given.sforeground, "rgb:ee/ee/ee"),
        cache_file: value_or(given.cache, "-"),
        matcher: value_or(given.matcher, "simple"),
    }
}

/// The options of the menu.
pub open spec fn menu_table() -> Seq<(Seq<char>, Seq<char>, Seq<char>, Seq<char>, bool)> {
    seq![
        ("v"@, "version"@, "show version"@, Seq::empty(), false),
        ("b"@, "topbar"@, "show topbar"@, Seq::empty(), false),
        ("h"@, "help"@, "show help"@, Seq::empty(), false),
        ("i"@, "caseinsensitive"@, "activate case insensitive"@, Seq::empty(), false),
        ("l"@, "lines"@, "lines of vertical list"@, "LINES"@, true),
        ("c"@, "cache"@, "cache file with available commands"@, "CACHE_FILE"@, true),
        ("p"@, "prompt"@, "add prompt to left of input field"@, "PROMPT"@, true),
        ("m"@, "matcher"@, "select matcher function"@, "simple|dmenu|fuzzy"@, true),
        (""@, "font"@, "font or font set"@, "FONT"@, true),
        (""@, "background"@, "normal background color"@, "NBG"@, true),
        (""@, "foreground"@, "normal foreground color"@, "NFG"@, true),
        (""@, "sbackground"@, "selected background color"@, "SBG"@, true),
        (""@, "sforeground"@, "selected foreground color"@, "SFG"@, true),
    ]
}

/// What a parsed command line gave for each option of the menu.
pub open spec fn menu_args_of(given: Map<Seq<char>, Seq<Option<Seq<char>>>>) -> MenuArgsView {
    MenuArgsView {
        version: given["v"@].len() > 0,
        topbar: given["b"@].len() > 0,
        help: given["h"@].len() > 0,
        caseinsensitive: given["i"@].len() > 0,
        lines: first_value(given, "l"@),
        cache: first_value(given, "cache"@),
        prompt: first_value(given, "p"@),
        matcher: first_value(given, "m"@),
        font: first_value(given, "font"@),
        background: first_value(given, "background"@),
        foreground: first_value(given, "foreground"@),
        sbackground: first_value(given, "sbackground"@),
        sforeground: first_value(given, "sforeground"@),
    }
}

/// The names of the menu's options are what they are written as.
proof fn lemma_menu_names()
    ensures
        "v"@.len() == 1 && "v"@[0] == 'v',
        "b"@.len() == 1 && "b"@[0] == 'b',
        "h"@.len() == 1 && "h"@[0] == 'h',
        "i"@.len() == 1 && "i"@[0] == 'i',
        "l"@.len() == 1 && "l"@[0] == 'l',
        "c"@.len() == 1 && "c"@[0] == 'c',
        "p"@.len() == 1 && "p"@[0] == 'p',
        "m"@.len() == 1 && "m"@[0] == 'm',
        ""@.len() == 0,
        "version"@.len() == 7,
        "topbar"@.len() == 6,
        "help"@.len() == 4,
        "caseinsensitive"@.len() == 15,
        "lines"@.len() == 5,
        "cache"@.len() == 5,
        "prompt"@.len() == 6,
        "matcher"@.len() == 7,
        "font"@.len() == 4,
        "background"@.len() == 10,
        "foreground"@.len() == 10,
        "sbackground"@.len() == 11,
        "sforeground"@.len() == 11,
{
    reveal_strlit("v");
    reveal_strlit("b");
    reveal_strlit("h");
    reveal_strlit("i");
    reveal_strlit("l");
    reveal_strlit("c");
    reveal_strlit("p");
    reveal_strlit("m");
    reveal_strlit("");
    reveal_strlit("version");
    reveal_strlit("topbar");
    reveal_strlit("help");
    reveal_strlit("caseinsensitive");
    reveal_strlit("lines");
    reveal_strlit("cache");
    reveal_strlit("prompt");
    reveal_strlit("matcher");
    reveal_strlit("font");
    reveal_strlit("background");
    reveal_strlit("foreground");
    reveal_strlit("sbackground");
    reveal_strlit("sforeground");
}

/// The menu's options can be asked for by the names that the menu uses.
proof fn lemma_menu_names_known()
    ensures
        names_of(menu_table()).contains("v"@),
        names_of(menu_table()).contains("b"@),
        names_of(menu_table()).contains("h"@),
        names_of(menu_table()).contains("i"@),
        names_of(menu_table()).contains("l"@),
        names_of(menu_table()).contains("cache"@),
        names_of(menu_table()).contains("p"@),
        names_of(menu_table()).contains("m"@),
        names_of(menu_table()).contains("font"@),
        names_of(menu_table()).contains("background"@),
        names_of(menu_table()).contains("foreground"@),
        names_of(menu_table()).contains("sbackground"@),
        names_of(menu_table()).contains("sforeground"@),
{
    lemma_menu_names();
    let table = menu_table();
    assert(has_name(table[0], "v"@));
    assert(has_name(table[1], "b"@));
    assert(has_name(table[2], "h"@));
    assert(has_name(table[3], "i"@));
    assert(has_name(table[4], "l"@));
    assert(has_name(table[5], "cache"@));
    assert(has_name(table[6], "p"@));
    assert(has_name(table[7], "m"@));
    assert(has_name(table[8], "font"@));
    assert(has_name(table[9], "background"@));
    assert(has_name(table[10], "foreground"@));
    assert(has_name(table[11], "sbackground"@));
    assert(has_name(table[12], "sforeground"@));
}

/// Declares the options of the menu.
fn menu_options() -> (options: Options)
    ensures
        declared(options) == menu_table(),
{
    proof {
        lemma_menu_names();
    }
    let mut options = new_options();
    add_flag(&mut options, "v", "version", "show version");
    add_flag(&mut options, "b", "topbar", "show topbar");
    add_flag(&mut options, "h", "help", "show help");
    add_flag(&mut options, "i", "caseinsensitive", "activate case insensitive");
    add_value(&mut options, "l", "lines", "lines of vertical list", "LINES");
    add_value(&mut options, "c", "cache", "cache file with available commands", "CACHE_FILE");
    add_value(&mut options, "p", "prompt", "add prompt to left of input field", "PROMPT");
    add_value(&mut options, "m", "matcher", "select matcher function", "simple|dmenu|fuzzy");
    add_value(&mut options, "", "font", "font or font set", "FONT");
    add_value(&mut options, "", "background", "normal background color", "NBG");
    add_value(&mut options, "", "foreground", "normal foreground color", "NFG");
    add_value(&mut options, "", "sbackground", "selected background color", "SBG");
    add_value(&mut options, "", "sforeground", "selected foreground color", "SFG");
    options
}

/// Asks a parsed command line for each option of the menu.
fn menu_args(matches: &Matches) -> (given: MenuArgs)
    requires
        occurrences(*matches).dom() == names_of(menu_table()),
    ensures
        given@ == menu_args_of(occurrences(*matches)),
{
    proof {
        lemma_menu_names_known();
    }
    MenuArgs {
        version: opt_present(matches, "v"),
        topbar: opt_present(matches, "b"),
        help: opt_present(matches, "h"),
        caseinsensitive: opt_present(matches, "i"),
        lines: opt_str(matches, "l"),
        cache: opt_str(matches, "cache"),
        prompt: opt_str(matches, "p"),
        matcher: opt_str(matches, "m"),
        font: opt_str(matches, "font"),
        background: opt_str(matches, "background"),
        foreground: opt_str(matches, "foreground"),
        sbackground: opt_str(matches, "sbackground"),
        sforeground: opt_str(matches, "sforeground"),
    }
}

/// What to do once the command line is read.
#[derive(Clone, Debug)]
pub struct Launch {
    /// Leave without showing the menu.
    pub exit: bool,
    /// The settings asked for.
    pub settings: Settings,
    /// Print the version first.
    pub show_version: bool,
    /// Print this usage message first.
    pub usage: Option<String>,
}

/// What to do once the command line is read, as plain values.
pub struct LaunchView {
    pub exit: bool,
    pub settings: SettingsView,
    pub show_version: bool,
    pub usage: Option<Seq<char>>,
}

impl View for Launch {
    type V = LaunchView;

    open spec fn view(&self) -> LaunchView {
        LaunchView {
            exit: self.exit,
            settings: self.settings@,
            show_version: self.show_version,
            usage: text_of(self.usage),
        }
    }
}

/// What a command line asks for: the settings, and to leave after printing
/// the version, the usage message or both where they are asked for.
pub open spec fn launch_of(given: MenuArgsView, program: Seq<char>) -> LaunchView {
    LaunchView {
        exit: given.version || given.help,
        settings: settings_of(given),
        show_version: given.version,
        usage: if given.help {
            Some(usage_text(menu_table(), "Usage: "@ + program + " [options]"@))
        } else {
            None
        },
    }
}

/// Reads the command line of the menu. The first argument is the program's
/// name. Where the arguments fit the options, the result says what they ask
/// for; where they do not, it is the message of the failure.
pub fn parse_args(args: Vec<String>) -> (r: Result<Launch, String>)
    requires
        args.len() > 0,
    ensures
        match r {
            Ok(launch) => match parsed(menu_table(), arg_views(args@).skip(1)) {
                Some(found) => launch@ == launch_of(menu_args_of(found.0), args[0]@),
                None => false,
            },
            Err(_) => parsed(menu_table(), arg_views(args@).skip(1)) is None,
        },
{
    let options = menu_options();
    let rest = behind_first(&args);
    proof {
        lemma_menu_names();
    }
    match parse(&options, &rest) {
        Err(fail) => Err(fail_text(&fail)),
        Ok(matches) => {
            let given = menu_args(&matches);
            let help = given.help;
            let version = given.version;
            let settings = settings_from(given);
            let usage_message = if help {
                let brief = String::from_str("Usage: ").concat(args[0].as_str()).concat(
                    " [options]",
                );
                Some(usage(&options, brief.as_str()))
            } else {
                None
            };
            Ok(Launch { exit: version || help, settings, show_version: version, usage: usage_message })
        },
    }
}

} // verus!
