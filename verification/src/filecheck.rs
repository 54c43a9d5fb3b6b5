//! The file tests: which files a set of flags lets through.

use vstd::prelude::*;
use getopts::{Matches, Options};
use crate::options::{
    add_flag, add_value, arg_views, behind_first, declared, fail_text, first_value, free_args,
    free_of, has_name, names_of, new_options, occurrences, opt_present, opt_str, parse, parsed,
    text_of,
};
use crate::text::chars_of;

verus! {

/// What kind of file a path leads to, links followed.
#[derive(Clone, Copy, Debug, PartialEq, Eq, Structural)]
pub enum FileKind {
    BlockDevice,
    CharDevice,
    Regular,
    Symlink,
    Fifo,
    Directory,
    Socket,
}

/// What is known of a file that exists.
#[derive(Clone, Copy, Debug, PartialEq, Eq, Structural)]
pub struct FileFacts {
    /// Its kind.
    pub kind: FileKind,
    /// Its mode bits.
    pub mode: u32,
    /// When it was last modified, in seconds.
    pub mtime: i64,
    /// Its size in bytes.
    pub size: u64,
}

/// The tests asked for, one flag each, and the paths to test.
#[derive(Clone, Debug)]
pub struct Config {
    /// Let hidden files through.
    pub a: bool,
    /// Only block devices.
    pub b: bool,
    /// Only character devices.
    pub c: bool,
    /// Only directories.
    pub d: bool,
    /// Only files that exist.
    pub e: bool,
    /// Only regular files.
    pub f: bool,
    /// Only files with the set-group-id bit.
    pub g: bool,
    /// Only symbolic links.
    pub h: bool,
    /// Test the entries of a directory in place of the directory.
    pub l: bool,
    /// Only files newer than `newer`.
    pub n: bool,
    /// Only files older than `older`.
    pub o: bool,
    /// Only named pipes.
    pub p: bool,
    /// Stop at the first file let through.
    pub q: bool,
    /// Only files with the read bit.
    pub r: bool,
    /// Only files that are not empty.
    pub s: bool,
    /// Only files with the set-user-id bit.
    pub u: bool,
    /// Only files with the write bit.
    pub w: bool,
    /// Only files with the execute bit.
    pub x: bool,
    /// Modification time that `n` compares with.
    pub newer: i64,
    /// Modification time that `o` compares with.
    pub older: i64,
    /// The file that `n` names, whose modification time `newer` is to hold.
    pub newer_path: Option<String>,
    /// The file that `o` names, whose modification time `older` is to hold.
    pub older_path: Option<String>,
    /// The paths given.
    pub paths: Vec<String>,
}

/// What a configuration holds, as plain values.
pub struct ConfigView {
    pub a: bool,
    pub b: bool,
    pub c: bool,
    pub d: bool,
    pub e: bool,
    pub f: bool,
    pub g: bool,
    pub h: bool,
    pub l: bool,
    pub n: bool,
    pub o: bool,
    pub p: bool,
    pub q: bool,
    pub r: bool,
    pub s: bool,
    pub u: bool,
    pub w: bool,
    pub x: bool,
    pub newer: i64,
    pub older: i64,
    pub newer_path: Option<Seq<char>>,
    pub older_path: Option<Seq<char>>,
    pub paths: Seq<Seq<char>>,
}

impl View for Config {
    type V = ConfigView;

    open spec fn view(&self) -> ConfigView {
        ConfigView {
            a: self.a,
            b: self.b,
            c: self.c,
            d: self.d,
            e: self.e,
            f: self.f,
            g: self.g,
            h: self.h,
            l: self.l,
            n: self.n,
            o: self.o,
            p: self.p,
            q: self.q,
            r: self.r,
            s: self.s,
            u: self.u,
            w: self.w,
            x: self.x,
            newer: self.newer,
            older: self.older,
            newer_path: text_of(self.newer_path),
            older_path: text_of(self.older_path),
            paths: arg_views(self.paths@),
        }
    }
}

/// Gives `libc::R_OK`, the read bit. Taken on trust: its value is 4.
#[verifier::external_body]
fn read_bit() -> (bit: u32)
    ensures
        bit == 4,
{
    libc::R_OK as u32
}

/// Gives `libc::W_OK`, the write bit. Taken on trust: its value is 2.
#[verifier::external_body]
fn write_bit() -> (bit: u32)
    ensures
        bit == 2,
{
    libc::W_OK as u32
}

/// Gives `libc::X_OK`, the execute bit. Taken on trust: its value is 1.
#[verifier::external_body]
fn execute_bit() -> (bit: u32)
    ensures
        bit == 1,
{
    libc::X_OK as u32
}

/// Gives `libc::S_ISGID`, the set-group-id bit. Taken on trust: its value
/// is 2000 in base eight.
#[verifier::external_body]
fn set_group_id_bit() -> (bit: u32)
    ensures
        bit == 0o2000,
{
    libc::S_ISGID as u32
}

/// Gives `libc::S_ISUID`, the set-user-id bit. Taken on trust: its value is
/// 4000 in base eight.
#[verifier::external_body]
fn set_user_id_bit() -> (bit: u32)
    ensures
        bit == 0o4000,
{
    libc::S_ISUID as u32
}

impl FileFacts {
    pub open spec fn spec_is_readable(&self) -> bool {
        self.mode & 4 != 0
    }

    pub open spec fn spec_is_writeable(&self) -> bool {
        self.mode & 2 != 0
    }

    pub open spec fn spec_is_executable(&self) -> bool {
        self.mode & 1 != 0
    }

    pub open spec fn spec_has_sgid(&self) -> bool {
        self.mode & 0o2000 != 0
    }

    pub open spec fn spec_has_suid(&self) -> bool {
        self.mode & 0o4000 != 0
    }

    /// The read bit for others is set.
    #[verifier::when_used_as_spec(spec_is_readable)]
    pub fn is_readable(&self) -> (r: bool)
        ensures
            r == self.spec_is_readable(),
    {
        self.mode & read_bit() != 0
    }

    /// The write bit for others is set.
    #[verifier::when_used_as_spec(spec_is_writeable)]
    pub fn is_writeable(&self) -> (r: bool)
        ensures
            r == self.spec_is_writeable(),
    {
        self.mode & write_bit() != 0
    }

    /// The execute bit for others is set.
    #[verifier::when_used_as_spec(spec_is_executable)]
    pub fn is_executable(&self) -> (r: bool)
        ensures
            r == self.spec_is_executable(),
    {
        self.mode & execute_bit() != 0
    }

    /// The set-group-id bit is set.
    #[verifier::when_used_as_spec(spec_has_sgid)]
    pub fn has_sgid(&self) -> (r: bool)
        ensures
            r == self.spec_has_sgid(),
    {
        self.mode & set_group_id_bit() != 0
    }

    /// The set-user-id bit is set.
    #[verifier::when_used_as_spec(spec_has_suid)]
    pub fn has_suid(&self) -> (r: bool)
        ensures
            r == self.spec_has_suid(),
    {
        self.mode & set_user_id_bit() != 0
    }
}

/// The tests that need no more than the file's name and whether it exists:
/// a hidden file passes only with `a`, a missing one only without `e`.
pub open spec fn passes_by_name(config: ConfigView, name: Seq<char>, exists: bool) -> bool {
    &&& config.a || !(name.len() > 0 && name[0] == '.')
    &&& !config.e || exists
}

/// The tests on a file that exists: each flag that is set asks one thing of
/// the file, and all must hold.
pub open spec fn passes_by_facts(config: ConfigView, facts: FileFacts) -> bool {
    &&& !config.b || facts.kind == FileKind::BlockDevice
    &&& !config.c || facts.kind == FileKind::CharDevice
    &&& !config.f || facts.kind == FileKind::Regular
    &&& !config.h || facts.kind == FileKind::Symlink
    &&& !config.p || facts.kind == FileKind::Fifo
    &&& !config.d || facts.kind == FileKind::Directory
    &&& !config.g || facts.has_sgid()
    &&& !config.n || facts.mtime > config.newer
    &&& !config.o || facts.mtime < config.older
    &&& !config.r || facts.is_readable()
    &&& !config.s || facts.size > 0
    &&& !config.u || facts.has_suid()
    &&& !config.w || facts.is_writeable()
    &&& !config.x || facts.is_executable()
}

/// Whether a file passes: by its name, and, where it exists, by what is
/// known of it. Of a file that does not exist only the name is tested.
pub open spec fn passes(config: ConfigView, name: Seq<char>, facts: Option<FileFacts>) -> bool {
    &&& passes_by_name(config, name, facts is Some)
    &&& match facts {
        Some(facts) => passes_by_facts(config, facts),
        None => true,
    }
}

/// Whether the file called `name`, of which `facts` are known if it exists,
/// passes the tests that `config` asks for.
pub fn check(name: &str, facts: Option<FileFacts>, config: &Config) -> (pass: bool)
    ensures
        pass == passes(config@, name@, facts),
{
    let hidden = !name.is_empty() && name.get_char(0) == '.';
    let mut result = true;
    if !(config.a || !hidden) {
        result = false;
    }
    if !(!config.e || facts.is_some()) {
        result = false;
    }
    match facts {
        Some(facts) => {
            if !(!config.b || facts.kind == FileKind::BlockDevice) {
                result = false;
            }
            if !(!config.c || facts.kind == FileKind::CharDevice) {
                result = false;
            }
            if !(!config.f || facts.kind == FileKind::Regular) {
                result = false;
            }
            if !(!config.h || facts.kind == FileKind::Symlink) {
                result = false;
            }
            if !(!config.p || facts.kind == FileKind::Fifo) {
                result = false;
            }
            if !(!config.d || facts.kind == FileKind::Directory) {
                result = false;
            }
            if !(!config.g || facts.has_sgid()) {
                result = false;
            }
            if !(!config.n || facts.mtime > config.newer) {
                result = false;
            }
            if !(!config.o || facts.mtime < config.older) {
                result = false;
            }
            if !(!config.r || facts.is_readable()) {
                result = false;
            }
            if !(!config.s || facts.size > 0) {
                result = false;
            }
            if !(!config.u || facts.has_suid()) {
                result = false;
            }
            if !(!config.w || facts.is_writeable()) {
                result = false;
            }
            if !(!config.x || facts.is_executable()) {
                result = false;
            }
            result
        },
        None => result,
    }
}

/// Whether the search is over: a file passed and `q` asks for no more.
pub fn done_after(pass: bool, facts: Option<FileFacts>, config: &Config) -> (done: bool)
    ensures
        done == (pass && config.q && facts is Some),
{
    pass && config.q && facts.is_some()
}

/// The options of the file tests.
pub open spec fn test_table() -> Seq<(Seq<char>, Seq<char>, Seq<char>, Seq<char>, bool)> {
    seq![
        ("a"@, ""@, ""@, Seq::empty(), false),
        ("b"@, ""@, ""@, Seq::empty(), false),
        ("c"@, ""@, ""@, Seq::empty(), false),
        ("d"@, ""@, ""@, Seq::empty(), false),
        ("e"@, ""@, ""@, Seq::empty(), false),
        ("f"@, ""@, ""@, Seq::empty(), false),
        ("g"@, ""@, ""@, Seq::empty(), false),
        ("h"@, ""@, ""@, Seq::empty(), false),
        ("l"@, ""@, ""@, Seq::empty(), false),
        ("p"@, ""@, ""@, Seq::empty(), false),
        ("q"@, ""@, ""@, Seq::empty(), false),
        ("r"@, ""@, ""@, Seq::empty(), false),
        ("s"@, ""@, ""@, Seq::empty(), false),
        ("u"@, ""@, ""@, Seq::empty(), false),
        ("w"@, ""@, ""@, Seq::empty(), false),
        ("x"@, ""@, ""@, Seq::empty(), false),
        ("n"@, "newer"@, "lines of vertical list"@, "LINES"@, true),
        ("o"@, "older"@, "add prompt to left of input field"@, "PROMPT"@, true),
    ]
}

/// The configuration that a parsed command line asks for. The two times are
/// zero until they are looked up.
pub open spec fn config_of(
    given: Map<Seq<char>, Seq<Option<Seq<char>>>>,
    free: Seq<Seq<char>>,
) -> ConfigView {
    ConfigView {
        a: given["a"@].len() > 0,
        b: given["b"@].len() > 0,
        c: given["c"@].len() > 0,
        d: given["d"@].len() > 0,
        e: given["e"@].len() > 0,
        f: given["f"@].len() > 0,
        g: given["g"@].len() > 0,
        h: given["h"@].len() > 0,
        l: given["l"@].len() > 0,
        n: given["n"@].len() > 0,
        o: given["o"@].len() > 0,
        p: given["p"@].len() > 0,
        q: given["q"@].len() > 0,
        r: given["r"@].len() > 0,
        s: given["s"@].len() > 0,
        u: given["u"@].len() > 0,
        w: given["w"@].len() > 0,
        x: given["x"@].len() > 0,
        newer: 0,
        older: 0,
        newer_path: first_value(given, "n"@),
        older_path: first_value(given, "o"@),
        paths: free,
    }
}

/// The names of the options are what they are written as.
proof fn lemma_test_names()
    ensures
        "a"@.len() == 1 && "a"@[0] == 'a',
        "b"@.len() == 1 && "b"@[0] == 'b',
        "c"@.len() == 1 && "c"@[0] == 'c',
        "d"@.len() == 1 && "d"@[0] == 'd',
        "e"@.len() == 1 && "e"@[0] == 'e',
        "f"@.len() == 1 && "f"@[0] == 'f',
        "g"@.len() == 1 && "g"@[0] == 'g',
        "h"@.len() == 1 && "h"@[0] == 'h',
        "l"@.len() == 1 && "l"@[0] == 'l',
        "p"@.len() == 1 && "p"@[0] == 'p',
        "q"@.len() == 1 && "q"@[0] == 'q',
        "r"@.len() == 1 && "r"@[0] == 'r',
        "s"@.len() == 1 && "s"@[0] == 's',
        "u"@.len() == 1 && "u"@[0] == 'u',
        "w"@.len() == 1 && "w"@[0] == 'w',
        "x"@.len() == 1 && "x"@[0] == 'x',
        "n"@.len() == 1 && "n"@[0] == 'n',
        "o"@.len() == 1 && "o"@[0] == 'o',
        ""@.len() == 0,
        "newer"@.len() == 5,
        "older"@.len() == 5,
{
    reveal_strlit("a");
    reveal_strlit("b");
    reveal_strlit("c");
    reveal_strlit("d");
    reveal_strlit("e");
    reveal_strlit("f");
    reveal_strlit("g");
    reveal_strlit("h");
    reveal_strlit("l");
    reveal_strlit("p");
    reveal_strlit("q");
    reveal_strlit("r");
    reveal_strlit("s");
    reveal_strlit("u");
    reveal_strlit("w");
    reveal_strlit("x");
    reveal_strlit("n");
    reveal_strlit("o");
    reveal_strlit("");
    reveal_strlit("newer");
    reveal_strlit("older");
}

/// The options can be asked for by their short names.
proof fn lemma_test_names_known()
    ensures
        names_of(test_table()).contains("a"@),
        names_of(test_table()).contains("b"@),
        names_of(test_table()).contains("c"@),
        names_of(test_table()).contains("d"@),
        names_of(test_table()).contains("e"@),
        names_of(test_table()).contains("f"@),
        names_of(test_table()).contains("g"@),
        names_of(test_table()).contains("h"@),
        names_of(test_table()).contains("l"@),
        names_of(test_table()).contains("n"@),
        names_of(test_table()).contains("o"@),
        names_of(test_table()).contains("p"@),
        names_of(test_table()).contains("q"@),
        names_of(test_table()).contains("r"@),
        names_of(test_table()).contains("s"@),
        names_of(test_table()).contains("u"@),
        names_of(test_table()).contains("w"@),
        names_of(test_table()).contains("x"@),
{
    lemma_test_names();
    let table = test_table();
    assert(has_name(table[0], "a"@));
    assert(has_name(table[1], "b"@));
    assert(has_name(table[2], "c"@));
    assert(has_name(table[3], "d"@));
    assert(has_name(table[4], "e"@));
    assert(has_name(table[5], "f"@));
    assert(has_name(table[6], "g"@));
    assert(has_name(table[7], "h"@));
    assert(has_name(table[8], "l"@));
    assert(has_name(table[16], "n"@));
    assert(has_name(table[17], "o"@));
    assert(has_name(table[9], "p"@));
    assert(has_name(table[10], "q"@));
    assert(has_name(table[11], "r"@));
    assert(has_name(table[12], "s"@));
    assert(has_name(table[13], "u"@));
    assert(has_name(table[14], "w"@));
    assert(has_name(table[15], "x"@));
}

/// Declares the options of the file tests.
fn test_options() -> (options: Options)
    ensures
        declared(options) == test_table(),
{
    proof {
        lemma_test_names();
    }
    let mut options = new_options();
    add_flag(&mut options, "a", "", "");
    add_flag(&mut options, "b", "", "");
    add_flag(&mut options, "c", "", "");
    add_flag(&mut options, "d", "", "");
    add_flag(&mut options, "e", "", "");
    add_flag(&mut options, "f", "", "");
    add_flag(&mut options, "g", "", "");
    add_flag(&mut options, "h", "", "");
    add_flag(&mut options, "l", "", "");
    add_flag(&mut options, "p", "", "");
    add_flag(&mut options, "q", "", "");
    add_flag(&mut options, "r", "", "");
    add_flag(&mut options, "s", "", "");
    add_flag(&mut options, "u", "", "");
    add_flag(&mut options, "w", "", "");
    add_flag(&mut options, "x", "", "");
    add_value(&mut options, "n", "newer", "lines of vertical list", "LINES");
    add_value(&mut options, "o", "older", "add prompt to left of input field", "PROMPT");
    options
}

/// Asks a parsed command line for each option of the file tests.
fn config_from(matches: &Matches) -> (config: Config)
    requires
        occurrences(*matches).dom() == names_of(test_table()),
    ensures
        config@ == config_of(occurrences(*matches), free_args(*matches)),
{
    proof {
        lemma_test_names_known();
    }
    Config {
        a: opt_present(matches, "a"),
        b: opt_present(matches, "b"),
        c: opt_present(matches, "c"),
        d: opt_present(matches, "d"),
        e: opt_present(matches, "e"),
        f: opt_present(matches, "f"),
        g: opt_present(matches, "g"),
        h: opt_present(matches, "h"),
        l: opt_present(matches, "l"),
        n: opt_present(matches, "n"),
        o: opt_present(matches, "o"),
        p: opt_present(matches, "p"),
        q: opt_present(matches, "q"),
        r: opt_present(matches, "r"),
        s: opt_present(matches, "s"),
        u: opt_present(matches, "u"),
        w: opt_present(matches, "w"),
        x: opt_present(matches, "x"),
        newer: 0,
        older: 0,
        newer_path: opt_str(matches, "n"),
        older_path: opt_str(matches, "o"),
        paths: free_of(matches),
    }
}

/// Reads the command line of the file tests. The first argument is the
/// program's name. Where the arguments fit the options, the result is the
/// configuration they ask for, its two times still zero; where they do not,
/// it is the message of the failure.
pub fn get_config(args: Vec<String>) -> (r: Result<Config, String>)
    requires
        args.len() > 0,
    ensures
        match r {
            Ok(config) => match parsed(test_table(), arg_views(args@).skip(1)) {
                Some(found) => config@ == config_of(found.0, found.1),
                None => false,
            },
            Err(_) => parsed(test_table(), arg_views(args@).skip(1)) is None,
        },
{
    let options = test_options();
    let rest = behind_first(&args);
    proof {
        lemma_test_names();
    }
    match parse(&options, &rest) {
        Err(fail) => Err(fail_text(&fail)),
        Ok(matches) => Ok(config_from(&matches)),
    }
}

impl Config {
    /// The configuration with the two times set: each to the modification
    /// time found for the file that the option names, or to zero where none
    /// was found.
    pub fn with_times(self, newer: Option<i64>, older: Option<i64>) -> (config: Config)
        ensures
            config@ == (ConfigView {
                newer: match newer {
                    Some(t) => t,
                    None => 0,
                },
                older: match older {
                    Some(t) => t,
                    None => 0,
                },
                ..self@
            }),
    {
        let mut config = self;
        config.newer = match newer {
            Some(t) => t,
            None => 0,
        };
        config.older = match older {
            Some(t) => t,
            None => 0,
        };
        config
    }
}

/// The pieces of `text` between colons; a text without a colon is one
/// piece, and a colon at an end leaves an empty piece there.
pub open spec fn pieces(text: Seq<char>) -> Seq<Seq<char>>
    decreases text.len(),
{
    if text.len() == 0 {
        seq![Seq::empty()]
    } else {
        let front = pieces(text.drop_last());
        if text.last() == ':' {
            front.push(Seq::empty())
        } else {
            front.drop_last().push(front.last().push(text.last()))
        }
    }
}

/// The paths to test: the pieces between colons of the first path given,
/// or one empty path where none is given.
pub open spec fn paths_of(paths: Seq<Seq<char>>) -> Seq<Seq<char>> {
    if paths.len() > 0 {
        pieces(paths[0])
    } else {
        pieces(Seq::empty())
    }
}

/// The pieces of `text` between colons.
pub fn split_paths(text: &str) -> (out: Vec<String>)
    ensures
        out.deep_view() == pieces(text@),
{
    let chars = chars_of(text);
    let mut out: Vec<String> = Vec::new();
    let mut current = String::new();
    let mut i: usize = 0;
    proof {
        assert(chars@.take(0) =~= Seq::<char>::empty());
        assert(out.deep_view().push(current@) =~= seq![Seq::<char>::empty()]);
    }
    while i < chars.len()
        invariant
            0 <= i <= chars.len(),
            pieces(chars@.take(i as int)) == out.deep_view().push(current@),
        decreases chars.len() - i,
    {
        let c = chars[i];
        let ghost done = out.deep_view();
        let ghost run = current@;
        proof {
            let upto = chars@.take(i + 1);
            assert(upto.drop_last() =~= chars@.take(i as int));
            assert(upto.last() == c);
            assert(done.push(run).drop_last() =~= done);
        }
        if c == ':' {
            out.push(current);
            current = String::new();
            proof {
                assert(out.deep_view() =~= done.push(run));
            }
        } else {
            current.push(c);
        }
        i = i + 1;
    }
    let ghost done = out.deep_view();
    let ghost run = current@;
    out.push(current);
    proof {
        assert(chars@.take(chars.len() as int) =~= chars@);
        assert(out.deep_view() =~= done.push(run));
    }
    out
}

impl Config {
    /// The paths to test.
    pub fn paths_to_test(&self) -> (out: Vec<String>)
        ensures
            out.deep_view() == paths_of(self@.paths),
    {
        proof {
            reveal_strlit("");
            assert(""@ =~= Seq::<char>::empty());
            assert(self@.paths.len() == self.paths.len());
            if self.paths.len() > 0 {
                assert(self@.paths[0] == self.paths[0]@);
            }
        }
        if self.paths.len() > 0 {
            split_paths(self.paths[0].as_str())
        } else {
            split_paths("")
        }
    }

    /// Whether the entries of a directory are tested in place of the
    /// directory: `l` asks for it.
    pub fn lists_entries(&self, facts: &FileFacts) -> (r: bool)
        ensures
            r == (self.l && facts.kind == FileKind::Directory),
    {
        self.l && facts.kind == FileKind::Directory
    }
}

} // verus!
