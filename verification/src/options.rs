//! Command-line options, read with the `getopts` crate.
//!
//! Nothing in this file but `behind_first` is proved: each function calls
//! one function of `getopts`, and its contract says what is taken on trust
//! of that function. The contracts speak of what a set of options and a
//! parsed command line hold through the names `declared`, `occurrences` and
//! `free_args`, and of what parsing gives through the name `parsed`.

use vstd::prelude::*;
use getopts::{Fail, Matches, Options};

verus! {

/// `getopts::Options`, a set of options; nothing is known of its inside.
#[verifier::external_type_specification]
#[verifier::external_body]
pub struct ExOptions(Options);

/// `getopts::Matches`, a parsed command line; nothing is known of its
/// inside.
#[verifier::external_type_specification]
#[verifier::external_body]
pub struct ExMatches(Matches);

/// `getopts::Fail`, the reason why a command line does not fit.
#[verifier::external_type_specification]
#[verifier::external_body]
pub struct ExFail(Fail);

/// The options that a set of options holds, in the order in which they were
/// declared: short name, long name, description, hint, and whether the option
/// takes a value. Every option may be given once and need not be given.
pub uninterp spec fn declared(options: Options) -> Seq<
    (Seq<char>, Seq<char>, Seq<char>, Seq<char>, bool),
>;

/// What a parsed command line holds for each name by which an option can be
/// asked for: one entry for each time the option was given, with the value
/// given to it, if any.
pub uninterp spec fn occurrences(matches: Matches) -> Map<Seq<char>, Seq<Option<Seq<char>>>>;

/// The arguments of a parsed command line that belong to no option.
pub uninterp spec fn free_args(matches: Matches) -> Seq<Seq<char>>;

/// What `Options::parse` gives for `args` and the options of `table`, in a
/// set of options that was made by `Options::new` and filled by `optflag` and
/// `optopt`: the occurrences of each option and the free arguments, or
/// nothing where the command line does not fit the options.
pub uninterp spec fn parsed(
    table: Seq<(Seq<char>, Seq<char>, Seq<char>, Seq<char>, bool)>,
    args: Seq<Seq<char>>,
) -> Option<(Map<Seq<char>, Seq<Option<Seq<char>>>>, Seq<Seq<char>>)>;

/// What `Options::usage` gives for the options of `table` under the heading
/// `brief`.
pub uninterp spec fn usage_text(
    table: Seq<(Seq<char>, Seq<char>, Seq<char>, Seq<char>, bool)>,
    brief: Seq<char>,
) -> Seq<char>;

/// A short name is empty or one ASCII character, a long name is not one
/// character long, and one of the two is there.
pub open spec fn names_are_valid(short: Seq<char>, long: Seq<char>) -> bool {
    &&& short.len() <= 1
    &&& short.len() == 1 ==> (short[0] as u32) < 128
    &&& long.len() != 1
    &&& short.len() + long.len() > 0
}

/// `name` is the short or the long name of the option `entry`.
pub open spec fn has_name(
    entry: (Seq<char>, Seq<char>, Seq<char>, Seq<char>, bool),
    name: Seq<char>,
) -> bool {
    name.len() > 0 && (entry.0 == name || entry.1 == name)
}

/// The names by which the options of `table` can be asked for.
pub open spec fn names_of(
    table: Seq<(Seq<char>, Seq<char>, Seq<char>, Seq<char>, bool)>,
) -> Set<Seq<char>> {
    Set::new(
        |name: Seq<char>| exists|k: int| 0 <= k < table.len() && has_name(#[trigger] table[k], name),
    )
}

/// The value given to the option `name` the first time it was given, if it
/// was given with one.
pub open spec fn first_value(
    given: Map<Seq<char>, Seq<Option<Seq<char>>>>,
    name: Seq<char>,
) -> Option<Seq<char>> {
    if given[name].len() > 0 {
        given[name][0]
    } else {
        None
    }
}

/// The text that an optional string holds.
pub open spec fn text_of(value: Option<String>) -> Option<Seq<char>> {
    match value {
        Some(text) => Some(text@),
        None => None,
    }
}

/// The texts of the arguments.
pub open spec fn arg_views(args: Seq<String>) -> Seq<Seq<char>> {
    Seq::new(args.len(), |i: int| args[i]@)
}

/// Calls `Options::new`. Taken on trust: the new set holds no option.
#[verifier::external_body]
pub(crate) fn new_options() -> (options: Options)
    ensures
        declared(options) == Seq::<(Seq<char>, Seq<char>, Seq<char>, Seq<char>, bool)>::empty(),
{
    Options::new()
}

/// Calls `Options::optflag`. Taken on trust: the set then holds one more
/// option, with these names and this description, without a hint, that takes
/// no value. `getopts` panics on a short name of more than one byte and on a
/// long name of one byte; an option without any name makes `parse` panic.
#[verifier::external_body]
pub(crate) fn add_flag(options: &mut Options, short: &str, long: &str, desc: &str)
    requires
        names_are_valid(short@, long@),
    ensures
        declared(*final(options)) == declared(*old(options)).push(
            (short@, long@, desc@, Seq::empty(), false),
        ),
{
    options.optflag(short, long, desc);
}

/// Calls `Options::optopt`. Taken on trust: the set then holds one more
/// option, with these names, this description and this hint, that takes a
/// value. The names must be valid as for `add_flag`.
#[verifier::external_body]
pub(crate) fn add_value(options: &mut Options, short: &str, long: &str, desc: &str, hint: &str)
    requires
        names_are_valid(short@, long@),
    ensures
        declared(*final(options)) == declared(*old(options)).push(
            (short@, long@, desc@, hint@, true),
        ),
{
    options.optopt(short, long, desc, hint);
}

/// Calls `Options::parse`. Taken on trust: whether the command line fits,
/// and what the parsed command line then holds, depend on the options
/// declared and on the arguments alone, which is what the name `parsed`
/// says; and the parsed command line can be asked for exactly the names of
/// the options declared.
#[verifier::external_body]
pub(crate) fn parse(options: &Options, args: &Vec<String>) -> (r: Result<Matches, Fail>)
    requires
        forall|k: int|
            0 <= k < declared(*options).len() ==> names_are_valid(
                #[trigger] declared(*options)[k].0,
                declared(*options)[k].1,
            ),
    ensures
        match r {
            Ok(matches) => parsed(declared(*options), arg_views(args@)) == Some(
                (occurrences(matches), free_args(matches)),
            ) && occurrences(matches).dom() == names_of(declared(*options)),
            Err(_) => parsed(declared(*options), arg_views(args@)) is None,
        },
{
    options.parse(args)
}

/// Calls `Matches::opt_present`. Taken on trust: the answer is whether the
/// option was given at least once. `getopts` panics on a name that was not
/// declared.
#[verifier::external_body]
pub(crate) fn opt_present(matches: &Matches, name: &str) -> (given: bool)
    requires
        occurrences(*matches).dom().contains(name@),
    ensures
        given == (occurrences(*matches)[name@].len() > 0),
{
    matches.opt_present(name)
}

/// Calls `Matches::opt_str`. Taken on trust: the answer is the value given
/// to the option the first time it was given, if it was given with one.
/// `getopts` panics on a name that was not declared.
#[verifier::external_body]
pub(crate) fn opt_str(matches: &Matches, name: &str) -> (value: Option<String>)
    requires
        occurrences(*matches).dom().contains(name@),
    ensures
        text_of(value) == first_value(occurrences(*matches), name@),
{
    matches.opt_str(name)
}

/// Copies the field `free` of `Matches`. Taken on trust: it holds the free
/// arguments.
#[verifier::external_body]
pub(crate) fn free_of(matches: &Matches) -> (free: Vec<String>)
    ensures
        arg_views(free@) == free_args(*matches),
{
    matches.free.clone()
}

/// Calls `Options::usage`. Taken on trust: the message depends on the
/// options declared and on the heading alone.
#[verifier::external_body]
pub(crate) fn usage(options: &Options, brief: &str) -> (text: String)
    requires
        forall|k: int|
            0 <= k < declared(*options).len() ==> names_are_valid(
                #[trigger] declared(*options)[k].0,
                declared(*options)[k].1,
            ),
    ensures
        text@ == usage_text(declared(*options), brief@),
{
    options.usage(brief)
}

/// Calls `Fail::to_string`, which gives the message of a failure. Nothing is
/// taken on trust of the message.
#[verifier::external_body]
pub(crate) fn fail_text(fail: &Fail) -> (text: String) {
    fail.to_string()
}

/// The arguments behind the program's name.
pub(crate) fn behind_first(args: &Vec<String>) -> (rest: Vec<String>)
    requires
        args.len() > 0,
    ensures
        arg_views(rest@) == arg_views(args@).skip(1),
{
    let mut rest: Vec<String> = Vec::new();
    let mut i: usize = 1;
    while i < args.len()
        invariant
            1 <= i <= args.len(),
            rest.len() == i - 1,
            forall|k: int| 0 <= k < rest.len() ==> rest[k]@ == args[k + 1]@,
        decreases args.len() - i,
    {
        rest.push(args[i].clone());
        i = i + 1;
    }
    proof {
        assert(arg_views(rest@) =~= arg_views(args@).skip(1));
    }
    rest
}

} // verus!
