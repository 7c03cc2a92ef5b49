//! The command line: the options it accepts, and how they select one action.

use getopts::{Matches, Options};
use vstd::prelude::*;
use vstd::string::*;

use crate::actions::Query;

verus! {

#[verifier::external_type_specification]
#[verifier::external_body]
pub struct ExOptions(Options);

#[verifier::external_type_specification]
#[verifier::external_body]
pub struct ExMatches(Matches);

/// An option as the parser sees it: short name, long name, and whether it
/// takes a value.
pub open spec fn option_entry(short: &str, long: &str, valued: bool) -> (Seq<char>, Seq<char>, bool) {
    (short@, long@, valued)
}

/// Names that `getopts` accepts: a one-character ASCII short name and a long
/// name of two characters or more.
pub open spec fn names_accepted(e: (Seq<char>, Seq<char>, bool)) -> bool {
    &&& e.0.len() == 1
    &&& (e.0[0] as u32) < 128
    &&& e.1.len() > 1
}

/// The strings of a list of strings.
pub open spec fn strings_view(v: Seq<String>) -> Seq<Seq<char>> {
    v.map_values(|s: String| s@)
}

/// The arguments after the program name.
pub open spec fn after_program(args: Seq<Seq<char>>) -> Seq<Seq<char>> {
    if args.len() == 0 {
        Seq::empty()
    } else {
        args.skip(1)
    }
}

/// The options that a set of options declares, in the order they were added.
pub uninterp spec fn declared(o: Options) -> Seq<(Seq<char>, Seq<char>, bool)>;

/// The options are parsed in the default way: not long-only, in the default
/// parsing style, and every option is optional and either takes a value or
/// takes none (no option whose value may be left out).
pub uninterp spec fn plain_style(o: Options) -> bool;

/// Whether the arguments fit the declared options, parsed in the default way.
pub uninterp spec fn args_fit(decl: Seq<(Seq<char>, Seq<char>, bool)>, args: Seq<Seq<char>>) -> bool;

/// The message of the failure where the arguments do not fit the options.
pub uninterp spec fn failure_text(
    decl: Seq<(Seq<char>, Seq<char>, bool)>,
    args: Seq<Seq<char>>,
) -> Seq<char>;

/// Whether the option of the given name occurs among the arguments.
pub uninterp spec fn arg_given(
    decl: Seq<(Seq<char>, Seq<char>, bool)>,
    args: Seq<Seq<char>>,
    name: Seq<char>,
) -> bool;

/// The value that the arguments give the option of the given name, if any.
pub uninterp spec fn arg_value(
    decl: Seq<(Seq<char>, Seq<char>, bool)>,
    args: Seq<Seq<char>>,
    name: Seq<char>,
) -> Option<Seq<char>>;

/// The option names, short and long, that a parse result can be asked about.
pub uninterp spec fn known_options(m: Matches) -> Set<Seq<char>>;

/// Whether a parse result holds the option of the given name.
pub uninterp spec fn option_given(m: Matches, name: Seq<char>) -> bool;

/// The value that a parse result holds for the option of the given name.
pub uninterp spec fn option_value(m: Matches, name: Seq<char>) -> Option<Seq<char>>;

/// Relies on `getopts::Options::new`: no option declared.
#[verifier::external_body]
fn new_options() -> (r: Options)
    ensures
        declared(r) == Seq::<(Seq<char>, Seq<char>, bool)>::empty(),
        plain_style(r),
{
    Options::new()
}

/// Relies on `getopts::Options::optopt`: one more option, which takes a
/// value. It panics unless the short name is one character (ASCII here, so
/// one byte) and the long name is longer than one byte.
#[verifier::external_body]
fn add_valued(opts: &mut Options, short: &str, long: &str, desc: &str, hint: &str)
    requires
        names_accepted(option_entry(short, long, true)),
    ensures
        declared(*final(opts)) == declared(*old(opts)).push(option_entry(short, long, true)),
        plain_style(*final(opts)) == plain_style(*old(opts)),
{
    opts.optopt(short, long, desc, hint);
}

/// Relies on `getopts::Options::optflag`: one more option, which takes no
/// value, with the same demands on the names as `optopt`.
#[verifier::external_body]
fn add_flag(opts: &mut Options, short: &str, long: &str, desc: &str)
    requires
        names_accepted(option_entry(short, long, false)),
    ensures
        declared(*final(opts)) == declared(*old(opts)).push(option_entry(short, long, false)),
        plain_style(*final(opts)) == plain_style(*old(opts)),
{
    opts.optflag(short, long, desc);
}

/// Relies on `getopts::Options::parse`, with a failure turned into its
/// message by `Display` for `getopts::Fail`. For options parsed in the
/// default way the result depends on the declared options and the arguments
/// alone; every declared short name can be asked about. It panics on an
/// option without a name, which the demands of `optopt` and `optflag` rule
/// out.
#[verifier::external_body]
fn parse_args(opts: &Options, args: &Vec<String>) -> (r: Result<Matches, String>)
    requires
        plain_style(*opts),
        forall|i: int| 0 <= i < declared(*opts).len() ==> names_accepted(#[trigger] declared(*opts)[i]),
    ensures
        r is Ok <==> args_fit(declared(*opts), strings_view(args@)),
        r matches Err(e) ==> e@ == failure_text(declared(*opts), strings_view(args@)),
        r matches Ok(m) ==> forall|i: int|
            0 <= i < declared(*opts).len() ==> known_options(m).contains(
                #[trigger] declared(*opts)[i].0,
            ),
        r matches Ok(m) ==> forall|n: Seq<char>| #[trigger]
            option_given(m, n) == arg_given(declared(*opts), strings_view(args@), n),
        r matches Ok(m) ==> forall|n: Seq<char>| #[trigger]
            option_value(m, n) == arg_value(declared(*opts), strings_view(args@), n),
{
    opts.parse(args).map_err(|f| f.to_string())
}

/// Relies on `getopts::Matches::opt_defined`, which looks the name up among
/// the options as `opt_present` and `opt_str` do.
#[verifier::external_body]
fn is_defined(m: &Matches, name: &str) -> (r: bool)
    ensures
        r == known_options(*m).contains(name@),
{
    m.opt_defined(name)
}

/// Relies on `getopts::Matches::opts_present` on one name: whether the option
/// was given. It returns false for a name that no option has.
#[verifier::external_body]
fn is_present(m: &Matches, name: &str) -> (r: bool)
    ensures
        r == option_given(*m, name@),
{
    m.opts_present(&[name.to_string()])
}

/// Relies on `getopts::Matches::opt_str`: the value given to the option, if
/// any. It panics on a name that no option has.
#[verifier::external_body]
fn value_of(m: &Matches, name: &str) -> (r: Option<String>)
    requires
        known_options(*m).contains(name@),
    ensures
        opt_view(r) == option_value(*m, name@),
{
    m.opt_str(name)
}

/// A text that may be absent, as characters.
pub open spec fn opt_view(o: Option<String>) -> Option<Seq<char>> {
    match o {
        Some(s) => Some(s@),
        None => None,
    }
}

/// The value given to an option; none where the option is unknown.
fn value_if_known(m: &Matches, name: &str) -> (r: Option<String>)
    ensures
        known_options(*m).contains(name@) ==> opt_view(r) == option_value(*m, name@),
        !known_options(*m).contains(name@) ==> r is None,
{
    if is_defined(m, name) {
        value_of(m, name)
    } else {
        None
    }
}

/// The options of the command line: `-b/--database PATH`,
/// `-r/--remove-database PATH`, `-s/--save NAME`, `-o/--show NAME`,
/// `-d/--delete NAME`, and the flags `-l/--list` and `-h/--help`.
pub open spec fn options_table() -> Seq<(Seq<char>, Seq<char>, bool)> {
    seq![
        option_entry("b", "database", true),
        option_entry("r", "remove-database", true),
        option_entry("s", "save", true),
        option_entry("o", "show", true),
        option_entry("d", "delete", true),
        option_entry("l", "list", false),
        option_entry("h", "help", false),
    ]
}

/// The options that the command line accepts.
pub fn gen_options() -> (r: Options)
    ensures
        declared(r) == options_table(),
        plain_style(r),
{
    let mut options = new_options();
    proof {
        reveal_strlit("b");
        reveal_strlit("r");
        reveal_strlit("s");
        reveal_strlit("o");
        reveal_strlit("d");
        reveal_strlit("l");
        reveal_strlit("h");
        reveal_strlit("database");
        reveal_strlit("remove-database");
        reveal_strlit("save");
        reveal_strlit("show");
        reveal_strlit("delete");
        reveal_strlit("list");
        reveal_strlit("help");
    }
    add_valued(&mut options, "b", "database", "Database file to be used for bookmarks", "PATH");
    add_valued(&mut options, "r", "remove-database", "Database file to be removed", "PATH");
    add_valued(
        &mut options,
        "s",
        "save",
        "Save current path as BOOKMARK_NAME",
        "BOOKMARK_NAME",
    );
    add_valued(
        &mut options,
        "o",
        "show",
        "Show the path assigned to BOOKMARK_NAME",
        "BOOKMARK_NAME",
    );
    add_valued(&mut options, "d", "delete", "Delete BOOKMARK_NAME", "BOOKMARK_NAME");
    add_flag(&mut options, "l", "list", "List all bookmarks in current DB");
    add_flag(&mut options, "h", "help", "Print this help menu");
    assert(declared(options) =~= options_table());
    options
}

/// What the command line gave.
pub struct Given {
    pub help: bool,
    pub list: bool,
    pub remove_database: bool,
    pub database: Option<Seq<char>>,
    pub save: Option<Seq<char>>,
    pub show: Option<Seq<char>>,
    pub delete: Option<Seq<char>>,
}

/// What the arguments (the program name left out) give for each option.
pub open spec fn given_by(args: Seq<Seq<char>>) -> Given {
    Given {
        help: arg_given(options_table(), args, "h"@),
        list: arg_given(options_table(), args, "l"@),
        remove_database: arg_given(options_table(), args, "r"@),
        database: arg_value(options_table(), args, "b"@),
        save: arg_value(options_table(), args, "s"@),
        show: arg_value(options_table(), args, "o"@),
        delete: arg_value(options_table(), args, "d"@),
    }
}

/// What the command line gave, as plain values.
#[derive(Debug)]
pub struct Flags {
    pub help: bool,
    pub list: bool,
    pub remove_database: bool,
    pub database: Option<String>,
    pub save: Option<String>,
    pub show: Option<String>,
    pub delete: Option<String>,
}

impl Flags {
    pub open spec fn view(&self) -> Given {
        Given {
            help: self.help,
            list: self.list,
            remove_database: self.remove_database,
            database: opt_view(self.database),
            save: opt_view(self.save),
            show: opt_view(self.show),
            delete: opt_view(self.delete),
        }
    }
}

/// The action among save, show and delete, in that order of precedence, with
/// its bookmark name; none where none of them was given.
pub open spec fn named_query(g: Given) -> Option<(Query, Seq<char>)> {
    match (g.save, g.show, g.delete) {
        (Some(v), _, _) => Some((Query::Save, v)),
        (None, Some(v), _) => Some((Query::Show, v)),
        (None, None, Some(v)) => Some((Query::Delete, v)),
        _ => None,
    }
}

/// The action selected by the flags and its bookmark name: help wins over
/// everything, then list, then remove-database, then save, show and delete;
/// with none of these, help.
pub open spec fn resolution(g: Given) -> (Query, Seq<char>) {
    if g.help {
        (Query::Help, Seq::empty())
    } else if g.list {
        (Query::List, Seq::empty())
    } else if g.remove_database {
        (Query::RemoveDatabase, Seq::empty())
    } else {
        match named_query(g) {
            Some(q) => q,
            None => (Query::Help, Seq::empty()),
        }
    }
}

/// No action was named: help stands in for one.
pub open spec fn unspecified(g: Given) -> bool {
    !g.help && !g.list && !g.remove_database && named_query(g) is None
}

/// The store file: the one given, else `.curdirmarkdb` in the home
/// directory, else in the current one.
pub open spec fn store_location(g: Given, home: Option<String>) -> Seq<char> {
    match g.database {
        Some(p) => p,
        None => match home {
            Some(h) => h@ + "/.curdirmarkdb"@,
            None => "./.curdirmarkdb"@,
        },
    }
}

/// Picks the action among save, show and delete, in that order.
fn determine_query_and_bookmark(flags: &Flags) -> (r: Option<(Query, String)>)
    ensures
        r matches Some(q) ==> named_query(flags@) == Some((q.0, q.1@)),
        r is None ==> named_query(flags@) is None,
{
    match (&flags.save, &flags.show, &flags.delete) {
        (Some(v), _, _) => Some((Query::Save, v.clone())),
        (None, Some(v), _) => Some((Query::Show, v.clone())),
        (None, None, Some(v)) => Some((Query::Delete, v.clone())),
        _ => None,
    }
}

impl Flags {
    /// Reads the flags out of a parse result; a value of an option that the
    /// result does not know of reads as absent.
    pub fn from_matches(m: &Matches) -> (r: Flags)
        ensures
            r.help == option_given(*m, "h"@),
            r.list == option_given(*m, "l"@),
            r.remove_database == option_given(*m, "r"@),
            known_options(*m).contains("b"@) ==> opt_view(r.database) == option_value(*m, "b"@),
            known_options(*m).contains("s"@) ==> opt_view(r.save) == option_value(*m, "s"@),
            known_options(*m).contains("o"@) ==> opt_view(r.show) == option_value(*m, "o"@),
            known_options(*m).contains("d"@) ==> opt_view(r.delete) == option_value(*m, "d"@),
            !known_options(*m).contains("b"@) ==> r.database is None,
            !known_options(*m).contains("s"@) ==> r.save is None,
            !known_options(*m).contains("o"@) ==> r.show is None,
            !known_options(*m).contains("d"@) ==> r.delete is None,
    {
        Flags {
            help: is_present(m, "h"),
            list: is_present(m, "l"),
            remove_database: is_present(m, "r"),
            database: value_if_known(m, "b"),
            save: value_if_known(m, "s"),
            show: value_if_known(m, "o"),
            delete: value_if_known(m, "d"),
        }
    }

    /// The selected action and its bookmark name.
    pub fn resolve(&self) -> (r: (Query, String))
        ensures
            (r.0, r.1@) == resolution(self@),
    {
        if self.help {
            (Query::Help, String::new())
        } else if self.list {
            (Query::List, String::new())
        } else if self.remove_database {
            (Query::RemoveDatabase, String::new())
        } else {
            match determine_query_and_bookmark(self) {
                Some(q) => q,
                None => (Query::Help, String::new()),
            }
        }
    }
}

/// Help given with any other flags still selects help, with no bookmark
/// name, and help neither reads nor rewrites the store.
pub proof fn lemma_help_wins(g: Given)
    requires
        g.help,
    ensures
        resolution(g) == (Query::Help, Seq::<char>::empty()),
        !resolution(g).0.mutates(),
        !resolution(g).0.spec_reads_store(),
{
}

/// Everything one invocation needs.
#[derive(Debug)]
pub struct Config {
    pub local_db: String,
    pub program: String,
    pub query: Query,
    pub bookmark: String,
    pub path: String,
    pub options: Options,
    /// No action was named on the command line.
    pub unspecified: bool,
}

impl Config {
    /// The configuration for the given flags, program name, working
    /// directory and home directory.
    pub fn from_flags(
        flags: &Flags,
        program: String,
        cur_dir: String,
        home: Option<String>,
        options: Options,
    ) -> (r: Config)
        ensures
            r.query == resolution(flags@).0,
            r.bookmark@ == resolution(flags@).1,
            r.unspecified == unspecified(flags@),
            r.local_db@ == store_location(flags@, home),
            r.program == program,
            r.path == cur_dir,
            r.options == options,
    {
        let local_db = match &flags.database {
            Some(p) => p.clone(),
            None => match home {
                Some(h) => h.concat("/.curdirmarkdb"),
                None => String::from_str("./.curdirmarkdb"),
            },
        };
        let (query, bookmark) = flags.resolve();
        let unspecified = !flags.help && !flags.list && !flags.remove_database
            && determine_query_and_bookmark(flags).is_none();
        Config { local_db, program, query, bookmark, path: cur_dir, options, unspecified }
    }

    /// Parses the command line (the program name first) against the options
    /// of `gen_options` and builds the configuration; where the arguments do
    /// not fit the options, the error is the parser's message.
    pub fn build(args: Vec<String>, cur_dir: String, home: Option<String>) -> (r: Result<
        Config,
        String,
    >)
        ensures
            r is Ok <==> args_fit(options_table(), after_program(strings_view(args@))),
            r matches Err(e) ==> e@ == failure_text(options_table(), after_program(strings_view(args@))),
            r matches Ok(c) ==> {
                let g = given_by(after_program(strings_view(args@)));
                &&& c.query == resolution(g).0
                &&& c.bookmark@ == resolution(g).1
                &&& c.unspecified == unspecified(g)
                &&& c.local_db@ == store_location(g, home)
                &&& c.path == cur_dir
                &&& args@.len() > 0 ==> c.program == args@[0]
                &&& args@.len() == 0 ==> c.program@ == Seq::<char>::empty()
                &&& declared(c.options) == options_table()
                &&& plain_style(c.options)
            },
    {
        let program = if args.len() > 0 {
            args[0].clone()
        } else {
            String::new()
        };
        let mut rest: Vec<String> = Vec::new();
        let mut i: usize = 1;
        while i < args.len()
            invariant
                1 <= i,
                args@.len() == 0 ==> i == 1 && rest@.len() == 0,
                args@.len() > 0 ==> i <= args@.len() && strings_view(rest@) == strings_view(args@).subrange(1, i as int),
            decreases args.len() - i,
        {
            let ghost before = rest@;
            rest.push(args[i].clone());
            assert(strings_view(rest@) =~= strings_view(args@).subrange(1, i + 1)) by {
                assert(strings_view(before) == strings_view(args@).subrange(1, i as int));
                assert forall|j: int| 0 <= j < i - 1 implies strings_view(rest@)[j] == strings_view(args@).subrange(1, i + 1)[j] by {
                    assert(strings_view(before)[j] == strings_view(args@).subrange(1, i as int)[j]);
                }
            }
            i = i + 1;
        }
        assert(strings_view(rest@) =~= after_program(strings_view(args@)));
        let options = gen_options();
        proof {
            reveal_strlit("b");
            reveal_strlit("r");
            reveal_strlit("s");
            reveal_strlit("o");
            reveal_strlit("d");
            reveal_strlit("l");
            reveal_strlit("h");
            reveal_strlit("database");
            reveal_strlit("remove-database");
            reveal_strlit("save");
            reveal_strlit("show");
            reveal_strlit("delete");
            reveal_strlit("list");
            reveal_strlit("help");
            assert(options_table()[0].0 == "b"@);
            assert(options_table()[2].0 == "s"@);
            assert(options_table()[3].0 == "o"@);
            assert(options_table()[4].0 == "d"@);
        }
        match parse_args(&options, &rest) {
            Ok(m) => {
                let flags = Flags::from_matches(&m);
                assert(flags@ == given_by(strings_view(rest@)));
                Ok(Config::from_flags(&flags, program, cur_dir, home, options))
            },
            Err(e) => Err(e),
        }
    }
}

} // verus!
