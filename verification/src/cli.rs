//! The command line: its commands, and how the arguments of a bare
//! `ccs <name> ...` call are read.

use vstd::prelude::*;

use crate::error::CcsError;
use crate::text::{str_eq, trim, trim_str, chars_of};

verus! {

/// The parsed command line.
pub struct Cli {
    /// The subcommand; none means "start with the automatically chosen
    /// configuration".
    pub command: Option<Commands>,
}

/// The subcommands.
#[allow(inconsistent_fields)]
pub enum Commands {
    /// Start the coding assistant, with the named configuration or the chosen one.
    Use { name: Option<String>, args: Vec<String> },
    /// Set the global default configuration.
    Default { name: String },
    /// Pin the current directory to a configuration.
    Pin { name: String },
    /// Remove the pin of the current directory.
    Unpin,
    /// List the configurations.
    List,
    /// Create a configuration file from the template and register it.
    New { name: String, description: Option<String> },
    /// Register an existing configuration file.
    Add { name: String, path: String, description: Option<String> },
    /// Unregister a configuration, and maybe delete its file.
    Remove { name: String, delete: bool },
    /// Today's cost.
    Today,
    /// This month's cost.
    Month,
    /// Synchronise the session logs.
    Sync,
    /// Detailed cost report in the given format.
    Report { format: String },
    /// An unknown subcommand, read as a configuration name.
    Run(Vec<String>),
}

/// The views of a list of strings.
pub open spec fn strings_view(v: Seq<String>) -> Seq<Seq<char>> {
    v.map_values(|s: String| s@)
}

/// How the arguments of `ccs <name> [--] <args>...` split: the first is
/// the configuration name, and the rest, after a `--` that directly follows
/// the name, goes to the coding assistant.
pub open spec fn external_split(args: Seq<Seq<char>>) -> (Seq<char>, Seq<Seq<char>>)
    recommends
        args.len() > 0,
{
    (args[0], if args.len() > 1 && args[1] == "--"@ {
        args.skip(2)
    } else {
        args.skip(1)
    })
}

/// The split, case by case: the name is the first argument; the assistant
/// gets every argument after it, in order, except that one argument equal
/// to exactly `--` right after the name is dropped. Any other argument,
/// `--resume` or `---` or `-` included, is passed on.
pub proof fn lemma_external_split_cases(args: Seq<Seq<char>>)
    requires
        args.len() > 0,
    ensures
        external_split(args).0 == args[0],
        args.len() == 1 ==> external_split(args).1 == Seq::<Seq<char>>::empty(),
        args.len() > 1 && args[1] != seq!['-', '-'] ==> external_split(args).1 == args.skip(1),
        args.len() > 1 && args[1] == seq!['-', '-'] ==> external_split(args).1 == args.skip(2),
{
    reveal_strlit("--");
    assert("--"@ =~= seq!['-', '-']);
    if args.len() == 1 {
        assert(args.skip(1) =~= Seq::<Seq<char>>::empty());
    }
}

/// Copies of `v[from..]`.
fn clone_tail(v: &Vec<String>, from: usize) -> (r: Vec<String>)
    requires
        from <= v.len(),
    ensures
        strings_view(r@) == strings_view(v@).skip(from as int),
{
    let mut r: Vec<String> = Vec::new();
    let mut i = from;
    while i < v.len()
        invariant
            from <= i <= v.len(),
            strings_view(r@) == strings_view(v@).subrange(from as int, i as int),
        decreases v.len() - i,
    {
        let ghost prev = r@;
        r.push(v[i].clone());
        assert(strings_view(r@) =~= strings_view(prev).push(v@[i as int]@));
        assert(strings_view(v@).subrange(from as int, i + 1) =~= strings_view(v@).subrange(from as int, i as int).push(
            v@[i as int]@,
        ));
        i = i + 1;
    }
    assert(strings_view(v@).subrange(from as int, v.len() as int) =~= strings_view(v@).skip(from as int));
    r
}

/// Splits the arguments of `ccs <name> [--] <args>...` into the
/// configuration name and the arguments for the coding assistant.
pub fn parse_external_args(args: &Vec<String>) -> (r: (String, Vec<String>))
    requires
        args.len() > 0,
    ensures
        (r.0@, strings_view(r.1@)) == external_split(strings_view(args@)),
{
    let name = args[0].clone();
    let rest = if args.len() > 1 && str_eq(args[1].as_str(), "--") {
        clone_tail(args, 2)
    } else if args.len() > 1 {
        clone_tail(args, 1)
    } else {
        let empty: Vec<String> = Vec::new();
        assert(strings_view(empty@) =~= strings_view(args@).skip(1));
        empty
    };
    proof {
        rest_split_fact(args);
    }
    (name, rest)
}

proof fn rest_split_fact(args: &Vec<String>)
    requires
        args.len() > 0,
    ensures
        strings_view(args@)[0] == args@[0]@,
        args.len() > 1 ==> strings_view(args@)[1] == args@[1]@,
{
}

/// The configuration name and arguments of a bare `ccs <name> ...` call;
/// refused when no argument is given.
pub fn external_run_target(args: &Vec<String>) -> (r: Result<(String, Vec<String>), CcsError>)
    ensures
        args.len() == 0 ==> r == Err::<(String, Vec<String>), CcsError>(CcsError::MissingConfigName),
        args.len() > 0 ==> r is Ok && (r->Ok_0.0@, strings_view(r->Ok_0.1@)) == external_split(
            strings_view(args@),
        ),
{
    if args.len() == 0 {
        return Err(CcsError::MissingConfigName);
    }
    Ok(parse_external_args(args))
}

/// Whether an answer to "delete the file? [y/N]" is a yes: `y` or `Y`,
/// around whitespace.
pub fn confirms_deletion(input: &str) -> (r: bool)
    ensures
        r == (trim(input@) == seq!['y'] || trim(input@) == seq!['Y']),
{
    let t = trim_str(input);
    let v = chars_of(t.as_str());
    let r = v.len() == 1 && (v[0] == 'y' || v[0] == 'Y');
    assert(r ==> (t@ =~= seq!['y'] || t@ =~= seq!['Y']));
    assert((t@ == seq!['y'] || t@ == seq!['Y']) ==> v@[0] == t@[0]);
    r
}

} // verus!
