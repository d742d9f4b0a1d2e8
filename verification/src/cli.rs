//! Flag and positional-argument scanning shared by every subcommand.
use vstd::prelude::*;
use crate::text::{chars_of, str_eq};

verus! {

/// `i` is the first position of `args` holding `name`.
pub open spec fn is_first_occurrence(args: Seq<&str>, name: Seq<char>, i: int) -> bool {
    &&& 0 <= i < args.len()
    &&& args[i]@ == name
    &&& forall|j: int| 0 <= j < i ==> args[j]@ != name
}

/// `name` occurs nowhere in `args`.
pub open spec fn absent(args: Seq<&str>, name: Seq<char>) -> bool {
    forall|j: int| 0 <= j < args.len() ==> args[j]@ != name
}

/// Position of the first argument equal to `name` (`None` when there is none).
pub fn position_of(args: &[&str], name: &str) -> (r: Option<usize>)
    ensures
        match r {
            Some(i) => is_first_occurrence(args@, name@, i as int),
            None => absent(args@, name@),
        },
{
    let mut i: usize = 0;
    while i < args.len()
        invariant
            i <= args.len(),
            forall|j: int| 0 <= j < i ==> args@[j]@ != name@,
        decreases args.len() - i,
    {
        if str_eq(args[i], name) {
            return Some(i);
        }
        i += 1;
    }
    None
}

/// Minimal flag reader: `--name value`. The value is the argument right after
/// the first occurrence of `name`; absent when `name` does not occur or is the
/// last argument.
pub fn flag<'a>(args: &'a [&'a str], name: &str) -> (r: Option<&'a str>)
    ensures
        match r {
            Some(v) => exists|i: int|
                is_first_occurrence(args@, name@, i) && i + 1 < args.len() && v == args@[i + 1],
            None => absent(args@, name@) || is_first_occurrence(
                args@,
                name@,
                args.len() - 1,
            ),
        },
{
    match position_of(args, name) {
        None => None,
        Some(i) => {
            if i < args.len() - 1 {
                Some(args[i + 1])
            } else {
                None
            }
        },
    }
}

/// `name` followed by the fixed text of a missing-value error.
pub open spec fn requires_value_message(name: Seq<char>) -> Seq<char> {
    name + " requires a value, got none"@
}

/// An optional value-taking flag: `Ok(None)` when the flag is absent
/// altogether, `Ok(Some(v))` with the argument right after its first
/// occurrence, and an error when it occurs last with nothing after it.
pub fn optional_flag<'a>(args: &'a [&'a str], name: &str) -> (r: Result<Option<&'a str>, String>)
    ensures
        match r {
            Ok(None) => absent(args@, name@),
            Ok(Some(v)) => exists|i: int|
                is_first_occurrence(args@, name@, i) && i + 1 < args.len() && v == args@[i + 1],
            Err(e) => is_first_occurrence(args@, name@, args.len() - 1) && e@
                == requires_value_message(name@),
        },
{
    match position_of(args, name) {
        None => Ok(None),
        Some(i) => {
            if i < args.len() - 1 {
                Ok(Some(args[i + 1]))
            } else {
                let mut e = String::new();
                e.append(name);
                e.append(" requires a value, got none");
                Err(e)
            }
        },
    }
}

/// Whether `a` begins with the two characters `--`.
pub open spec fn is_long_flag(a: Seq<char>) -> bool {
    a.len() >= 2 && a[0] == '-' && a[1] == '-'
}

pub fn starts_with_double_dash(a: &str) -> (r: bool)
    ensures
        r == is_long_flag(a@),
{
    let v = chars_of(a);
    v.len() >= 2 && v[0] == '-' && v[1] == '-'
}

/// The three subcommands whose positional scan skips the values of their
/// value-taking flags.
#[derive(Clone, Copy, PartialEq, Eq, Debug)]
pub enum ValuedFlags {
    /// `psolve solve`.
    Solve,
    /// `psolve index query`.
    IndexQuery,
    /// `psolve quad-index info`.
    QuadIndexInfo,
}

/// Whether `a` is one of `table`'s flags that consume the following token.
pub open spec fn takes_value(table: ValuedFlags, a: Seq<char>) -> bool {
    match table {
        ValuedFlags::Solve => {
            ||| a == "--index"@
            ||| a == "--hint"@
            ||| a == "--scale"@
            ||| a == "--radius"@
            ||| a == "--cat-limit"@
            ||| a == "--saturation"@
            ||| a == "--sigma"@
            ||| a == "--min-pix"@
            ||| a == "--keep"@
            ||| a == "--max-ellipticity"@
            ||| a == "--quad-index"@
            ||| a == "--max-mag"@
        },
        ValuedFlags::IndexQuery => {
            ||| a == "--ra"@
            ||| a == "--dec"@
            ||| a == "--radius"@
            ||| a == "--max-mag"@
            ||| a == "--format"@
        },
        ValuedFlags::QuadIndexInfo => a == "--star-index"@,
    }
}

/// Executable membership test for [`takes_value`].
pub fn is_valued_flag(table: ValuedFlags, a: &str) -> (r: bool)
    ensures
        r == takes_value(table, a@),
{
    match table {
        ValuedFlags::Solve => {
            str_eq(a, "--index") || str_eq(a, "--hint") || str_eq(a, "--scale") || str_eq(
                a,
                "--radius",
            ) || str_eq(a, "--cat-limit") || str_eq(a, "--saturation") || str_eq(a, "--sigma")
                || str_eq(a, "--min-pix") || str_eq(a, "--keep") || str_eq(a, "--max-ellipticity")
                || str_eq(a, "--quad-index") || str_eq(a, "--max-mag")
        },
        ValuedFlags::IndexQuery => {
            str_eq(a, "--ra") || str_eq(a, "--dec") || str_eq(a, "--radius") || str_eq(
                a,
                "--max-mag",
            ) || str_eq(a, "--format")
        },
        ValuedFlags::QuadIndexInfo => str_eq(a, "--star-index"),
    }
}

/// The positional scan from position `i` on: a value-taking flag skips itself
/// and its value, any other `--` token skips itself, and the first remaining
/// token is the positional argument.
pub open spec fn positional_from(table: ValuedFlags, args: Seq<&str>, i: int) -> Option<int>
    decreases args.len() - i,
{
    if i < 0 || i >= args.len() {
        None
    } else if takes_value(table, args[i]@) {
        if i + 2 >= args.len() {
            None
        } else {
            positional_from(table, args, i + 2)
        }
    } else if is_long_flag(args[i]@) {
        positional_from(table, args, i + 1)
    } else {
        Some(i)
    }
}

/// The first token of `args` that is neither a flag nor a flag's value.
pub fn positional_in<'a>(table: ValuedFlags, args: &[&'a str]) -> (r: Option<&'a str>)
    ensures
        match positional_from(table, args@, 0) {
            Some(i) => r == Some(args@[i]),
            None => r is None,
        },
{
    let mut i: usize = 0;
    while i < args.len()
        invariant
            positional_from(table, args@, 0) == positional_from(table, args@, i as int),
        decreases args.len() - i,
    {
        let a = args[i];
        if is_valued_flag(table, a) {
            if args.len() - i <= 2 {
                return None;
            }
            i += 2;
        } else if starts_with_double_dash(a) {
            i += 1;
        } else {
            return Some(a);
        }
    }
    None
}

/// `psolve solve`'s positional FILE argument.
pub fn positional<'a>(args: &[&'a str]) -> (r: Option<&'a str>)
    ensures
        match positional_from(ValuedFlags::Solve, args@, 0) {
            Some(i) => r == Some(args@[i]),
            None => r is None,
        },
{
    positional_in(ValuedFlags::Solve, args)
}

/// `psolve index query`'s positional INDEX argument.
pub fn query_positional<'a>(args: &[&'a str]) -> (r: Option<&'a str>)
    ensures
        match positional_from(ValuedFlags::IndexQuery, args@, 0) {
            Some(i) => r == Some(args@[i]),
            None => r is None,
        },
{
    positional_in(ValuedFlags::IndexQuery, args)
}

/// `psolve quad-index info`'s positional PSQIDX argument.
pub fn info_positional<'a>(args: &[&'a str]) -> (r: Option<&'a str>)
    ensures
        match positional_from(ValuedFlags::QuadIndexInfo, args@, 0) {
            Some(i) => r == Some(args@[i]),
            None => r is None,
        },
{
    positional_in(ValuedFlags::QuadIndexInfo, args)
}

/// The positional argument found from position `i` on is never a flag:
/// neither a `--` token nor a value-taking flag, so a flag's value cannot be
/// mistaken for the input file and a flag cannot be taken as one either.
pub proof fn law_positional_is_not_a_flag(table: ValuedFlags, args: Seq<&str>, i: int)
    ensures
        positional_from(table, args, i) matches Some(p) ==> 0 <= p < args.len() && !is_long_flag(
            args[p]@,
        ) && !takes_value(table, args[p]@),
    decreases args.len() - i,
{
    if 0 <= i < args.len() {
        if takes_value(table, args[i]@) {
            if i + 2 < args.len() {
                law_positional_is_not_a_flag(table, args, i + 2);
            }
        } else if is_long_flag(args[i]@) {
            law_positional_is_not_a_flag(table, args, i + 1);
        }
    }
}

/// A flag with its value (for a value-taking flag), or a lone `--` flag.
pub open spec fn flag_unit(table: ValuedFlags, u: Seq<&str>) -> bool {
    ||| u.len() == 2 && takes_value(table, u[0]@)
    ||| u.len() == 1 && is_long_flag(u[0]@) && !takes_value(table, u[0]@)
}

proof fn lemma_units_skipped(table: ValuedFlags, pre: Seq<Seq<&str>>, rest: Seq<&str>, k: int)
    requires
        0 <= k <= pre.len(),
        rest.len() >= 1,
        forall|j: int| 0 <= j < pre.len() ==> flag_unit(table, #[trigger] pre[j]),
    ensures
        positional_from(table, pre.flatten() + rest, pre.take(k).flatten().len() as int)
            == positional_from(table, pre.flatten() + rest, pre.flatten().len() as int),
    decreases pre.len() - k,
{
    let args = pre.flatten() + rest;
    if k == pre.len() {
        assert(pre.take(k) =~= pre);
    } else {
        lemma_units_skipped(table, pre, rest, k + 1);
        let u = pre[k];
        let a = pre.take(k).flatten();
        assert(pre.take(k + 1) =~= pre.take(k) + seq![u]);
        vstd::seq_lib::lemma_flatten_concat(pre.take(k), seq![u]);
        assert(seq![u].drop_first() =~= Seq::<Seq<&str>>::empty());
        assert(seq![u].first() == u);
        assert(seq![u].drop_first().flatten() =~= Seq::<&str>::empty());
        assert(seq![u].flatten() == u + Seq::<&str>::empty());
        assert(u + Seq::<&str>::empty() =~= u);
        assert(pre =~= pre.take(k + 1) + pre.skip(k + 1));
        vstd::seq_lib::lemma_flatten_concat(pre.take(k + 1), pre.skip(k + 1));
        let i = a.len() as int;
        assert(pre.take(k + 1).flatten() == a + u);
        assert forall|j: int| 0 <= j < u.len() implies args[i + j] == u[j] by {
            assert(pre.flatten()[i + j] == (a + u)[i + j]);
        }
        assert(flag_unit(table, u));
        assert(args[i] == u[0]);
    }
}

/// However the flags and flag/value pairs before it are arranged, the FILE
/// token is the one found: reordering those units, or moving units after
/// it, never changes which token `positional` picks, and never picks a
/// flag's value.
pub proof fn law_positional_ignores_flag_order(
    table: ValuedFlags,
    pre: Seq<Seq<&str>>,
    file: &str,
    post: Seq<&str>,
)
    requires
        forall|j: int| 0 <= j < pre.len() ==> flag_unit(table, #[trigger] pre[j]),
        !is_long_flag(file@),
        !takes_value(table, file@),
    ensures
        positional_from(table, pre.flatten() + seq![file] + post, 0) == Some(pre.flatten().len() as int),
        (pre.flatten() + seq![file] + post)[pre.flatten().len() as int] == file,
{
    let rest = seq![file] + post;
    assert(pre.flatten() + seq![file] + post =~= pre.flatten() + rest);
    assert(pre.take(0) =~= Seq::<Seq<&str>>::empty());
    lemma_units_skipped(table, pre, rest, 0);
    assert((pre.flatten() + rest)[pre.flatten().len() as int] == file);
}

/// ASTAP mode is entered whenever the argv holds `-f`, ASTAP's own
/// file-name flag.
pub open spec fn is_astap_invocation(args: Seq<Seq<char>>) -> bool {
    exists|i: int| 0 <= i < args.len() && args[i] == "-f"@
}

/// Whether the argv selects ASTAP mode.
pub fn astap_mode(args: &[String]) -> (b: bool)
    ensures
        b == is_astap_invocation(args@.map_values(|a: String| a@)),
{
    let ghost ts = args@.map_values(|a: String| a@);
    let mut i: usize = 0;
    while i < args.len()
        invariant
            ts == args@.map_values(|a: String| a@),
            i <= args.len(),
            forall|j: int| 0 <= j < i ==> ts[j] != "-f"@,
        decreases args.len() - i,
    {
        if str_eq(args[i].as_str(), "-f") {
            assert(ts[i as int] == "-f"@);
            return true;
        }
        i += 1;
    }
    false
}

/// The native subcommands.
#[derive(Clone, Copy, PartialEq, Eq, Debug)]
pub enum Command {
    IndexBuild,
    IndexInfo,
    IndexQuery,
    QuadIndexBuild,
    QuadIndexInfo,
    Solve,
    Help,
    Version,
    Unknown,
}

/// The subcommand an argv names, and where its own arguments begin.
pub open spec fn command_of(args: Seq<Seq<char>>) -> (Command, int) {
    if args.len() >= 2 && args[0] == "index"@ && args[1] == "build"@ {
        (Command::IndexBuild, 2)
    } else if args.len() >= 2 && args[0] == "index"@ && args[1] == "info"@ {
        (Command::IndexInfo, 2)
    } else if args.len() >= 2 && args[0] == "index"@ && args[1] == "query"@ {
        (Command::IndexQuery, 2)
    } else if args.len() >= 2 && args[0] == "quad-index"@ && args[1] == "build"@ {
        (Command::QuadIndexBuild, 2)
    } else if args.len() >= 2 && args[0] == "quad-index"@ && args[1] == "info"@ {
        (Command::QuadIndexInfo, 2)
    } else if args.len() >= 1 && args[0] == "solve"@ {
        (Command::Solve, 1)
    } else if args.len() == 0 || (args.len() == 1 && (args[0] == "-h"@ || args[0] == "--help"@)) {
        (Command::Help, args.len() as int)
    } else if args.len() == 1 && (args[0] == "-V"@ || args[0] == "--version"@ || args[0] == "version"@) {
        (Command::Version, 1)
    } else {
        (Command::Unknown, 0)
    }
}

/// The native subcommand of an argv and the position its arguments start.
pub fn dispatch(args: &[&str]) -> (r: (Command, usize))
    ensures
        (r.0, r.1 as int) == command_of(args@.map_values(|a: &str| a@)),
{
    let ghost ts = args@.map_values(|a: &str| a@);
    let n = args.len();
    if n >= 2 {
        assert(ts[0] == args[0]@ && ts[1] == args[1]@);
        if str_eq(args[0], "index") {
            if str_eq(args[1], "build") {
                return (Command::IndexBuild, 2);
            } else if str_eq(args[1], "info") {
                return (Command::IndexInfo, 2);
            } else if str_eq(args[1], "query") {
                return (Command::IndexQuery, 2);
            }
        } else if str_eq(args[0], "quad-index") {
            if str_eq(args[1], "build") {
                return (Command::QuadIndexBuild, 2);
            } else if str_eq(args[1], "info") {
                return (Command::QuadIndexInfo, 2);
            }
        }
    }
    if n >= 1 {
        assert(ts[0] == args[0]@);
        if str_eq(args[0], "solve") {
            return (Command::Solve, 1);
        }
    }
    if n == 0 {
        return (Command::Help, 0);
    }
    if n == 1 {
        if str_eq(args[0], "-h") || str_eq(args[0], "--help") {
            return (Command::Help, 1);
        }
        if str_eq(args[0], "-V") || str_eq(args[0], "--version") || str_eq(args[0], "version") {
            return (Command::Version, 1);
        }
    }
    (Command::Unknown, 0)
}

/// A two-word subcommand hands on exactly what follows both of its words,
/// and `solve` what follows its one word, whatever that is: `index info
/// stars.psidx` gives `index info` the arguments `stars.psidx` alone.
pub proof fn law_subcommand_arguments(rest: Seq<Seq<char>>)
    ensures
        command_of(seq!["index"@, "build"@] + rest) == (Command::IndexBuild, 2int),
        command_of(seq!["index"@, "info"@] + rest) == (Command::IndexInfo, 2int),
        command_of(seq!["index"@, "query"@] + rest) == (Command::IndexQuery, 2int),
        command_of(seq!["quad-index"@, "build"@] + rest) == (Command::QuadIndexBuild, 2int),
        command_of(seq!["quad-index"@, "info"@] + rest) == (Command::QuadIndexInfo, 2int),
        command_of(seq!["solve"@] + rest) == (Command::Solve, 1int),
        command_of(Seq::<Seq<char>>::empty()) == (Command::Help, 0int),
{
    reveal_strlit("index");
    reveal_strlit("quad-index");
    reveal_strlit("solve");
    reveal_strlit("build");
    reveal_strlit("info");
    reveal_strlit("query");
    let a = seq!["index"@, "info"@] + rest;
    assert(a[0] == "index"@ && a[1] == "info"@);
    assert("info"@ != "build"@);
    let b = seq!["index"@, "query"@] + rest;
    assert(b[0] == "index"@ && b[1] == "query"@);
    assert("query"@[0] != "build"@[0] && "query"@.len() != "info"@.len());
    let c = seq!["quad-index"@, "build"@] + rest;
    assert(c[0] == "quad-index"@ && c[1] == "build"@);
    assert("quad-index"@ != "index"@);
    let d = seq!["quad-index"@, "info"@] + rest;
    assert(d[0] == "quad-index"@ && d[1] == "info"@);
    let e = seq!["solve"@] + rest;
    assert(e[0] == "solve"@);
    assert("solve"@[0] != "index"@[0] && "solve"@.len() != "quad-index"@.len());
    let g = seq!["index"@, "build"@] + rest;
    assert(g[0] == "index"@ && g[1] == "build"@);
}

/// Wherever `command_of` names a subcommand, its arguments start right after
/// the words that name it: two for the `index` and `quad-index` ones, one
/// for `solve`.
pub proof fn law_arguments_follow_the_words(args: Seq<Seq<char>>)
    ensures
        command_of(args).0 is IndexBuild || command_of(args).0 is IndexInfo || command_of(args).0 is IndexQuery
            || command_of(args).0 is QuadIndexBuild || command_of(args).0 is QuadIndexInfo ==> command_of(args).1
            == 2 && args.len() >= 2,
        command_of(args).0 is Solve ==> command_of(args).1 == 1 && args.len() >= 1 && args[0] == "solve"@,
        command_of(args).0 is IndexInfo ==> args[0] == "index"@ && args[1] == "info"@,
{
}

} // verus!
