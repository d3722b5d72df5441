//! The command line: `[--output <name>]`, `--help`.

use vstd::prelude::*;
use crate::text::views;

verus! {

/// What the command line asks for.
pub struct Args {
    /// The output to show the bar on, when one is named.
    pub output: Option<String>,
    /// Whether help was asked for; the arguments after it are not read.
    pub help: bool,
    /// The arguments that are not understood, in order.
    pub ignored: Vec<String>,
}

/// The view of an optional string.
pub open spec fn opt_view(o: Option<String>) -> Option<Seq<char>> {
    match o {
        Some(s) => Some(s@),
        None => None,
    }
}

/// Reading `a` from position `i` on, with the output named so far and the
/// arguments ignored so far: `-o`/`--output` takes the next argument as the
/// output (none when there is no next one), `-h`/`--help` stops, anything
/// else is ignored.
pub open spec fn read_args(
    a: Seq<Seq<char>>,
    i: int,
    output: Option<Seq<char>>,
    ignored: Seq<Seq<char>>,
) -> (Option<Seq<char>>, bool, Seq<Seq<char>>)
    decreases a.len() - i,
{
    if i < 0 || i >= a.len() {
        (output, false, ignored)
    } else if a[i] == "-o"@ || a[i] == "--output"@ {
        if i + 1 < a.len() {
            read_args(a, i + 2, Some(a[i + 1]), ignored)
        } else {
            (None, false, ignored)
        }
    } else if a[i] == "-h"@ || a[i] == "--help"@ {
        (output, true, ignored)
    } else {
        read_args(a, i + 1, output, ignored.push(a[i]))
    }
}

/// Reads the command-line arguments that follow the program's name.
pub fn parse_args(args: &Vec<String>) -> (res: Args)
    ensures
        (opt_view(res.output), res.help, views(res.ignored@)) == read_args(
            views(args@),
            0,
            None,
            Seq::empty(),
        ),
{
    let ghost a = views(args@);
    let short_output = String::from_str("-o");
    let long_output = String::from_str("--output");
    let short_help = String::from_str("-h");
    let long_help = String::from_str("--help");
    let mut output: Option<String> = None;
    let mut ignored: Vec<String> = Vec::new();
    let mut i: usize = 0;
    assert(views(ignored@) =~= Seq::<Seq<char>>::empty());
    while i < args.len()
        invariant
            a == views(args@),
            short_output@ == "-o"@,
            long_output@ == "--output"@,
            short_help@ == "-h"@,
            long_help@ == "--help"@,
            i <= args.len(),
            read_args(a, i as int, opt_view(output), views(ignored@)) == read_args(
                a,
                0,
                None,
                Seq::empty(),
            ),
        decreases args.len() - i,
    {
        let arg = &args[i];
        if *arg == short_output || *arg == long_output {
            if i + 1 < args.len() {
                output = Some(args[i + 1].clone());
                i = i + 2;
            } else {
                return Args { output: None, help: false, ignored };
            }
        } else if *arg == short_help || *arg == long_help {
            return Args { output, help: true, ignored };
        } else {
            let ghost before = ignored@;
            ignored.push(arg.clone());
            assert(views(ignored@) =~= views(before).push(a[i as int]));
            i = i + 1;
        }
    }
    Args { output, help: false, ignored }
}


/// Help asked for first stops at once: a command line that starts with `-h`
/// or `--help` asks for help, names no output and ignores nothing.
pub proof fn lemma_help_first(a: Seq<Seq<char>>)
    requires
        a.len() > 0,
        a[0] == "-h"@ || a[0] == "--help"@,
    ensures
        read_args(a, 0, None, Seq::empty()) == (None::<Seq<char>>, true, Seq::<Seq<char>>::empty()),
{
    reveal_strlit("-h");
    reveal_strlit("-o");
    reveal_strlit("--help");
    reveal_strlit("--output");
    assert("-h"@ != "-o"@) by {
        assert("-h"@[1] != "-o"@[1]);
    }
    assert("-h"@ != "--output"@) by {
        assert("-h"@.len() != "--output"@.len());
    }
    assert("--help"@ != "-o"@) by {
        assert("--help"@.len() != "-o"@.len());
    }
    assert("--help"@ != "--output"@) by {
        assert("--help"@.len() != "--output"@.len());
    }
}

/// Whether `x` is one of the flags that the command line understands.
pub open spec fn is_flag(x: Seq<char>) -> bool {
    x == "-o"@ || x == "--output"@ || x == "-h"@ || x == "--help"@
}

/// The arguments reported as ignored are never one of the understood flags
/// `-o`, `--output`, `-h`, `--help`, and they are arguments of the command
/// line.
pub proof fn lemma_ignored_are_unknown(
    a: Seq<Seq<char>>,
    i: int,
    output: Option<Seq<char>>,
    ignored: Seq<Seq<char>>,
)
    requires
        forall|j: int| 0 <= j < ignored.len() ==> !is_flag(#[trigger] ignored[j]) && a.contains(
            ignored[j],
        ),
    ensures
        forall|j: int|
            0 <= j < read_args(a, i, output, ignored).2.len() ==> !is_flag(
                #[trigger] read_args(a, i, output, ignored).2[j],
            ) && a.contains(read_args(a, i, output, ignored).2[j]),
    decreases a.len() - i,
{
    if i < 0 || i >= a.len() {
        assert(read_args(a, i, output, ignored).2 == ignored);
    } else if a[i] == "-o"@ || a[i] == "--output"@ {
        if i + 1 < a.len() {
            lemma_ignored_are_unknown(a, i + 2, Some(a[i + 1]), ignored);
            assert(read_args(a, i, output, ignored) == read_args(a, i + 2, Some(a[i + 1]), ignored));
        } else {
            assert(read_args(a, i, output, ignored).2 == ignored);
        }
    } else if a[i] == "-h"@ || a[i] == "--help"@ {
        assert(read_args(a, i, output, ignored).2 == ignored);
    } else {
        assert(a.contains(a[i]));
        let next = ignored.push(a[i]);
        assert forall|j: int| 0 <= j < next.len() implies !is_flag(#[trigger] next[j]) && a.contains(
            next[j],
        ) by {
            if j == ignored.len() {
                assert(next[j] == a[i]);
            } else {
                assert(next[j] == ignored[j]);
            }
        }
        lemma_ignored_are_unknown(a, i + 1, output, next);
        assert(read_args(a, i, output, ignored) == read_args(a, i + 1, output, next));
    }
}

} // verus!
