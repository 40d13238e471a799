//! The command line.
//!
//! ```text
//! guardstate <input.mir> [--summary <can_sleep.txt>]
//! ```

use crate::scan::strings_view;
use crate::text::same_text;
use vstd::prelude::*;

verus! {

/// What a command line asks for.
pub struct Request {
    /// The program to analyze.
    pub input: String,
    /// The summaries to read, in order; the last one counts.
    pub summaries: Vec<String>,
    /// What is wrong with the first argument behind them that is not understood.
    pub error: Option<String>,
}

/// The summaries that the arguments from `at` on name, before the first one that is wrong.
pub open spec fn summaries_from(args: Seq<Seq<char>>, at: int) -> Seq<Seq<char>>
    decreases args.len() - at,
{
    if 0 <= at && at + 1 < args.len() && args[at] == "--summary"@ {
        seq![args[at + 1]] + summaries_from(args, at + 2)
    } else {
        seq![]
    }
}

/// What is wrong with the arguments from `at` on.
pub open spec fn error_from(args: Seq<Seq<char>>, at: int) -> Option<Seq<char>>
    decreases args.len() - at,
{
    if at >= args.len() {
        None
    } else if args[at] != "--summary"@ {
        Some("error: unknown argument "@ + args[at])
    } else if at + 1 >= args.len() {
        Some("error: --summary needs a path"@)
    } else {
        error_from(args, at + 2)
    }
}

/// How the program is used.
pub open spec fn usage(program: Seq<char>) -> Seq<char> {
    "usage: "@ + program + " <input.mir> [--summary <can_sleep.txt>]"@
}

/// Reads the command line, the name of the program included. The error is the usage.
pub fn parse_args(args: &[String]) -> (result: Result<Request, String>)
    requires
        args@.len() > 0,
    ensures
        match result {
            Ok(request) => {
                let words = strings_view(args@);
                &&& words.len() >= 2
                &&& request.input@ == words[1]
                &&& strings_view(request.summaries@) == summaries_from(words, 2)
                &&& match request.error {
                    Some(error) => error_from(words, 2) == Some(error@),
                    None => error_from(words, 2) is None,
                }
            },
            Err(text) => args@.len() < 2 && text@ == usage(args@[0]@),
        },
{
    if args.len() < 2 {
        let mut text = "usage: ".to_owned();
        text.append(args[0].as_str());
        text.append(" <input.mir> [--summary <can_sleep.txt>]");
        return Err(text);
    }
    let ghost words = strings_view(args@);
    let mut summaries: Vec<String> = Vec::new();
    let mut i: usize = 2;
    assert(strings_view(summaries@) + summaries_from(words, 2) == summaries_from(words, 2));
    while i < args.len()
        invariant
            2 <= i <= args@.len(),
            words == strings_view(args@),
            strings_view(summaries@) + summaries_from(words, i as int) == summaries_from(
                words,
                2,
            ),
            error_from(words, i as int) == error_from(words, 2),
        decreases args@.len() - i,
    {
        let mut wrong: Option<String> = None;
        if !same_text(args[i].as_str(), "--summary") {
            let mut text = "error: unknown argument ".to_owned();
            text.append(args[i].as_str());
            wrong = Some(text);
        } else if args.len() - i < 2 {
            wrong = Some("error: --summary needs a path".to_owned());
        }
        if wrong.is_some() {
            assert(strings_view(summaries@) == summaries_from(words, 2));
            return Ok(Request { input: args[1].clone(), summaries, error: wrong });
        }
        let ghost before = summaries@;
        summaries.push(args[i + 1].clone());
        proof {
            assert(strings_view(summaries@) == strings_view(before).push(words[i + 1]));
            assert(strings_view(summaries@) + summaries_from(words, i + 2) == strings_view(before)
                + summaries_from(words, i as int));
        }
        i = i + 2;
    }
    assert(strings_view(summaries@) == summaries_from(words, 2));
    Ok(Request { input: args[1].clone(), summaries, error: None })
}

/// Behind the program and the input, every `--summary PATH` names a summary, in order. The first
/// argument that is not `--summary`, or a `--summary` at the end, is what is wrong; nothing is
/// wrong if there is none.
pub proof fn law_every_summary_is_named(
    program: Seq<char>,
    input: Seq<char>,
    paths: Seq<Seq<char>>,
    tail: Seq<Seq<char>>,
)
    requires
        tail.len() == 0 || tail[0] != "--summary"@ || tail.len() == 1,
    ensures
        ({
            let args = seq![program, input] + paths.flat_map(
                |path: Seq<char>| seq!["--summary"@, path],
            ) + tail;
            &&& summaries_from(args, 2) == paths
            &&& error_from(args, 2) == if tail.len() == 0 {
                None
            } else if tail[0] != "--summary"@ {
                Some("error: unknown argument "@ + tail[0])
            } else {
                Some("error: --summary needs a path"@)
            }
        }),
{
    lemma_every_summary_is_named(seq![program, input], paths, tail);
}

proof fn lemma_every_summary_is_named(
    head: Seq<Seq<char>>,
    paths: Seq<Seq<char>>,
    tail: Seq<Seq<char>>,
)
    requires
        tail.len() == 0 || tail[0] != "--summary"@ || tail.len() == 1,
    ensures
        ({
            let args = head + paths.flat_map(|path: Seq<char>| seq!["--summary"@, path]) + tail;
            &&& summaries_from(args, head.len() as int) == paths
            &&& error_from(args, head.len() as int) == if tail.len() == 0 {
                None
            } else if tail[0] != "--summary"@ {
                Some("error: unknown argument "@ + tail[0])
            } else {
                Some("error: --summary needs a path"@)
            }
        }),
    decreases paths.len(),
{
    let f = |path: Seq<char>| seq!["--summary"@, path];
    let args = head + paths.flat_map(f) + tail;
    let at = head.len() as int;
    if paths.len() == 0 {
        assert(paths.map_values(f) == Seq::<Seq<Seq<char>>>::empty());
        assert(args == head + tail);
        if tail.len() > 0 {
            assert(args[at] == tail[0]);
        }
        assert(summaries_from(args, at) == paths);
    } else {
        let rest = paths.drop_first();
        let longer = head + seq!["--summary"@, paths[0]];
        assert(paths.map_values(f).drop_first() == rest.map_values(f));
        assert(paths.map_values(f).first() == seq!["--summary"@, paths[0]]);
        assert(paths.flat_map(f) == seq!["--summary"@, paths[0]] + rest.flat_map(f));
        assert(args == longer + rest.flat_map(f) + tail);
        lemma_every_summary_is_named(longer, rest, tail);
        assert(args[at] == "--summary"@);
        assert(args[at + 1] == paths[0]);
        assert(seq![paths[0]] + rest == paths);
    }
}

/// The usage names the program, the input and the optional summary.
pub proof fn law_usage(program: Seq<char>)
    ensures
        usage(program) == "usage: "@ + program + " <input.mir> [--summary <can_sleep.txt>]"@,
{
}

} // verus!
