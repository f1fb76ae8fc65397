//! The command line: argument handling, kept apart from `main` so it can be
//! tested by passing in the arguments and reading back what is to be written.
use vstd::prelude::*;

use crate::config::{parse, parsed, Config, Parsed, ParsedText, Problem};
use crate::text::{same, texts};
use crate::VERSION;

verus! {

/// Process exit code for success.
pub const EXIT_OK: u8 = 0;

/// Process exit code for a command line the program can't act on.
pub const EXIT_USAGE: u8 = 2;

/// The help text for a program with nothing to run.
pub const USAGE: &'static str = "\
Usage: simple-metrics [OPTIONS]

Options:
  -h, --help     Print this help and exit
  -V, --version  Print the version and exit
";

/// What a program writes, and the code it exits with.
#[derive(Debug, Clone, PartialEq, Eq)]
pub struct Output {
    /// The process exit code.
    pub code: u8,
    /// What goes to standard output.
    pub out: String,
    /// What goes to standard error.
    pub err: String,
}

/// What an [`Output`] says.
#[verifier::ext_equal]
pub ghost struct OutputText {
    /// The process exit code.
    pub code: u8,
    /// What goes to standard output.
    pub out: Seq<char>,
    /// What goes to standard error.
    pub err: Seq<char>,
}

impl View for Output {
    type V = OutputText;

    open spec fn view(&self) -> OutputText {
        OutputText { code: self.code, out: self.out@, err: self.err@ }
    }
}

/// The version line.
pub open spec fn version_line() -> Seq<char> {
    "simple-metrics "@ + VERSION@ + "\n"@
}

/// Text on standard output, and success.
pub open spec fn printed(text: Seq<char>) -> OutputText {
    OutputText { code: EXIT_OK, out: text, err: seq![] }
}

/// What `args` lead to when there is nothing to run: help or the version if
/// asked for, and otherwise a usage error.
pub open spec fn answer(args: Seq<Seq<char>>) -> OutputText {
    if args.len() == 0 {
        OutputText {
            code: EXIT_USAGE,
            out: seq![],
            err: "simple-metrics: there is nothing to run yet\n\n"@ + USAGE@,
        }
    } else if args[0] == "-h"@ || args[0] == "--help"@ {
        printed(USAGE@)
    } else if args[0] == "-V"@ || args[0] == "--version"@ {
        printed(version_line())
    } else {
        OutputText {
            code: EXIT_USAGE,
            out: seq![],
            err: "simple-metrics: unknown argument '"@ + args[0] + "'\n\n"@ + USAGE@,
        }
    }
}

/// Runs the program with `args` (not including the program name): what to
/// write to standard output and standard error, and the process exit code.
pub fn run(args: &[String]) -> (r: Output)
    ensures
        r@ == answer(texts(args@)),
{
    if args.len() == 0 {
        return Output {
            code: EXIT_USAGE,
            out: String::new(),
            err: "simple-metrics: there is nothing to run yet\n\n".to_owned().concat(USAGE),
        };
    }
    let first = args[0].as_str();
    assert(texts(args@)[0] == first@);
    if same(first, "-h") || same(first, "--help") {
        Output { code: EXIT_OK, out: USAGE.to_owned(), err: String::new() }
    } else if same(first, "-V") || same(first, "--version") {
        Output { code: EXIT_OK, out: "simple-metrics ".to_owned().concat(VERSION).concat("\n"), err: String::new() }
    } else {
        Output {
            code: EXIT_USAGE,
            out: String::new(),
            err: "simple-metrics: unknown argument '".to_owned().concat(first).concat("'\n\n").concat(USAGE),
        }
    }
}

/// What the daemon's command line leads to.
#[derive(Debug, Clone, PartialEq, Eq)]
pub enum Outcome {
    /// Write this and exit.
    Exit(Output),
    /// Run the daemon with these settings.
    Serve(Config),
}

/// Whether `outcome` is what `asked`, the reading of a command line, leads to:
/// the daemon's help or the version, its settings, or the problem with a
/// reminder of the usage.
pub open spec fn leads_to(asked: Result<ParsedText, Problem>, outcome: Outcome) -> bool {
    match asked {
        Ok(ParsedText::Help) => outcome matches Outcome::Exit(o) && o@ == printed(crate::config::USAGE@),
        Ok(ParsedText::Version) => outcome matches Outcome::Exit(o) && o@ == printed(version_line()),
        Ok(ParsedText::Run(config)) => outcome matches Outcome::Serve(c) && c@ == config,
        Err(problem) => outcome matches Outcome::Exit(o) && o@ == (OutputText {
            code: EXIT_USAGE,
            out: seq![],
            err: "simple-metrics: "@ + problem.words() + "\n\n"@ + crate::config::USAGE@,
        }),
    }
}

/// What the daemon started with `args` (not including the program name) is to
/// do.
pub fn launch(args: &[String]) -> (r: Outcome)
    ensures
        leads_to(parsed(texts(args@)), r),
{
    match parse(args) {
        Ok(Parsed::Help) => Outcome::Exit(
            Output { code: EXIT_OK, out: crate::config::USAGE.to_owned(), err: String::new() },
        ),
        Ok(Parsed::Version) => Outcome::Exit(
            Output { code: EXIT_OK, out: "simple-metrics ".to_owned().concat(VERSION).concat("\n"), err: String::new() },
        ),
        Ok(Parsed::Run(config)) => Outcome::Serve(config),
        Err(error) => Outcome::Exit(
            Output {
                code: EXIT_USAGE,
                out: String::new(),
                err: "simple-metrics: ".to_owned().concat(&error.message()).concat("\n\n").concat(
                    crate::config::USAGE,
                ),
            },
        ),
    }
}

/// What a command line leads to: what was asked for on standard output and success,
/// or the problem on standard error and failure, or the daemon with the settings
/// that were given.
pub proof fn law_how_a_command_line_ends(asked: Result<ParsedText, Problem>, outcome: Outcome)
    requires
        leads_to(asked, outcome),
    ensures
        match asked {
            Ok(ParsedText::Run(config)) => outcome is Serve && outcome->Serve_0@ == config,
            Ok(ParsedText::Help) => outcome is Exit && outcome->Exit_0.code == 0 && outcome->Exit_0.out@
                == crate::config::USAGE@ && outcome->Exit_0.err@.len() == 0,
            Ok(ParsedText::Version) => outcome is Exit && outcome->Exit_0.code == 0 && outcome->Exit_0.out@
                == "simple-metrics "@ + VERSION@ + "\n"@ && outcome->Exit_0.err@.len() == 0,
            Err(problem) => outcome is Exit && outcome->Exit_0.code == 2 && outcome->Exit_0.out@.len() == 0
                && crate::text::mentions(outcome->Exit_0.err@, problem.words()),
        },
{
    if let Err(problem) = asked {
        let end = "\n\n"@ + crate::config::USAGE@;
        crate::text::lemma_mentions("simple-metrics: "@, problem.words(), end);
        assert("simple-metrics: "@ + problem.words() + end =~= outcome->Exit_0@.err);
    }
}

/// A program with nothing to run heeds its first argument alone: it tells how to use
/// it or which version it is, and refuses anything else.
pub proof fn law_only_the_first_argument_counts(args: Seq<Seq<char>>)
    ensures
        args.len() == 0 ==> answer(args).code == 2 && answer(args).out.len() == 0 && answer(args).err.len() > 0,
        args.len() > 0 && (args[0] == "-h"@ || args[0] == "--help"@) ==> answer(args).code == 0 && answer(args).out
            == USAGE@ && answer(args).err.len() == 0,
        args.len() > 0 && (args[0] == "-V"@ || args[0] == "--version"@) ==> answer(args).code == 0 && answer(args).out
            == "simple-metrics "@ + VERSION@ + "\n"@ && answer(args).err.len() == 0,
        args.len() > 0 && args[0] != "-h"@ && args[0] != "--help"@ && args[0] != "-V"@ && args[0] != "--version"@
            ==> answer(args).code == 2 && answer(args).out.len() == 0 && crate::text::mentions(answer(args).err, args[0]),
{
    reveal_strlit("-h");
    reveal_strlit("--help");
    reveal_strlit("-V");
    reveal_strlit("--version");
    assert("-h"@.len() == 2 && "-V"@.len() == 2 && "--help"@.len() == 6 && "--version"@.len() == 9);
    assert("-h"@[1] == 'h' && "-V"@[1] == 'V');
    reveal_strlit("simple-metrics: there is nothing to run yet\n\n");
    if args.len() > 0 {
        let end = "'\n\n"@ + USAGE@;
        crate::text::lemma_mentions("simple-metrics: unknown argument '"@, args[0], end);
        assert("simple-metrics: unknown argument '"@ + args[0] + end =~= "simple-metrics: unknown argument '"@ + args[0]
            + "'\n\n"@ + USAGE@);
    }
}

}
