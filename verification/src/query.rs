//! The logic behind `smq`, the command-line client: turning arguments into a
//! request, and the answer into text for a person (or, for a script, passing on
//! the raw JSON).
use vstd::prelude::*;
use vstd::slice::slice_subrange;

use crate::cli::{printed, Output, OutputText};
use crate::config::{duration, law_durations_are_read, parse_duration};
use crate::json::{
    distinct, field_trees, find, from_text, item_trees, json_parse, json_text, lemma_array_and_object, lemma_neat,
    lemma_orderly, lemma_settled_object, neat, orderly, settled, simple, stands_for, to_text, unfold, Json, Tree,
};
use crate::protocol::{
    count, count_tree, error_tree, history_line, history_tree, info_of, known, latest_tree, law_history_is_json, line_of,
    metrics_tree, refuses, rendered, request, requested, responds, written, History, Refusal, Request,
};
use crate::read::{
    is_name_list, names_at, options, recalls, shows, tells_of, Detail, Figures, Objection, Wanted, MAX_POINTS,
};
use crate::render::{
    history_text, info_keys, key_lines, latest_text, metrics_text, render_info, render_latest, render_metrics, render_read,
};
use crate::server::lemma_distinct_fields;
use crate::state::Shared;
use crate::text::{
    all_digits, chars_of, decimal, digits_value, lemma_decimal, lemma_mentions, mentions, run_of, same, texts, trim_end, trimmed_end, unbroken, unsigned, unsigned_of, Class,
};
use crate::VERSION;

verus! {

/// The socket the daemon listens on unless told otherwise.
pub const DEFAULT_SOCKET: &'static str = "/run/simple-metrics/simple-metrics.sock";

/// Where `--local` looks: the socket of a daemon run by hand for development.
pub const LOCAL_SOCKET: &'static str = "/tmp/simple-metrics.sock";

/// The environment variable that overrides [`DEFAULT_SOCKET`].
pub const SOCKET_ENV: &'static str = "SIMPLE_METRICS_SOCKET";

/// Exit code for success.
pub const EXIT_OK: u8 = 0;

/// Exit code for a request that could not be made or was refused.
pub const EXIT_FAILED: u8 = 1;

/// Exit code for a command line that can't be acted on.
pub const EXIT_USAGE: u8 = 2;

/// How long to wait for the daemon before giving up, in milliseconds.
pub const TIMEOUT: u64 = 30_000;

/// The help text.
pub const USAGE: &'static str = "\
Usage: smq [OPTIONS] <COMMAND>

Sends a query to a running simple-metrics and prints the answer.

Commands:
  info                    What the daemon holds: version, interval, records
  metrics                 The metrics it records, with units
  latest                  The most recent record
  read [READ OPTIONS]     Recorded history
  raw <JSON>              Send this request as it is (for anything else)

Read options:
  --from <TIME>           Only records from this time on (inclusive)
  --to <TIME>             Only records up to this time (inclusive)
  --metric <NAME>         Only this metric; repeat for several
  --step <TIME>           Summarise into buckets this wide (the mean of each)
  --points <N>            The same, choosing the width to give at most N buckets
  --extremes              With --step/--points: also give the min and max
  A TIME is `now`, how long ago (`90s`, `5m`, `2h`, `7d`; units ms, s, m, h,
  d), or milliseconds since the Unix epoch (a bare number).

Options:
  --socket <PATH>         The socket to use
                          [default: $SIMPLE_METRICS_SOCKET, else
                          /run/simple-metrics/simple-metrics.sock]
  --local                 Use /tmp/simple-metrics.sock (see run_local.sh)
  --json                  Print the response as JSON, exactly as received
  -h, --help              Print this help
  -V, --version           Print the version

Examples:
  smq info
  smq --local read --metric cpu_percent --from 1h --points 60 --extremes
";

/// A point in time given on the command line.
#[derive(Debug, Clone, Copy, PartialEq, Eq)]
pub enum Time {
    /// So many milliseconds ago.
    Ago(u64),
    /// So many milliseconds after the Unix epoch.
    At(u64),
}

impl Time {
    /// The point in time, in milliseconds since the Unix epoch.
    pub open spec fn resolved(self, now_ms: u64) -> u64 {
        match self {
            Time::At(ms) => ms,
            Time::Ago(ago) => if ago <= now_ms {
                (now_ms - ago) as u64
            } else {
                0
            },
        }
    }

    /// The point in time, in milliseconds since the Unix epoch. Further back
    /// than the epoch is the epoch.
    #[must_use]
    pub fn resolve(self, now_ms: u64) -> (ms: u64)
        ensures
            ms == self.resolved(now_ms),
    {
        match self {
            Time::At(ms) => ms,
            Time::Ago(ago) => now_ms.saturating_sub(ago),
        }
    }
}

/// The point in time that a text stands for, or what is wrong with it.
pub open spec fn time(text: Seq<char>) -> Result<Time, Seq<char>> {
    if text == "now"@ {
        Ok(Time::Ago(0))
    } else if text.len() > 0 && all_digits(text, 10) {
        if digits_value(text, 10) <= u64::MAX {
            Ok(Time::At(digits_value(text, 10) as u64))
        } else {
            Err("'"@ + text + "' is too large a time"@)
        }
    } else {
        match duration(text) {
            Ok(ms) => Ok(Time::Ago(ms)),
            Err(why) => Err("'"@ + text + "': "@ + why + "; use now, 5m, 2h, or epoch milliseconds"@),
        }
    }
}

/// Parses a point in time: `now`, how long ago, or milliseconds since the Unix
/// epoch.
///
/// # Errors
/// If the text is none of these; the error says why.
pub fn parse_time(text: &str) -> (r: Result<Time, String>)
    ensures
        match r {
            Ok(t) => time(text@) == Ok::<Time, Seq<char>>(t),
            Err(why) => time(text@) == Err::<Time, Seq<char>>(why@),
        },
{
    if same(text, "now") {
        return Ok(Time::Ago(0));
    }
    let chars = chars_of(text);
    let n = run_of(&chars, Class::Digit);
    proof {
        crate::text::lemma_run(text@, Class::Digit);
        if n == text@.len() {
            assert(all_digits(text@, 10));
        } else {
            assert(!crate::text::is_digit(text@[n as int]));
        }
    }
    if chars.len() > 0 && n == chars.len() {
        return match unsigned_of(&chars, 10, u64::MAX) {
            Some(ms) => Ok(Time::At(ms)),
            None => Err("'".to_owned().concat(text).concat("' is too large a time")),
        };
    }
    match parse_duration(text) {
        Ok(ms) => Ok(Time::Ago(ms)),
        Err(why) => Err(
            "'".to_owned().concat(text).concat("': ").concat(why).concat(
                "; use now, 5m, 2h, or epoch milliseconds",
            ),
        ),
    }
}

/// What a `read` command asks for.
#[derive(Debug, Clone, PartialEq, Eq)]
pub struct Read {
    /// The earliest time wanted.
    pub from: Option<Time>,
    /// The latest time wanted.
    pub to: Option<Time>,
    /// The metrics wanted; all of them if none is named.
    pub metrics: Vec<String>,
    /// The width of the buckets to summarise into, in milliseconds.
    pub step: Option<u64>,
    /// The most buckets to summarise into.
    pub points: Option<u64>,
    /// Whether the least and greatest values are wanted too.
    pub extremes: bool,
}

/// What a [`Read`] says.
#[verifier::ext_equal]
pub ghost struct ReadText {
    /// The earliest time wanted.
    pub from: Option<Time>,
    /// The latest time wanted.
    pub to: Option<Time>,
    /// The metrics wanted; all of them if none is named.
    pub metrics: Seq<Seq<char>>,
    /// The width of the buckets to summarise into, in milliseconds.
    pub step: Option<u64>,
    /// The most buckets to summarise into.
    pub points: Option<u64>,
    /// Whether the least and greatest values are wanted too.
    pub extremes: bool,
}

impl View for Read {
    type V = ReadText;

    open spec fn view(&self) -> ReadText {
        ReadText {
            from: self.from,
            to: self.to,
            metrics: texts(self.metrics@),
            step: self.step,
            points: self.points,
            extremes: self.extremes,
        }
    }
}

/// Everything there is.
pub open spec fn everything() -> ReadText {
    ReadText { from: None, to: None, metrics: seq![], step: None, points: None, extremes: false }
}

/// Whether an option of `read` is followed by a value.
pub open spec fn read_takes_value(flag: Seq<char>) -> bool {
    flag == "--from"@ || flag == "--to"@ || flag == "--metric"@ || flag == "--step"@ || flag == "--points"@
}

/// `read` with the option `flag` set to `value`.
pub open spec fn with_read_option(read: ReadText, flag: Seq<char>, value: Seq<char>) -> Result<ReadText, Seq<char>> {
    if flag == "--from"@ {
        match time(value) {
            Ok(from) => Ok(ReadText { from: Some(from), ..read }),
            Err(why) => Err(why),
        }
    } else if flag == "--to"@ {
        match time(value) {
            Ok(to) => Ok(ReadText { to: Some(to), ..read }),
            Err(why) => Err(why),
        }
    } else if flag == "--metric"@ {
        Ok(ReadText { metrics: read.metrics.push(value), ..read })
    } else if flag == "--step"@ {
        match duration(value) {
            Ok(step) => Ok(ReadText { step: Some(step), ..read }),
            Err(why) => Err("--step: "@ + why),
        }
    } else {
        match unsigned(value, 10, u64::MAX as nat) {
            Some(points) => Ok(ReadText { points: Some(points as u64), ..read }),
            None => Err("--points: '"@ + value + "' is not a whole number"@),
        }
    }
}

/// `read`, if its options go together.
pub open spec fn read_completed(read: ReadText) -> Result<ReadText, Seq<char>> {
    if read.step is Some && read.points is Some {
        Err("--step and --points can't be combined"@)
    } else if read.extremes && read.step is None && read.points is None {
        Err("--extremes needs --step or --points"@)
    } else {
        Ok(read)
    }
}

/// What the arguments `args` of `read`, after those that led to `read`, ask for.
pub open spec fn read_from(read: ReadText, args: Seq<Seq<char>>) -> Result<ReadText, Seq<char>>
    decreases args.len(),
{
    if args.len() == 0 {
        read_completed(read)
    } else if args[0] == "--extremes"@ {
        read_from(ReadText { extremes: true, ..read }, args.skip(1))
    } else if !read_takes_value(args[0]) {
        Err("unknown read option '"@ + args[0] + "'"@)
    } else if args.len() < 2 {
        Err(args[0] + " needs a value"@)
    } else {
        match with_read_option(read, args[0], args[1]) {
            Ok(next) => read_from(next, args.skip(2)),
            Err(why) => Err(why),
        }
    }
}

impl Read {
    /// Sets the option `flag` to `value`.
    fn set(&mut self, flag: &str, value: &str) -> (r: Result<(), String>)
        requires
            read_takes_value(flag@),
        ensures
            match r {
                Ok(()) => with_read_option(old(self)@, flag@, value@) == Ok::<ReadText, Seq<char>>(final(self)@),
                Err(why) => with_read_option(old(self)@, flag@, value@) == Err::<ReadText, Seq<char>>(why@),
            },
    {
        let ghost before = self@;
        if same(flag, "--from") {
            match parse_time(value) {
                Ok(from) => {
                    self.from = Some(from);
                    assert(self@ =~= ReadText { from: Some(from), ..before });
                },
                Err(why) => {
                    return Err(why);
                },
            }
        } else if same(flag, "--to") {
            match parse_time(value) {
                Ok(to) => {
                    self.to = Some(to);
                    assert(self@ =~= ReadText { to: Some(to), ..before });
                },
                Err(why) => {
                    return Err(why);
                },
            }
        } else if same(flag, "--metric") {
            self.metrics.push(value.to_owned());
            assert(self@ =~= ReadText { metrics: before.metrics.push(value@), ..before });
        } else if same(flag, "--step") {
            match parse_duration(value) {
                Ok(step) => {
                    self.step = Some(step);
                    assert(self@ =~= ReadText { step: Some(step), ..before });
                },
                Err(why) => {
                    return Err("--step: ".to_owned().concat(why));
                },
            }
        } else {
            match unsigned_of(&chars_of(value), 10, u64::MAX) {
                Some(points) => {
                    self.points = Some(points);
                    assert(self@ =~= ReadText { points: Some(points), ..before });
                },
                None => {
                    return Err("--points: '".to_owned().concat(value).concat("' is not a whole number"));
                },
            }
        }
        Ok(())
    }
}

/// Parses the arguments of `read`.
///
/// # Errors
/// If an argument is unknown, lacks its value or has an unusable value, or the
/// options don't go together; the error says why.
pub fn parse_read(args: &[String]) -> (r: Result<Read, String>)
    ensures
        match r {
            Ok(read) => read_from(everything(), texts(args@)) == Ok::<ReadText, Seq<char>>(read@),
            Err(why) => read_from(everything(), texts(args@)) == Err::<ReadText, Seq<char>>(why@),
        },
{
    let ghost all = texts(args@);
    let mut read = Read { from: None, to: None, metrics: Vec::new(), step: None, points: None, extremes: false };
    assert(read@ =~= everything());
    assert(all.skip(0) =~= all);
    let mut i: usize = 0;
    while i < args.len()
        invariant
            all == texts(args@),
            i <= args@.len(),
            read_from(everything(), all) == read_from(read@, all.skip(i as int)),
        decreases args.len() - i,
    {
        let ghost left = all.skip(i as int);
        let flag = &args[i];
        assert(left[0] == flag@);
        if same(flag, "--extremes") {
            let ghost before = read@;
            read.extremes = true;
            assert(read@ =~= ReadText { extremes: true, ..before });
            assert(left.skip(1) =~= all.skip(i + 1));
            i = i + 1;
        } else if !(same(flag, "--from") || same(flag, "--to") || same(flag, "--metric") || same(flag, "--step")
            || same(flag, "--points")) {
            return Err("unknown read option '".to_owned().concat(flag).concat("'"));
        } else if args.len() - i < 2 {
            return Err(flag.clone().concat(" needs a value"));
        } else {
            assert(left[1] == args@[i + 1]@);
            if let Err(why) = read.set(flag, &args[i + 1]) {
                return Err(why);
            }
            assert(left.skip(2) =~= all.skip(i + 2));
            i = i + 2;
        }
    }
    if read.step.is_some() && read.points.is_some() {
        return Err("--step and --points can't be combined".to_owned());
    }
    if read.extremes && read.step.is_none() && read.points.is_none() {
        return Err("--extremes needs --step or --points".to_owned());
    }
    Ok(read)
}

/// A request to make, worked out from the command line.
#[derive(Debug, Clone, PartialEq, Eq)]
pub enum Command {
    /// What the daemon holds.
    Info,
    /// The metrics it records.
    Metrics,
    /// The most recent record.
    Latest,
    /// Recorded history.
    Read(Read),
    /// This JSON, as it is.
    Raw(String),
}

/// What a [`Command`] says.
#[verifier::ext_equal]
pub ghost enum CommandText {
    /// What the daemon holds.
    Info,
    /// The metrics it records.
    Metrics,
    /// The most recent record.
    Latest,
    /// Recorded history.
    Read(ReadText),
    /// This JSON, as it is.
    Raw(Seq<char>),
}

impl View for Command {
    type V = CommandText;

    open spec fn view(&self) -> CommandText {
        match self {
            Command::Info => CommandText::Info,
            Command::Metrics => CommandText::Metrics,
            Command::Latest => CommandText::Latest,
            Command::Read(read) => CommandText::Read(read@),
            Command::Raw(text) => CommandText::Raw(text@),
        }
    }
}

/// What the command line asks for.
#[derive(Debug, Clone, PartialEq, Eq)]
pub enum Parsed {
    /// The help text.
    Help,
    /// The version.
    Version,
    /// A request.
    Run {
        /// The socket to use, if one was given.
        socket: Option<String>,
        /// Whether to print the response as JSON.
        json: bool,
        /// The request.
        command: Command,
    },
}

/// What a [`Parsed`] says.
#[verifier::ext_equal]
pub ghost enum ParsedText {
    /// The help text.
    Help,
    /// The version.
    Version,
    /// A request.
    Run {
        /// The socket to use, if one was given.
        socket: Option<Seq<char>>,
        /// Whether to print the response as JSON.
        json: bool,
        /// The request.
        command: CommandText,
    },
}

/// What a path, if there is one, says.
pub open spec fn path_text(path: Option<String>) -> Option<Seq<char>> {
    match path {
        Some(path) => Some(path@),
        None => None,
    }
}

impl View for Parsed {
    type V = ParsedText;

    open spec fn view(&self) -> ParsedText {
        match self {
            Parsed::Help => ParsedText::Help,
            Parsed::Version => ParsedText::Version,
            Parsed::Run { socket, json, command } => ParsedText::Run {
                socket: path_text(*socket),
                json: *json,
                command: command@,
            },
        }
    }
}

/// `command`, if nothing follows it.
pub open spec fn alone(name: Seq<char>, rest: Seq<Seq<char>>, command: CommandText) -> Result<CommandText, Seq<char>> {
    if rest.len() == 0 {
        Ok(command)
    } else {
        Err(name + " takes no arguments (got '"@ + rest[0] + "')"@)
    }
}

/// The command called `name`, with the arguments that follow it.
pub open spec fn command(name: Seq<char>, rest: Seq<Seq<char>>) -> Result<CommandText, Seq<char>> {
    if name == "info"@ {
        alone(name, rest, CommandText::Info)
    } else if name == "metrics"@ {
        alone(name, rest, CommandText::Metrics)
    } else if name == "latest"@ {
        alone(name, rest, CommandText::Latest)
    } else if name == "raw"@ {
        if rest.len() == 1 {
            Ok(CommandText::Raw(rest[0]))
        } else {
            Err("raw takes exactly one argument: the JSON request"@)
        }
    } else {
        match read_from(everything(), rest) {
            Ok(read) => Ok(CommandText::Read(read)),
            Err(why) => Err(why),
        }
    }
}

/// Whether `name` is that of a command.
pub open spec fn is_command(name: Seq<char>) -> bool {
    name == "info"@ || name == "metrics"@ || name == "latest"@ || name == "read"@ || name == "raw"@
}

/// What the arguments `args`, after those that led to `socket` and `json`, ask
/// for.
pub open spec fn parsed_from(socket: Option<Seq<char>>, json: bool, args: Seq<Seq<char>>) -> Result<
    ParsedText,
    Seq<char>,
>
    decreases args.len(),
{
    if args.len() == 0 {
        Err("no command given"@)
    } else if args[0] == "-h"@ || args[0] == "--help"@ {
        Ok(ParsedText::Help)
    } else if args[0] == "-V"@ || args[0] == "--version"@ {
        Ok(ParsedText::Version)
    } else if args[0] == "--json"@ {
        parsed_from(socket, true, args.skip(1))
    } else if args[0] == "--local"@ {
        parsed_from(Some(LOCAL_SOCKET@), json, args.skip(1))
    } else if args[0] == "--socket"@ {
        if args.len() < 2 {
            Err("--socket needs a value"@)
        } else {
            parsed_from(Some(args[1]), json, args.skip(2))
        }
    } else if is_command(args[0]) {
        match command(args[0], args.skip(1)) {
            Ok(command) => Ok(ParsedText::Run { socket, json, command }),
            Err(why) => Err(why),
        }
    } else {
        Err("unknown argument '"@ + args[0] + "'"@)
    }
}

/// What the command-line arguments ask for.
pub open spec fn parsed(args: Seq<Seq<char>>) -> Result<ParsedText, Seq<char>> {
    parsed_from(None, false, args)
}

/// Takes a command that nothing may follow.
///
/// # Errors
/// If something follows it.
fn no_arguments(name: &str, rest: &[String], command: Command) -> (r: Result<Command, String>)
    ensures
        match r {
            Ok(asked) => asked == command && alone(name@, texts(rest@), command@) == Ok::<CommandText, Seq<char>>(
                command@,
            ),
            Err(why) => alone(name@, texts(rest@), command@) == Err::<CommandText, Seq<char>>(why@),
        },
{
    if rest.len() == 0 {
        Ok(command)
    } else {
        assert(texts(rest@)[0] == rest@[0]@);
        Err(name.to_owned().concat(" takes no arguments (got '").concat(&rest[0]).concat("')"))
    }
}

/// Parses a command and the arguments that follow it.
fn parse_command(name: &str, rest: &[String]) -> (r: Result<Command, String>)
    requires
        is_command(name@),
    ensures
        match r {
            Ok(asked) => command(name@, texts(rest@)) == Ok::<CommandText, Seq<char>>(asked@),
            Err(why) => command(name@, texts(rest@)) == Err::<CommandText, Seq<char>>(why@),
        },
{
    if same(name, "info") {
        no_arguments(name, rest, Command::Info)
    } else if same(name, "metrics") {
        no_arguments(name, rest, Command::Metrics)
    } else if same(name, "latest") {
        no_arguments(name, rest, Command::Latest)
    } else if same(name, "raw") {
        if rest.len() == 1 {
            assert(texts(rest@)[0] == rest@[0]@);
            Ok(Command::Raw(rest[0].clone()))
        } else {
            Err("raw takes exactly one argument: the JSON request".to_owned())
        }
    } else {
        match parse_read(rest) {
            Ok(read) => Ok(Command::Read(read)),
            Err(why) => Err(why),
        }
    }
}

/// Parses the command-line arguments (not including the program name).
///
/// # Errors
/// If an argument is unknown or lacks its value, or there is no command or one
/// that can't be acted on; the error says why.
pub fn parse(args: &[String]) -> (r: Result<Parsed, String>)
    ensures
        match r {
            Ok(asked) => parsed(texts(args@)) == Ok::<ParsedText, Seq<char>>(asked@),
            Err(why) => parsed(texts(args@)) == Err::<ParsedText, Seq<char>>(why@),
        },
{
    let ghost all = texts(args@);
    let mut socket: Option<String> = None;
    let mut json: bool = false;
    assert(all.skip(0) =~= all);
    let mut i: usize = 0;
    while i < args.len()
        invariant
            all == texts(args@),
            i <= args@.len(),
            parsed(all) == parsed_from(path_text(socket), json, all.skip(i as int)),
        decreases args.len() - i,
    {
        let ghost left = all.skip(i as int);
        let arg = &args[i];
        assert(left[0] == arg@);
        assert(left.skip(1) =~= all.skip(i + 1));
        if same(arg, "-h") || same(arg, "--help") {
            return Ok(Parsed::Help);
        } else if same(arg, "-V") || same(arg, "--version") {
            return Ok(Parsed::Version);
        } else if same(arg, "--json") {
            json = true;
            i = i + 1;
        } else if same(arg, "--local") {
            socket = Some(LOCAL_SOCKET.to_owned());
            i = i + 1;
        } else if same(arg, "--socket") {
            if args.len() - i < 2 {
                return Err("--socket needs a value".to_owned());
            }
            assert(left[1] == args@[i + 1]@);
            assert(left.skip(2) =~= all.skip(i + 2));
            socket = Some(args[i + 1].clone());
            i = i + 2;
        } else if same(arg, "info") || same(arg, "metrics") || same(arg, "latest") || same(arg, "read") || same(
            arg,
            "raw",
        ) {
            let rest = slice_subrange(args, i + 1, args.len());
            assert(texts(rest@) =~= all.skip(i + 1));
            return match parse_command(arg, rest) {
                Ok(command) => Ok(Parsed::Run { socket, json, command }),
                Err(why) => Err(why),
            };
        } else {
            return Err("unknown argument '".to_owned().concat(arg).concat("'"));
        }
    }
    Err("no command given".to_owned())
}

/// A field with a whole number, if there is one.
pub open spec fn count_if(key: Seq<char>, n: Option<u64>) -> Seq<(Seq<char>, Tree)> {
    match n {
        Some(n) => seq![(key, count_tree(n as nat))],
        None => seq![],
    }
}

/// When `t` is, if it is given.
pub open spec fn resolved_if(t: Option<Time>, now_ms: u64) -> Option<u64> {
    match t {
        Some(t) => Some(t.resolved(now_ms)),
        None => None,
    }
}

/// A field with the names of the metrics wanted, unless it is all of them.
pub open spec fn metrics_if(names: Seq<Seq<char>>) -> Seq<(Seq<char>, Tree)> {
    if names.len() == 0 {
        seq![]
    } else {
        seq![("metrics"@, Tree::Array(names.map_values(|n: Seq<char>| Tree::Text(n))))]
    }
}

/// A field that asks for the least and greatest values, if they are wanted.
pub open spec fn extremes_if(wanted: bool) -> Seq<(Seq<char>, Tree)> {
    if wanted {
        seq![("extremes"@, Tree::Bool(true))]
    } else {
        seq![]
    }
}

/// A request with nothing but its operation.
pub open spec fn op_tree(op: Seq<char>) -> Tree {
    Tree::Object(seq![("op"@, Tree::Text(op))])
}

/// A request for recorded history.
pub open spec fn read_tree(read: ReadText, now_ms: u64) -> Tree {
    Tree::Object(
        seq![("op"@, Tree::Text("read"@))] + count_if("from"@, resolved_if(read.from, now_ms)) + count_if(
            "to"@,
            resolved_if(read.to, now_ms),
        ) + metrics_if(read.metrics) + count_if("step_ms"@, read.step) + count_if("max_points"@, read.points)
            + extremes_if(read.extremes),
    )
}

/// The request for a command, unless it is one to send as it is given.
pub open spec fn request_tree(command: CommandText, now_ms: u64) -> Tree {
    match command {
        CommandText::Info => op_tree("info"@),
        CommandText::Metrics => op_tree("metrics"@),
        CommandText::Latest => op_tree("latest"@),
        CommandText::Read(read) => read_tree(read, now_ms),
        CommandText::Raw(_) => Tree::Null,
    }
}

/// The text of the request for a command, or what is wrong with it.
pub open spec fn request_text(command: CommandText, now_ms: u64) -> Result<Seq<char>, Seq<char>> {
    match command {
        CommandText::Raw(text) => match json_parse(text) {
            Ok(tree) => Ok(json_text(tree)),
            Err(why) => Err("not valid JSON: "@ + why),
        },
        other => Ok(json_text(request_tree(other, now_ms))),
    }
}

/// The names that a request for history can have fields of.
proof fn lemma_field_names()
    ensures
        seq!["op"@, "from"@, "to"@, "metrics"@, "step_ms"@, "max_points"@, "extremes"@, "v"@].no_duplicates(),
{
    reveal_strlit("op");
    reveal_strlit("from");
    reveal_strlit("to");
    reveal_strlit("metrics");
    reveal_strlit("step_ms");
    reveal_strlit("max_points");
    reveal_strlit("extremes");
    reveal_strlit("v");
    let names = seq!["op"@, "from"@, "to"@, "metrics"@, "step_ms"@, "max_points"@, "extremes"@, "v"@];
    assert(names[0].len() == 2 && names[1].len() == 4 && names[2].len() == 2 && names[3].len() == 7);
    assert(names[4].len() == 7 && names[5].len() == 10 && names[6].len() == 8 && names[7].len() == 1);
    assert(names[0][0] != names[2][0] && names[3][0] != names[4][0]);
}

/// Looking a name up in two lists, one after the other.
proof fn lemma_find_in_two(a: Seq<(Seq<char>, Tree)>, b: Seq<(Seq<char>, Tree)>, key: Seq<char>)
    ensures
        find(a + b, key) == (match find(a, key) {
            Some(tree) => Some(tree),
            None => find(b, key),
        }),
    decreases a.len(),
{
    if a.len() == 0 {
        assert(a + b =~= b);
    } else {
        assert((a + b).drop_first() =~= a.drop_first() + b);
        lemma_find_in_two(a.drop_first(), b, key);
    }
}

/// What a list of at most one field holds.
proof fn lemma_find_in_one(fields: Seq<(Seq<char>, Tree)>, key: Seq<char>)
    requires
        fields.len() <= 1,
    ensures
        find(fields, key) == (if fields.len() == 1 && fields[0].0 == key {
            Some(fields[0].1)
        } else {
            None
        }),
{
    reveal_with_fuel(find, 2);
}

/// What a request for history holds under each name.
proof fn lemma_read_tree(read: ReadText, now_ms: u64, key: Seq<char>)
    ensures
        read_tree(read, now_ms).field(key) == (if key == "op"@ {
            Some(Tree::Text("read"@))
        } else {
            let a = find(count_if("from"@, resolved_if(read.from, now_ms)), key);
            let b = find(count_if("to"@, resolved_if(read.to, now_ms)), key);
            let c = find(metrics_if(read.metrics), key);
            let d = find(count_if("step_ms"@, read.step), key);
            let e = find(count_if("max_points"@, read.points), key);
            let f = find(extremes_if(read.extremes), key);
            if a is Some {
                a
            } else if b is Some {
                b
            } else if c is Some {
                c
            } else if d is Some {
                d
            } else if e is Some {
                e
            } else {
                f
            }
        }),
{
    let op = seq![("op"@, Tree::Text("read"@))];
    let from = count_if("from"@, resolved_if(read.from, now_ms));
    let to = count_if("to"@, resolved_if(read.to, now_ms));
    let metrics = metrics_if(read.metrics);
    let step = count_if("step_ms"@, read.step);
    let points = count_if("max_points"@, read.points);
    let extremes = extremes_if(read.extremes);
    lemma_find_in_two(op + from + to + metrics + step + points, extremes, key);
    lemma_find_in_two(op + from + to + metrics + step, points, key);
    lemma_find_in_two(op + from + to + metrics, step, key);
    lemma_find_in_two(op + from + to, metrics, key);
    lemma_find_in_two(op + from, to, key);
    lemma_find_in_two(op, from, key);
    lemma_find_in_one(op, key);
}

/// A name that isn't found is no field's.
proof fn lemma_not_found(fields: Seq<(Seq<char>, Tree)>, key: Seq<char>)
    requires
        find(fields, key) is None,
    ensures
        forall|i: int| 0 <= i < fields.len() ==> (#[trigger] fields[i]).0 != key,
    decreases fields.len(),
{
    if fields.len() > 0 {
        lemma_not_found(fields.drop_first(), key);
        assert forall|i: int| 0 <= i < fields.len() implies (#[trigger] fields[i]).0 != key by {
            if i > 0 {
                assert(fields[i] == fields.drop_first()[i - 1]);
            }
        }
    }
}

/// Whether fields have different names, and hold nothing but whole numbers,
/// strings, flags and lists of strings.
spec fn plain_fields(fields: Seq<(Seq<char>, Tree)>) -> bool {
    &&& distinct(fields)
    &&& forall|i: int| 0 <= i < fields.len() ==> simple((#[trigger] fields[i]).1, 7) && orderly(fields[i].1, 7)
}

/// One more field, of a new name.
proof fn lemma_one_more(fields: Seq<(Seq<char>, Tree)>, more: Seq<(Seq<char>, Tree)>, key: Seq<char>)
    requires
        plain_fields(fields),
        more.len() <= 1,
        more.len() == 1 ==> more[0].0 == key && simple(more[0].1, 7) && orderly(more[0].1, 7),
        find(fields, key) is None,
    ensures
        plain_fields(fields + more),
        forall|other: Seq<char>| other != key ==> #[trigger] find(fields + more, other) == find(fields, other),
{
    lemma_not_found(fields, key);
    let all = fields + more;
    assert forall|i: int, j: int| 0 <= i < j < all.len() implies (#[trigger] all[i]).0 != (#[trigger] all[j]).0 by {
        assert(all[i] == fields[i]);
        if j < fields.len() {
            assert(all[j] == fields[j]);
        }
    }
    assert forall|i: int| 0 <= i < all.len() implies simple((#[trigger] all[i]).1, 7) && orderly(all[i].1, 7) by {
        if i < fields.len() {
            assert(all[i] == fields[i]);
        } else {
            assert(all[i] == more[0]);
        }
    }
    assert forall|other: Seq<char>| other != key implies #[trigger] find(all, other) == find(fields, other) by {
        lemma_find_in_two(fields, more, other);
        lemma_find_in_one(more, other);
    }
}

/// A request has no name twice, and nothing in it that doesn't read back.
proof fn lemma_request_is_plain(command: CommandText, now_ms: u64)
    requires
        !(command is Raw),
    ensures
        simple(request_tree(command, now_ms), 8),
        orderly(request_tree(command, now_ms), 8),
{
    reveal_with_fuel(simple, 2);
    reveal_with_fuel(orderly, 2);
    if let CommandText::Read(read) = command {
        lemma_field_names();
        let names = seq!["op"@, "from"@, "to"@, "metrics"@, "step_ms"@, "max_points"@, "extremes"@, "v"@];
        assert(names[0] == "op"@ && names[1] == "from"@ && names[2] == "to"@ && names[3] == "metrics"@);
        assert(names[4] == "step_ms"@ && names[5] == "max_points"@ && names[6] == "extremes"@);
        let op = seq![("op"@, Tree::Text("read"@))];
        let from = count_if("from"@, resolved_if(read.from, now_ms));
        let to = count_if("to"@, resolved_if(read.to, now_ms));
        let metrics = metrics_if(read.metrics);
        let step = count_if("step_ms"@, read.step);
        let points = count_if("max_points"@, read.points);
        let extremes = extremes_if(read.extremes);
        assert(plain_fields(op));
        assert forall|key: Seq<char>| key != "op"@ implies #[trigger] find(op, key) is None by {
            lemma_find_in_one(op, key);
        }
        lemma_one_more(op, from, "from"@);
        lemma_one_more(op + from, to, "to"@);
        lemma_one_more(op + from + to, metrics, "metrics"@);
        lemma_one_more(op + from + to + metrics, step, "step_ms"@);
        lemma_one_more(op + from + to + metrics + step, points, "max_points"@);
        lemma_one_more(op + from + to + metrics + step + points, extremes, "extremes"@);
    }
}

/// The names in a list.
fn name_list(names: &[String]) -> (r: Json)
    ensures
        r.tree() == Tree::Array(texts(names@).map_values(|n: Seq<char>| Tree::Text(n))),
{
    let mut items: Vec<Json> = Vec::with_capacity(names.len());
    for i in 0..names.len()
        invariant
            items@.len() == i,
            forall|j: int| 0 <= j < i ==> (#[trigger] items@[j]).tree() == Tree::Text(names@[j]@),
    {
        items.push(Json::Text(names[i].clone()));
    }
    let r = Json::Array(items);
    proof {
        lemma_array_and_object(r);
        assert(item_trees(items@) =~= texts(names@).map_values(|n: Seq<char>| Tree::Text(n)));
    }
    r
}

/// Adds a field.
fn add_field(fields: &mut Vec<(String, Json)>, key: &str, value: Json)
    ensures
        field_trees(final(fields)@) == field_trees(old(fields)@) + seq![(key@, value.tree())],
{
    fields.push((key.to_owned(), value));
    assert(field_trees(fields@) =~= field_trees(old(fields)@) + seq![(key@, value.tree())]);
}

/// Adds a field with a whole number, if there is one.
fn add_count(fields: &mut Vec<(String, Json)>, key: &str, n: Option<u64>)
    ensures
        field_trees(final(fields)@) == field_trees(old(fields)@) + count_if(key@, n),
{
    match n {
        Some(n) => add_field(fields, key, count(n)),
        None => {
            assert(field_trees(fields@) =~= field_trees(fields@) + count_if(key@, n));
        },
    }
}

/// When `t` is, if it is given.
fn resolve_if(t: &Option<Time>, now_ms: u64) -> (r: Option<u64>)
    ensures
        r == resolved_if(*t, now_ms),
{
    match t {
        Some(t) => Some(t.resolve(now_ms)),
        None => None,
    }
}

/// A request with nothing but its operation.
fn op_request(op: &str) -> (r: Json)
    ensures
        r.tree() == op_tree(op@),
{
    let fields = vec![("op".to_owned(), Json::Text(op.to_owned()))];
    let r = Json::Object(fields);
    proof {
        lemma_array_and_object(r);
        assert(field_trees(fields@) =~= op_tree(op@)->Object_0);
    }
    r
}

/// A request for recorded history.
fn read_request(read: &Read, now_ms: u64) -> (r: Json)
    ensures
        r.tree() == read_tree(read@, now_ms),
{
    let mut fields: Vec<(String, Json)> = vec![("op".to_owned(), Json::Text("read".to_owned()))];
    assert(field_trees(fields@) =~= seq![("op"@, Tree::Text("read"@))]);
    add_count(&mut fields, "from", resolve_if(&read.from, now_ms));
    add_count(&mut fields, "to", resolve_if(&read.to, now_ms));
    let ghost before = field_trees(fields@);
    if read.metrics.len() > 0 {
        add_field(&mut fields, "metrics", name_list(&read.metrics));
    }
    assert(field_trees(fields@) =~= before + metrics_if(read@.metrics));
    add_count(&mut fields, "step_ms", read.step);
    add_count(&mut fields, "max_points", read.points);
    let ghost before = field_trees(fields@);
    if read.extremes {
        add_field(&mut fields, "extremes", Json::Bool(true));
    }
    assert(field_trees(fields@) =~= before + extremes_if(read@.extremes));
    let r = Json::Object(fields);
    proof {
        lemma_array_and_object(r);
    }
    r
}

/// The request for `command`, as one line of JSON without the newline.
///
/// # Errors
/// If it is JSON to send as it is given, and that is not valid; the error says
/// why.
pub fn request_for(command: &Command, now_ms: u64) -> (r: Result<String, String>)
    ensures
        match r {
            Ok(sent) => request_text(command@, now_ms) == Ok::<Seq<char>, Seq<char>>(sent@),
            Err(why) => request_text(command@, now_ms) == Err::<Seq<char>, Seq<char>>(why@),
        },
        r matches Ok(sent) ==> unbroken(sent@),
        r matches Ok(sent) ==> !(command@ is Raw) ==> stands_for(sent@, request_tree(command@, now_ms)),
{
    let json = match command {
        Command::Raw(text) => {
            return match from_text(text) {
                Ok(value) => {
                    let sent = to_text(&value);
                    assert forall|i: int| 0 <= i < sent@.len() implies #[trigger] sent@[i] != '\n' by {
                        assert(sent@.contains(sent@[i]));
                    }
                    Ok(sent)
                },
                Err(why) => Err("not valid JSON: ".to_owned().concat(&why)),
            };
        },
        Command::Info => op_request("info"),
        Command::Metrics => op_request("metrics"),
        Command::Latest => op_request("latest"),
        Command::Read(read) => read_request(read, now_ms),
    };
    proof {
        lemma_request_is_plain(command@, now_ms);
        lemma_orderly(request_tree(command@, now_ms), 8);
    }
    Ok(written(json))
}

/// What the daemon is asked for by a command.
pub open spec fn asks_for(command: CommandText) -> Request {
    match command {
        CommandText::Info => Request::Info,
        CommandText::Metrics => Request::Metrics,
        CommandText::Latest => Request::Latest,
        _ => Request::Read,
    }
}

/// The daemon accepts the request for every command, for what it is meant to
/// ask, however `sent` spells it.
pub proof fn law_requests_are_accepted(command: CommandText, now_ms: u64, sent: Seq<char>)
    requires
        !(command is Raw),
    ensures
        request(request_tree(command, now_ms)) == Ok::<Request, Refusal>(asks_for(command)),
        stands_for(sent, request_tree(command, now_ms)) ==> requested(sent) == Ok::<Request, Refusal>(
            asks_for(command),
        ),
{
    reveal_strlit("op");
    reveal_strlit("v");
    reveal_strlit("info");
    reveal_strlit("metrics");
    reveal_strlit("latest");
    reveal_strlit("read");
    assert("metrics"@.len() == 7 && "latest"@.len() == 6 && "info"@[0] == 'i' && "read"@[0] == 'r');
    match command {
        CommandText::Read(read) => {
            lemma_field_names();
            let names = seq!["op"@, "from"@, "to"@, "metrics"@, "step_ms"@, "max_points"@, "extremes"@, "v"@];
            assert(names[1] == "from"@ && names[2] == "to"@ && names[3] == "metrics"@ && names[4] == "step_ms"@);
            assert(names[5] == "max_points"@ && names[6] == "extremes"@ && names[7] == "v"@);
            lemma_read_tree(read, now_ms, "v"@);
            lemma_read_tree(read, now_ms, "op"@);
            lemma_find_in_one(count_if("from"@, resolved_if(read.from, now_ms)), "v"@);
            lemma_find_in_one(count_if("to"@, resolved_if(read.to, now_ms)), "v"@);
            lemma_find_in_one(metrics_if(read.metrics), "v"@);
            lemma_find_in_one(count_if("step_ms"@, read.step), "v"@);
            lemma_find_in_one(count_if("max_points"@, read.points), "v"@);
            lemma_find_in_one(extremes_if(read.extremes), "v"@);
            let tree = read_tree(read, now_ms);
            assert(tree.field("v"@) is None);
            assert(tree.at("op"@) == Tree::Text("read"@));
            assert("read"@ != "info"@ && "read"@ != "metrics"@ && "read"@ != "latest"@);
        },
        CommandText::Info => {
            lemma_op_request("info"@);
        },
        CommandText::Metrics => {
            lemma_op_request("metrics"@);
            assert("metrics"@ != "info"@);
        },
        CommandText::Latest => {
            lemma_op_request("latest"@);
            assert("latest"@ != "info"@ && "latest"@ != "metrics"@);
        },
        CommandText::Raw(_) => {},
    }
}

/// What a request with nothing but its operation holds.
proof fn lemma_op_request(op: Seq<char>)
    ensures
        op_tree(op).field("v"@) is None,
        op_tree(op).field("op"@) == Some(Tree::Text(op)),
{
    reveal_strlit("op");
    reveal_strlit("v");
    let fields = op_tree(op)->Object_0;
    assert("op"@.len() == 2 && "v"@.len() == 1);
    lemma_find_in_one(fields, "v"@);
    lemma_find_in_one(fields, "op"@);
}

/// A whole number reads back.
proof fn lemma_count_reads_back(n: u64)
    ensures
        count_tree(n as nat).count() == Some(n as nat),
{
    crate::text::lemma_decimal(n as nat);
}

/// What a request for history is understood to ask for.
pub open spec fn understood(read: ReadText, now_ms: u64) -> Wanted {
    let from = resolved_if(read.from, now_ms);
    let to = resolved_if(read.to, now_ms);
    Wanted {
        from: if from is Some {
            from->0
        } else {
            0
        },
        to: if to is Some {
            to->0
        } else {
            u64::MAX
        },
        metrics: if read.metrics.len() == 0 {
            None
        } else {
            Some(read.metrics)
        },
        detail: match (read.step, read.points) {
            (Some(step), _) => Detail::Step(step),
            (None, Some(points)) => Detail::Points(points),
            (None, None) => Detail::Every,
        },
        extremes: read.extremes,
    }
}

/// What a list of at most one field holds under its name and under another.
proof fn lemma_read_field(read: ReadText, now_ms: u64)
    ensures
        ({
            let tree = read_tree(read, now_ms);
            let from = resolved_if(read.from, now_ms);
            let to = resolved_if(read.to, now_ms);
            &&& tree.field("from"@) == find(count_if("from"@, from), "from"@)
            &&& tree.field("to"@) == find(count_if("to"@, to), "to"@)
            &&& tree.field("metrics"@) == find(metrics_if(read.metrics), "metrics"@)
            &&& tree.field("step_ms"@) == find(count_if("step_ms"@, read.step), "step_ms"@)
            &&& tree.field("max_points"@) == find(count_if("max_points"@, read.points), "max_points"@)
            &&& tree.field("extremes"@) == find(extremes_if(read.extremes), "extremes"@)
        }),
{
    lemma_field_names();
    let names = seq!["op"@, "from"@, "to"@, "metrics"@, "step_ms"@, "max_points"@, "extremes"@, "v"@];
    assert(names[0] == "op"@ && names[1] == "from"@ && names[2] == "to"@ && names[3] == "metrics"@);
    assert(names[4] == "step_ms"@ && names[5] == "max_points"@ && names[6] == "extremes"@);
    assert forall|k: int| 1 <= k < 7 implies read_tree(read, now_ms).field(#[trigger] names[k]) == (if k == 1 {
        find(count_if("from"@, resolved_if(read.from, now_ms)), names[k])
    } else if k == 2 {
        find(count_if("to"@, resolved_if(read.to, now_ms)), names[k])
    } else if k == 3 {
        find(metrics_if(read.metrics), names[k])
    } else if k == 4 {
        find(count_if("step_ms"@, read.step), names[k])
    } else if k == 5 {
        find(count_if("max_points"@, read.points), names[k])
    } else {
        find(extremes_if(read.extremes), names[k])
    }) by {
        let key = names[k];
        lemma_read_tree(read, now_ms, key);
        assert(key != names[0]);
        lemma_find_in_one(count_if("from"@, resolved_if(read.from, now_ms)), key);
        lemma_find_in_one(count_if("to"@, resolved_if(read.to, now_ms)), key);
        lemma_find_in_one(metrics_if(read.metrics), key);
        lemma_find_in_one(count_if("step_ms"@, read.step), key);
        lemma_find_in_one(count_if("max_points"@, read.points), key);
        lemma_find_in_one(extremes_if(read.extremes), key);
    }
}

/// The daemon understands a request for history as it was meant, if the range
/// doesn't end before it starts and the number of points is one it allows.
pub proof fn law_read_requests_are_understood(args: Seq<Seq<char>>, now_ms: u64)
    requires
        read_from(everything(), args) is Ok,
    ensures
        ({
            let read = read_from(everything(), args)->Ok_0;
            let wanted = understood(read, now_ms);
            wanted.from <= wanted.to && (read.points matches Some(points) ==> 2 <= points <= MAX_POINTS) ==> options(
                read_tree(read, now_ms),
            ) == Ok::<Wanted, Objection>(wanted)
        }),
{
    let read = read_from(everything(), args)->Ok_0;
    let tree = read_tree(read, now_ms);
    lemma_read_is_sound(everything(), args);
    lemma_read_field(read, now_ms);
    if let Some(from) = resolved_if(read.from, now_ms) {
        lemma_count_reads_back(from);
    }
    if let Some(to) = resolved_if(read.to, now_ms) {
        lemma_count_reads_back(to);
    }
    if let Some(step) = read.step {
        lemma_count_reads_back(step);
    }
    if let Some(points) = read.points {
        lemma_count_reads_back(points);
    }
    lemma_find_in_one(count_if("from"@, resolved_if(read.from, now_ms)), "from"@);
    lemma_find_in_one(count_if("to"@, resolved_if(read.to, now_ms)), "to"@);
    lemma_find_in_one(metrics_if(read.metrics), "metrics"@);
    lemma_find_in_one(count_if("step_ms"@, read.step), "step_ms"@);
    lemma_find_in_one(count_if("max_points"@, read.points), "max_points"@);
    lemma_find_in_one(extremes_if(read.extremes), "extremes"@);
    if read.metrics.len() > 0 {
        let list = metrics_if(read.metrics)[0].1;
        assert(is_name_list(list));
        assert(crate::read::name_list(list) =~= read.metrics);
    }
}

/// The options of a `read` command go together, and a step is never zero.
proof fn lemma_read_is_sound(read: ReadText, args: Seq<Seq<char>>)
    requires
        read.step matches Some(step) ==> step > 0,
    ensures
        read_from(read, args) matches Ok(r) ==> {
            &&& r.step matches Some(step) ==> step > 0
            &&& !(r.step is Some && r.points is Some)
            &&& r.extremes ==> r.step is Some || r.points is Some
        },
    decreases args.len(),
{
    if args.len() == 0 {
    } else if args[0] == "--extremes"@ {
        lemma_read_is_sound(ReadText { extremes: true, ..read }, args.skip(1));
    } else if read_takes_value(args[0]) && args.len() >= 2 {
        if let Ok(next) = with_read_option(read, args[0], args[1]) {
            lemma_read_is_sound(next, args.skip(2));
        }
    }
}

/// Why a request could not be sent, or no answer came.
#[derive(Debug, Clone, PartialEq, Eq)]
pub enum SendError {
    /// There is no socket.
    NotFound,
    /// This account may not use the socket.
    PermissionDenied,
    /// Nothing listens on the socket.
    ConnectionRefused,
    /// Anything else, in words.
    Other(String),
}

/// What a [`SendError`] says.
pub ghost enum SendTrouble {
    /// There is no socket.
    NotFound,
    /// This account may not use the socket.
    PermissionDenied,
    /// Nothing listens on the socket.
    ConnectionRefused,
    /// Anything else, in words.
    Other(Seq<char>),
}

impl View for SendError {
    type V = SendTrouble;

    open spec fn view(&self) -> SendTrouble {
        match self {
            SendError::NotFound => SendTrouble::NotFound,
            SendError::PermissionDenied => SendTrouble::PermissionDenied,
            SendError::ConnectionRefused => SendTrouble::ConnectionRefused,
            SendError::Other(why) => SendTrouble::Other(why@),
        }
    }
}

/// What to say, and to try, when a request to `socket` failed.
pub open spec fn failure_text(socket: Seq<char>, trouble: SendTrouble) -> Seq<char> {
    match trouble {
        SendTrouble::NotFound => "no socket at "@ + socket
            + ". Is simple-metrics running? (--local for one run by hand, or --socket <PATH>)"@,
        SendTrouble::PermissionDenied => "not allowed to use "@ + socket
            + ". Only its owner and group may; is this account in the group?"@,
        SendTrouble::ConnectionRefused => "nothing is listening on "@ + socket + " (a stale socket?)"@,
        SendTrouble::Other(why) => socket + ": "@ + why,
    }
}

/// What to say, and to try, when a request to `socket` failed.
#[must_use]
pub fn describe_failure(socket: &str, error: &SendError) -> (r: String)
    ensures
        r@ == failure_text(socket@, error@),
{
    match error {
        SendError::NotFound => "no socket at ".to_owned().concat(socket).concat(
            ". Is simple-metrics running? (--local for one run by hand, or --socket <PATH>)",
        ),
        SendError::PermissionDenied => "not allowed to use ".to_owned().concat(socket).concat(
            ". Only its owner and group may; is this account in the group?",
        ),
        SendError::ConnectionRefused => "nothing is listening on ".to_owned().concat(socket).concat(
            " (a stale socket?)",
        ),
        SendError::Other(why) => socket.to_owned().concat(": ").concat(why),
    }
}

/// What to do about a command line.
#[derive(Debug, Clone, PartialEq, Eq)]
pub enum Plan {
    /// Write this and exit.
    Finish(Output),
    /// Send a request and show the answer.
    Ask {
        /// The socket to use.
        socket: String,
        /// The request.
        request: String,
        /// Whether to print the response as JSON.
        json: bool,
        /// What was asked.
        command: Command,
    },
}

/// What a [`Plan`] says.
#[verifier::ext_equal]
pub ghost enum PlanText {
    /// Write this and exit.
    Finish(OutputText),
    /// Send a request and show the answer.
    Ask {
        /// The socket to use.
        socket: Seq<char>,
        /// The request.
        request: Seq<char>,
        /// Whether to print the response as JSON.
        json: bool,
        /// What was asked.
        command: CommandText,
    },
}

impl View for Plan {
    type V = PlanText;

    open spec fn view(&self) -> PlanText {
        match self {
            Plan::Finish(output) => PlanText::Finish(output@),
            Plan::Ask { socket, request, json, command } => PlanText::Ask {
                socket: socket@,
                request: request@,
                json: *json,
                command: command@,
            },
        }
    }
}

/// The socket to use: the one that was given, or that the environment names, or
/// the default. An empty name in the environment is none.
pub open spec fn socket_to_use(given: Option<Seq<char>>, environment: Option<Seq<char>>) -> Seq<char> {
    match given {
        Some(path) => path,
        None => match environment {
            Some(path) => if path.len() > 0 {
                path
            } else {
                DEFAULT_SOCKET@
            },
            None => DEFAULT_SOCKET@,
        },
    }
}

/// Text on standard error, and an exit code.
pub open spec fn complained(code: u8, text: Seq<char>) -> OutputText {
    OutputText { code, out: seq![], err: text }
}

/// What to do about a command line.
pub open spec fn plan(args: Seq<Seq<char>>, environment: Option<Seq<char>>, now_ms: u64) -> PlanText {
    match parsed(args) {
        Ok(ParsedText::Help) => PlanText::Finish(printed(USAGE@)),
        Ok(ParsedText::Version) => PlanText::Finish(printed("smq "@ + VERSION@ + "\n"@)),
        Err(why) => PlanText::Finish(complained(EXIT_USAGE, "smq: "@ + why + "\n\n"@ + USAGE@)),
        Ok(ParsedText::Run { socket, json, command }) => match request_text(command, now_ms) {
            Err(why) => PlanText::Finish(complained(EXIT_USAGE, "smq: "@ + why + "\n"@)),
            Ok(request) => PlanText::Ask { socket: socket_to_use(socket, environment), request, json, command },
        },
    }
}

/// What a text, if there is one, says.
pub open spec fn str_text(text: Option<&str>) -> Option<Seq<char>> {
    match text {
        Some(text) => Some(text@),
        None => None,
    }
}

/// Text on standard error, and an exit code.
fn complain(code: u8, text: String) -> (r: Output)
    ensures
        r@ == complained(code, text@),
{
    let r = Output { code, out: String::new(), err: text };
    assert(r@ =~= complained(code, text@));
    r
}

/// Text on standard output, and success.
fn print(text: String) -> (r: Output)
    ensures
        r@ == printed(text@),
{
    let r = Output { code: EXIT_OK, out: text, err: String::new() };
    assert(r@ =~= printed(text@));
    r
}

/// Works out what to do about the arguments `args` (not including the program
/// name). `env_socket` is the value of [`SOCKET_ENV`], and `now_ms` the current
/// time.
#[must_use]
pub fn prepare(args: &[String], env_socket: Option<&str>, now_ms: u64) -> (r: Plan)
    ensures
        r@ == plan(texts(args@), str_text(env_socket), now_ms),
{
    let (socket, json, command) = match parse(args) {
        Ok(Parsed::Help) => {
            return Plan::Finish(print(USAGE.to_owned()));
        },
        Ok(Parsed::Version) => {
            return Plan::Finish(print("smq ".to_owned().concat(VERSION).concat("\n")));
        },
        Ok(Parsed::Run { socket, json, command }) => (socket, json, command),
        Err(why) => {
            return Plan::Finish(
                complain(EXIT_USAGE, "smq: ".to_owned().concat(&why).concat("\n\n").concat(USAGE)),
            );
        },
    };
    let socket = match socket {
        Some(path) => path,
        None => match env_socket {
            Some(path) => if chars_of(path).len() > 0 {
                path.to_owned()
            } else {
                DEFAULT_SOCKET.to_owned()
            },
            None => DEFAULT_SOCKET.to_owned(),
        },
    };
    match request_for(&command, now_ms) {
        Ok(request) => Plan::Ask { socket, request, json, command },
        Err(why) => Plan::Finish(complain(EXIT_USAGE, "smq: ".to_owned().concat(&why).concat("\n"))),
    }
}

/// The response to a command as text for a person.
pub open spec fn shown_text(command: CommandText, tree: Tree) -> Seq<char> {
    match command {
        CommandText::Info => key_lines(tree, info_keys()),
        CommandText::Metrics => metrics_text(tree),
        CommandText::Latest => latest_text(tree),
        CommandText::Read(_) => history_text(tree),
        // The shape of an arbitrary request's answer isn't known.
        CommandText::Raw(_) => json_text(tree),
    }
}

/// What a request that was refused leads to.
pub open spec fn refusal_output(json: bool, response: Seq<char>, tree: Tree) -> OutputText {
    OutputText {
        code: EXIT_FAILED,
        out: if json {
            trim_end(response) + "\n"@
        } else {
            seq![]
        },
        err: "smq: "@ + (match tree.at("error"@).string() {
            Some(why) => why,
            None => "the request failed"@,
        }) + "\n"@,
    }
}

/// What the reply to a request leads to.
pub open spec fn conclusion(
    json: bool,
    command: CommandText,
    socket: Seq<char>,
    reply: Result<Seq<char>, SendTrouble>,
) -> OutputText {
    match reply {
        Err(trouble) => complained(EXIT_FAILED, "smq: "@ + failure_text(socket, trouble) + "\n"@),
        Ok(response) => match json_parse(response) {
            Err(_) => complained(EXIT_FAILED, "smq: the reply was not valid JSON\n"@),
            Ok(tree) => if tree.at("ok"@) != Tree::Bool(true) {
                refusal_output(json, response, tree)
            } else if json {
                printed(trim_end(response) + "\n"@)
            } else {
                printed(trim_end(shown_text(command, tree)) + "\n"@)
            },
        },
    }
}

/// What a reply says.
pub open spec fn reply_text(reply: Result<String, SendError>) -> Result<Seq<char>, SendTrouble> {
    match reply {
        Ok(response) => Ok(response@),
        Err(error) => Err(error@),
    }
}

/// The response to a command as text for a person.
fn render(command: &Command, response: &Json) -> (text: String)
    requires
        neat(response.tree()),
    ensures
        text@ == shown_text(command@, response.tree()),
{
    match command {
        Command::Info => render_info(response),
        Command::Metrics => render_metrics(response),
        Command::Latest => render_latest(response),
        Command::Read(_) => render_read(response),
        Command::Raw(_) => {
            proof {
                lemma_neat(response.tree());
            }
            written(response.duplicate())
        },
    }
}

/// What to write once the reply to a request is there.
#[must_use]
pub fn conclude(json: bool, command: &Command, socket: &str, reply: Result<String, SendError>) -> (r: Output)
    ensures
        r@ == conclusion(json, command@, socket@, reply_text(reply)),
{
    let response = match reply {
        Ok(response) => response,
        Err(error) => {
            return complain(
                EXIT_FAILED,
                "smq: ".to_owned().concat(&describe_failure(socket, &error)).concat("\n"),
            );
        },
    };
    let answer = match from_text(&response) {
        Ok(value) => unfold(value),
        Err(_) => {
            return complain(EXIT_FAILED, "smq: the reply was not valid JSON\n".to_owned());
        },
    };
    let fine = match answer.get("ok") {
        Some(Json::Bool(ok)) => *ok,
        _ => false,
    };
    if !fine {
        let why = match answer.get("error") {
            Some(error) => match error.as_text() {
                Some(why) => why.to_owned(),
                None => "the request failed".to_owned(),
            },
            None => "the request failed".to_owned(),
        };
        let out = if json {
            trimmed_end(&response).concat("\n")
        } else {
            String::new()
        };
        let r = Output { code: EXIT_FAILED, out, err: "smq: ".to_owned().concat(&why).concat("\n") };
        assert(r@ =~= refusal_output(json, response@, answer.tree()));
        return r;
    }
    if json {
        print(trimmed_end(&response).concat("\n"))
    } else {
        print(trimmed_end(&render(command, &answer)).concat("\n"))
    }
}

/// Runs `smq` with `args` (not including the program name).
///
/// `env_socket` is the value of [`SOCKET_ENV`], `now_ms` the current time, and
/// `send` makes the request, given the socket and the request; passing them in
/// keeps this testable. Nothing is sent unless [`prepare`] says what.
pub fn run<S: FnOnce(&str, &str) -> Result<String, SendError>>(
    args: &[String],
    env_socket: Option<&str>,
    now_ms: u64,
    send: S,
) -> (r: Output)
    requires
        forall|socket: &str, request: &str| #[trigger] call_requires(send, (socket, request)),
    ensures
        match plan(texts(args@), str_text(env_socket), now_ms) {
            PlanText::Finish(output) => r@ == output,
            PlanText::Ask { socket, request, json, command } => exists|to: &str, what: &str, reply: Result<
                String,
                SendError,
            >|
                #![trigger call_ensures(send, (to, what), reply)]
                to@ == socket && what@ == request && call_ensures(send, (to, what), reply) && r@ == conclusion(
                    json,
                    command,
                    socket,
                    reply_text(reply),
                ),
        },
{
    match prepare(args, env_socket, now_ms) {
        Plan::Finish(output) => output,
        Plan::Ask { socket, request, json, command } => {
            let reply = send(&socket, &request);
            conclude(json, &command, &socket, reply)
        },
    }
}

/// When the daemon refuses a request, the reason reaches the user and the
/// program fails.
pub proof fn law_a_refusal_reaches_the_user(
    message: Seq<char>,
    line: Seq<char>,
    json: bool,
    command: CommandText,
    socket: Seq<char>,
)
    requires
        refuses(message, line),
    ensures
        conclusion(json, command, socket, Ok(line)).code == EXIT_FAILED,
        conclusion(json, command, socket, Ok(line)).err == "smq: "@ + message + "\n"@,
        !json ==> conclusion(json, command, socket, Ok(line)).out.len() == 0,
{
    reveal_strlit("ok");
    reveal_strlit("v");
    reveal_strlit("error");
    let fields = error_tree(message)->Object_0;
    assert("ok"@.len() == 2 && "v"@.len() == 1 && "error"@.len() == 5);
    assert(fields.drop_first().drop_first()[0] == fields[2]);
    reveal_with_fuel(find, 4);
    assert(find(fields, "ok"@) == Some(Tree::Bool(false)));
    assert(fields.drop_first()[0] == fields[1]);
    assert(find(fields, "error"@) == Some(Tree::Text(message)));
}

/// What the daemon says of itself is what the user is shown.
pub proof fn law_facts_reach_the_user<N: Fn(u64) -> Option<serde_json::Number>>(
    shared: Shared,
    number: N,
    line: Seq<char>,
    socket: Seq<char>,
)
    requires
        responds(Request::Info, shared, number, line),
    ensures
        conclusion(false, CommandText::Info, socket, Ok(line)) == printed(
            trim_end(key_lines(info_of(shared), info_keys())) + "\n"@,
        ),
{
    reveal_strlit("ok");
    assert(info_of(shared)->Object_0[0] == ("ok"@, Tree::Bool(true)));
}

/// A script that asks for JSON gets the daemon's reply as it is.
pub proof fn law_json_output_is_the_daemons_reply(tree: Tree, line: Seq<char>, command: CommandText, socket: Seq<char>)
    requires
        stands_for(line, tree),
        tree.at("ok"@) == Tree::Bool(true),
    ensures
        conclusion(true, command, socket, Ok(line)) == printed(trim_end(line) + "\n"@),
{
}

/// The metrics that the daemon has are those that the user is shown.
pub proof fn law_metrics_reach_the_user<N: Fn(u64) -> Option<serde_json::Number>>(
    shared: Shared,
    number: N,
    line: Seq<char>,
    socket: Seq<char>,
)
    requires
        responds(Request::Metrics, shared, number, line),
    ensures
        conclusion(false, CommandText::Metrics, socket, Ok(line)) == printed(
            trim_end(metrics_text(metrics_tree(shared.metrics()))) + "\n"@,
        ),
{
    assert(metrics_tree(shared.metrics())->Object_0[0] == ("ok"@, Tree::Bool(true)));
}

/// When nothing is recorded yet, the user is told so.
pub proof fn law_that_nothing_is_recorded_reaches_the_user<N: Fn(u64) -> Option<serde_json::Number>>(
    shared: Shared,
    number: N,
    line: Seq<char>,
    socket: Seq<char>,
)
    requires
        shared.records().len() == 0,
        responds(Request::Latest, shared, number, line),
    ensures
        conclusion(false, CommandText::Latest, socket, Ok(line)) == printed("nothing has been recorded yet\n"@),
{
    let tree = latest_tree(shared.metrics(), None);
    let fields = tree->Object_0;
    assert(fields[0] == ("ok"@, Tree::Bool(true)));
    reveal_strlit("ok");
    reveal_strlit("v");
    reveal_strlit("timestamp");
    assert("ok"@.len() == 2 && "v"@.len() == 1 && "timestamp"@.len() == 9);
    reveal_with_fuel(find, 4);
    assert(fields.drop_first()[0] == fields[1]);
    assert(fields.drop_first().drop_first()[0] == fields[2]);
    assert(tree.at("timestamp"@) == Tree::Null);
    let words = "nothing has been recorded yet"@;
    reveal_strlit("nothing has been recorded yet");
    reveal_strlit("nothing has been recorded yet\n");
    reveal_strlit("\n");
    assert(words.last() == 't');
    assert(trim_end(words) == words);
    assert(words + "\n"@ =~= "nothing has been recorded yet\n"@);
}

/// Where the daemon's answer reads back as the newest record, the user is shown
/// that record. (Whether a number that isn't whole reads back as it was written
/// is up to the reader of the JSON.)
pub proof fn law_the_newest_record_reaches_the_user<N: Fn(u64) -> Option<serde_json::Number>>(
    shared: Shared,
    number: N,
    line: Seq<char>,
    socket: Seq<char>,
)
    requires
        shared.records().len() > 0,
        responds(Request::Latest, shared, number, line),
    ensures
        exists|cells: Seq<Option<serde_json::Number>>|
            {
                let newest = settled(latest_tree(shared.metrics(), Some((shared.records().last().time, cells))));
                &&& #[trigger] rendered(number, known(shared.records().last().row), cells)
                &&& simple(newest, 8) ==> stands_for(line, newest)
                &&& stands_for(line, newest) ==> conclusion(false, CommandText::Latest, socket, Ok(line)) == printed(
                    trim_end(latest_text(newest)) + "\n"@,
                )
            },
{
    let last = shared.records().last();
    let cells = choose|cells: Seq<Option<serde_json::Number>>|
        {
            let newest = latest_tree(shared.metrics(), Some((last.time, cells)));
            &&& rendered(number, known(last.row), cells)
            &&& line == #[trigger] line_of(latest_tree(shared.metrics(), Some((last.time, cells))))
            &&& simple(settled(newest), 8) ==> stands_for(line, settled(newest))
        };
    let tree = latest_tree(shared.metrics(), Some((last.time, cells)));
    lemma_distinct_fields(shared, seq![], Some((last.time, cells)));
    lemma_settled_object(tree->Object_0);
    assert(settled(tree)->Object_0[0] == ("ok"@, Tree::Bool(true)));
    assert(rendered(number, known(last.row), cells));
}

/// Where the daemon's answer reads back as the history it tells, the user is shown
/// that history.
pub proof fn law_history_reaches_the_user<N: Fn(u64) -> Option<serde_json::Number>, M: Fn(Vec<u64>) -> u64>(
    read: ReadText,
    wanted: Wanted,
    columns: Seq<usize>,
    shared: Shared,
    number: N,
    mean: M,
    line: Seq<char>,
    socket: Seq<char>,
)
    requires
        tells_of(shared, wanted, columns, number, mean, line),
    ensures
        exists|figures: Figures, history: History|
            {
                &&& recalls(shared, wanted, columns, mean, figures)
                &&& #[trigger] shows(number, figures, names_at(shared.metrics(), columns), history)
                &&& line == json_text(history_tree(history)) + "\n"@
                &&& stands_for(line, history_tree(history)) ==> conclusion(
                    false,
                    CommandText::Read(read),
                    socket,
                    Ok(line),
                ) == printed(trim_end(history_text(history_tree(history))) + "\n"@)
            },
{
    let names = names_at(shared.metrics(), columns);
    let (figures, history) = choose|figures: Figures, history: History|
        recalls(shared, wanted, columns, mean, figures) && #[trigger] shows(number, figures, names, history) && line
            == history_line(history);
    law_history_is_json(history);
    assert(history_tree(history)->Object_0[0] == ("ok"@, Tree::Bool(true)));
    assert(recalls(shared, wanted, columns, mean, figures) && shows(number, figures, names, history));
}

/// `now` is now, a number alone is that many milliseconds after the epoch, and a
/// number with a unit is that long ago.
pub proof fn law_times_are_read(n: nat, unit: Seq<char>, ms: nat)
    requires
        (unit == "ms"@ && ms == 1) || (unit == "s"@ && ms == 1_000) || (unit == "m"@ && ms == 60_000) || (unit == "h"@ && ms
            == 3_600_000) || (unit == "d"@ && ms == 86_400_000),
    ensures
        time("now"@) == Ok::<Time, Seq<char>>(Time::Ago(0)),
        n <= u64::MAX ==> time(decimal(n)) == Ok::<Time, Seq<char>>(Time::At(n as u64)),
        n > u64::MAX ==> time(decimal(n)) is Err,
        0 < n * ms <= u64::MAX ==> time(decimal(n) + unit) == Ok::<Time, Seq<char>>(Time::Ago((n * ms) as u64)),
        n == 0 || n * ms > u64::MAX ==> time(decimal(n) + unit) is Err,
{
    reveal_strlit("now");
    reveal_strlit("ms");
    reveal_strlit("s");
    reveal_strlit("m");
    reveal_strlit("h");
    reveal_strlit("d");
    law_durations_are_read(n, unit, ms);
    lemma_decimal(n);
    let text = decimal(n) + unit;
    assert(0 <= crate::text::digit_value(decimal(n)[0]) < 10);
    assert(text[0] == decimal(n)[0]);
    assert(text[0] != "now"@[0] && decimal(n)[0] != "now"@[0]);
    assert(unit[0] == 'm' || unit[0] == 's' || unit[0] == 'h' || unit[0] == 'd');
    assert(text[decimal(n).len() as int] == unit[0]);
    assert(!(0 <= crate::text::digit_value(text[decimal(n).len() as int]) < 10));
}

/// A time after the epoch is that time whenever it is read, and a time ago is so
/// much before now, but never before the epoch.
pub proof fn law_times_are_resolved(ms: u64, ago: u64, now_ms: u64)
    ensures
        Time::At(ms).resolved(now_ms) == ms,
        ago <= now_ms ==> Time::Ago(ago).resolved(now_ms) + ago == now_ms,
        ago > now_ms ==> Time::Ago(ago).resolved(now_ms) == 0,
{
}

/// Each option of `read` sets one thing to what the value that follows it stands
/// for, and leaves every other as it is. A metric is one more to those before it.
pub proof fn law_each_read_option_sets_one_thing(read: ReadText, value: Seq<char>, rest: Seq<Seq<char>>)
    ensures
        time(value) matches Ok(t) ==> read_from(read, seq!["--from"@, value] + rest) == read_from(
            ReadText { from: Some(t), ..read },
            rest,
        ),
        time(value) matches Ok(t) ==> read_from(read, seq!["--to"@, value] + rest) == read_from(
            ReadText { to: Some(t), ..read },
            rest,
        ),
        time(value) matches Err(why) ==> read_from(read, seq!["--from"@, value] + rest) == Err::<ReadText, Seq<char>>(why)
            && read_from(read, seq!["--to"@, value] + rest) == Err::<ReadText, Seq<char>>(why),
        read_from(read, seq!["--metric"@, value] + rest) == read_from(
            ReadText { metrics: read.metrics.push(value), ..read },
            rest,
        ),
        duration(value) matches Ok(ms) ==> read_from(read, seq!["--step"@, value] + rest) == read_from(
            ReadText { step: Some(ms), ..read },
            rest,
        ),
        duration(value) is Err ==> read_from(read, seq!["--step"@, value] + rest) is Err,
        unsigned(value, 10, u64::MAX as nat) matches Some(n) ==> read_from(read, seq!["--points"@, value] + rest)
            == read_from(ReadText { points: Some(n as u64), ..read }, rest),
        unsigned(value, 10, u64::MAX as nat) is None ==> read_from(read, seq!["--points"@, value] + rest) is Err,
        read_from(read, seq!["--extremes"@] + rest) == read_from(ReadText { extremes: true, ..read }, rest),
{
    lemma_read_options_differ();
    lemma_one_read_option(read, "--from"@, value, rest);
    lemma_one_read_option(read, "--to"@, value, rest);
    lemma_one_read_option(read, "--metric"@, value, rest);
    lemma_one_read_option(read, "--step"@, value, rest);
    lemma_one_read_option(read, "--points"@, value, rest);
    let args = seq!["--extremes"@] + rest;
    assert(args[0] == "--extremes"@);
    assert(args.skip(1) =~= rest);
}

proof fn lemma_one_read_option(read: ReadText, flag: Seq<char>, value: Seq<char>, rest: Seq<Seq<char>>)
    requires
        read_takes_value(flag),
        flag != "--extremes"@,
    ensures
        read_from(read, seq![flag, value] + rest) == match with_read_option(read, flag, value) {
            Ok(next) => read_from(next, rest),
            Err(why) => Err(why),
        },
{
    let args = seq![flag, value] + rest;
    assert(args[0] == flag && args[1] == value);
    assert(args.skip(2) =~= rest);
}

proof fn lemma_read_options_differ()
    ensures
        "--from"@ != "--to"@ && "--from"@ != "--metric"@ && "--from"@ != "--step"@ && "--from"@ != "--points"@ && "--from"@
            != "--extremes"@,
        "--to"@ != "--metric"@ && "--to"@ != "--step"@ && "--to"@ != "--points"@ && "--to"@ != "--extremes"@,
        "--metric"@ != "--step"@ && "--metric"@ != "--points"@ && "--metric"@ != "--extremes"@,
        "--step"@ != "--points"@ && "--step"@ != "--extremes"@ && "--points"@ != "--extremes"@,
{
    reveal_strlit("--from");
    reveal_strlit("--to");
    reveal_strlit("--metric");
    reveal_strlit("--step");
    reveal_strlit("--points");
    reveal_strlit("--extremes");
    assert("--from"@.len() == 6 && "--to"@.len() == 4 && "--metric"@.len() == 8 && "--step"@.len() == 6
        && "--points"@.len() == 8 && "--extremes"@.len() == 10);
    assert("--from"@[2] == 'f' && "--step"@[2] == 's' && "--metric"@[2] == 'm' && "--points"@[2] == 'p');
}

/// With no more options, what was asked for stands, unless a width and a number of
/// buckets are both given, or the extremes of buckets without any. Before the first
/// option everything is asked for.
pub proof fn law_read_options_go_together(read: ReadText, unknown: Seq<char>, flag: Seq<char>, rest: Seq<Seq<char>>)
    requires
        unknown != "--from"@ && unknown != "--to"@ && unknown != "--metric"@ && unknown != "--step"@ && unknown
            != "--points"@ && unknown != "--extremes"@,
        flag == "--from"@ || flag == "--to"@ || flag == "--metric"@ || flag == "--step"@ || flag == "--points"@,
    ensures
        ({
            let end = read_from(read, Seq::<Seq<char>>::empty());
            if (read.step is Some && read.points is Some) || (read.extremes && read.step is None && read.points is None) {
                end is Err
            } else {
                end == Ok::<ReadText, Seq<char>>(read)
            }
        }),
        read_from(read, seq![unknown] + rest) is Err,
        read_from(read, seq![flag]) is Err,
        everything().from is None && everything().to is None && everything().metrics.len() == 0,
        everything().step is None && everything().points is None && !everything().extremes,
{
    lemma_read_options_differ();
    assert((seq![unknown] + rest)[0] == unknown);
    assert(seq![flag][0] == flag);
}

/// What a `read` command asks for is what its request says, field by field; what it
/// doesn't ask for has no field.
pub proof fn law_requests_say_what_was_asked(read: ReadText, now_ms: u64)
    ensures
        ({
            let tree = request_tree(CommandText::Read(read), now_ms);
            &&& tree.field("op"@) == Some(Tree::Text("read"@))
            &&& read.from is None ==> tree.field("from"@) is None
            &&& read.from matches Some(t) ==> tree.field("from"@) == Some(Tree::Number(decimal(t.resolved(now_ms) as nat)))
            &&& read.to is None ==> tree.field("to"@) is None
            &&& read.to matches Some(t) ==> tree.field("to"@) == Some(Tree::Number(decimal(t.resolved(now_ms) as nat)))
            &&& read.metrics.len() == 0 ==> tree.field("metrics"@) is None
            &&& read.metrics.len() > 0 ==> tree.field("metrics"@) is Some && tree.at("metrics"@) is Array && tree.at(
                "metrics"@,
            )->Array_0.len() == read.metrics.len() && forall|i: int|
                0 <= i < read.metrics.len() ==> tree.at("metrics"@)->Array_0[i] == Tree::Text(#[trigger] read.metrics[i])
            &&& read.step is None ==> tree.field("step_ms"@) is None
            &&& read.step matches Some(n) ==> tree.field("step_ms"@) == Some(Tree::Number(decimal(n as nat)))
            &&& read.points is None ==> tree.field("max_points"@) is None
            &&& read.points matches Some(n) ==> tree.field("max_points"@) == Some(Tree::Number(decimal(n as nat)))
            &&& read.extremes ==> tree.field("extremes"@) == Some(Tree::Bool(true))
            &&& !read.extremes ==> tree.field("extremes"@) is None
        }),
        request_tree(CommandText::Info, now_ms) == Tree::Object(seq![("op"@, Tree::Text("info"@))]),
        request_tree(CommandText::Metrics, now_ms) == Tree::Object(seq![("op"@, Tree::Text("metrics"@))]),
        request_tree(CommandText::Latest, now_ms) == Tree::Object(seq![("op"@, Tree::Text("latest"@))]),
{
    let tree = read_tree(read, now_ms);
    lemma_read_tree(read, now_ms, "op"@);
    lemma_read_field(read, now_ms);
    lemma_find_in_one(count_if("from"@, resolved_if(read.from, now_ms)), "from"@);
    lemma_find_in_one(count_if("to"@, resolved_if(read.to, now_ms)), "to"@);
    lemma_find_in_one(metrics_if(read.metrics), "metrics"@);
    lemma_find_in_one(count_if("step_ms"@, read.step), "step_ms"@);
    lemma_find_in_one(count_if("max_points"@, read.points), "max_points"@);
    lemma_find_in_one(extremes_if(read.extremes), "extremes"@);
}

/// A time means the same instant after `--to` as after `--from`: the request says
/// it in the one field or the other. A time so long ago is that much before now.
pub proof fn law_both_ends_are_read_alike(t: Seq<char>, now_ms: u64)
    ensures
        ({
            let from = read_from(everything(), seq!["--from"@, t]);
            let to = read_from(everything(), seq!["--to"@, t]);
            &&& from is Ok == time(t) is Ok
            &&& to is Ok == time(t) is Ok
            &&& time(t) matches Ok(when) ==> {
                let start = request_tree(CommandText::Read(from->Ok_0), now_ms);
                let end = request_tree(CommandText::Read(to->Ok_0), now_ms);
                &&& from->Ok_0.from == Some(when) && from->Ok_0.to is None
                &&& to->Ok_0.to == Some(when) && to->Ok_0.from is None
                &&& start.field("from"@) is Some && start.field("from"@) == end.field("to"@)
                &&& start.field("to"@) is None && end.field("from"@) is None
                &&& when matches Time::At(ms) ==> end.at("to"@) == Tree::Number(decimal(ms as nat))
                &&& when matches Time::Ago(ago) ==> ago <= now_ms ==> end.at("to"@) == Tree::Number(
                    decimal((now_ms - ago) as nat),
                )
                &&& when matches Time::Ago(ago) ==> ago > now_ms ==> end.at("to"@) == Tree::Number(decimal(0))
            }
        }),
{
    let none = Seq::<Seq<char>>::empty();
    law_each_read_option_sets_one_thing(everything(), t, none);
    assert(seq!["--from"@, t] + none =~= seq!["--from"@, t]);
    assert(seq!["--to"@, t] + none =~= seq!["--to"@, t]);
    if let Ok(when) = time(t) {
        let from = read_from(everything(), seq!["--from"@, t])->Ok_0;
        let to = read_from(everything(), seq!["--to"@, t])->Ok_0;
        law_requests_say_what_was_asked(from, now_ms);
        law_requests_say_what_was_asked(to, now_ms);
    }
}

/// Options before the command are heeded in turn: where the socket is (the last one
/// given counts) and whether to print JSON. What follows the command is the
/// command's.
pub proof fn law_options_come_before_the_command(
    socket: Option<Seq<char>>,
    json: bool,
    path: Seq<char>,
    arg: Seq<char>,
    rest: Seq<Seq<char>>,
)
    ensures
        parsed_from(socket, json, seq!["--json"@] + rest) == parsed_from(socket, true, rest),
        parsed_from(socket, json, seq!["--local"@] + rest) == parsed_from(Some("/tmp/simple-metrics.sock"@), json, rest),
        parsed_from(socket, json, seq!["--socket"@, path] + rest) == parsed_from(Some(path), json, rest),
        parsed_from(socket, json, seq!["--socket"@]) is Err,
        parsed_from(socket, json, Seq::<Seq<char>>::empty()) is Err,
        parsed_from(socket, json, seq!["-h"@] + rest) == Ok::<ParsedText, Seq<char>>(ParsedText::Help),
        parsed_from(socket, json, seq!["--help"@] + rest) == Ok::<ParsedText, Seq<char>>(ParsedText::Help),
        parsed_from(socket, json, seq!["-V"@] + rest) == Ok::<ParsedText, Seq<char>>(ParsedText::Version),
        parsed_from(socket, json, seq!["--version"@] + rest) == Ok::<ParsedText, Seq<char>>(ParsedText::Version),
        parsed_from(socket, json, seq!["info"@]) == Ok::<ParsedText, Seq<char>>(
            (ParsedText::Run { socket, json, command: CommandText::Info }),
        ),
        parsed_from(socket, json, seq!["metrics"@]) == Ok::<ParsedText, Seq<char>>(
            (ParsedText::Run { socket, json, command: CommandText::Metrics }),
        ),
        parsed_from(socket, json, seq!["latest"@]) == Ok::<ParsedText, Seq<char>>(
            (ParsedText::Run { socket, json, command: CommandText::Latest }),
        ),
        parsed_from(socket, json, seq!["raw"@, arg]) == Ok::<ParsedText, Seq<char>>(
            (ParsedText::Run { socket, json, command: CommandText::Raw(arg) }),
        ),
        rest.len() > 0 ==> parsed_from(socket, json, seq!["info"@] + rest) is Err && parsed_from(
            socket,
            json,
            seq!["metrics"@] + rest,
        ) is Err && parsed_from(socket, json, seq!["latest"@] + rest) is Err,
        rest.len() != 1 ==> parsed_from(socket, json, seq!["raw"@] + rest) is Err,
        read_from(everything(), rest) matches Ok(read) ==> parsed_from(socket, json, seq!["read"@] + rest) == Ok::<
            ParsedText,
            Seq<char>,
        >((ParsedText::Run { socket, json, command: CommandText::Read(read) })),
        read_from(everything(), rest) matches Err(why) ==> parsed_from(socket, json, seq!["read"@] + rest) == Err::<
            ParsedText,
            Seq<char>,
        >(why),
{
    reveal_strlit("-h");
    reveal_strlit("--help");
    reveal_strlit("-V");
    reveal_strlit("--version");
    reveal_strlit("--json");
    reveal_strlit("--local");
    reveal_strlit("--socket");
    reveal_strlit("info");
    reveal_strlit("metrics");
    reveal_strlit("latest");
    reveal_strlit("read");
    reveal_strlit("raw");
    assert("-h"@.len() == 2 && "-V"@.len() == 2 && "--help"@.len() == 6 && "--version"@.len() == 9 && "--json"@.len() == 6
        && "--local"@.len() == 7 && "--socket"@.len() == 8);
    assert("info"@.len() == 4 && "metrics"@.len() == 7 && "latest"@.len() == 6 && "read"@.len() == 4 && "raw"@.len() == 3);
    assert("-h"@[1] == 'h' && "-V"@[1] == 'V' && "--help"@[2] == 'h' && "--json"@[2] == 'j' && "latest"@[0] == 'l');
    assert("info"@[0] == 'i' && "read"@[0] == 'r' && "metrics"@[0] == 'm' && "--help"@[0] == '-' && "--json"@[0] == '-');
    assert("--local"@[0] == '-');
    assert((seq!["--json"@] + rest)[0] == "--json"@ && (seq!["--json"@] + rest).skip(1) =~= rest);
    assert((seq!["--local"@] + rest)[0] == "--local"@ && (seq!["--local"@] + rest).skip(1) =~= rest);
    let given = seq!["--socket"@, path] + rest;
    assert(given[0] == "--socket"@ && given[1] == path && given.skip(2) =~= rest);
    assert((seq!["-h"@] + rest)[0] == "-h"@ && (seq!["--help"@] + rest)[0] == "--help"@);
    assert((seq!["-V"@] + rest)[0] == "-V"@ && (seq!["--version"@] + rest)[0] == "--version"@);
    lemma_command(socket, json, "info"@, seq![]);
    lemma_command(socket, json, "metrics"@, seq![]);
    lemma_command(socket, json, "latest"@, seq![]);
    lemma_command(socket, json, "raw"@, seq![arg]);
    lemma_command(socket, json, "info"@, rest);
    lemma_command(socket, json, "metrics"@, rest);
    lemma_command(socket, json, "latest"@, rest);
    lemma_command(socket, json, "raw"@, rest);
    lemma_command(socket, json, "read"@, rest);
    assert(seq!["info"@] + seq![] =~= seq!["info"@]);
    assert(seq!["metrics"@] + seq![] =~= seq!["metrics"@]);
    assert(seq!["latest"@] + seq![] =~= seq!["latest"@]);
    assert(seq!["raw"@] + seq![arg] =~= seq!["raw"@, arg]);
}

proof fn lemma_command(socket: Option<Seq<char>>, json: bool, name: Seq<char>, rest: Seq<Seq<char>>)
    requires
        is_command(name),
        name != "-h"@ && name != "--help"@ && name != "-V"@ && name != "--version"@ && name != "--json"@ && name
            != "--local"@ && name != "--socket"@,
    ensures
        parsed_from(socket, json, seq![name] + rest) == match command(name, rest) {
            Ok(command) => Ok::<ParsedText, Seq<char>>(ParsedText::Run { socket, json, command }),
            Err(why) => Err(why),
        },
{
    let args = seq![name] + rest;
    assert(args[0] == name);
    assert(args.skip(1) =~= rest);
}

/// A request goes to the socket that was given, or else to the one that the
/// environment names, or else to the usual one; nothing is sent of a command line
/// that can't be used.
pub proof fn law_where_requests_go(args: Seq<Seq<char>>, environment: Option<Seq<char>>, now_ms: u64)
    ensures
        ({
            let todo = plan(args, environment, now_ms);
            match parsed(args) {
                Ok(ParsedText::Help) => todo is Finish && todo->0.code == 0 && todo->0.err.len() == 0 && todo->0.out
                    == USAGE@,
                Ok(ParsedText::Version) => todo is Finish && todo->0.code == 0 && todo->0.err.len() == 0 && todo->0.out
                    == "smq "@ + VERSION@ + "\n"@,
                Err(why) => todo is Finish && todo->0.code == 2 && todo->0.out.len() == 0 && ("smq: "@ + why).is_prefix_of(
                    todo->0.err,
                ),
                Ok(ParsedText::Run { socket, json, command }) => match request_text(command, now_ms) {
                    Err(why) => todo is Finish && todo->0.code == 2 && todo->0.out.len() == 0 && todo->0.err == "smq: "@
                        + why + "\n"@,
                    Ok(request) => {
                        &&& todo is Ask
                        &&& todo->request == request
                        &&& todo->json == json
                        &&& todo->command == command
                        &&& socket is Some ==> todo->socket == socket->0
                        &&& socket is None && environment is Some && environment->0.len() > 0 ==> todo->socket
                            == environment->0
                        &&& socket is None && (environment is None || environment->0.len() == 0) ==> todo->socket
                            == "/run/simple-metrics/simple-metrics.sock"@
                    },
                },
            }
        }),
{
    if let Err(why) = parsed(args) {
        let start = "smq: "@ + why;
        let err = "smq: "@ + why + "\n\n"@ + USAGE@;
        assert(err.take(start.len() as int) =~= start);
    }
}

/// What the daemon answers reaches the user: success and the text if it is a
/// success, and otherwise failure, and why.
pub proof fn law_how_a_reply_ends(json: bool, command: CommandText, socket: Seq<char>, line: Seq<char>, trouble: SendTrouble)
    ensures
        json_parse(line) matches Ok(tree) ==> tree.at("ok"@) == Tree::Bool(true) ==> {
            let end = conclusion(json, command, socket, Ok(line));
            end.code == 0 && end.err.len() == 0 && end.out.len() > 0
        },
        json_parse(line) matches Ok(tree) ==> tree.at("ok"@) != Tree::Bool(true) ==> {
            let end = conclusion(json, command, socket, Ok(line));
            &&& end.code == 1
            &&& end.err.len() > 0
            &&& tree.at("error"@) matches Tree::Text(why) ==> end.err == "smq: "@ + why + "\n"@
            &&& !json ==> end.out.len() == 0
            &&& json ==> end.out == trim_end(line) + "\n"@
        },
        json_parse(line) is Err ==> conclusion(json, command, socket, Ok(line)).code == 1 && conclusion(
            json,
            command,
            socket,
            Ok(line),
        ).out.len() == 0,
        conclusion(json, command, socket, Err(trouble)).code == 1,
        conclusion(json, command, socket, Err(trouble)).out.len() == 0,
        conclusion(json, command, socket, Err(trouble)).err.len() > 0,
{
    reveal_strlit("\n");
    reveal_strlit("smq: ");
}

/// What failed is told with the socket it failed on, and the reason where there is
/// one.
pub proof fn law_failures_name_the_socket(socket: Seq<char>, why: Seq<char>)
    ensures
        mentions(failure_text(socket, SendTrouble::NotFound), socket),
        mentions(failure_text(socket, SendTrouble::PermissionDenied), socket),
        mentions(failure_text(socket, SendTrouble::ConnectionRefused), socket),
        mentions(failure_text(socket, SendTrouble::Other(why)), socket),
        mentions(failure_text(socket, SendTrouble::Other(why)), why),
        mentions(failure_text(socket, SendTrouble::NotFound), "--local"@),
{
    let none = Seq::<char>::empty();
    let end = ". Is simple-metrics running? (--local for one run by hand, or --socket <PATH>)"@;
    lemma_mentions("no socket at "@, socket, end);
    lemma_mentions("not allowed to use "@, socket, ". Only its owner and group may; is this account in the group?"@);
    lemma_mentions("nothing is listening on "@, socket, " (a stale socket?)"@);
    lemma_mentions(none, socket, ": "@ + why);
    assert(none + socket + (": "@ + why) =~= socket + ": "@ + why);
    lemma_mentions(socket + ": "@, why, none);
    assert(socket + ": "@ + why + none =~= socket + ": "@ + why);
    reveal_strlit(". Is simple-metrics running? (--local for one run by hand, or --socket <PATH>)");
    reveal_strlit("--local");
    let before = end.take(30);
    let after = end.skip(37);
    assert(before + "--local"@ + after =~= end);
    let start = "no socket at "@ + socket;
    lemma_mentions(start + before, "--local"@, after);
    assert(start + before + "--local"@ + after =~= failure_text(socket, SendTrouble::NotFound));
}

/// A request that is given as JSON is sent as that JSON, and if it is none nothing
/// is.
pub proof fn law_raw_requests_are_sent_as_they_are(text: Seq<char>, tree: Tree, now_ms: u64)
    ensures
        stands_for(text, tree) ==> request_text(CommandText::Raw(text), now_ms) == Ok::<Seq<char>, Seq<char>>(json_text(tree)),
        json_parse(text) is Err ==> request_text(CommandText::Raw(text), now_ms) is Err,
{
}

/// Every other command is sent as the JSON of its request.
pub proof fn law_requests_are_sent_as_json(command: CommandText, now_ms: u64)
    requires
        !(command is Raw),
    ensures
        request_text(command, now_ms) == Ok::<Seq<char>, Seq<char>>(json_text(request_tree(command, now_ms))),
{
}

/// Without options a request goes where it usually does and its answer is shown as
/// text.
pub proof fn law_what_is_usual(args: Seq<Seq<char>>)
    ensures
        parsed(args) == parsed_from(None, false, args),
{
}

/// Every success is shown in the way that fits the command: facts as lines, metrics,
/// the newest record and history as tables, and what is asked for in JSON in JSON.
pub proof fn law_each_command_has_its_answer(tree: Tree, read: ReadText, raw: Seq<char>, line: Seq<char>, socket: Seq<char>)
    requires
        stands_for(line, tree),
        tree.at("ok"@) == Tree::Bool(true),
    ensures
        conclusion(false, CommandText::Info, socket, Ok(line)).out == trim_end(key_lines(tree, info_keys())) + "\n"@,
        conclusion(false, CommandText::Metrics, socket, Ok(line)).out == trim_end(metrics_text(tree)) + "\n"@,
        conclusion(false, CommandText::Latest, socket, Ok(line)).out == trim_end(latest_text(tree)) + "\n"@,
        conclusion(false, CommandText::Read(read), socket, Ok(line)).out == trim_end(history_text(tree)) + "\n"@,
        conclusion(false, CommandText::Raw(raw), socket, Ok(line)).out == trim_end(json_text(tree)) + "\n"@,
{
}

}
