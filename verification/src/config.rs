//! Command-line settings: what they are, their defaults, and parsing them.
use vstd::prelude::*;

use crate::metrics::{is_valid_interface, valid_interface, Schema, FIXED_COUNT};
use crate::store::Store;
use crate::text::{
    after_prefix, chars_of, decimal, decimal_of, first_of, is_digit, law_decimal_is_read, lemma_decimal,
    lemma_mentions, mentions, rest_of, run, run_of, same, split_at_first, split_once, text_of, texts, unsigned, unsigned_of, Class,
};

verus! {

/// Where the socket goes unless told otherwise.
pub const DEFAULT_SOCKET: &'static str = "/run/simple-metrics/simple-metrics.sock";

/// Who may connect unless told otherwise: the owner and group, not everyone.
pub const DEFAULT_SOCKET_MODE: u32 = 0o660;

/// How often to sample unless told otherwise, in milliseconds.
pub const DEFAULT_INTERVAL_MS: u64 = 5_000;

/// How much history to keep unless told otherwise (7 days), in milliseconds.
pub const DEFAULT_RETENTION_MS: u64 = 604_800_000;

/// The most memory the store may be sized to use. A guard against a typo such
/// as `--retention 7000d`, not a target.
pub const MAX_STORE_BYTES: usize = 1_073_741_824;

/// How many bytes a MiB is.
pub const MIB: usize = 1_048_576;

/// The help text.
pub const USAGE: &'static str = "\
Usage: simple-metrics [OPTIONS]

Samples this machine's CPU, memory, temperature and network use at a regular
interval, keeps the most recent records in memory, and serves them over a
Unix socket. Nothing is written to disk.

Options:
      --socket <PATH>       Unix socket to listen on
                            [default: /run/simple-metrics/simple-metrics.sock]
      --socket-mode <MODE>  Permissions for the socket, in octal [default: 660]
      --interval <TIME>     How often to sample [default: 5s]
      --retention <TIME>    How much history to keep [default: 7d]
      --interface <NAME>    A network interface to report on. Repeat for
                            several; giving any replaces the defaults
                            [default: eth0 wlan0 wlan1 br-ap wg0]
      --root <DIR>          Read /proc and /sys under DIR (for testing)
                            [default: /]
  -h, --help                Print this help and exit
  -V, --version             Print the version and exit

A TIME is a whole number with an optional unit: ms, s, m, h or d
(seconds if there is none), for example 500ms, 5s, 90m or 7d.
";

/// The network interfaces to report on unless told otherwise.
pub open spec fn default_names() -> Seq<Seq<char>> {
    seq!["eth0"@, "wlan0"@, "wlan1"@, "br-ap"@, "wg0"@]
}

/// The network interfaces to report on unless told otherwise.
pub fn default_interfaces() -> (r: Vec<String>)
    ensures
        texts(r@) == default_names(),
{
    let r = vec![
        "eth0".to_owned(),
        "wlan0".to_owned(),
        "wlan1".to_owned(),
        "br-ap".to_owned(),
        "wg0".to_owned(),
    ];
    assert(texts(r@) =~= default_names());
    r
}

/// The settings the daemon runs with. Every value has been checked, so
/// building one through [`parse`] guarantees they are usable.
#[derive(Debug, Clone, PartialEq, Eq)]
pub struct Config {
    /// Where to create the Unix socket.
    pub socket: String,
    /// The socket's permission bits.
    pub socket_mode: u32,
    /// The time between samples, in milliseconds.
    pub interval_ms: u64,
    /// How many records the store holds: the retention divided by the interval.
    pub capacity: usize,
    /// The network interfaces to report on, in order.
    pub interfaces: Vec<String>,
    /// The directory `proc/` and `sys/` are read from.
    pub root: String,
}

/// What a [`Config`] says.
#[verifier::ext_equal]
pub ghost struct ConfigText {
    /// Where to create the Unix socket.
    pub socket: Seq<char>,
    /// The socket's permission bits.
    pub socket_mode: u32,
    /// The time between samples, in milliseconds.
    pub interval_ms: u64,
    /// How many records the store holds.
    pub capacity: usize,
    /// The network interfaces to report on, in order.
    pub interfaces: Seq<Seq<char>>,
    /// The directory `proc/` and `sys/` are read from.
    pub root: Seq<char>,
}

impl View for Config {
    type V = ConfigText;

    open spec fn view(&self) -> ConfigText {
        ConfigText {
            socket: self.socket@,
            socket_mode: self.socket_mode,
            interval_ms: self.interval_ms,
            capacity: self.capacity,
            interfaces: texts(self.interfaces@),
            root: self.root@,
        }
    }
}

/// What the command line asks for.
#[derive(Debug, Clone, PartialEq, Eq)]
pub enum Parsed {
    /// Print the help and exit.
    Help,
    /// Print the version and exit.
    Version,
    /// Run the daemon with these settings.
    Run(Config),
}

/// What a [`Parsed`] says.
pub ghost enum ParsedText {
    /// Print the help and exit.
    Help,
    /// Print the version and exit.
    Version,
    /// Run the daemon with these settings.
    Run(ConfigText),
}

impl View for Parsed {
    type V = ParsedText;

    open spec fn view(&self) -> ParsedText {
        match self {
            Parsed::Help => ParsedText::Help,
            Parsed::Version => ParsedText::Version,
            Parsed::Run(config) => ParsedText::Run(config@),
        }
    }
}

/// Why the command line couldn't be used.
#[derive(Debug, Clone, PartialEq, Eq)]
pub enum ConfigError {
    /// An option this program doesn't have.
    UnknownArgument(String),
    /// An option that needs a value was the last argument.
    MissingValue(String),
    /// An option's value wasn't acceptable.
    InvalidValue {
        /// The option.
        flag: String,
        /// What was given.
        value: String,
        /// What was wrong with it.
        reason: &'static str,
    },
    /// The retention and interval together need more memory than allowed.
    TooLarge {
        /// The memory the store would need, in bytes, if known.
        bytes: Option<usize>,
    },
}

/// What a [`ConfigError`] says.
pub ghost enum Problem {
    /// An option this program doesn't have.
    UnknownArgument(Seq<char>),
    /// An option that needs a value was the last argument.
    MissingValue(Seq<char>),
    /// An option's value wasn't acceptable.
    InvalidValue {
        /// The option.
        flag: Seq<char>,
        /// What was given.
        value: Seq<char>,
        /// What was wrong with it.
        reason: Seq<char>,
    },
    /// The retention and interval together need more memory than allowed.
    TooLarge {
        /// The memory the store would need, in bytes, if known.
        bytes: Option<usize>,
    },
}

impl View for ConfigError {
    type V = Problem;

    open spec fn view(&self) -> Problem {
        match self {
            ConfigError::UnknownArgument(arg) => Problem::UnknownArgument(arg@),
            ConfigError::MissingValue(flag) => Problem::MissingValue(flag@),
            ConfigError::InvalidValue { flag, value, reason } => Problem::InvalidValue {
                flag: flag@,
                value: value@,
                reason: reason@,
            },
            ConfigError::TooLarge { bytes } => Problem::TooLarge { bytes: *bytes },
        }
    }
}

impl Problem {
    /// The problem in words.
    pub open spec fn words(self) -> Seq<char> {
        match self {
            Problem::UnknownArgument(arg) => "unknown argument '"@ + arg + "'"@,
            Problem::MissingValue(flag) => flag + " needs a value"@,
            Problem::InvalidValue { flag, value, reason } => "invalid value '"@ + value + "' for "@ + flag + ": "@
                + reason,
            Problem::TooLarge { bytes: Some(bytes) } => "that retention and interval would need "@ + decimal(
                (bytes / MIB) as nat,
            ) + " MiB for the store (at most "@ + decimal((MAX_STORE_BYTES / MIB) as nat) + " MiB is allowed)"@,
            Problem::TooLarge { bytes: None } => "that retention and interval are too large"@,
        }
    }
}

impl ConfigError {
    /// The error in words.
    pub fn message(&self) -> (r: String)
        ensures
            r@ == self@.words(),
    {
        match self {
            ConfigError::UnknownArgument(arg) => "unknown argument '".to_owned().concat(arg).concat("'"),
            ConfigError::MissingValue(flag) => flag.clone().concat(" needs a value"),
            ConfigError::InvalidValue { flag, value, reason } => "invalid value '".to_owned().concat(value).concat(
                "' for ",
            ).concat(flag).concat(": ").concat(reason),
            ConfigError::TooLarge { bytes: Some(bytes) } => "that retention and interval would need ".to_owned().concat(
                &decimal_of((*bytes / MIB) as u64),
            ).concat(" MiB for the store (at most ").concat(&decimal_of((MAX_STORE_BYTES / MIB) as u64)).concat(
                " MiB is allowed)",
            ),
            ConfigError::TooLarge { bytes: None } => "that retention and interval are too large".to_owned(),
        }
    }
}

/// How many milliseconds a unit of time is.
pub open spec fn unit_millis(unit: Seq<char>) -> Option<nat> {
    if unit == "ms"@ {
        Some(1)
    } else if unit == ""@ || unit == "s"@ {
        Some(1_000)
    } else if unit == "m"@ {
        Some(60_000)
    } else if unit == "h"@ {
        Some(3_600_000)
    } else if unit == "d"@ {
        Some(86_400_000)
    } else {
        None
    }
}

/// The milliseconds that a text such as `500ms` or `7d` stands for, or what is
/// wrong with it.
pub open spec fn duration(text: Seq<char>) -> Result<u64, Seq<char>> {
    let n = run(text, Class::Digit) as int;
    match unsigned(text.take(n), 10, u64::MAX as nat) {
        None => Err("expected a whole number, e.g. 5s"@),
        Some(number) => match unit_millis(text.skip(n)) {
            None => Err("the unit must be ms, s, m, h or d"@),
            Some(unit) => if number * unit > u64::MAX {
                Err("that is too long"@)
            } else if number * unit == 0 {
                Err("must be more than zero"@)
            } else {
                Ok((number * unit) as u64)
            },
        },
    }
}

/// How many milliseconds a unit of time is.
fn unit_millis_of(unit: &[char]) -> (r: Option<u64>)
    ensures
        match r {
            Some(n) => unit_millis(unit@) == Some(n as nat),
            None => unit_millis(unit@) is None,
        },
{
    let unit = text_of(unit);
    if same(&unit, "ms") {
        Some(1)
    } else if same(&unit, "") || same(&unit, "s") {
        Some(1_000)
    } else if same(&unit, "m") {
        Some(60_000)
    } else if same(&unit, "h") {
        Some(3_600_000)
    } else if same(&unit, "d") {
        Some(86_400_000)
    } else {
        None
    }
}

/// Parses a duration such as `500ms`, `5s`, `90m`, `12h` or `7d`. A bare
/// number is seconds. Whole numbers only, and never zero. The answer is in
/// milliseconds.
///
/// # Errors
/// If the text is not such a duration; the error says why.
pub fn parse_duration(text: &str) -> (r: Result<u64, &'static str>)
    ensures
        match r {
            Ok(millis) => duration(text@) == Ok::<u64, Seq<char>>(millis),
            Err(reason) => duration(text@) == Err::<u64, Seq<char>>(reason@),
        },
{
    let chars = chars_of(text);
    let n = run_of(&chars, Class::Digit);
    let number: u64 = match unsigned_of(first_of(&chars, n), 10, u64::MAX) {
        Some(number) => number,
        None => {
            return Err("expected a whole number, e.g. 5s");
        },
    };
    let unit: u64 = match unit_millis_of(rest_of(&chars, n)) {
        Some(unit) => unit,
        None => {
            return Err("the unit must be ms, s, m, h or d");
        },
    };
    match number.checked_mul(unit) {
        None => Err("that is too long"),
        Some(millis) => if millis == 0 {
            Err("must be more than zero")
        } else {
            Ok(millis)
        },
    }
}

/// How many records cover `retention` at one per `interval`: rounded up, and
/// at least one, so a retention shorter than the interval still keeps the
/// latest record.
pub open spec fn records_for(retention: nat, interval: nat) -> nat {
    let whole = retention / interval;
    let rounded = if retention % interval == 0 {
        whole
    } else {
        whole + 1
    };
    if rounded == 0 {
        1
    } else {
        rounded
    }
}

/// The records kept span the retention, and one fewer would not (unless there
/// is only one).
pub proof fn law_records_cover_the_retention(retention: nat, interval: nat)
    requires
        interval > 0,
    ensures
        records_for(retention, interval) >= 1,
        records_for(retention, interval) * interval >= retention,
        records_for(retention, interval) == 1 || (records_for(retention, interval) - 1) * interval < retention,
{
    let whole = retention / interval;
    assert(retention == whole * interval + retention % interval && retention % interval < interval)
        by (nonlinear_arith)
        requires
            interval > 0,
            whole == retention / interval,
    ;
    assert((whole + 1) * interval == whole * interval + interval) by (nonlinear_arith);
    assert(whole > 0 ==> (whole - 1) * interval == whole * interval - interval) by (nonlinear_arith);
    if whole == 0 {
        assert(whole * interval == 0) by (nonlinear_arith)
            requires
                whole == 0,
        ;
    }
}

/// How many records the store is to hold, or that the store would be too big.
pub open spec fn capacity(retention: u64, interval: u64, interface_count: nat) -> Result<usize, Problem> {
    let records = records_for(retention as nat, interval as nat);
    let width = FIXED_COUNT as nat + 2 * interface_count;
    let bytes = Store::size(records, width);
    if records > usize::MAX || 8 + 8 * width > usize::MAX || bytes > usize::MAX {
        Err(Problem::TooLarge { bytes: None })
    } else if bytes > MAX_STORE_BYTES {
        Err(Problem::TooLarge { bytes: Some(bytes as usize) })
    } else {
        Ok(records as usize)
    }
}

/// How many records cover `retention_ms` at one per `interval_ms`, provided
/// the store for them isn't too big.
///
/// # Errors
/// If the store would take more than [`MAX_STORE_BYTES`].
pub fn capacity_for(retention_ms: u64, interval_ms: u64, interface_count: usize) -> (r: Result<usize, ConfigError>)
    requires
        interval_ms > 0,
    ensures
        match r {
            Ok(n) => capacity(retention_ms, interval_ms, interface_count as nat) == Ok::<usize, Problem>(n) && n > 0,
            Err(e) => capacity(retention_ms, interval_ms, interface_count as nat) == Err::<usize, Problem>(e@),
        },
{
    let whole: u64 = retention_ms / interval_ms;
    let mut records: u64 = whole;
    proof {
        assert(interval_ms == 1 ==> retention_ms % interval_ms == 0);
        assert(interval_ms >= 2 ==> retention_ms / interval_ms <= retention_ms / 2) by (nonlinear_arith);
    }
    if retention_ms % interval_ms != 0 {
        records = whole + 1;
    }
    if records == 0 {
        records = 1;
    }
    if records > usize::MAX as u64 || interface_count > (usize::MAX - FIXED_COUNT) / 2 {
        return Err(ConfigError::TooLarge { bytes: None });
    }
    let n: usize = records as usize;
    proof {
        let width = FIXED_COUNT as int + 2 * interface_count;
        assert(n * (8 + 8 * width) >= 8 + 8 * width) by (nonlinear_arith)
            requires
                n >= 1,
                width >= 0,
        ;
    }
    match Store::bytes_for(n, Schema::width_for(interface_count)) {
        None => Err(ConfigError::TooLarge { bytes: None }),
        Some(bytes) => if bytes <= MAX_STORE_BYTES {
            Ok(n)
        } else {
            Err(ConfigError::TooLarge { bytes: Some(bytes) })
        },
    }
}

/// The settings so far, while the command line is read.
#[verifier::ext_equal]
pub ghost struct SettingsText {
    /// Where to create the Unix socket.
    pub socket: Seq<char>,
    /// The socket's permission bits.
    pub socket_mode: u32,
    /// The time between samples, in milliseconds.
    pub interval_ms: u64,
    /// How much history to keep, in milliseconds.
    pub retention_ms: u64,
    /// The interfaces named so far.
    pub interfaces: Seq<Seq<char>>,
    /// The directory `proc/` and `sys/` are read from.
    pub root: Seq<char>,
}

/// The settings before any argument.
pub open spec fn initial() -> SettingsText {
    SettingsText {
        socket: DEFAULT_SOCKET@,
        socket_mode: DEFAULT_SOCKET_MODE,
        interval_ms: DEFAULT_INTERVAL_MS,
        retention_ms: DEFAULT_RETENTION_MS,
        interfaces: seq![],
        root: "/"@,
    }
}

/// An argument as an option and the value it carries: `--flag=value` carries
/// one.
pub open spec fn split_flag(arg: Seq<char>) -> (Seq<char>, Option<Seq<char>>) {
    match split_once(arg, '=') {
        Some((flag, value)) => if "--"@.is_prefix_of(flag) {
            (flag, Some(value))
        } else {
            (arg, None)
        },
        None => (arg, None),
    }
}

/// Whether an option needs a value.
pub open spec fn takes_value(flag: Seq<char>) -> bool {
    flag == "--socket"@ || flag == "--socket-mode"@ || flag == "--interval"@ || flag == "--retention"@ || flag
        == "--interface"@ || flag == "--root"@
}

/// That an option's value wasn't acceptable.
pub open spec fn invalid(flag: Seq<char>, value: Seq<char>, reason: Seq<char>) -> Problem {
    Problem::InvalidValue { flag, value, reason }
}

/// The settings once an option that needs a value is given `value`.
pub open spec fn with_option(s: SettingsText, flag: Seq<char>, value: Seq<char>) -> Result<SettingsText, Problem> {
    if flag == "--socket"@ {
        Ok(SettingsText { socket: value, ..s })
    } else if flag == "--socket-mode"@ {
        match unsigned(value, 8, 0o777) {
            Some(mode) => Ok(SettingsText { socket_mode: mode as u32, ..s }),
            None => Err(invalid(flag, value, "expected octal permission bits, e.g. 660"@)),
        }
    } else if flag == "--interval"@ {
        match duration(value) {
            Ok(millis) => Ok(SettingsText { interval_ms: millis, ..s }),
            Err(reason) => Err(invalid(flag, value, reason)),
        }
    } else if flag == "--retention"@ {
        match duration(value) {
            Ok(millis) => Ok(SettingsText { retention_ms: millis, ..s }),
            Err(reason) => Err(invalid(flag, value, reason)),
        }
    } else if flag == "--interface"@ {
        if !valid_interface(value) {
            Err(invalid(flag, value, "not a usable interface name"@))
        } else if s.interfaces.contains(value) {
            Err(invalid(flag, value, "given more than once"@))
        } else {
            Ok(SettingsText { interfaces: s.interfaces.push(value), ..s })
        }
    } else {
        Ok(SettingsText { root: value, ..s })
    }
}

/// What the settings come to when there are no more arguments.
pub open spec fn completed(s: SettingsText) -> Result<ParsedText, Problem> {
    let interfaces = if s.interfaces.len() == 0 {
        default_names()
    } else {
        s.interfaces
    };
    match capacity(s.retention_ms, s.interval_ms, interfaces.len()) {
        Ok(capacity) => Ok(
            ParsedText::Run(
                ConfigText {
                    socket: s.socket,
                    socket_mode: s.socket_mode,
                    interval_ms: s.interval_ms,
                    capacity,
                    interfaces,
                    root: s.root,
                },
            ),
        ),
        Err(problem) => Err(problem),
    }
}

/// What the arguments `args`, after those that led to the settings `s`, ask
/// for. The first that asks for help or the version, or is a problem, decides.
pub open spec fn parsed_from(s: SettingsText, args: Seq<Seq<char>>) -> Result<ParsedText, Problem>
    decreases args.len(),
{
    if args.len() == 0 {
        completed(s)
    } else {
        let (flag, inline) = split_flag(args[0]);
        if flag == "-h"@ || flag == "--help"@ {
            Ok(ParsedText::Help)
        } else if flag == "-V"@ || flag == "--version"@ {
            Ok(ParsedText::Version)
        } else if !takes_value(flag) {
            Err(Problem::UnknownArgument(args[0]))
        } else if inline is None && args.len() < 2 {
            Err(Problem::MissingValue(flag))
        } else {
            let value = match inline {
                Some(value) => value,
                None => args[1],
            };
            let rest = if inline is Some {
                args.skip(1)
            } else {
                args.skip(2)
            };
            match with_option(s, flag, value) {
                Ok(next) => parsed_from(next, rest),
                Err(problem) => Err(problem),
            }
        }
    }
}

/// What the command-line arguments ask for.
pub open spec fn parsed(args: Seq<Seq<char>>) -> Result<ParsedText, Problem> {
    parsed_from(initial(), args)
}

struct Settings {
    socket: String,
    socket_mode: u32,
    interval_ms: u64,
    retention_ms: u64,
    interfaces: Vec<String>,
    root: String,
}

impl Settings {
    spec fn text(self) -> SettingsText {
        SettingsText {
            socket: self.socket@,
            socket_mode: self.socket_mode,
            interval_ms: self.interval_ms,
            retention_ms: self.retention_ms,
            interfaces: texts(self.interfaces@),
            root: self.root@,
        }
    }

    /// Sets the option `flag` to `value`.
    fn set(&mut self, flag: &str, value: &str) -> (r: Result<(), ConfigError>)
        requires
            takes_value(flag@),
            old(self).interval_ms > 0,
        ensures
            final(self).interval_ms > 0,
            match r {
                Ok(()) => with_option(old(self).text(), flag@, value@) == Ok::<SettingsText, Problem>(
                    final(self).text(),
                ),
                Err(e) => with_option(old(self).text(), flag@, value@) == Err::<SettingsText, Problem>(e@),
            },
    {
        if same(flag, "--socket") {
            self.socket = value.to_owned();
        } else if same(flag, "--socket-mode") {
            let chars = chars_of(value);
            match unsigned_of(&chars, 8, 0o777) {
                Some(mode) => {
                    self.socket_mode = mode as u32;
                },
                None => {
                    return Err(unacceptable(flag, value, "expected octal permission bits, e.g. 660"));
                },
            }
        } else if same(flag, "--interval") {
            match parse_duration(value) {
                Ok(millis) => {
                    self.interval_ms = millis;
                },
                Err(reason) => {
                    return Err(unacceptable(flag, value, reason));
                },
            }
        } else if same(flag, "--retention") {
            match parse_duration(value) {
                Ok(millis) => {
                    self.retention_ms = millis;
                },
                Err(reason) => {
                    return Err(unacceptable(flag, value, reason));
                },
            }
        } else if same(flag, "--interface") {
            if !is_valid_interface(value) {
                return Err(unacceptable(flag, value, "not a usable interface name"));
            }
            if is_among(&self.interfaces, value) {
                return Err(unacceptable(flag, value, "given more than once"));
            }
            let ghost before = self.interfaces@;
            self.interfaces.push(value.to_owned());
            assert(texts(self.interfaces@) =~= texts(before).push(value@));
        } else {
            self.root = value.to_owned();
        }
        Ok(())
    }
}

/// That an option's value wasn't acceptable.
fn unacceptable(flag: &str, value: &str, reason: &'static str) -> (r: ConfigError)
    ensures
        r@ == invalid(flag@, value@, reason@),
{
    ConfigError::InvalidValue { flag: flag.to_owned(), value: value.to_owned(), reason }
}

/// Whether `names` holds `name`.
pub(crate) fn is_among(names: &[String], name: &str) -> (r: bool)
    ensures
        r == texts(names@).contains(name@),
{
    for i in 0..names.len()
        invariant
            forall|j: int| 0 <= j < i ==> (#[trigger] names@[j])@ != name@,
    {
        if same(names[i].as_str(), name) {
            assert(texts(names@)[i as int] == name@);
            return true;
        }
    }
    assert forall|j: int| 0 <= j < names@.len() implies #[trigger] texts(names@)[j] != name@ by {
        assert(names@[j]@ != name@);
    }
    false
}

/// An argument as an option and the value it carries.
fn split_flag_of(arg: &str) -> (r: (String, Option<String>))
    ensures
        split_flag(arg@).0 == r.0@,
        match r.1 {
            Some(value) => split_flag(arg@).1 == Some(value@),
            None => split_flag(arg@).1 is None,
        },
{
    let chars = chars_of(arg);
    if let Some((flag, value)) = split_at_first(&chars, '=') {
        if let Some(_name) = after_prefix(flag, "--") {
            return (text_of(flag), Some(text_of(value)));
        }
    }
    (arg.to_owned(), None)
}

/// Parses the command-line arguments (not including the program name).
///
/// # Errors
/// If an argument is unknown, lacks its value, or has an unusable value.
pub fn parse(args: &[String]) -> (r: Result<Parsed, ConfigError>)
    ensures
        match r {
            Ok(asked) => parsed(texts(args@)) == Ok::<ParsedText, Problem>(asked@),
            Err(e) => parsed(texts(args@)) == Err::<ParsedText, Problem>(e@),
        },
{
    let ghost all = texts(args@);
    let mut settings = Settings {
        socket: DEFAULT_SOCKET.to_owned(),
        socket_mode: DEFAULT_SOCKET_MODE,
        interval_ms: DEFAULT_INTERVAL_MS,
        retention_ms: DEFAULT_RETENTION_MS,
        interfaces: Vec::new(),
        root: "/".to_owned(),
    };
    assert(settings.text() =~= initial());
    assert(all.skip(0) =~= all);
    let mut i: usize = 0;
    while i < args.len()
        invariant
            all == texts(args@),
            i <= args@.len(),
            settings.interval_ms > 0,
            parsed(all) == parsed_from(settings.text(), all.skip(i as int)),
        decreases args.len() - i,
    {
        let ghost left = all.skip(i as int);
        assert(left[0] == args@[i as int]@);
        // Both `--flag value` and `--flag=value` are accepted.
        let (flag, inline) = split_flag_of(&args[i]);
        if same(&flag, "-h") || same(&flag, "--help") {
            return Ok(Parsed::Help);
        }
        if same(&flag, "-V") || same(&flag, "--version") {
            return Ok(Parsed::Version);
        }
        if !(same(&flag, "--socket") || same(&flag, "--socket-mode") || same(&flag, "--interval") || same(
            &flag,
            "--retention",
        ) || same(&flag, "--interface") || same(&flag, "--root")) {
            return Err(ConfigError::UnknownArgument(args[i].clone()));
        }
        match inline {
            Some(value) => {
                if let Err(e) = settings.set(&flag, &value) {
                    return Err(e);
                }
                assert(left.skip(1) =~= all.skip(i + 1));
                i = i + 1;
            },
            None => {
                if args.len() - i < 2 {
                    return Err(ConfigError::MissingValue(flag));
                }
                assert(left[1] == args@[i + 1]@);
                if let Err(e) = settings.set(&flag, &args[i + 1]) {
                    return Err(e);
                }
                assert(left.skip(2) =~= all.skip(i + 2));
                i = i + 2;
            },
        }
    }
    let interfaces = if settings.interfaces.len() == 0 {
        default_interfaces()
    } else {
        settings.interfaces
    };
    match capacity_for(settings.retention_ms, settings.interval_ms, interfaces.len()) {
        Ok(capacity) => Ok(
            Parsed::Run(
                Config {
                    socket: settings.socket,
                    socket_mode: settings.socket_mode,
                    interval_ms: settings.interval_ms,
                    capacity,
                    interfaces,
                    root: settings.root,
                },
            ),
        ),
        Err(e) => Err(e),
    }
}

/// Whether settings can be run with: permission bits, a time between samples,
/// room for a record within the memory allowed, and at least one interface,
/// each usable and named once.
pub open spec fn usable(c: ConfigText) -> bool {
    &&& c.socket_mode <= 0o777
    &&& c.interval_ms > 0
    &&& c.capacity > 0
    &&& c.interfaces.len() > 0
    &&& c.interfaces.no_duplicates()
    &&& forall|i: int| 0 <= i < c.interfaces.len() ==> valid_interface(#[trigger] c.interfaces[i])
    &&& Store::size(c.capacity as nat, FIXED_COUNT as nat + 2 * c.interfaces.len()) <= MAX_STORE_BYTES
}

spec fn sound(s: SettingsText) -> bool {
    &&& s.socket_mode <= 0o777
    &&& s.interval_ms > 0
    &&& s.interfaces.no_duplicates()
    &&& forall|i: int| 0 <= i < s.interfaces.len() ==> valid_interface(#[trigger] s.interfaces[i])
}

proof fn lemma_default_names()
    ensures
        default_names().no_duplicates(),
        forall|i: int| 0 <= i < default_names().len() ==> valid_interface(#[trigger] default_names()[i]),
{
    reveal_strlit("eth0");
    reveal_strlit("wlan0");
    reveal_strlit("wlan1");
    reveal_strlit("br-ap");
    reveal_strlit("wg0");
    let names = default_names();
    assert(names[0][0] == 'e' && names[1][0] == 'w' && names[2][0] == 'w' && names[3][0] == 'b' && names[4][0] == 'w');
    assert(names[1][4] == '0' && names[2][4] == '1' && names[4].len() == 3);
    assert(names.no_duplicates());
}

proof fn lemma_parsed_is_usable(s: SettingsText, args: Seq<Seq<char>>)
    requires
        sound(s),
    ensures
        parsed_from(s, args) matches Ok(ParsedText::Run(config)) ==> usable(config),
    decreases args.len(),
{
    if args.len() == 0 {
        lemma_default_names();
    } else {
        let (flag, inline) = split_flag(args[0]);
        if takes_value(flag) && !(inline is None && args.len() < 2) {
            let value = match inline {
                Some(value) => value,
                None => args[1],
            };
            let rest = if inline is Some {
                args.skip(1)
            } else {
                args.skip(2)
            };
            if let Ok(next) = with_option(s, flag, value) {
                assert(sound(next)) by {
                    if next.interfaces != s.interfaces {
                        assert(!s.interfaces.contains(value));
                        assert(next.interfaces == s.interfaces.push(value));
                    }
                }
                lemma_parsed_is_usable(next, rest);
            }
        }
    }
}

/// Settings that come from the command line are usable.
pub proof fn law_parsed_settings_are_usable(args: Seq<Seq<char>>)
    ensures
        parsed(args) matches Ok(ParsedText::Run(config)) ==> usable(config),
{
    lemma_parsed_is_usable(initial(), args);
}

proof fn lemma_flag_shape(flag: Seq<char>)
    requires
        takes_value(flag),
    ensures
        "--"@.is_prefix_of(flag),
        forall|i: int| 0 <= i < flag.len() ==> #[trigger] flag[i] != '=',
        flag != "-h"@ && flag != "--help"@ && flag != "-V"@ && flag != "--version"@,
{
    reveal_strlit("--");
    reveal_strlit("--socket");
    reveal_strlit("--socket-mode");
    reveal_strlit("--interval");
    reveal_strlit("--retention");
    reveal_strlit("--interface");
    reveal_strlit("--root");
    reveal_strlit("-h");
    reveal_strlit("--help");
    reveal_strlit("-V");
    reveal_strlit("--version");
    assert("--help"@.len() == 6 && "--help"@[2] == 'h');
    assert("--version"@[2] == 'v');
    if flag == "--socket"@ {
        assert(flag[2] == 's');
    } else if flag == "--socket-mode"@ {
        assert(flag[2] == 's');
    } else if flag == "--interval"@ {
        assert(flag[2] == 'i');
    } else if flag == "--retention"@ {
        assert(flag[2] == 'r');
    } else if flag == "--interface"@ {
        assert(flag[2] == 'i');
    } else {
        assert(flag == "--root"@);
        assert(flag[2] == 'r');
    }
    assert("--"@.is_prefix_of(flag));
}

/// A value can follow its option as the next argument or after an equals sign,
/// to the same effect. (The value may itself contain an equals sign.)
pub proof fn law_a_value_can_follow_a_space_or_an_equals_sign(
    s: SettingsText,
    flag: Seq<char>,
    value: Seq<char>,
    rest: Seq<Seq<char>>,
)
    requires
        takes_value(flag),
    ensures
        parsed_from(s, seq![flag, value] + rest) == parsed_from(s, seq![flag + "="@ + value] + rest),
{
    reveal_strlit("=");
    lemma_flag_shape(flag);
    let spaced = seq![flag, value] + rest;
    let joined = seq![flag + "="@ + value] + rest;
    crate::text::lemma_run_is(flag, Class::Not('='), flag.len() as int);
    assert(split_flag(flag) == (flag, None::<Seq<char>>));
    let arg = flag + "="@ + value;
    crate::text::lemma_run_is(arg, Class::Not('='), flag.len() as int);
    assert(arg.take(flag.len() as int) =~= flag);
    assert(arg.skip(flag.len() as int + 1) =~= value);
    assert(split_flag(arg) == (flag, Some(value)));
    assert(spaced.skip(2) =~= rest);
    assert(joined.skip(1) =~= rest);
    assert(spaced[0] == flag && spaced[1] == value && joined[0] == arg);
}

/// A whole number and its unit are that many milliseconds: a thousand for each
/// second (which a number alone is in too), sixty thousand for each minute, and so
/// on. Only none, and more than can be counted, is refused.
pub proof fn law_durations_are_read(n: nat, unit: Seq<char>, ms: nat)
    requires
        (unit == "ms"@ && ms == 1) || (unit == "s"@ && ms == 1_000) || (unit == ""@ && ms == 1_000) || (unit == "m"@ && ms
            == 60_000) || (unit == "h"@ && ms == 3_600_000) || (unit == "d"@ && ms == 86_400_000),
    ensures
        0 < n * ms <= u64::MAX ==> duration(decimal(n) + unit) == Ok::<u64, Seq<char>>((n * ms) as u64),
        n == 0 || n * ms > u64::MAX ==> duration(decimal(n) + unit) is Err,
{
    reveal_strlit("ms");
    reveal_strlit("s");
    reveal_strlit("");
    reveal_strlit("m");
    reveal_strlit("h");
    reveal_strlit("d");
    assert("ms"@.len() == 2 && "s"@.len() == 1 && "m"@.len() == 1 && "h"@.len() == 1 && "d"@.len() == 1 && ""@.len() == 0);
    assert("s"@[0] == 's' && "m"@[0] == 'm' && "h"@[0] == 'h' && "d"@[0] == 'd');
    assert(unit.len() > 0 ==> unit[0] == 'm' || unit[0] == 's' || unit[0] == 'h' || unit[0] == 'd');
    lemma_number_and_unit(n, unit);
    assert(unit_millis(unit) == Some(ms));
    assert(n > u64::MAX ==> n * ms > u64::MAX) by (nonlinear_arith)
        requires
            ms >= 1,
    ;
    assert(n == 0 ==> n * ms == 0) by (nonlinear_arith);
}

/// A number parts from what follows it, if that doesn't start with a digit.
proof fn lemma_number_and_unit(n: nat, unit: Seq<char>)
    requires
        unit.len() > 0 ==> !is_digit(unit[0]),
    ensures
        ({
            let text = decimal(n) + unit;
            let k = run(text, Class::Digit) as int;
            &&& text.take(k) == decimal(n)
            &&& text.skip(k) == unit
            &&& unsigned(text.take(k), 10, u64::MAX as nat) == (if n <= u64::MAX {
                Some(n)
            } else {
                None
            })
        }),
{
    let number = decimal(n);
    let text = number + unit;
    lemma_decimal(n);
    assert forall|i: int| 0 <= i < number.len() implies Class::Digit.has(#[trigger] text[i]) by {
        assert(text[i] == number[i]);
        assert(0 <= crate::text::digit_value(number[i]) < 10);
    }
    if unit.len() > 0 {
        assert(text[number.len() as int] == unit[0]);
    }
    crate::text::lemma_run_is(text, Class::Digit, number.len() as int);
    assert(text.take(number.len() as int) =~= number);
    assert(text.skip(number.len() as int) =~= unit);
    law_decimal_is_read(n, u64::MAX as nat);
}

/// What doesn't start with a digit is no duration, and neither is a number with
/// another unit.
pub proof fn law_other_texts_are_no_durations(text: Seq<char>, n: nat, unit: Seq<char>)
    requires
        unit != "ms"@ && unit != "s"@ && unit != ""@ && unit != "m"@ && unit != "h"@ && unit != "d"@,
        !is_digit(unit[0]),
    ensures
        text.len() == 0 || !is_digit(text[0]) ==> duration(text) is Err,
        duration(decimal(n) + unit) is Err,
{
    reveal_strlit("");
    assert(unit.len() == 0 ==> unit =~= ""@);
    lemma_number_and_unit(n, unit);
    if text.len() == 0 || !is_digit(text[0]) {
        crate::text::lemma_run_is(text, Class::Digit, 0);
        assert(text.take(0).len() == 0);
    }
}

/// Each option sets one setting to the value that follows it, and leaves every
/// other as it is.
pub proof fn law_each_option_sets_one_setting(s: SettingsText, value: Seq<char>, rest: Seq<Seq<char>>)
    ensures
        parsed_from(s, seq!["--socket"@, value] + rest) == parsed_from(SettingsText { socket: value, ..s }, rest),
        parsed_from(s, seq!["--root"@, value] + rest) == parsed_from(SettingsText { root: value, ..s }, rest),
        unsigned(value, 8, 511) matches Some(mode) ==> parsed_from(s, seq!["--socket-mode"@, value] + rest)
            == parsed_from(SettingsText { socket_mode: mode as u32, ..s }, rest),
        unsigned(value, 8, 511) is None ==> parsed_from(s, seq!["--socket-mode"@, value] + rest) is Err,
        duration(value) matches Ok(ms) ==> parsed_from(s, seq!["--interval"@, value] + rest) == parsed_from(
            SettingsText { interval_ms: ms, ..s },
            rest,
        ),
        duration(value) matches Ok(ms) ==> parsed_from(s, seq!["--retention"@, value] + rest) == parsed_from(
            SettingsText { retention_ms: ms, ..s },
            rest,
        ),
        duration(value) is Err ==> parsed_from(s, seq!["--interval"@, value] + rest) is Err && parsed_from(
            s,
            seq!["--retention"@, value] + rest,
        ) is Err,
        valid_interface(value) && !s.interfaces.contains(value) ==> parsed_from(s, seq!["--interface"@, value] + rest)
            == parsed_from(SettingsText { interfaces: s.interfaces.push(value), ..s }, rest),
        !valid_interface(value) || s.interfaces.contains(value) ==> parsed_from(
            s,
            seq!["--interface"@, value] + rest,
        ) is Err,
{
    lemma_options_differ();
    lemma_option(s, "--socket"@, value, rest);
    lemma_option(s, "--root"@, value, rest);
    lemma_option(s, "--socket-mode"@, value, rest);
    lemma_option(s, "--interval"@, value, rest);
    lemma_option(s, "--retention"@, value, rest);
    lemma_option(s, "--interface"@, value, rest);
}

proof fn lemma_option(s: SettingsText, flag: Seq<char>, value: Seq<char>, rest: Seq<Seq<char>>)
    requires
        takes_value(flag),
    ensures
        parsed_from(s, seq![flag, value] + rest) == match with_option(s, flag, value) {
            Ok(next) => parsed_from(next, rest),
            Err(problem) => Err(problem),
        },
{
    lemma_flag_shape(flag);
    let args = seq![flag, value] + rest;
    crate::text::lemma_run_is(flag, Class::Not('='), flag.len() as int);
    assert(args[0] == flag && args[1] == value);
    assert(args.skip(2) =~= rest);
}

proof fn lemma_options_differ()
    ensures
        seq![
            "--socket"@,
            "--socket-mode"@,
            "--interval"@,
            "--retention"@,
            "--interface"@,
            "--root"@,
        ].no_duplicates(),
        "--socket"@ != "--socket-mode"@ && "--socket"@ != "--interval"@ && "--socket"@ != "--retention"@ && "--socket"@
            != "--interface"@ && "--socket"@ != "--root"@,
        "--socket-mode"@ != "--interval"@ && "--socket-mode"@ != "--retention"@ && "--socket-mode"@ != "--interface"@
            && "--socket-mode"@ != "--root"@,
        "--interval"@ != "--retention"@ && "--interval"@ != "--interface"@ && "--interval"@ != "--root"@,
        "--retention"@ != "--interface"@ && "--retention"@ != "--root"@ && "--interface"@ != "--root"@,
{
    reveal_strlit("--socket");
    reveal_strlit("--socket-mode");
    reveal_strlit("--interval");
    reveal_strlit("--retention");
    reveal_strlit("--interface");
    reveal_strlit("--root");
    let all = seq!["--socket"@, "--socket-mode"@, "--interval"@, "--retention"@, "--interface"@, "--root"@];
    assert(all[0].len() == 8 && all[1].len() == 13 && all[2].len() == 10 && all[3].len() == 11 && all[4].len() == 11
        && all[5].len() == 6);
    assert(all[3][2] == 'r' && all[4][2] == 'i');
}

/// When there are no more arguments, the settings are those that were set: the
/// interfaces that were named or else the usual ones, and as many records as cover
/// the retention, where a store for them takes no more memory than is allowed.
pub proof fn law_settings_are_as_they_were_set(s: SettingsText)
    requires
        s.interval_ms > 0,
    ensures
        ({
            let none = Seq::<Seq<char>>::empty();
            let interfaces = if s.interfaces.len() == 0 {
                seq!["eth0"@, "wlan0"@, "wlan1"@, "br-ap"@, "wg0"@]
            } else {
                s.interfaces
            };
            let records = records_for(s.retention_ms as nat, s.interval_ms as nat);
            let bytes = records * (8 + 8 * (5 + 2 * interfaces.len()));
            &&& parsed_from(s, none) is Ok == (bytes <= 1_073_741_824)
            &&& parsed_from(s, none) matches Ok(asked) ==> {
                &&& asked is Run
                &&& asked->Run_0.socket == s.socket
                &&& asked->Run_0.socket_mode == s.socket_mode
                &&& asked->Run_0.interval_ms == s.interval_ms
                &&& asked->Run_0.capacity == records
                &&& asked->Run_0.interfaces == interfaces
                &&& asked->Run_0.root == s.root
            }
        }),
{
    let interfaces = if s.interfaces.len() == 0 {
        default_names()
    } else {
        s.interfaces
    };
    let records = records_for(s.retention_ms as nat, s.interval_ms as nat);
    let width = 5 + 2 * interfaces.len();
    law_records_cover_the_retention(s.retention_ms as nat, s.interval_ms as nat);
    assert(records * (8 + 8 * width) >= records && records * (8 + 8 * width) >= 8 + 8 * width) by (nonlinear_arith)
        requires
            records >= 1,
            width >= 0,
    ;
    assert(usize::MAX >= 0xffff_ffff);
}

/// Asking for help or the version is heeded wherever it comes, before anything that
/// follows it; anything but an option is refused, and so is an option without its
/// value.
pub proof fn law_help_and_mistakes(s: SettingsText, arg: Seq<char>, flag: Seq<char>, rest: Seq<Seq<char>>)
    requires
        takes_value(flag),
        !arg.contains('='),
        arg != "-h"@ && arg != "--help"@ && arg != "-V"@ && arg != "--version"@,
        !takes_value(arg),
    ensures
        parsed_from(s, seq!["-h"@] + rest) == Ok::<ParsedText, Problem>(ParsedText::Help),
        parsed_from(s, seq!["--help"@] + rest) == Ok::<ParsedText, Problem>(ParsedText::Help),
        parsed_from(s, seq!["-V"@] + rest) == Ok::<ParsedText, Problem>(ParsedText::Version),
        parsed_from(s, seq!["--version"@] + rest) == Ok::<ParsedText, Problem>(ParsedText::Version),
        parsed_from(s, seq![arg] + rest) == Err::<ParsedText, Problem>(Problem::UnknownArgument(arg)),
        parsed_from(s, seq![flag]) == Err::<ParsedText, Problem>(Problem::MissingValue(flag)),
{
    reveal_strlit("-h");
    reveal_strlit("--help");
    reveal_strlit("-V");
    reveal_strlit("--version");
    lemma_flag_shape(flag);
    assert("-h"@.len() == 2 && "-V"@.len() == 2 && "--help"@.len() == 6 && "--version"@.len() == 9);
    assert("-h"@[1] == 'h' && "-V"@[1] == 'V');
    crate::text::lemma_run_is("-h"@, Class::Not('='), 2);
    crate::text::lemma_run_is("--help"@, Class::Not('='), 6);
    crate::text::lemma_run_is("-V"@, Class::Not('='), 2);
    crate::text::lemma_run_is("--version"@, Class::Not('='), 9);
    crate::text::lemma_run_is(flag, Class::Not('='), flag.len() as int);
    assert forall|i: int| 0 <= i < arg.len() implies Class::Not('=').has(#[trigger] arg[i]) by {}
    crate::text::lemma_run_is(arg, Class::Not('='), arg.len() as int);
    assert((seq!["-h"@] + rest)[0] == "-h"@);
    assert((seq!["--help"@] + rest)[0] == "--help"@);
    assert((seq!["-V"@] + rest)[0] == "-V"@);
    assert((seq!["--version"@] + rest)[0] == "--version"@);
    assert((seq![arg] + rest)[0] == arg);
    assert(seq![flag][0] == flag);
}

/// A message names what it is about: the argument, or the option, its value and the
/// reason.
pub proof fn law_messages_name_what_is_wrong(flag: Seq<char>, value: Seq<char>, reason: Seq<char>, bytes: usize)
    ensures
        mentions(Problem::UnknownArgument(flag).words(), flag),
        mentions(Problem::MissingValue(flag).words(), flag),
        mentions((Problem::InvalidValue { flag, value, reason }).words(), flag),
        mentions((Problem::InvalidValue { flag, value, reason }).words(), value),
        mentions((Problem::InvalidValue { flag, value, reason }).words(), reason),
        mentions((Problem::TooLarge { bytes: Some(bytes) }).words(), decimal((bytes / 1_048_576) as nat)),
{
    lemma_mentions("unknown argument '"@, flag, "'"@);
    lemma_mentions(seq![], flag, " needs a value"@);
    assert(seq![] + flag + " needs a value"@ =~= flag + " needs a value"@);
    let words = (Problem::InvalidValue { flag, value, reason }).words();
    lemma_mentions("invalid value '"@, value, "' for "@ + flag + ": "@ + reason);
    assert("invalid value '"@ + value + ("' for "@ + flag + ": "@ + reason) =~= words);
    lemma_mentions("invalid value '"@ + value + "' for "@, flag, ": "@ + reason);
    assert("invalid value '"@ + value + "' for "@ + flag + (": "@ + reason) =~= words);
    lemma_mentions("invalid value '"@ + value + "' for "@ + flag + ": "@, reason, seq![]);
    assert("invalid value '"@ + value + "' for "@ + flag + ": "@ + reason + seq![] =~= words);
    let size = decimal((bytes / MIB) as nat);
    let end = " MiB for the store (at most "@ + decimal((MAX_STORE_BYTES / MIB) as nat) + " MiB is allowed)"@;
    lemma_mentions("that retention and interval would need "@, size, end);
    assert("that retention and interval would need "@ + size + end =~= (Problem::TooLarge { bytes: Some(bytes) }).words());
}

/// What the settings are before any argument: the usual socket, for its owner and
/// group, a sample every five seconds, a week of history, and the files of this
/// machine.
pub proof fn law_what_is_usual(args: Seq<Seq<char>>)
    ensures
        parsed(args) == parsed_from(initial(), args),
        initial().socket == "/run/simple-metrics/simple-metrics.sock"@,
        initial().socket_mode == 6 * 64 + 6 * 8,
        initial().interval_ms == 5 * 1000,
        initial().retention_ms == 7 * 24 * 60 * 60 * 1000,
        initial().interfaces.len() == 0,
        initial().root == "/"@,
{
}

}
