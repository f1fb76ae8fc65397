//! Reading the daemon's settings.

use simple_metrics::config::{
    capacity_for, default_interfaces, parse, parse_duration, Config, ConfigError, Parsed, DEFAULT_SOCKET,
};

fn parse_args(args: &[&str]) -> Result<Parsed, ConfigError> {
    let args: Vec<String> = args.iter().map(ToString::to_string).collect();
    parse(&args)
}

fn config(args: &[&str]) -> Config {
    match parse_args(args) {
        Ok(Parsed::Run(config)) => config,
        other => panic!("expected settings, got {other:?}"),
    }
}

fn invalid_flag(args: &[&str]) -> String {
    match parse_args(args) {
        Err(ConfigError::InvalidValue { flag, .. }) => flag,
        other => panic!("expected an invalid value, got {other:?}"),
    }
}

#[test]
fn defaults_are_five_seconds_for_seven_days() {
    let config = config(&[]);
    assert_eq!(config.socket, DEFAULT_SOCKET);
    assert_eq!(config.socket_mode, 0o660);
    assert_eq!(config.interval_ms, 5 * 1000);
    assert_eq!(config.capacity, 120_960);
    assert_eq!(config.interfaces, default_interfaces());
    assert_eq!(config.interfaces, ["eth0", "wlan0", "wlan1", "br-ap", "wg0"]);
    assert_eq!(config.root, "/");
}

#[test]
fn help_and_version_win_wherever_they_appear() {
    assert_eq!(parse_args(&["-h"]), Ok(Parsed::Help));
    assert_eq!(parse_args(&["--interval", "1s", "--help"]), Ok(Parsed::Help));
    assert_eq!(parse_args(&["--version"]), Ok(Parsed::Version));
    assert_eq!(parse_args(&["-V"]), Ok(Parsed::Version));
}

#[test]
fn values_can_follow_a_space_or_an_equals_sign() {
    let a = config(&["--socket", "/tmp/a.sock", "--interval", "10s"]);
    let b = config(&["--socket=/tmp/a.sock", "--interval=10s"]);
    assert_eq!(a, b);
    assert_eq!(a.socket, "/tmp/a.sock");
    assert_eq!(a.interval_ms, 10 * 1000);
}

#[test]
fn a_value_may_itself_contain_an_equals_sign() {
    let config = config(&["--socket=/tmp/a=b.sock"]);
    assert_eq!(config.socket, "/tmp/a=b.sock");
}

#[test]
fn capacity_is_retention_over_interval() {
    assert_eq!(config(&["--interval", "1s", "--retention", "1h"]).capacity, 3600);
    assert_eq!(config(&["--interval", "500ms", "--retention", "10s"]).capacity, 20);
}

#[test]
fn capacity_rounds_up_and_is_at_least_one() {
    assert_eq!(config(&["--interval", "3s", "--retention", "10s"]).capacity, 4);
    assert_eq!(config(&["--interval", "1h", "--retention", "1s"]).capacity, 1);
}

#[test]
fn durations_understand_their_units() {
    let cases = [
        ("250ms", 250),
        ("7", 7000),
        ("7s", 7000),
        ("2m", 120_000),
        ("3h", 10_800_000),
        ("1d", 86_400_000),
    ];
    for (text, millis) in cases {
        assert_eq!(parse_duration(text), Ok(millis), "{text}");
    }
}

#[test]
fn bad_durations_are_refused() {
    for text in [
        "",
        "s",
        "0",
        "0s",
        "-5s",
        "1.5s",
        "5x",
        "5 s",
        "5S",
        "99999999999999999999",
        "18446744073709551615d",
    ] {
        assert!(parse_duration(text).is_err(), "{text:?}");
    }
    assert_eq!(invalid_flag(&["--interval", "soon"]), "--interval");
    assert_eq!(invalid_flag(&["--retention=0"]), "--retention");
}

#[test]
fn a_bad_duration_says_what_is_wrong() {
    assert_eq!(parse_duration("+5s"), Err("expected a whole number, e.g. 5s"));
    assert_eq!(parse_duration("99999999999999999999"), Err("expected a whole number, e.g. 5s"));
    assert_eq!(parse_duration("5x"), Err("the unit must be ms, s, m, h or d"));
    assert_eq!(parse_duration("18446744073709551615d"), Err("that is too long"));
    assert_eq!(parse_duration("0d"), Err("must be more than zero"));
    assert_eq!(parse_duration("18446744073709551615ms"), Ok(u64::MAX));
}

#[test]
fn giving_an_interface_replaces_the_defaults() {
    let config = config(&["--interface", "eth0", "--interface=wg0"]);
    assert_eq!(config.interfaces, ["eth0", "wg0"]);
}

#[test]
fn bad_and_repeated_interfaces_are_refused() {
    assert_eq!(invalid_flag(&["--interface", "a b"]), "--interface");
    assert_eq!(invalid_flag(&["--interface", "../x"]), "--interface");
    assert_eq!(
        invalid_flag(&["--interface", "eth0", "--interface", "eth0"]),
        "--interface"
    );
}

#[test]
fn the_socket_mode_is_octal_and_at_most_777() {
    assert_eq!(config(&["--socket-mode", "600"]).socket_mode, 0o600);
    assert_eq!(config(&["--socket-mode", "0660"]).socket_mode, 0o660);
    for bad in ["9", "rw", "1000", "-1", ""] {
        assert_eq!(invalid_flag(&["--socket-mode", bad]), "--socket-mode", "{bad:?}");
    }
}

#[test]
fn a_socket_mode_may_have_a_plus_sign() {
    assert_eq!(config(&["--socket-mode", "+777"]).socket_mode, 0o777);
    assert_eq!(invalid_flag(&["--socket-mode", "+"]), "--socket-mode");
}

#[test]
fn a_store_that_would_be_too_big_is_refused() {
    let result = parse_args(&["--interval", "1ms", "--retention", "365d"]);
    assert!(matches!(result, Err(ConfigError::TooLarge { .. })), "{result:?}");
    let result = parse_args(&["--interval", "1ms", "--retention", "100000d"]);
    assert!(matches!(result, Err(ConfigError::TooLarge { .. })), "{result:?}");
}

#[test]
fn a_missing_value_is_reported_by_flag() {
    for flag in [
        "--socket",
        "--interval",
        "--retention",
        "--interface",
        "--root",
        "--socket-mode",
    ] {
        assert_eq!(parse_args(&[flag]), Err(ConfigError::MissingValue(flag.to_owned())));
    }
}

#[test]
fn unknown_arguments_are_refused() {
    for arg in ["--bogus", "-x", "positional", "--socket-path=/x"] {
        assert_eq!(parse_args(&[arg]), Err(ConfigError::UnknownArgument(arg.to_owned())));
    }
}

#[test]
fn errors_read_sensibly() {
    let error = parse_args(&["--interval", "soon"]).unwrap_err();
    assert_eq!(
        error.message(),
        "invalid value 'soon' for --interval: expected a whole number, e.g. 5s"
    );
    let error = parse_args(&["--root"]).unwrap_err();
    assert_eq!(error.message(), "--root needs a value");
}

#[test]
fn the_other_errors_read_sensibly_too() {
    let error = parse_args(&["-h=x"]).unwrap_err();
    assert_eq!(error.message(), "unknown argument '-h=x'");
    let error = parse_args(&["--interval", "1ms", "--retention", "365d"]).unwrap_err();
    // 31,536,000,000 records of 128 bytes.
    assert_eq!(
        error.message(),
        "that retention and interval would need 3849609 MiB for the store (at most 1024 MiB is allowed)"
    );
    let error = ConfigError::TooLarge { bytes: None };
    assert_eq!(error.message(), "that retention and interval are too large");
}

#[test]
fn the_records_kept_cover_the_retention_and_no_more() {
    assert_eq!(capacity_for(10_000, 3_000, 5), Ok(4));
    assert_eq!(capacity_for(9_000, 3_000, 5), Ok(3));
    assert_eq!(capacity_for(1, 3_000, 5), Ok(1));
    assert_eq!(
        capacity_for(u64::MAX, 1, 5),
        Err(ConfigError::TooLarge { bytes: None })
    );
    // At 128 bytes a record, exactly the memory allowed is still allowed.
    assert_eq!(capacity_for(8_388_608, 1, 5), Ok(8_388_608));
    assert_eq!(
        capacity_for(8_388_609, 1, 5),
        Err(ConfigError::TooLarge { bytes: Some(1_073_741_952) })
    );
}
