//! The daemon's command line.

use simple_metrics::cli::{launch, run, Outcome, Output, EXIT_OK, EXIT_USAGE};
use simple_metrics::VERSION;

fn strings(args: &[&str]) -> Vec<String> {
    args.iter().map(ToString::to_string).collect()
}

/// Returns (exit code, stdout, stderr).
fn run_with(args: &[&str]) -> (u8, String, String) {
    let Output { code, out, err } = run(&strings(args));
    (code, out, err)
}

#[test]
fn version_prints_the_crate_version() {
    for flag in ["-V", "--version"] {
        let (code, out, err) = run_with(&[flag]);
        assert_eq!(code, EXIT_OK);
        assert_eq!(out, format!("simple-metrics {VERSION}\n"));
        assert!(err.is_empty());
    }
}

#[test]
fn help_prints_usage_to_stdout() {
    for flag in ["-h", "--help"] {
        let (code, out, err) = run_with(&[flag]);
        assert_eq!(code, EXIT_OK);
        assert!(out.starts_with("Usage: simple-metrics"));
        assert!(err.is_empty());
    }
}

#[test]
fn an_unknown_argument_is_a_usage_error() {
    let (code, out, err) = run_with(&["--bogus"]);
    assert_eq!(code, EXIT_USAGE);
    assert!(out.is_empty());
    assert!(err.contains("unknown argument '--bogus'"));
    assert!(err.contains("Usage:"));
}

#[test]
fn no_arguments_is_a_usage_error_until_there_is_something_to_run() {
    let (code, out, err) = run_with(&[]);
    assert_eq!(code, EXIT_USAGE);
    assert!(out.is_empty());
    assert!(err.contains("Usage:"));
}

#[test]
fn a_refused_command_line_is_written_in_full() {
    let (_, _, err) = run_with(&["now"]);
    assert_eq!(
        err,
        "simple-metrics: unknown argument 'now'\n\nUsage: simple-metrics [OPTIONS]\n\nOptions:\n  \
         -h, --help     Print this help and exit\n  -V, --version  Print the version and exit\n"
    );
}

#[test]
fn the_daemon_starts_with_its_settings_or_exits() {
    match launch(&strings(&["--interval", "1s"])) {
        Outcome::Serve(config) => assert_eq!(config.interval_ms, 1000),
        other => panic!("expected settings, got {other:?}"),
    }
    match launch(&strings(&["--version"])) {
        Outcome::Exit(output) => assert_eq!(
            (output.code, output.out, output.err),
            (EXIT_OK, format!("simple-metrics {VERSION}\n"), String::new())
        ),
        other => panic!("expected an exit, got {other:?}"),
    }
    match launch(&strings(&["--help"])) {
        Outcome::Exit(output) => {
            assert_eq!(output.code, EXIT_OK);
            assert!(output.out.starts_with("Usage: simple-metrics"));
            assert!(output.out.contains("--retention"));
        }
        other => panic!("expected an exit, got {other:?}"),
    }
    match launch(&strings(&["--bogus"])) {
        Outcome::Exit(output) => {
            assert_eq!(output.code, EXIT_USAGE);
            assert!(output.out.is_empty());
            assert!(output.err.starts_with("simple-metrics: unknown argument '--bogus'\n\nUsage:"));
        }
        other => panic!("expected an exit, got {other:?}"),
    }
}
