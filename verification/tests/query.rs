//! The command-line client.

use serde_json::Value;
use std::cell::RefCell;

use simple_metrics::calendar::{date_of, iso, Date, LAST_OF_FOUR_DIGITS};
use simple_metrics::cli::Output;
use simple_metrics::metrics::Schema;
use simple_metrics::protocol::{respond, Request};
use simple_metrics::query::{
    describe_failure, parse_time, prepare, run, Plan, SendError, Time, DEFAULT_SOCKET, EXIT_FAILED, EXIT_OK, EXIT_USAGE,
};
use simple_metrics::state::Shared;
use simple_metrics::store::Store;
use simple_metrics::VERSION;

const NOW: u64 = 1_790_000_000_000;

fn strings(args: &[&str]) -> Vec<String> {
    args.iter().map(ToString::to_string).collect()
}

fn json(text: &str) -> Value {
    serde_json::from_str(text).unwrap()
}

/// Runs `smq` with `args` against a daemon that answers `reply`. Returns
/// (exit code, stdout, stderr, the request that was sent, the socket).
fn smq(
    args: &[&str],
    env_socket: Option<&str>,
    reply: Result<&str, SendError>,
) -> (u8, String, String, Option<String>, Option<String>) {
    let sent = RefCell::new(None);
    let used = RefCell::new(None);
    let output = run(&strings(args), env_socket, NOW, |socket: &str, request: &str| {
        *sent.borrow_mut() = Some(request.to_owned());
        *used.borrow_mut() = Some(socket.to_owned());
        reply.map(ToOwned::to_owned)
    });
    (output.code, output.out, output.err, sent.into_inner(), used.into_inner())
}

fn request(args: &[&str]) -> Value {
    let (code, _, err, sent, _) = smq(args, None, Ok(r#"{"ok":true,"v":1}"#));
    assert_eq!(code, EXIT_OK, "{err}");
    json(&sent.expect("a request should have been sent"))
}

#[test]
fn the_default_socket_is_the_run_one() {
    let (_, _, _, _, used) = smq(&["info"], None, Ok(r#"{"ok":true}"#));
    assert_eq!(used, Some(DEFAULT_SOCKET.to_owned()));
}

#[test]
fn local_uses_the_tmp_socket() {
    let (_, _, _, _, used) = smq(&["--local", "info"], None, Ok(r#"{"ok":true}"#));
    assert_eq!(used, Some("/tmp/simple-metrics.sock".to_owned()));
}

#[test]
fn the_environment_overrides_the_default_and_a_flag_overrides_the_environment() {
    let ok = Ok(r#"{"ok":true}"#);
    let (_, _, _, _, used) = smq(&["info"], Some("/x/env.sock"), ok);
    assert_eq!(used, Some("/x/env.sock".to_owned()));
    let (_, _, _, _, used) =
        smq(&["--socket", "/x/flag.sock", "info"], Some("/x/env.sock"), Ok(r#"{"ok":true}"#));
    assert_eq!(used, Some("/x/flag.sock".to_owned()));
    let (_, _, _, _, used) = smq(&["info"], Some(""), Ok(r#"{"ok":true}"#));
    assert_eq!(used, Some(DEFAULT_SOCKET.to_owned()), "empty means unset");
}

#[test]
fn simple_commands_send_their_op() {
    for op in ["info", "metrics", "latest"] {
        assert_eq!(request(&[op]), json(&format!(r#"{{"op": "{op}"}}"#)));
    }
}

#[test]
fn read_with_nothing_else_asks_for_everything() {
    assert_eq!(request(&["read"]), json(r#"{"op": "read"}"#));
}

#[test]
fn read_options_become_request_fields() {
    let sent = request(&[
        "read",
        "--from",
        "1h",
        "--to",
        "now",
        "--metric",
        "cpu_percent",
        "--metric",
        "load1",
        "--points",
        "60",
        "--extremes",
    ]);
    let expected = format!(
        r#"{{
            "op": "read",
            "from": {},
            "to": {NOW},
            "metrics": ["cpu_percent", "load1"],
            "max_points": 60,
            "extremes": true
        }}"#,
        NOW - 3_600_000
    );
    assert_eq!(sent, json(&expected));
}

#[test]
fn step_is_sent_in_milliseconds() {
    assert_eq!(request(&["read", "--step", "5m"])["step_ms"], 300_000);
}

#[test]
fn a_bare_number_time_is_epoch_milliseconds() {
    let sent = request(&["read", "--from", "1790000000123", "--to", "1790000009999"]);
    assert_eq!(sent["from"], 1_790_000_000_123_u64);
    assert_eq!(sent["to"], 1_790_000_009_999_u64);
}

#[test]
fn a_time_further_back_than_the_epoch_stops_at_zero() {
    assert_eq!(request(&["read", "--from", "99999d"])["from"], 0);
}

#[test]
fn raw_sends_the_json_given() {
    assert_eq!(
        request(&["raw", r#"{"op":"read","metrics":["load1"]}"#]),
        json(r#"{"op": "read", "metrics": ["load1"]}"#)
    );
}

#[test]
fn raw_rejects_json_that_is_not_json() {
    let (code, _, err, sent, _) = smq(&["raw", "{nope"], None, Ok("{}"));
    assert_eq!(code, EXIT_USAGE);
    assert!(err.contains("not valid JSON"), "{err}");
    assert!(sent.is_none(), "nothing should be sent");
}

#[test]
fn bad_command_lines_are_usage_errors_and_send_nothing() {
    let cases: &[(&[&str], &str)] = &[
        (&[], "no command"),
        (&["bogus"], "unknown argument 'bogus'"),
        (&["--socket"], "--socket needs a value"),
        (&["info", "extra"], "takes no arguments"),
        (&["raw"], "exactly one argument"),
        (&["read", "--from"], "--from needs a value"),
        (&["read", "--from", "soon"], "'soon'"),
        (&["read", "--step", "0"], "--step"),
        (&["read", "--points", "many"], "--points"),
        (&["read", "--step", "5s", "--points", "9"], "can't be combined"),
        (&["read", "--extremes"], "--extremes needs"),
        (&["read", "--wat"], "unknown read option"),
    ];
    for (args, expected) in cases {
        let (code, out, err, sent, _) = smq(args, None, Ok("{}"));
        assert_eq!(code, EXIT_USAGE, "{args:?}");
        assert!(out.is_empty(), "{args:?}");
        assert!(err.contains(expected), "{args:?}: {err}");
        assert!(sent.is_none(), "{args:?} should not send anything");
    }
}

#[test]
fn help_and_version() {
    let (code, out, _, sent, _) = smq(&["--help"], None, Ok("{}"));
    assert_eq!(code, EXIT_OK);
    assert!(out.starts_with("Usage: smq"));
    assert!(sent.is_none());
    let (code, out, _, _, _) = smq(&["-V"], None, Ok("{}"));
    assert_eq!(code, EXIT_OK);
    assert_eq!(out, format!("smq {VERSION}\n"));
}

#[test]
fn json_prints_the_response_untouched() {
    let reply = r#"{"ok":true,"v":1,"z":[1,2]}"#;
    let (code, out, _, _, _) = smq(&["--json", "info"], None, Ok(reply));
    assert_eq!(code, EXIT_OK);
    assert_eq!(out, format!("{reply}\n"));
}

#[test]
fn a_refusal_is_reported_and_fails() {
    let reply = r#"{"ok":false,"v":1,"error":"unknown metric 'x'"}"#;
    let (code, out, err, _, _) = smq(&["read"], None, Ok(reply));
    assert_eq!(code, EXIT_FAILED);
    assert!(out.is_empty());
    assert!(err.contains("unknown metric 'x'"), "{err}");
}

#[test]
fn connection_failures_say_what_to_try() {
    for (kind, expected) in [
        (SendError::NotFound, "--local"),
        (SendError::PermissionDenied, "group"),
        (SendError::ConnectionRefused, "stale"),
    ] {
        let (code, out, err, _, _) = smq(&["info"], None, Err(kind.clone()));
        assert_eq!(code, EXIT_FAILED);
        assert!(out.is_empty());
        assert!(err.contains(expected), "{kind:?}: {err}");
        assert!(err.contains(DEFAULT_SOCKET), "{err}");
    }
}

#[test]
fn a_reply_that_is_not_json_fails() {
    let (code, _, err, _, _) = smq(&["info"], None, Ok("hello"));
    assert_eq!(code, EXIT_FAILED);
    assert!(err.contains("not valid JSON"), "{err}");
}

#[test]
fn info_is_key_value_lines() {
    let reply = r#"{"ok":true,"v":1,"version":"0.2.0","interval_ms":5000,"capacity":10,"len":3,"metrics":15}"#;
    let (_, out, _, _, _) = smq(&["info"], None, Ok(reply));
    assert!(out.contains("version      0.2.0\n"), "{out}");
    assert!(out.contains("interval_ms  5000\n"), "{out}");
}

#[test]
fn metrics_is_a_table() {
    let reply = r#"{"ok":true,"metrics":[{"name":"cpu_percent","label":"CPU","unit":"%"},{"name":"load1","label":"Load","unit":""}]}"#;
    let (_, out, _, _, _) = smq(&["metrics"], None, Ok(reply));
    assert_eq!(out, "name         unit  label\ncpu_percent  %     CPU\nload1              Load\n");
}

#[test]
fn latest_shows_the_time_and_values_with_gaps() {
    let reply = r#"{"ok":true,"timestamp":1790000000250,"values":{"a":1.5,"b":null,"c":20.0004}}"#;
    let (_, out, _, _, _) = smq(&["latest"], None, Ok(reply));
    assert!(out.starts_with("at 2026-09-21T14:13:20.250Z\n"), "{out}");
    assert!(out.contains("a       1.5\n"), "{out}");
    assert!(out.contains("b       -\n"), "{out}");
    assert!(out.contains("c       20\n"), "{out}");
}

#[test]
fn latest_with_nothing_recorded() {
    let reply = r#"{"ok":true,"timestamp":null,"values":{}}"#;
    let (code, out, _, _, _) = smq(&["latest"], None, Ok(reply));
    assert_eq!(code, EXIT_OK);
    assert_eq!(out, "nothing has been recorded yet\n");
}

#[test]
fn read_is_a_table_with_extremes_beside_each_metric() {
    let reply = r#"{"ok":true,"step_ms":5000,"timestamps":[1790000000000,1790000005000],
            "series":{"cpu":[1.0,null]},"min":{"cpu":[0.5,null]},"max":{"cpu":[2,null]}}"#;
    let (_, out, _, _, _) = smq(&["read", "--points", "2", "--extremes"], None, Ok(reply));
    let lines: Vec<&str> = out.lines().collect();
    assert_eq!(lines[0], "time                      cpu  cpu (min)  cpu (max)");
    assert_eq!(lines[1], "2026-09-21T14:13:20.000Z  1    0.5        2");
    assert_eq!(lines[2], "2026-09-21T14:13:25.000Z  -    -          -");
    assert!(out.contains("2 rows, 5000 ms per bucket"), "{out}");
}

#[test]
fn iso_handles_the_epoch_leap_days_and_year_ends() {
    assert_eq!(iso(0), "1970-01-01T00:00:00.000Z");
    assert_eq!(iso(951_782_400_000), "2000-02-29T00:00:00.000Z");
    assert_eq!(iso(1_709_164_800_000 + 86_399_999), "2024-02-29T23:59:59.999Z");
    assert_eq!(iso(1_735_689_599_000), "2024-12-31T23:59:59.000Z");
    assert_eq!(iso(4_102_444_800_000), "2100-01-01T00:00:00.000Z");
}

#[test]
fn iso_reaches_the_end_of_time() {
    assert_eq!(iso(253_402_300_799_999), "9999-12-31T23:59:59.999Z");
    assert_eq!(iso(253_402_300_800_000), "10000-01-01T00:00:00.000Z");
    assert_eq!(iso(u64::MAX), "584556019-04-03T14:25:51.615Z");
}

#[test]
fn iso_texts_sort_as_times_do() {
    let times = [
        0,
        1,
        999,
        1000,
        59_999,
        60_000,
        3_599_999,
        3_600_000,
        86_399_999,
        86_400_000,
        951_782_399_999,
        951_782_400_000,
        1_735_689_599_999,
        1_735_689_600_000,
        4_102_444_800_000,
        LAST_OF_FOUR_DIGITS,
    ];
    for pair in times.windows(2) {
        let (a, b) = (iso(pair[0]), iso(pair[1]));
        assert_eq!((a.len(), b.len()), (24, 24));
        assert!(a.is_ascii() && b.is_ascii());
        assert!(a < b, "{a} {b}");
    }
    // A year of five digits ends that.
    assert!(iso(LAST_OF_FOUR_DIGITS + 1) < iso(LAST_OF_FOUR_DIGITS));
}

#[test]
fn iso_texts_read_back() {
    let part = |text: &str, from: usize, to: usize| text[from..to].parse::<u64>().unwrap();
    for days in [0, 1, 58, 59, 60, 11_016, 20_000, 47_540, 47_541] {
        let ms = days * 86_400_000 + 49_847_250;
        let text = iso(ms);
        assert_eq!(date_of(days), Date { year: part(&text, 0, 4), month: part(&text, 5, 7), day: part(&text, 8, 10) });
        let seconds = part(&text, 11, 13) * 3600 + part(&text, 14, 16) * 60 + part(&text, 17, 19);
        assert_eq!(seconds * 1000 + part(&text, 20, 23), ms % 86_400_000);
    }
}

#[test]
fn times_can_be_given_in_three_ways() {
    assert_eq!(parse_time("now"), Ok(Time::Ago(0)));
    assert_eq!(parse_time("90s"), Ok(Time::Ago(90_000)));
    assert_eq!(parse_time("12"), Ok(Time::At(12)));
    assert_eq!(parse_time("18446744073709551615"), Ok(Time::At(u64::MAX)));
    assert_eq!(
        parse_time("18446744073709551616"),
        Err("'18446744073709551616' is too large a time".to_owned())
    );
    let error = parse_time("").unwrap_err();
    assert!(error.ends_with("; use now, 5m, 2h, or epoch milliseconds"), "{error}");
    assert_eq!(Time::Ago(5).resolve(3), 0);
    assert_eq!(Time::Ago(5).resolve(8), 3);
    assert_eq!(Time::At(5).resolve(8), 5);
}

#[test]
fn the_first_request_for_help_wins() {
    let (code, out, _, _, _) = smq(&["--json", "-h", "--bogus"], None, Ok("{}"));
    assert_eq!(code, EXIT_OK);
    assert!(out.starts_with("Usage: smq"));
    let (code, _, err, _, _) = smq(&["--bogus", "-h"], None, Ok("{}"));
    assert_eq!(code, EXIT_USAGE);
    assert!(err.starts_with("smq: unknown argument '--bogus'\n\nUsage: smq"), "{err}");
}

#[test]
fn a_plan_says_what_would_be_sent() {
    match prepare(&strings(&["--json", "read", "--to", "5"]), None, NOW) {
        Plan::Ask { socket, request, json, .. } => {
            assert_eq!(socket, DEFAULT_SOCKET);
            assert_eq!(request, r#"{"op":"read","to":5}"#);
            assert!(json);
        }
        Plan::Finish(output) => panic!("{output:?}"),
    }
}

#[test]
fn other_failures_are_passed_on() {
    assert_eq!(describe_failure("/a", &SendError::Other("it broke".to_owned())), "/a: it broke");
}

#[test]
fn a_refusal_without_a_reason_still_says_something() {
    let (code, out, err, _, _) = smq(&["--json", "info"], None, Ok("[1]  \n"));
    assert_eq!(code, EXIT_FAILED);
    assert_eq!(out, "[1]\n");
    assert_eq!(err, "smq: the request failed\n");
}

#[test]
fn an_answer_to_a_raw_request_is_shown_as_json() {
    let (code, out, _, _, _) = smq(&["raw", "{}"], None, Ok(r#"{"ok": true, "b": [1, 2.5], "a": null}"#));
    assert_eq!(code, EXIT_OK);
    assert_eq!(out, "{\"ok\":true,\"b\":[1,2.5],\"a\":null}\n");
}

#[test]
fn info_shows_what_is_not_a_string_as_json() {
    let (_, out, _, _, _) = smq(&["info"], None, Ok(r#"{"ok":true,"version":{"a":[1]},"len":null}"#));
    assert_eq!(out, "version      {\"a\":[1]}\nlen          null\n");
}

#[test]
fn a_read_without_series_shows_nothing() {
    let (code, out, _, _, _) = smq(&["read"], None, Ok(r#"{"ok":true}"#));
    assert_eq!(code, EXIT_OK);
    assert_eq!(out, "\n");
}

#[test]
fn values_have_up_to_three_decimals() {
    let reply = r#"{"ok":true,"timestamps":[0,"x"],"series":{"v":[-1.23456,100]}}"#;
    let (_, out, _, _, _) = smq(&["read"], None, Ok(reply));
    assert_eq!(
        out,
        "time                      v\n1970-01-01T00:00:00.000Z  -1.235\n?                         100\n\n2 rows\n"
    );
}

#[test]
fn what_the_daemon_says_is_what_is_shown() {
    let number = |bits: u64| serde_json::Number::from_f64(f64::from_bits(bits));
    let schema = Schema::new(&[]);
    let store = Store::new(4, schema.len()).unwrap();
    let mut shared = Shared::new(schema, 5000, store);
    let nothing = respond(Request::Latest, &shared, &number);
    assert_eq!(smq(&["latest"], None, Ok(&nothing)).1, "nothing has been recorded yet\n");
    let metrics = respond(Request::Metrics, &shared, &number);
    assert_eq!(
        smq(&["metrics"], None, Ok(&metrics)).1,
        "name              unit   label\n\
         cpu_percent       %      CPU\n\
         load1                    Load (1 min)\n\
         mem_used_bytes    bytes  Memory used\n\
         swap_used_bytes   bytes  Swap used\n\
         cpu_temp_celsius  °C     CPU temperature\n"
    );
    shared.write().push(NOW, &[0.5, 1.0, 2.0, f64::NAN, 1.0 / 3.0].map(f64::to_bits)).unwrap();
    let latest = respond(Request::Latest, &shared, &number);
    assert_eq!(
        smq(&["latest"], None, Ok(&latest)).1,
        "at 2026-09-21T14:13:20.000Z\n\
         metric            value\n\
         cpu_percent       0.5\n\
         load1             1\n\
         mem_used_bytes    2\n\
         swap_used_bytes   -\n\
         cpu_temp_celsius  0.333\n"
    );
    let read = respond(Request::Read, &shared, &number);
    let (_, out, _, _, _) = smq(&["read"], None, Ok(&read));
    assert!(out.contains("2026-09-21T14:13:20.000Z  0.5"), "{out}");
    assert!(out.ends_with("\n1 rows\n"), "{out}");
    for reply in [nothing, metrics, latest, read] {
        assert_eq!(smq(&["--json", "info"], None, Ok(&reply)).1, reply);
    }
}

#[test]
fn an_output_is_what_is_written() {
    let output = run(&strings(&["-V"]), None, NOW, |_: &str, _: &str| Err(SendError::NotFound));
    assert_eq!(output, Output { code: EXIT_OK, out: format!("smq {VERSION}\n"), err: String::new() });
}
