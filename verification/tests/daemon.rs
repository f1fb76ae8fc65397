//! The whole collector, from its settings to its answers: samples the texts of
//! the kernel's files at times given by the test, and talks to it over the
//! bytes of a connection.

use serde_json::Value;

use simple_metrics::cli::{launch, Outcome};
use simple_metrics::daemon::{
    after_looking, after_probing, after_removing, millis, next_sample, next_timestamp, record, start, unix_millis,
    DaemonError, Found, Next,
};
use simple_metrics::proc::{load1_word, Files, Readings};
use simple_metrics::query::{self, SendError};
use simple_metrics::sampler::{Sample, Sampler};
use simple_metrics::server::handle_connection;
use simple_metrics::state::Shared;
use simple_metrics::store::PushError;

const STAT: &str = "cpu  5092 0 3387 2312719 1076 0 104 0 0 0\ncpu0 1272 0 846 578179 269 0 26 0 0 0\n";
const LOADAVG: &str = "0.07 0.02 0.00 1/307 3187\n";
const MEMINFO: &str = "\
MemTotal:        3886840 kB
MemFree:         3105720 kB
MemAvailable:    3482432 kB
SwapTotal:       2097148 kB
SwapFree:        2097148 kB
";
const NET_DEV: &str = "\
Inter-|   Receive                                                |  Transmit
 face |bytes    packets errs drop fifo frame compressed multicast|bytes    packets errs drop fifo colls carrier compressed
  eth0: 2773361    9911    0    0    0     0          0        12   488920    4390    0    0    0     0       0          0
 wlan0:       0       0    0    0    0     0          0         0        0       0    0    0    0     0       0          0
 wlan1:       0       0    0    0    0     0          0         0    71210     420    0    0    0     0       0          0
 br-ap:       0       0    0    0    0     0          0         0    68214     401    0    0    0     0       0          0
   wg0:  150092    1022    0    0    0     0          0         0   162504    1099    0    0    0     0       0          0
";
const TEMP: &str = "48686\n";

/// When the first sample is taken: 2026-09-21, in milliseconds.
const START: u64 = 1_790_000_000_050;

fn number(bits: u64) -> Option<serde_json::Number> {
    serde_json::Number::from_f64(f64::from_bits(bits))
}

fn mean(values: Vec<u64>) -> u64 {
    let sum: f64 = values.iter().map(|v| f64::from_bits(*v)).sum();
    (sum / values.len() as f64).to_bits()
}

fn bits(sample: &Sample) -> u64 {
    let value = match *sample {
        Sample::Gap => f64::NAN,
        Sample::Float(bits) => f64::from_bits(bits),
        Sample::Count(n) => n as f64,
        Sample::Thousandths(n) => n as f64 / 1000.0,
        Sample::Percent { part, whole } => (100.0 * part as f64 / whole as f64).clamp(0.0, 100.0),
        Sample::PerSecond { amount, nanos } => amount as f64 / (nanos as f64 / 1e9),
    };
    value.to_bits()
}

fn json(text: &str) -> Value {
    serde_json::from_str(text).unwrap()
}

struct Daemon {
    shared: Shared,
    sampler: Sampler,
    files: bool,
    now: u64,
}

impl Daemon {
    /// Starts a daemon sampling fast (every 100 ms) from the texts above, with
    /// `extra` arguments after (so they can override those settings).
    fn start(extra: &[&str]) -> Self {
        let mut args: Vec<String> =
            ["--interval", "100ms", "--retention", "10s"].iter().map(ToString::to_string).collect();
        args.extend(extra.iter().map(ToString::to_string));
        let Outcome::Serve(config) = launch(&args) else { panic!("the settings should be usable") };
        let sampler = Sampler::new(config.interfaces.clone());
        Self { shared: start(&config).unwrap(), sampler, files: true, now: START }
    }

    /// A daemon whose files can't be read.
    fn start_without_files() -> Self {
        Self { files: false, ..Self::start(&[]) }
    }

    fn sample(&mut self, count: u64) {
        for _ in 0..count {
            let text = |t: &str| if self.files { Some(t.to_owned()) } else { None };
            let files = Files { stat: text(STAT), meminfo: text(MEMINFO), temp: text(TEMP), net_dev: text(NET_DEV) };
            let load1 = text(LOADAVG)
                .and_then(|t| load1_word(&t))
                .and_then(|word| word.parse::<f64>().ok())
                .map(f64::to_bits);
            let row = self.sampler.sample(&Readings::from_files(&files, load1), 100_000_000);
            let row: Vec<u64> = row.iter().map(bits).collect();
            record(&mut self.shared, self.now, &row).unwrap();
            self.now += 100;
        }
    }

    /// Sends lines on one connection and returns the replies.
    fn converse(&self, lines: &[&str]) -> Vec<Value> {
        let input = lines.concat();
        handle_connection(input.as_bytes(), &self.shared, &number, &mean).iter().map(|r| json(r)).collect()
    }

    /// Sends one request on a fresh connection and returns the reply.
    fn ask(&self, request: &str) -> Value {
        let mut replies = self.converse(&[request, "\n"]);
        assert_eq!(replies.len(), 1);
        replies.remove(0)
    }

    fn timestamps(&self, request: &str) -> Vec<u64> {
        self.ask(request)["timestamps"].as_array().unwrap().iter().map(|t| t.as_u64().unwrap()).collect()
    }

    /// Runs `smq` against this daemon. Returns (exit code, stdout, stderr).
    fn smq(&self, args: &[&str]) -> (u8, String, String) {
        let args: Vec<String> = args.iter().map(ToString::to_string).collect();
        let output = query::run(&args, None, self.now, |_: &str, request: &str| {
            let line = format!("{request}\n");
            handle_connection(line.as_bytes(), &self.shared, &number, &mean)
                .pop()
                .ok_or_else(|| SendError::Other("no answer".to_owned()))
        });
        (output.code, output.out, output.err)
    }
}

#[test]
fn info_describes_the_collector() {
    let daemon = Daemon::start(&[]);
    let info = daemon.ask(r#"{"op": "info"}"#);
    assert_eq!(info["ok"], true);
    assert_eq!(info["v"], 1);
    assert_eq!(info["version"], simple_metrics::VERSION);
    assert_eq!(info["interval_ms"], 100);
    assert_eq!(info["capacity"], 100); // 10 s at 100 ms
    assert_eq!(info["metrics"], 15); // 5 fixed + 2 for each of 5 interfaces
}

#[test]
fn metrics_lists_the_default_metrics() {
    let daemon = Daemon::start(&[]);
    let reply = daemon.ask(r#"{"op": "metrics"}"#);
    let names: Vec<&str> =
        reply["metrics"].as_array().unwrap().iter().map(|m| m["name"].as_str().unwrap()).collect();
    assert_eq!(names.len(), 15);
    assert_eq!(&names[..5], ["cpu_percent", "load1", "mem_used_bytes", "swap_used_bytes", "cpu_temp_celsius"]);
    for interface in ["eth0", "wlan0", "wlan1", "br-ap", "wg0"] {
        assert!(names.contains(&format!("net_{interface}_rx_bytes_per_sec").as_str()), "{interface}");
        assert!(names.contains(&format!("net_{interface}_tx_bytes_per_sec").as_str()), "{interface}");
    }
}

#[test]
fn the_interface_setting_changes_the_metrics() {
    let daemon = Daemon::start(&["--interface", "eth0", "--interface", "wg0"]);
    let info = daemon.ask(r#"{"op": "info"}"#);
    assert_eq!(info["metrics"], 9);
    let names = daemon.ask(r#"{"op": "metrics"}"#);
    assert!(names.to_string().contains("net_wg0_tx_bytes_per_sec"));
    assert!(!names.to_string().contains("wlan1"));
}

#[test]
fn latest_reports_the_values_in_the_fixture_files() {
    let mut daemon = Daemon::start(&[]);
    daemon.sample(2);
    let latest = daemon.ask(r#"{"op": "latest"}"#);
    let values = &latest["values"];
    assert_eq!(values["load1"], 0.07);
    assert_eq!(values["cpu_temp_celsius"], 48.686);
    // Values are floats in the JSON, so compare them as floats.
    assert_eq!(values["mem_used_bytes"].as_f64(), Some(414_113_792.0)); // (3886840 - 3482432) KiB
    assert_eq!(values["swap_used_bytes"].as_f64(), Some(0.0));
    // The files never change, so nothing moved between samples: network rates
    // are zero...
    assert_eq!(values["net_eth0_rx_bytes_per_sec"], 0.0);
    assert_eq!(values["net_wg0_tx_bytes_per_sec"], 0.0);
    // ...and CPU time didn't pass, so there is no CPU percentage to give.
    assert!(values["cpu_percent"].is_null());
    assert!(latest["timestamp"].as_u64().unwrap() > 1_704_067_200_000);
}

#[test]
fn read_returns_aligned_columns_oldest_first_with_a_gap_at_the_start() {
    let mut daemon = Daemon::start(&[]);
    daemon.sample(3);
    let reply = daemon.ask(r#"{"op": "read"}"#);
    let timestamps = reply["timestamps"].as_array().unwrap();
    assert!(timestamps.len() >= 3);
    let times: Vec<u64> = timestamps.iter().map(|t| t.as_u64().unwrap()).collect();
    assert!(times.windows(2).all(|w| w[0] < w[1]), "oldest first, strictly increasing");

    let series = reply["series"].as_object().unwrap();
    assert_eq!(series.len(), 15);
    for (name, column) in series {
        assert_eq!(column.as_array().unwrap().len(), timestamps.len(), "{name}");
    }
    // The first record has no previous reading to take a rate from.
    let eth0 = series["net_eth0_rx_bytes_per_sec"].as_array().unwrap();
    assert!(eth0[0].is_null());
    assert_eq!(eth0[1], 0.0);
}

#[test]
fn only_the_configured_retention_is_kept() {
    // 500 ms at 100 ms is room for 5 records.
    let mut daemon = Daemon::start(&["--retention", "500ms"]);
    assert_eq!(daemon.ask(r#"{"op": "info"}"#)["capacity"], 5);
    daemon.sample(5);

    let first = daemon.timestamps(r#"{"op": "read"}"#);
    assert_eq!(first.len(), 5);
    // Keep sampling: it stays at five and the window moves on.
    daemon.sample(6);
    let later = daemon.timestamps(r#"{"op": "read"}"#);
    assert_eq!(later.len(), 5);
    assert!(later[0] > first[0], "the oldest records were discarded");
    assert_eq!(daemon.ask(r#"{"op": "info"}"#)["len"], 5);
}

#[test]
fn one_connection_can_make_many_requests() {
    let daemon = Daemon::start(&[]);
    let replies = daemon.converse(&["{\"op\":\"info\"}\n{\"op\":\"metrics\"}\n"; 3]);
    assert_eq!(replies.len(), 6);
    assert!(replies.iter().all(|r| r["ok"] == true));
}

#[test]
fn bad_requests_get_an_error_and_the_connection_survives() {
    let daemon = Daemon::start(&[]);
    for (request, expected) in [
        ("this is not json", "not valid JSON"),
        ("[1,2]", "must be a JSON object"),
        (r#"{"nothing":1}"#, "no \"op\""),
        (r#"{"op":"delete_everything"}"#, "unknown op"),
        (r#"{"op":"info","v":99}"#, "unsupported protocol version 99"),
    ] {
        let replies = daemon.converse(&[request, "\n", "{\"op\":\"info\"}\n"]);
        assert_eq!(replies[0]["ok"], false, "{request}");
        assert!(replies[0]["error"].as_str().unwrap().contains(expected), "{request}: {}", replies[0]);
        assert_eq!(replies[1]["ok"], true);
    }
}

#[test]
fn a_missing_proc_tree_gives_gaps_not_a_crash() {
    let mut daemon = Daemon::start_without_files();
    daemon.sample(2);
    let latest = daemon.ask(r#"{"op": "latest"}"#);
    let values = latest["values"].as_object().unwrap();
    assert_eq!(values.len(), 15);
    assert!(values.values().all(Value::is_null), "{values:?}");
}

#[test]
fn a_second_copy_will_not_take_over_a_live_socket() {
    assert_eq!(after_looking("/run/m.sock", Found::Socket), Next::Probe);
    let Next::Refuse(error) = after_probing("/run/m.sock", true) else { panic!("it should refuse") };
    assert!(error.message().contains("already listening"), "{}", error.message());
}

// ---- ranges, subsets and downsampling ---------------------------------------

#[test]
fn a_subset_of_metrics_returns_only_those() {
    let mut daemon = Daemon::start(&[]);
    daemon.sample(2);
    let reply = daemon.ask(r#"{"op": "read", "metrics": ["load1", "cpu_temp_celsius"]}"#);
    assert_eq!(reply["ok"], true);
    let series = reply["series"].as_object().unwrap();
    assert_eq!(series.len(), 2);
    assert_eq!(series["load1"][0], 0.07);
    assert_eq!(series["cpu_temp_celsius"][0], 48.686);
}

#[test]
fn an_unknown_metric_is_refused_by_name() {
    let daemon = Daemon::start(&[]);
    let reply = daemon.ask(r#"{"op": "read", "metrics": ["load1", "no_such_metric"]}"#);
    assert_eq!(reply["ok"], false);
    assert!(reply["error"].as_str().unwrap().contains("no_such_metric"));
}

#[test]
fn a_time_range_returns_only_records_inside_it() {
    let mut daemon = Daemon::start(&[]);
    daemon.sample(6);
    let all = daemon.timestamps(r#"{"op": "read", "metrics": ["load1"]}"#);
    let (from, to) = (all[2], all[4]);

    let got =
        daemon.timestamps(&format!(r#"{{"op": "read", "metrics": ["load1"], "from": {from}, "to": {to}}}"#));
    // Both ends are included, and nothing outside them.
    assert_eq!(got, all[2..=4]);

    let later = daemon.ask(&format!(r#"{{"op": "read", "from": {}}}"#, u64::MAX - 1));
    assert_eq!(later["ok"], true);
    assert_eq!(later["timestamps"], json("[]"));
}

#[test]
fn max_points_limits_the_number_of_points_and_reports_the_step() {
    let mut daemon = Daemon::start(&[]);
    daemon.sample(20);
    let reply = daemon.ask(r#"{"op": "read", "metrics": ["load1"], "max_points": 4}"#);
    assert_eq!(reply["ok"], true, "{reply}");
    let step = reply["step_ms"].as_u64().unwrap();
    assert_eq!(step % 100, 0, "a whole number of the 100 ms samples");
    let points = reply["timestamps"].as_array().unwrap();
    assert!((1..=4).contains(&points.len()), "{} points", points.len());
    assert_eq!(reply["series"]["load1"].as_array().unwrap().len(), points.len());
    for t in points {
        assert_eq!(t.as_u64().unwrap() % step, 0, "buckets are aligned to the step");
    }
}

#[test]
fn a_step_gives_one_value_per_bucket_and_extremes_bracket_the_mean() {
    let mut daemon = Daemon::start(&[]);
    daemon.sample(10);
    let reply = daemon.ask(
        r#"{"op": "read", "metrics": ["net_eth0_rx_bytes_per_sec"], "step_ms": 300, "extremes": true}"#,
    );
    assert_eq!(reply["ok"], true, "{reply}");
    assert_eq!(reply["step_ms"], 300);
    let name = "net_eth0_rx_bytes_per_sec";
    let (avg, min, max) = (&reply["series"][name], &reply["min"][name], &reply["max"][name]);
    let buckets = reply["timestamps"].as_array().unwrap().len();
    assert!(buckets >= 2);
    for column in [avg, min, max] {
        assert_eq!(column.as_array().unwrap().len(), buckets);
    }
    for i in 0..buckets {
        // The counters never move, so every measured rate is zero (the very
        // first record has none, so its bucket may be empty).
        if let (Some(a), Some(lo), Some(hi)) = (avg[i].as_f64(), min[i].as_f64(), max[i].as_f64()) {
            assert!(lo <= a && a <= hi, "bucket {i}: {lo} <= {a} <= {hi}");
            assert!(a.abs() < f64::EPSILON, "{a}");
        }
    }
}

#[test]
fn a_downsampled_range_uses_the_same_bucket_edges_as_the_whole() {
    let mut daemon = Daemon::start(&[]);
    daemon.sample(10);
    let edges = daemon.timestamps(r#"{"op": "read", "metrics": ["load1"], "step_ms": 500}"#);
    // Ask again from a time in the middle: its buckets are ones of the first.
    let from = edges[edges.len() / 2] + 137;
    let part = daemon
        .timestamps(&format!(r#"{{"op": "read", "metrics": ["load1"], "step_ms": 500, "from": {from}}}"#));
    assert!(!part.is_empty());
    for t in part {
        assert!(edges.contains(&t), "{t} is not one of {edges:?}");
    }
}

#[test]
fn bad_read_options_are_refused_and_the_connection_survives() {
    let daemon = Daemon::start(&[]);
    for (request, expected) in [
        (r#"{"op":"read","from":5,"to":1}"#, "must not be after"),
        (r#"{"op":"read","from":-1}"#, "whole number"),
        (r#"{"op":"read","metrics":[]}"#, "must not be empty"),
        (r#"{"op":"read","step_ms":0}"#, "at least 1"),
        (r#"{"op":"read","max_points":1}"#, "between 2 and"),
        (r#"{"op":"read","step_ms":10,"max_points":10}"#, "together"),
        (r#"{"op":"read","extremes":true}"#, "needs"),
    ] {
        let replies = daemon.converse(&[request, "\n", "{\"op\":\"info\"}\n"]);
        assert_eq!(replies[0]["ok"], false, "{request}");
        assert!(replies[0]["error"].as_str().unwrap().contains(expected), "{request}: {}", replies[0]);
        assert_eq!(replies[1]["ok"], true);
    }
}

// ---- the client against the daemon ------------------------------------------

#[test]
fn every_command_works_against_the_real_daemon() {
    let mut daemon = Daemon::start(&[]);
    daemon.sample(3);

    let (code, out, _) = daemon.smq(&["info"]);
    assert_eq!(code, 0);
    assert!(out.contains("interval_ms  100"), "{out}");

    let (_, out, _) = daemon.smq(&["metrics"]);
    assert!(out.contains("cpu_percent"), "{out}");

    let (code, out, _) = daemon.smq(&["latest"]);
    assert_eq!(code, 0);
    assert!(out.starts_with("at 20"), "{out}");

    let (code, out, err) = daemon.smq(&["read", "--metric", "load1", "--from", "1h"]);
    assert_eq!(code, 0, "{err}");
    assert!(out.starts_with("time"), "{out}");
    assert!(out.contains("load1"), "{out}");
    assert!(!out.contains("cpu_percent"), "only the metric asked for: {out}");

    let (code, out, err) = daemon.smq(&["read", "--metric", "load1", "--points", "5", "--extremes"]);
    assert_eq!(code, 0, "{err}");
    assert!(out.contains("load1 (max)"), "{out}");
}

#[test]
fn json_output_is_the_daemons_reply() {
    let daemon = Daemon::start(&[]);
    let (_, out, _) = daemon.smq(&["--json", "info"]);
    let value = json(&out);
    assert_eq!(value["ok"], true);
    assert_eq!(value["metrics"], 15);
}

#[test]
fn the_daemons_refusals_become_a_failed_exit() {
    let daemon = Daemon::start(&[]);
    let (code, _, err) = daemon.smq(&["read", "--metric", "no_such_metric"]);
    assert_eq!(code, 1);
    assert!(err.contains("no_such_metric"), "{err}");
}

// ---- starting ---------------------------------------------------------------

#[test]
fn a_missing_path_is_fine() {
    assert_eq!(after_looking("s.sock", Found::Missing), Next::Ready);
}

#[test]
fn a_stale_socket_is_replaced() {
    assert_eq!(after_looking("s.sock", Found::Socket), Next::Probe);
    assert_eq!(after_probing("s.sock", false), Next::Remove);
    assert_eq!(after_removing("s.sock", Ok(())), Next::Ready);
}

#[test]
fn a_live_socket_is_left_alone() {
    assert_eq!(after_looking("s.sock", Found::Socket), Next::Probe);
    assert_eq!(
        after_probing("s.sock", true),
        Next::Refuse(DaemonError::AlreadyRunning("s.sock".to_owned()))
    );
}

#[test]
fn something_that_is_not_a_socket_is_never_removed() {
    assert_eq!(
        after_looking("precious.txt", Found::Other),
        Next::Refuse(DaemonError::NotASocket("precious.txt".to_owned()))
    );
}

#[test]
fn a_socket_that_cannot_be_looked_at_or_removed_is_an_error() {
    let trouble = DaemonError::Socket { path: "s.sock".to_owned(), source: "denied".to_owned() };
    assert_eq!(after_looking("s.sock", Found::Failed("denied".to_owned())), Next::Refuse(trouble.clone()));
    assert_eq!(after_removing("s.sock", Err("denied".to_owned())), Next::Refuse(trouble));
}

#[test]
fn each_startup_error_says_what_is_wrong() {
    let path = "/run/m.sock".to_owned();
    let why = "it broke".to_owned();
    assert_eq!(DaemonError::TooLarge.message(), "the store is too large to allocate");
    assert_eq!(
        DaemonError::AlreadyRunning(path.clone()).message(),
        "another process is already listening on /run/m.sock"
    );
    assert_eq!(
        DaemonError::NotASocket(path.clone()).message(),
        "/run/m.sock exists and is not a socket, so it has not been replaced"
    );
    assert_eq!(
        DaemonError::Socket { path, source: why.clone() }.message(),
        "cannot set up the socket /run/m.sock: it broke"
    );
    assert_eq!(DaemonError::Thread(why).message(), "cannot start the sampler thread: it broke");
}

#[test]
fn a_store_too_large_to_allocate_is_refused() {
    let Outcome::Serve(mut config) = launch(&[]) else { panic!("the defaults should be usable") };
    assert!(start(&config).is_ok());
    config.capacity = usize::MAX;
    assert_eq!(start(&config).unwrap_err(), DaemonError::TooLarge);
}

// ---- time -------------------------------------------------------------------

#[test]
fn the_clock_reads_a_plausible_time() {
    // After 2024-01-01, in milliseconds.
    assert!(unix_millis() > 1_704_067_200_000);
}

#[test]
fn a_clock_before_the_epoch_reads_zero() {
    assert_eq!(millis(None), 0);
    assert_eq!(millis(Some((0, 5_999_999))), 5);
    assert_eq!(millis(Some((1_790_000_000, 250_000_000))), 1_790_000_000_250);
    assert_eq!(millis(Some((u64::MAX / 1000, 615_999_999))), u64::MAX);
    assert_eq!(millis(Some((u64::MAX / 1000, 616_000_000))), u64::MAX);
    assert_eq!(millis(Some((u64::MAX, 999_999_999))), u64::MAX);
}

#[test]
fn records_stay_in_order_when_the_clock_steps_back() {
    assert_eq!(next_timestamp(None, 7), 7);
    assert_eq!(next_timestamp(Some(5), 7), 7);
    assert_eq!(next_timestamp(Some(7), 7), 8);
    assert_eq!(next_timestamp(Some(9), 7), 10);
    assert_eq!(next_timestamp(Some(u64::MAX), 7), u64::MAX);

    let mut daemon = Daemon::start(&[]);
    daemon.sample(2);
    daemon.now = 5;
    daemon.sample(1);
    assert_eq!(daemon.timestamps(r#"{"op": "read"}"#), [START, START + 100, START + 101]);
}

#[test]
fn a_record_that_does_not_fit_is_not_kept() {
    let mut daemon = Daemon::start(&[]);
    assert_eq!(record(&mut daemon.shared, 1, &[0; 3]), Err(PushError::WrongWidth));
    assert_eq!(record(&mut daemon.shared, u64::MAX, &[0; 15]), Ok(()));
    assert_eq!(record(&mut daemon.shared, 2, &[0; 15]), Err(PushError::OutOfOrder));
    assert_eq!(daemon.ask(r#"{"op": "info"}"#)["len"], 1);
}

#[test]
fn samples_are_evenly_spaced_and_start_again_after_a_pause() {
    // Reading took 3: the next sample is still due at 110.
    assert_eq!(next_sample(100, 10, 103), (110, 7));
    // The machine was suspended until 500: start again from there.
    assert_eq!(next_sample(100, 10, 500), (510, 10));
    assert_eq!(next_sample(100, 10, 110), (120, 10));
}
