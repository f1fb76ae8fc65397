//! Ranges, subsets and summaries of recorded history.

use serde_json::Value;

use simple_metrics::downsample::{average, choose_step, gather, greatest, least, Bucket};
use simple_metrics::metrics::Schema;
use simple_metrics::read::{columns_of, figures, recall, Detail, OptionError, ReadOptions, MAX_POINTS};
use simple_metrics::server::reply_to;
use simple_metrics::state::Shared;
use simple_metrics::store::{Snapshot, Store};

fn number(bits: u64) -> Option<serde_json::Number> {
    serde_json::Number::from_f64(f64::from_bits(bits))
}

fn mean(values: Vec<u64>) -> u64 {
    let sum: f64 = values.iter().map(|v| f64::from_bits(*v)).sum();
    (sum / values.len() as f64).to_bits()
}

fn bits(values: &[f64]) -> Vec<u64> {
    values.iter().map(|v| v.to_bits()).collect()
}

/// Ten records at 100, 200, ... with the values 1, 2, ... for the first metric.
fn shared() -> Shared {
    let schema = Schema::new(&["eth0".to_owned()]);
    let store = Store::new(20, schema.len()).unwrap();
    let mut shared = Shared::new(schema, 100, store);
    for i in 1..=10_u32 {
        let row: Vec<f64> = (0..7).map(|k| f64::from(i) + 100.0 * f64::from(k)).collect();
        shared.write().push(u64::from(i) * 100, &bits(&row)).unwrap();
    }
    shared
}

fn ask(request: &str) -> Value {
    serde_json::from_str(&reply_to(request, &shared(), &number, &mean)).unwrap()
}

fn error(request: &str) -> String {
    let reply = ask(request);
    assert_eq!(reply["ok"], false);
    reply["error"].as_str().unwrap().to_owned()
}

fn json(text: &str) -> Value {
    serde_json::from_str(text).unwrap()
}

#[test]
fn each_bad_option_says_what_is_wrong() {
    assert_eq!(error(r#"{"op":"read","from":"x"}"#), "\"from\" must be a whole number");
    assert_eq!(error(r#"{"op":"read","to":1.5}"#), "\"to\" must be a whole number");
    assert_eq!(error(r#"{"op":"read","step_ms":null}"#), "\"step_ms\" must be a whole number");
    assert_eq!(error(r#"{"op":"read","max_points":-2}"#), "\"max_points\" must be a whole number");
    assert_eq!(error(r#"{"op":"read","from":2,"to":1}"#), "\"from\" must not be after \"to\"");
    assert_eq!(error(r#"{"op":"read","metrics":"load1"}"#), "\"metrics\" must be a list of metric names");
    assert_eq!(error(r#"{"op":"read","metrics":["load1",2]}"#), "\"metrics\" must be a list of metric names");
    assert_eq!(error(r#"{"op":"read","metrics":[]}"#), "\"metrics\" must not be empty");
    assert_eq!(error(r#"{"op":"read","metrics":["x","y"]}"#), "unknown metric 'x'");
    assert_eq!(error(r#"{"op":"read","step_ms":0}"#), "\"step_ms\" must be at least 1");
    assert_eq!(error(r#"{"op":"read","max_points":1}"#), "\"max_points\" must be between 2 and 10000");
    assert_eq!(
        error(&format!(r#"{{"op":"read","max_points":{}}}"#, MAX_POINTS + 1)),
        "\"max_points\" must be between 2 and 10000"
    );
    assert_eq!(
        error(r#"{"op":"read","step_ms":1,"max_points":2}"#),
        "\"step_ms\" and \"max_points\" can't be used together"
    );
    assert_eq!(error(r#"{"op":"read","step_ms":1,"extremes":1}"#), "\"extremes\" must be true or false");
    assert_eq!(error(r#"{"op":"read","extremes":true}"#), "\"extremes\" needs \"step_ms\" or \"max_points\"");
    assert_eq!(ask(r#"{"op":"read","extremes":false}"#)["ok"], true);
}

#[test]
fn the_message_for_an_unknown_metric_is_short_however_long_the_name() {
    let request = format!(r#"{{"op":"read","metrics":["{}"]}}"#, "x".repeat(10_000));
    assert_eq!(error(&request), format!("unknown metric '{}'", "x".repeat(40)));
}

#[test]
fn other_fields_are_ignored() {
    let plain = ask(r#"{"op":"read","from":900}"#);
    assert_eq!(ask(r#"{"op":"read","other":[1,{"to":0}],"from":900,"v":1}"#), plain);
}

#[test]
fn a_range_can_have_one_end() {
    assert_eq!(ask(r#"{"op":"read","from":900}"#)["timestamps"], json("[900,1000]"));
    assert_eq!(ask(r#"{"op":"read","to":250}"#)["timestamps"], json("[100,200]"));
    assert_eq!(ask(r#"{"op":"read","from":300,"to":300}"#)["timestamps"], json("[300]"));
    assert_eq!(ask(r#"{"op":"read","from":301,"to":399}"#)["timestamps"], json("[]"));
}

#[test]
fn metrics_come_in_the_order_asked_for_and_once() {
    let reply = ask(r#"{"op":"read","to":100,"metrics":["load1","cpu_percent","load1"]}"#);
    let names: Vec<&String> = reply["series"].as_object().unwrap().keys().collect();
    assert_eq!(names, ["load1", "cpu_percent"]);
    assert_eq!(reply["series"]["load1"], json("[101.0]"));
}

#[test]
fn a_plain_read_is_what_the_protocol_answers() {
    let plain = simple_metrics::protocol::respond(simple_metrics::protocol::Request::Read, &shared(), &number);
    assert_eq!(reply_to(r#"{"op":"read"}"#, &shared(), &number, &mean), plain);
}

#[test]
fn history_is_written_as_its_json_is() {
    for request in [
        r#"{"op":"read"}"#,
        r#"{"op":"read","metrics":["load1"],"from":101,"to":105}"#,
        r#"{"op":"read","step_ms":250}"#,
        r#"{"op":"read","max_points":3,"extremes":true,"metrics":["cpu_percent","load1"]}"#,
    ] {
        let line = reply_to(request, &shared(), &number, &mean);
        assert_eq!(format!("{}\n", serde_json::from_str::<Value>(&line).unwrap()), line);
    }
}

#[test]
fn a_step_summarises_each_stretch_of_time() {
    let reply = ask(r#"{"op":"read","metrics":["cpu_percent"],"step_ms":400,"extremes":true}"#);
    // Stretches are counted from the epoch: 100 to 300, 400 to 700, 800 to 1000.
    assert_eq!(
        reply,
        json(
            r#"{"ok":true,"v":1,"step_ms":400,"timestamps":[0,400,800],
                "series":{"cpu_percent":[2.0,5.5,9.0]},
                "min":{"cpu_percent":[1.0,4.0,8.0]},
                "max":{"cpu_percent":[3.0,7.0,10.0]}}"#
        )
    );
    let reply = ask(r#"{"op":"read","metrics":["cpu_percent"],"step_ms":400}"#);
    assert!(reply.get("min").is_none() && reply.get("max").is_none());
}

#[test]
fn gaps_are_left_out_of_a_summary() {
    let values = bits(&[f64::NAN, 3.0, f64::INFINITY, -5.0, f64::NEG_INFINITY]);
    assert_eq!(least(&values), Some((-5.0_f64).to_bits()));
    assert_eq!(greatest(&values), Some(3.0_f64.to_bits()));
    assert_eq!(average(&mean, &values), Some((-1.0_f64).to_bits()));
    let gaps = bits(&[f64::NAN, f64::INFINITY]);
    assert_eq!(least(&gaps), None);
    assert_eq!(greatest(&gaps), None);
    assert_eq!(average(&mean, &gaps), None);
    assert_eq!(average(&mean, &[]), None);
}

#[test]
fn extremes_follow_the_order_of_numbers() {
    let values = bits(&[-1.5, -1e300, -1e-300, 0.0, 1e-300, 2.0, 1e300]);
    for i in 0..values.len() {
        for j in i..values.len() {
            if i != 1 && j != 1 {
                let (a, b) = (f64::from_bits(values[i]), f64::from_bits(values[j]));
                let pair = [values[j], values[i]];
                assert_eq!(least(&pair), Some(a.min(b).to_bits()), "{a} {b}");
                assert_eq!(greatest(&pair), Some(a.max(b).to_bits()), "{a} {b}");
            }
        }
    }
    assert_eq!(least(&values), Some((-1e300_f64).to_bits()));
    assert_eq!(greatest(&values), Some(1e300_f64.to_bits()));
}

#[test]
fn records_are_gathered_by_the_stretch_they_fall_in() {
    assert_eq!(
        gather(&[5, 9, 10, 31, 39], 10),
        [
            Bucket { start: 0, first: 0, end: 2 },
            Bucket { start: 10, first: 2, end: 3 },
            Bucket { start: 30, first: 3, end: 5 },
        ]
    );
    assert_eq!(gather(&[], 10), []);
    assert_eq!(gather(&[u64::MAX], u64::MAX), [Bucket { start: u64::MAX, first: 0, end: 1 }]);
}

#[test]
fn the_step_for_so_many_points_is_a_whole_number_of_intervals() {
    // Three steps cover 900 ms, and four points hold them wherever they start.
    assert_eq!(choose_step(900, 4, 100), 300);
    assert_eq!(choose_step(901, 4, 100), 400);
    assert_eq!(choose_step(0, 4, 100), 100);
    assert_eq!(choose_step(10, 100, 100), 100);
    assert_eq!(choose_step(u64::MAX, 2, 10), u64::MAX / 10 * 10);
}

#[test]
fn at_most_so_many_points_are_given() {
    for points in 2..12 {
        let reply = ask(&format!(r#"{{"op":"read","metrics":["load1"],"max_points":{points}}}"#));
        let n = reply["timestamps"].as_array().unwrap().len();
        assert!(n >= 1 && n <= points, "{n} of {points}");
        assert_eq!(reply["step_ms"].as_u64().unwrap() % 100, 0);
    }
    let nothing = ask(r#"{"op":"read","from":5000,"max_points":3}"#);
    assert_eq!(nothing["timestamps"], json("[]"));
    assert_eq!(nothing["step_ms"], 100);
}

#[test]
fn every_column_is_as_long_as_the_times() {
    let options = ReadOptions { from: 0, to: u64::MAX, metrics: None, detail: Detail::Step(300), extremes: true };
    let shared = shared();
    let columns = columns_of(&shared.schema, &options.metrics).unwrap();
    assert_eq!(columns, [0, 1, 2, 3, 4, 5, 6]);
    let figures = recall(&shared, &options, &columns, &mean);
    let (low, high) = figures.extremes.unwrap();
    assert_eq!(figures.timestamps, [0, 300, 600, 900]);
    for column in figures.series.iter().chain(&low).chain(&high) {
        assert_eq!(column.len(), 4);
    }
}

#[test]
fn a_summary_of_nothing_is_empty() {
    let nothing = Snapshot { timestamps: vec![], columns: vec![vec![]] };
    let told = figures(nothing, Some(10), true, &mean);
    assert!(told.timestamps.is_empty());
    assert_eq!(told.series, [vec![]]);
}

#[test]
fn an_unknown_metric_is_an_error() {
    assert_eq!(
        columns_of(&shared().schema, &Some(vec!["load1".to_owned(), "x".to_owned()])),
        Err(OptionError::UnknownMetric("x".to_owned()))
    );
}
