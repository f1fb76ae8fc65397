//! The socket protocol: requests and responses.

use serde_json::Value;

use simple_metrics::metrics::Schema;
use simple_metrics::protocol::{
    parse_request, respond, respond_error, Request, RequestError, MAX_REQUEST_BYTES, VERSION,
};
use simple_metrics::state::Shared;
use simple_metrics::store::Store;

fn number(bits: u64) -> Option<serde_json::Number> {
    serde_json::Number::from_f64(f64::from_bits(bits))
}

fn bits(row: &[f64]) -> Vec<u64> {
    row.iter().map(|v| v.to_bits()).collect()
}

fn json(text: &str) -> Value {
    serde_json::from_str(text).unwrap()
}

fn shared_with(rows: &[(u64, &[f64])]) -> Shared {
    let schema = Schema::new(&["eth0".to_owned()]);
    let store = Store::new(4, schema.len()).unwrap();
    let mut shared = Shared::new(schema, 5000, store);
    for (timestamp, row) in rows {
        shared.write().push(*timestamp, &bits(row)).unwrap();
    }
    shared
}

/// A full row for the schema above: 5 fixed metrics and eth0's two rates.
fn row(seed: f64) -> Vec<f64> {
    (0..7).map(|i| seed + f64::from(i)).collect()
}

fn newlines(text: &str) -> usize {
    text.matches('\n').count()
}

fn respond_to(request: Request, shared: &Shared) -> Value {
    let out = respond(request, shared, &number);
    assert_eq!(out.as_bytes().last(), Some(&b'\n'));
    assert_eq!(newlines(&out), 1, "one line only");
    json(&out)
}

#[test]
fn parses_each_op() {
    assert_eq!(parse_request(r#"{"op":"info"}"#), Ok(Request::Info));
    assert_eq!(parse_request(r#"{"op":"metrics"}"#), Ok(Request::Metrics));
    assert_eq!(parse_request(r#"{"op":"latest"}"#), Ok(Request::Latest));
    assert_eq!(parse_request(r#"{"op":"read"}"#), Ok(Request::Read));
}

#[test]
fn ignores_fields_it_does_not_know() {
    let request = r#"{"op":"read","from":1,"metrics":["x"],"extra":{"a":[1]}}"#;
    assert_eq!(parse_request(request), Ok(Request::Read));
}

#[test]
fn accepts_the_version_it_speaks_and_refuses_others() {
    assert_eq!(parse_request(r#"{"v":1,"op":"info"}"#), Ok(Request::Info));
    assert_eq!(parse_request(r#"{"v":2,"op":"info"}"#), Err(RequestError::UnsupportedVersion(2)));
    for bad in [r#""1""#, "1.5", "-1", "null", "true"] {
        let request = format!(r#"{{"v":{bad},"op":"info"}}"#);
        assert_eq!(parse_request(&request), Err(RequestError::BadVersion), "{bad}");
    }
}

#[test]
fn refuses_what_is_not_a_request() {
    assert_eq!(parse_request("not json"), Err(RequestError::NotJson));
    assert_eq!(parse_request(""), Err(RequestError::NotJson));
    assert_eq!(parse_request(r#"{"op":"info""#), Err(RequestError::NotJson));
    for text in ["[]", "1", r#""info""#, "null"] {
        assert_eq!(parse_request(text), Err(RequestError::NotAnObject), "{text}");
    }
    assert_eq!(parse_request("{}"), Err(RequestError::MissingOp));
    assert_eq!(parse_request(r#"{"op":7}"#), Err(RequestError::OpNotAString));
    assert_eq!(
        parse_request(r#"{"op":"drop tables"}"#),
        Err(RequestError::UnknownOp("drop tables".to_owned()))
    );
}

#[test]
fn an_unknown_op_message_is_short_however_long_the_op() {
    let request = format!(r#"{{"op":"{}"}}"#, "x".repeat(10_000));
    let message = parse_request(&request).unwrap_err().message();
    assert!(message.len() < 200, "{}", message.len());
}

#[test]
fn each_refusal_says_why() {
    let message = |line: &str| parse_request(line).unwrap_err().message();
    assert_eq!(message("{"), "request is not valid JSON");
    assert_eq!(message("[]"), "request must be a JSON object");
    assert_eq!(message("{}"), "request has no \"op\"");
    assert_eq!(message(r#"{"op":1}"#), "\"op\" must be a string");
    assert_eq!(message(r#"{"op":"x"}"#), "unknown op \"x\" (try info, metrics, latest or read)");
    assert_eq!(message(r#"{"v":"x"}"#), "\"v\" must be a whole number");
    assert_eq!(message(r#"{"v":99}"#), "unsupported protocol version 99 (this server speaks 1)");
}

#[test]
fn the_version_is_looked_at_before_the_op() {
    assert_eq!(parse_request(r#"{"op":"nope","v":3}"#), Err(RequestError::UnsupportedVersion(3)));
    assert_eq!(
        parse_request(r#"{"v":18446744073709551615,"op":"info"}"#),
        Err(RequestError::UnsupportedVersion(u64::MAX))
    );
    assert_eq!(VERSION, 1);
    assert_eq!(MAX_REQUEST_BYTES, 64 * 1024);
}

#[test]
fn info_describes_the_collector_and_its_store() {
    let shared = shared_with(&[(1000, &row(0.0)), (2000, &row(1.0))]);
    let response = respond_to(Request::Info, &shared);
    assert_eq!(response["ok"], true);
    assert_eq!(response["v"], 1);
    assert_eq!(response["version"], simple_metrics::VERSION);
    assert_eq!(response["interval_ms"], 5000);
    assert_eq!(response["capacity"], 4);
    assert_eq!(response["len"], 2);
    assert_eq!(response["metrics"], 7);
}

#[test]
fn info_has_its_fields_in_order() {
    let shared = shared_with(&[(1000, &row(0.0))]);
    assert_eq!(
        respond(Request::Info, &shared, &number),
        "{\"ok\":true,\"v\":1,\"version\":\"0.1.0\",\"interval_ms\":5000,\"capacity\":4,\"len\":1,\"metrics\":7}\n"
    );
}

#[test]
fn metrics_lists_names_labels_and_units_in_record_order() {
    let response = respond_to(Request::Metrics, &shared_with(&[]));
    let metrics = response["metrics"].as_array().unwrap();
    assert_eq!(metrics.len(), 7);
    assert_eq!(metrics[0], json(r#"{"name":"cpu_percent","label":"CPU","unit":"%"}"#));
    assert_eq!(metrics[5]["name"], "net_eth0_rx_bytes_per_sec");
    assert_eq!(metrics[5]["unit"], "bytes/s");
}

#[test]
fn latest_with_nothing_recorded_has_a_null_timestamp() {
    let response = respond_to(Request::Latest, &shared_with(&[]));
    assert_eq!(response["ok"], true);
    assert!(response["timestamp"].is_null());
    assert_eq!(response["values"], json("{}"));
}

#[test]
fn latest_returns_the_newest_record_by_metric_name() {
    let shared = shared_with(&[(1000, &row(0.0)), (2000, &row(10.0))]);
    let response = respond_to(Request::Latest, &shared);
    assert_eq!(response["timestamp"], 2000);
    assert_eq!(response["values"]["cpu_percent"], 10.0);
    assert_eq!(response["values"]["load1"], 11.0);
    assert_eq!(response["values"]["net_eth0_tx_bytes_per_sec"], 16.0);
}

#[test]
fn a_value_that_could_not_be_measured_is_null() {
    let mut gappy = row(1.0);
    gappy[4] = f64::NAN;
    let shared = shared_with(&[(1000, &gappy)]);
    let response = respond_to(Request::Latest, &shared);
    assert!(response["values"]["cpu_temp_celsius"].is_null());
    assert_eq!(response["values"]["cpu_percent"], 1.0);
}

#[test]
fn a_value_that_could_not_be_measured_is_null_whatever_it_would_be_made_into() {
    let seven = |_: u64| Some(serde_json::Number::from(7_u64));
    let mut gappy = row(1.0);
    gappy[0] = f64::NAN;
    gappy[1] = f64::NEG_INFINITY;
    let shared = shared_with(&[(1000, &gappy)]);
    let latest = json(&respond(Request::Latest, &shared, &seven));
    assert!(latest["values"]["cpu_percent"].is_null());
    assert!(latest["values"]["load1"].is_null());
    assert_eq!(latest["values"]["mem_used_bytes"], 7);
    let read = json(&respond(Request::Read, &shared, &seven));
    assert_eq!(read["series"]["cpu_percent"], json("[null]"));
    assert_eq!(read["series"]["mem_used_bytes"], json("[7]"));
}

#[test]
fn read_returns_every_record_as_aligned_columns() {
    let shared = shared_with(&[(1000, &row(0.0)), (2000, &row(10.0)), (3000, &row(20.0))]);
    let response = respond_to(Request::Read, &shared);
    assert_eq!(response["ok"], true);
    assert_eq!(response["timestamps"], json("[1000, 2000, 3000]"));
    let series = response["series"].as_object().unwrap();
    assert_eq!(series.len(), 7);
    assert_eq!(series["cpu_percent"], json("[0.0, 10.0, 20.0]"));
    assert_eq!(series["net_eth0_tx_bytes_per_sec"], json("[6.0, 16.0, 26.0]"));
    for column in series.values() {
        assert_eq!(column.as_array().unwrap().len(), 3);
    }
}

#[test]
fn read_of_an_empty_store_has_empty_columns() {
    let response = respond_to(Request::Read, &shared_with(&[]));
    assert_eq!(response["timestamps"], json("[]"));
    assert_eq!(response["series"]["cpu_percent"], json("[]"));
}

#[test]
fn read_writes_gaps_as_null_and_stays_valid_json() {
    let mut gappy = row(1.0);
    gappy[0] = f64::NAN;
    gappy[6] = f64::INFINITY;
    let shared = shared_with(&[(1000, &gappy)]);
    let response = respond_to(Request::Read, &shared);
    assert_eq!(response["series"]["cpu_percent"], json("[null]"));
    assert_eq!(response["series"]["net_eth0_tx_bytes_per_sec"], json("[null]"));
}

#[test]
fn read_after_the_store_has_wrapped_is_still_oldest_first() {
    let rows: Vec<(u64, Vec<f64>)> =
        (1..=6_u32).map(|i| (u64::from(i) * 1000, row(f64::from(i)))).collect();
    let borrowed: Vec<(u64, &[f64])> = rows.iter().map(|(t, r)| (*t, r.as_slice())).collect();
    let response = respond_to(Request::Read, &shared_with(&borrowed));
    assert_eq!(response["timestamps"], json("[3000, 4000, 5000, 6000]"));
    assert_eq!(response["series"]["cpu_percent"], json("[3.0, 4.0, 5.0, 6.0]"));
}

#[test]
fn a_read_is_written_compactly() {
    let shared = shared_with(&[(1000, &[0.5, 1.0, 2.0, 3.0, f64::NAN, 5.0, 6.25])]);
    assert_eq!(
        respond(Request::Read, &shared, &number),
        "{\"ok\":true,\"v\":1,\"timestamps\":[1000],\"series\":{\"cpu_percent\":[0.5],\"load1\":[1.0],\
         \"mem_used_bytes\":[2.0],\"swap_used_bytes\":[3.0],\"cpu_temp_celsius\":[null],\
         \"net_eth0_rx_bytes_per_sec\":[5.0],\"net_eth0_tx_bytes_per_sec\":[6.25]}}\n"
    );
}

#[test]
fn every_response_is_written_as_its_json_is() {
    let shared = shared_with(&[(1000, &[0.5, 1e300, -2.0, 3.25, f64::NAN, 5.0, 6.25]), (2000, &row(1.5))]);
    for request in [Request::Info, Request::Metrics, Request::Latest, Request::Read] {
        let line = respond(request, &shared, &number);
        assert_eq!(format!("{}\n", json(&line)), line);
    }
    let line = respond_error("a \"quoted\" \\ and\ta tab, \u{1}, \u{7f}, é");
    assert_eq!(line, "{\"ok\":false,\"v\":1,\"error\":\"a \\\"quoted\\\" \\\\ and\\ta tab, \\u0001, \u{7f}, é\"}\n");
    assert_eq!(format!("{}\n", json(&line)), line);
}

#[test]
fn an_error_response_is_one_line_of_valid_json_however_odd_the_message() {
    let out = respond_error("bad \"thing\"\nwith a newline");
    assert_eq!(newlines(&out), 1);
    let response = json(&out);
    assert_eq!(response["ok"], false);
    assert_eq!(response["v"], 1);
    assert_eq!(response["error"], "bad \"thing\"\nwith a newline");
}

#[test]
fn an_error_response_has_its_fields_in_order() {
    assert_eq!(respond_error("no"), "{\"ok\":false,\"v\":1,\"error\":\"no\"}\n");
}
