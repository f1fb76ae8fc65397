//! Answering the requests on a connection.

use simple_metrics::dialogue::{hear, see, tell, Asked, Seen};
use simple_metrics::metrics::Schema;
use simple_metrics::protocol::MAX_REQUEST_BYTES;
use simple_metrics::server::{
    handle_connection, listen, next_action, next_part, read_line, Action, Failure, Heard, Line, Part, Slot, Slots,
    MAX_CONNECTIONS,
};
use simple_metrics::state::Shared;
use simple_metrics::store::Store;

fn number(bits: u64) -> Option<serde_json::Number> {
    serde_json::Number::from_f64(f64::from_bits(bits))
}

fn mean(values: Vec<u64>) -> u64 {
    let sum: f64 = values.iter().map(|v| f64::from_bits(*v)).sum();
    (sum / values.len() as f64).to_bits()
}

fn shared() -> Shared {
    let schema = Schema::new(&["eth0".to_owned()]);
    let store = Store::new(4, schema.len()).unwrap();
    let mut shared = Shared::new(schema, 5000, store);
    shared.write().push(1000, &[1.0_f64.to_bits(); 7]).unwrap();
    shared
}

/// Feeds `input` to a connection and returns each line of its output.
fn converse(input: &[u8]) -> Vec<String> {
    let replies = handle_connection(input, &shared(), &number, &mean);
    replies.concat().lines().map(ToOwned::to_owned).collect()
}

fn ok(line: &str) -> bool {
    serde_json::from_str::<serde_json::Value>(line).unwrap()["ok"] == true
}

#[test]
fn answers_each_request_on_a_connection_in_order() {
    let replies = converse(b"{\"op\":\"info\"}\n{\"op\":\"latest\"}\n{\"op\":\"metrics\"}\n");
    assert_eq!(replies.len(), 3);
    assert!(replies.iter().all(|r| ok(r)));
    assert!(replies[0].contains("\"interval_ms\""));
    assert!(replies[1].contains("\"timestamp\""));
    assert!(replies[2].contains("\"cpu_percent\""));
}

#[test]
fn a_final_request_with_no_newline_is_still_answered() {
    let replies = converse(b"{\"op\":\"info\"}");
    assert_eq!(replies.len(), 1);
    assert!(ok(&replies[0]));
}

#[test]
fn a_bad_request_gets_an_error_and_the_connection_carries_on() {
    let replies = converse(b"nonsense\n{\"op\":\"info\"}\n{\"op\":\"nope\"}\n{\"op\":\"info\"}\n");
    assert_eq!(replies.len(), 4);
    let flags: Vec<bool> = replies.iter().map(|r| ok(r)).collect();
    assert_eq!(flags, [false, true, false, true]);
    assert!(replies[0].contains("not valid JSON"));
    assert!(replies[2].contains("unknown op"));
}

#[test]
fn blank_lines_are_ignored() {
    let replies = converse(b"\n\n   \r\n{\"op\":\"info\"}\r\n\n");
    assert_eq!(replies.len(), 1);
}

#[test]
fn invalid_utf8_is_an_error_not_a_crash() {
    let replies = converse(b"\xff\xfe\n{\"op\":\"info\"}\n");
    assert_eq!(replies.len(), 2);
    assert!(replies[0].contains("UTF-8"));
    assert!(ok(&replies[1]));
}

#[test]
fn a_request_that_is_too_long_is_refused_and_the_connection_closed() {
    let mut input = vec![b'x'; MAX_REQUEST_BYTES + 10];
    input.extend_from_slice(b"\n{\"op\":\"info\"}\n");
    let replies = converse(&input);
    assert_eq!(replies.len(), 1);
    assert!(replies[0].contains("request too long"));
}

#[test]
fn a_request_at_exactly_the_limit_is_accepted() {
    let padding = MAX_REQUEST_BYTES - "{\"op\":\"info\",\"p\":\"\"}".len();
    let request = format!("{{\"op\":\"info\",\"p\":\"{}\"}}\n", "x".repeat(padding - 1));
    assert!(request.len() <= MAX_REQUEST_BYTES + 1);
    let replies = converse(request.as_bytes());
    assert_eq!(replies.len(), 1);
    assert!(ok(&replies[0]), "{}", replies[0]);
}

#[test]
fn silence_ends_the_conversation_quietly() {
    assert!(converse(b"").is_empty());
}

#[test]
fn at_most_max_connections_slots_are_handed_out() {
    let mut active = Slots::new();
    let slots: Vec<Slot> = (0..MAX_CONNECTIONS).map(|_| active.acquire().unwrap()).collect();
    assert!(active.acquire().is_none());
    assert_eq!(active.active(), MAX_CONNECTIONS);
    for slot in slots {
        active.release(slot);
    }
    assert_eq!(active.active(), 0);
    assert!(active.acquire().is_some());
}

#[test]
fn a_connection_with_no_slot_is_told_why() {
    let mut slots = Slots::new();
    for _ in 0..MAX_CONNECTIONS {
        assert!(slots.welcome().is_ok());
    }
    let reply = slots.welcome().unwrap_err();
    assert_eq!(reply, "{\"ok\":false,\"v\":1,\"error\":\"too many connections\"}\n");
    assert_eq!(slots.active(), MAX_CONNECTIONS);
}

#[test]
fn lines_are_told_apart() {
    assert_eq!(read_line(b""), (0, Line::Eof));
    assert_eq!(read_line(b"x"), (1, Line::Complete));
    assert_eq!(read_line(b"\n"), (1, Line::Complete));
    assert_eq!(read_line(b"ab\ncd\n"), (3, Line::Complete));
    assert_eq!(read_line(b"ab"), (2, Line::Complete));
}

#[test]
fn a_line_is_never_read_past_the_limit() {
    assert_eq!(read_line(&vec![b'x'; MAX_REQUEST_BYTES]), (MAX_REQUEST_BYTES, Line::Complete));
    assert_eq!(read_line(&vec![b'x'; MAX_REQUEST_BYTES + 1]), (MAX_REQUEST_BYTES, Line::TooLong));
    assert_eq!(read_line(&vec![b'x'; 3 * MAX_REQUEST_BYTES]), (MAX_REQUEST_BYTES, Line::TooLong));
    let mut full = vec![b'x'; MAX_REQUEST_BYTES];
    full.push(b'\n');
    full.push(b'y');
    assert_eq!(read_line(&full), (MAX_REQUEST_BYTES + 1, Line::Complete));
}

#[test]
fn a_line_may_arrive_in_parts() {
    let part = |keep: usize, take: usize, kind: Option<Line>| Part { keep, take, kind };
    assert_eq!(next_part(0, b""), part(0, 0, Some(Line::Eof)));
    assert_eq!(next_part(2, b""), part(0, 0, Some(Line::Complete)));
    assert_eq!(next_part(0, b"ab"), part(2, 2, None));
    assert_eq!(next_part(2, b"c\nd"), part(1, 2, Some(Line::Complete)));
    assert_eq!(next_part(2, b"\nd"), part(0, 1, Some(Line::Complete)));
    // Only the byte after a full line tells whether the line is too long.
    assert_eq!(next_part(MAX_REQUEST_BYTES - 1, b"a"), part(1, 1, None));
    assert_eq!(next_part(MAX_REQUEST_BYTES, b"\nb"), part(0, 1, Some(Line::Complete)));
    assert_eq!(next_part(MAX_REQUEST_BYTES, b""), part(0, 0, Some(Line::Complete)));
    assert_eq!(next_part(MAX_REQUEST_BYTES, b"b"), part(0, 0, Some(Line::TooLong)));
    assert_eq!(next_part(MAX_REQUEST_BYTES - 1, b"ab\n"), part(1, 1, Some(Line::TooLong)));
}

#[test]
fn parts_of_any_size_make_up_the_same_line() {
    let mut input = vec![b'x'; MAX_REQUEST_BYTES];
    for (end, kind) in [(&b"\ny"[..], Line::Complete), (&b"xx\n"[..], Line::TooLong), (&b""[..], Line::Complete)] {
        input.truncate(MAX_REQUEST_BYTES);
        input.extend_from_slice(end);
        for size in [1, 1000, MAX_REQUEST_BYTES, 2 * MAX_REQUEST_BYTES] {
            let mut line = Vec::new();
            let mut at = 0;
            let told = loop {
                let available = &input[at..input.len().min(at + size)];
                let part = next_part(line.len(), available);
                line.extend_from_slice(&available[..part.keep]);
                at += part.take;
                assert!(line.len() <= MAX_REQUEST_BYTES);
                if let Some(told) = part.kind {
                    break told;
                }
            };
            assert_eq!(told, kind);
            assert_eq!(line, vec![b'x'; MAX_REQUEST_BYTES]);
            assert_eq!((at, told), read_line(&input));
        }
    }
}

#[test]
fn each_line_leads_to_an_action() {
    let act = |line: &[u8], kind: Line| next_action(line, kind, &shared(), &number, &mean);
    assert_eq!(act(b"", Line::Eof), Action::Close);
    assert_eq!(act(b"", Line::Complete), Action::Skip);
    assert_eq!(act(b" ", Line::Complete), Action::Skip);
    assert_eq!(
        act(&vec![b'x'; MAX_REQUEST_BYTES], Line::TooLong),
        Action::Refuse("{\"ok\":false,\"v\":1,\"error\":\"request too long\"}\n".to_owned())
    );
    assert_eq!(
        act(b"\xff", Line::Complete),
        Action::Reply("{\"ok\":false,\"v\":1,\"error\":\"request is not valid UTF-8\"}\n".to_owned())
    );
}

#[test]
fn a_blank_line_has_no_answer() {
    let heard = |line: &[u8]| listen(line, Line::Complete);
    assert_eq!(heard(b""), Heard::Blank);
    assert_eq!(heard(b" \t\r"), Heard::Blank);
    // A no-break space is white space too.
    assert_eq!(heard("\u{a0}".as_bytes()), Heard::Blank);
    assert!(matches!(heard(b"x"), Heard::Request(_)));
}

#[test]
fn what_is_heard_seen_and_told_is_the_answer() {
    assert_eq!(hear(r#"{"op":"info"}"#), Asked::Info);
    assert_eq!(hear(r#"{"op":"metrics"}"#), Asked::Metrics);
    assert_eq!(hear(r#"{"op":"latest"}"#), Asked::Latest);
    assert_eq!(
        hear("x"),
        Asked::Answered("{\"ok\":false,\"v\":1,\"error\":\"request is not valid JSON\"}\n".to_owned())
    );
    let collector = shared();
    assert_eq!(
        see(Asked::Info, &collector),
        Seen::Facts { interval_ms: 5000, capacity: 4, len: 1, metrics: 7 }
    );
    assert_eq!(
        see(Asked::Latest, &collector),
        Seen::Newest { schema: Schema::new(&["eth0".to_owned()]), record: Some((1000, vec![1.0_f64.to_bits(); 7])) }
    );
    for text in [
        r#"{"op":"info"}"#,
        r#"{"op":"metrics"}"#,
        r#"{"op":"latest"}"#,
        r#"{"op":"read"}"#,
        r#"{"op":"read","metrics":["load1"],"step_ms":1000,"extremes":true}"#,
        r#"{"op":"read","metrics":["nope"]}"#,
        r#"{"op":"read","from":2,"to":1}"#,
        "x",
    ] {
        let told = tell(see(hear(text), &collector), &number, &mean);
        let heard = listen(text.as_bytes(), Line::Complete);
        assert_eq!(heard, Heard::Request(hear(text)));
        assert_eq!(next_action(text.as_bytes(), Line::Complete, &collector, &number, &mean), Action::Reply(told));
    }
}

#[test]
fn every_response_says_ok_and_the_version() {
    let replies = converse(
        b"{\"op\":\"info\"}\n{\"op\":\"metrics\"}\n{\"op\":\"latest\"}\n{\"op\":\"read\"}\n\
          {\"op\":\"read\",\"step_ms\":5}\n{\"op\":\"read\",\"from\":[]}\nx\n\xff\n",
    );
    assert_eq!(replies.len(), 8);
    for reply in replies {
        let value: serde_json::Value = serde_json::from_str(&reply).unwrap();
        assert!(value["ok"].is_boolean(), "{reply}");
        assert_eq!(value["v"], 1, "{reply}");
    }
}

#[test]
fn only_unusual_failures_are_logged() {
    assert!(!Failure::BrokenPipe.is_worth_logging());
    assert!(!Failure::ConnectionReset.is_worth_logging());
    assert!(!Failure::WouldBlock.is_worth_logging());
    assert!(!Failure::TimedOut.is_worth_logging());
    assert!(Failure::Other.is_worth_logging());
}
