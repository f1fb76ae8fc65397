//! The socket protocol: JSON lines.
//!
//! A client sends one JSON object per line and gets exactly one line of JSON
//! back for each. A connection can carry any number of requests.
//!
//! ```text
//! -> {"op":"info"}
//! <- {"ok":true,"v":1,"version":"0.1.0","interval_ms":5000,"capacity":120960,"len":42,"metrics":15}
//! ```
//!
//! Every response has `"ok"` and `"v"` (the protocol version). A failure is
//! `{"ok":false,"v":1,"error":"..."}`. A request may include `"v"` too, to
//! insist on a version: the server refuses one it doesn't speak. Fields it
//! doesn't know are ignored, so a later version can add to a request.
//!
//! | `op` | Response fields |
//! |---|---|
//! | `info` | `version`, `interval_ms`, `capacity`, `len`, `metrics` (a count) |
//! | `metrics` | `metrics`: a list of `{name, label, unit}` in record order |
//! | `latest` | `timestamp` (ms since the Unix epoch, or `null` if nothing is recorded yet) and `values`: `{name: number or null}` |
//! | `read` | `timestamps` (oldest first) and `series`: `{name: [number or null, ...]}`, each the same length as `timestamps` |
//!
//! A value that couldn't be measured is `null`. What else a `read` can ask for
//! is in [`crate::read`].
use vstd::prelude::*;

use crate::downsample::{is_measured, was_measured};
use crate::json::{
    distinct, field_texts, field_trees, fold, from_text, item_texts, item_trees, json_parse, json_text,
    lemma_array_and_object, lemma_field_texts, lemma_item_texts, lemma_orderly, number, number_text, number_to_text,
    orderly, plain, settled, simple, stands_for, string_text, to_text, unfold, Json, Tree,
};
use crate::metrics::{metrics_text, MetricText, Schema};
use crate::state::Shared;
use crate::store::{column, times, Record};
use crate::text::{
    chars_of, decimal, decimal_of, first_of, join, joined, lemma_decimal_unbroken, lemma_join_unbroken, lemma_mentions,
    mentions, one_line, same,
    text_of, texts, unbroken,
};

verus! {

/// The protocol version this server speaks.
pub const VERSION: u32 = 1;

/// The longest request line accepted, in bytes.
pub const MAX_REQUEST_BYTES: usize = 65_536;

/// What a client can ask for.
#[derive(Debug, Clone, Copy, PartialEq, Eq)]
pub enum Request {
    /// Facts about the collector and its store.
    Info,
    /// The list of metrics in every record.
    Metrics,
    /// The newest record.
    Latest,
    /// Every record held.
    Read,
}

/// Why a request line couldn't be turned into a [`Request`].
#[derive(Debug, Clone, PartialEq, Eq)]
pub enum RequestError {
    /// Not valid JSON.
    NotJson,
    /// Valid JSON, but not an object.
    NotAnObject,
    /// No `op` field.
    MissingOp,
    /// `op` wasn't a string.
    OpNotAString,
    /// An `op` this server doesn't have.
    UnknownOp(String),
    /// `v` wasn't a whole number.
    BadVersion,
    /// `v` asked for a version other than [`VERSION`].
    UnsupportedVersion(u64),
}

/// What a [`RequestError`] says.
pub ghost enum Refusal {
    /// Not valid JSON.
    NotJson,
    /// Valid JSON, but not an object.
    NotAnObject,
    /// No `op` field.
    MissingOp,
    /// `op` wasn't a string.
    OpNotAString,
    /// An `op` this server doesn't have.
    UnknownOp(Seq<char>),
    /// `v` wasn't a whole number.
    BadVersion,
    /// `v` asked for a version other than [`VERSION`].
    UnsupportedVersion(u64),
}

impl View for RequestError {
    type V = Refusal;

    open spec fn view(&self) -> Refusal {
        match self {
            RequestError::NotJson => Refusal::NotJson,
            RequestError::NotAnObject => Refusal::NotAnObject,
            RequestError::MissingOp => Refusal::MissingOp,
            RequestError::OpNotAString => Refusal::OpNotAString,
            RequestError::UnknownOp(op) => Refusal::UnknownOp(op@),
            RequestError::BadVersion => Refusal::BadVersion,
            RequestError::UnsupportedVersion(v) => Refusal::UnsupportedVersion(*v),
        }
    }
}

/// At most the first forty characters of `op`.
pub open spec fn shown(op: Seq<char>) -> Seq<char> {
    if op.len() > 40 {
        op.take(40)
    } else {
        op
    }
}

impl Refusal {
    /// The refusal in words, short however long the request.
    pub open spec fn words(self) -> Seq<char> {
        match self {
            Refusal::NotJson => "request is not valid JSON"@,
            Refusal::NotAnObject => "request must be a JSON object"@,
            Refusal::MissingOp => "request has no \"op\""@,
            Refusal::OpNotAString => "\"op\" must be a string"@,
            Refusal::UnknownOp(op) => "unknown op \""@ + shown(op) + "\" (try info, metrics, latest or read)"@,
            Refusal::BadVersion => "\"v\" must be a whole number"@,
            Refusal::UnsupportedVersion(v) => "unsupported protocol version "@ + decimal(v as nat)
                + " (this server speaks "@ + decimal(VERSION as nat) + ")"@,
        }
    }
}

impl RequestError {
    /// The error in words.
    pub fn message(&self) -> (r: String)
        ensures
            r@ == self@.words(),
    {
        match self {
            RequestError::NotJson => "request is not valid JSON".to_owned(),
            RequestError::NotAnObject => "request must be a JSON object".to_owned(),
            RequestError::MissingOp => "request has no \"op\"".to_owned(),
            RequestError::OpNotAString => "\"op\" must be a string".to_owned(),
            RequestError::UnknownOp(op) => {
                let chars = chars_of(op);
                let start = if chars.len() > 40 {
                    first_of(&chars, 40)
                } else {
                    chars.as_slice()
                };
                "unknown op \"".to_owned().concat(&text_of(start)).concat(
                    "\" (try info, metrics, latest or read)",
                )
            },
            RequestError::BadVersion => "\"v\" must be a whole number".to_owned(),
            RequestError::UnsupportedVersion(v) => "unsupported protocol version ".to_owned().concat(
                &decimal_of(*v),
            ).concat(" (this server speaks ").concat(&decimal_of(VERSION as u64)).concat(")"),
        }
    }
}

/// The message for a refused request is shorter than two hundred characters,
/// however long the request was.
pub proof fn law_refusals_are_short(refusal: Refusal)
    ensures
        refusal.words().len() < 200,
{
    reveal_strlit("request is not valid JSON");
    reveal_strlit("request must be a JSON object");
    reveal_strlit("request has no \"op\"");
    reveal_strlit("\"op\" must be a string");
    reveal_strlit("unknown op \"");
    reveal_strlit("\" (try info, metrics, latest or read)");
    reveal_strlit("\"v\" must be a whole number");
    reveal_strlit("unsupported protocol version ");
    reveal_strlit(" (this server speaks ");
    reveal_strlit(")");
    if let Refusal::UnsupportedVersion(v) = refusal {
        crate::text::lemma_decimal_short(v);
        crate::text::lemma_decimal_short(VERSION as u64);
    }
}

/// What a request that is JSON asks for. The version is looked at first, then
/// the operation; no other field matters.
pub open spec fn request(tree: Tree) -> Result<Request, Refusal> {
    if !(tree is Object) {
        Err(Refusal::NotAnObject)
    } else if tree.field("v"@) is Some && tree.at("v"@).count() is None {
        Err(Refusal::BadVersion)
    } else if tree.field("v"@) is Some && tree.at("v"@).count() != Some(VERSION as nat) {
        Err(Refusal::UnsupportedVersion(tree.at("v"@).count()->0 as u64))
    } else if tree.field("op"@) is None {
        Err(Refusal::MissingOp)
    } else {
        match tree.at("op"@).string() {
            None => Err(Refusal::OpNotAString),
            Some(op) => if op == "info"@ {
                Ok(Request::Info)
            } else if op == "metrics"@ {
                Ok(Request::Metrics)
            } else if op == "latest"@ {
                Ok(Request::Latest)
            } else if op == "read"@ {
                Ok(Request::Read)
            } else {
                Err(Refusal::UnknownOp(op))
            },
        }
    }
}

/// What a request line asks for.
pub open spec fn requested(line: Seq<char>) -> Result<Request, Refusal> {
    match json_parse(line) {
        Err(_) => Err(Refusal::NotJson),
        Ok(tree) => request(tree),
    }
}

/// Turns a request that is JSON into a [`Request`].
///
/// # Errors
/// If it isn't an object with a known `op` (and, if it has a `v`, the
/// supported one).
pub fn request_of(json: &Json) -> (r: Result<Request, RequestError>)
    ensures
        match r {
            Ok(asked) => request(json.tree()) == Ok::<Request, Refusal>(asked),
            Err(e) => request(json.tree()) == Err::<Request, Refusal>(e@),
        },
{
    proof {
        crate::json::lemma_array_and_object(*json);
    }
    if let Json::Object(_fields) = json {
    } else {
        return Err(RequestError::NotAnObject);
    }
    if let Some(version) = json.get("v") {
        match version.as_count() {
            None => {
                return Err(RequestError::BadVersion);
            },
            Some(n) => if n != VERSION as u64 {
                return Err(RequestError::UnsupportedVersion(n));
            },
        }
    }
    let op = match json.get("op") {
        None => {
            return Err(RequestError::MissingOp);
        },
        Some(op) => op,
    };
    let op = match op.as_text() {
        None => {
            return Err(RequestError::OpNotAString);
        },
        Some(op) => op,
    };
    if same(op, "info") {
        Ok(Request::Info)
    } else if same(op, "metrics") {
        Ok(Request::Metrics)
    } else if same(op, "latest") {
        Ok(Request::Latest)
    } else if same(op, "read") {
        Ok(Request::Read)
    } else {
        Err(RequestError::UnknownOp(op.to_owned()))
    }
}

/// Turns one request line into a [`Request`].
///
/// # Errors
/// If the line isn't a JSON object with a known `op` (and, if it has a `v`,
/// the supported one).
pub fn parse_request(line: &str) -> (r: Result<Request, RequestError>)
    ensures
        match r {
            Ok(asked) => requested(line@) == Ok::<Request, Refusal>(asked),
            Err(e) => requested(line@) == Err::<Request, Refusal>(e@),
        },
{
    match from_text(line) {
        Ok(value) => request_of(&unfold(value)),
        Err(_) => Err(RequestError::NotJson),
    }
}

/// A field that the protocol doesn't know changes nothing.
pub proof fn law_unknown_fields_are_ignored(
    before: Seq<(Seq<char>, Tree)>,
    extra: (Seq<char>, Tree),
    after: Seq<(Seq<char>, Tree)>,
)
    requires
        extra.0 != "v"@,
        extra.0 != "op"@,
    ensures
        request(Tree::Object(before + seq![extra] + after)) == request(Tree::Object(before + after)),
{
    crate::json::lemma_find_skips(before, extra, after, "v"@);
    crate::json::lemma_find_skips(before, extra, after, "op"@);
}

/// `text` as a JSON string.
pub(crate) fn quoted(text: &str) -> (r: String)
    ensures
        r@ == string_text(text@),
        unbroken(r@),
{
    let r = to_text(&fold(Json::Text(text.to_owned())));
    assert(unbroken(r@)) by {
        assert forall|i: int| 0 <= i < r@.len() implies #[trigger] r@[i] != '\n' by {
            assert(r@.contains(r@[i]));
        }
    }
    r
}

/// `json` as one line of text, without the newline.
pub(crate) fn written(json: Json) -> (r: String)
    ensures
        r@ == json_text(settled(json.tree())),
        unbroken(r@),
        simple(settled(json.tree()), 8) ==> stands_for(r@, settled(json.tree())),
        simple(settled(json.tree()), 8) ==> stands_for(r@.push('\n'), settled(json.tree())),
{
    let r = to_text(&fold(json));
    assert(unbroken(r@)) by {
        assert forall|i: int| 0 <= i < r@.len() implies #[trigger] r@[i] != '\n' by {
            assert(r@.contains(r@[i]));
        }
    }
    r
}

/// A number in a tree.
pub open spec fn count_tree(n: nat) -> Tree {
    Tree::Number(decimal(n))
}

/// Facts about the collector and its store.
pub open spec fn info_tree(interval_ms: u64, capacity: nat, len: nat, metrics: nat) -> Tree {
    Tree::Object(
        seq![
            ("ok"@, Tree::Bool(true)),
            ("v"@, count_tree(VERSION as nat)),
            ("version"@, Tree::Text(crate::VERSION@)),
            ("interval_ms"@, count_tree(interval_ms as nat)),
            ("capacity"@, count_tree(capacity)),
            ("len"@, count_tree(len)),
            ("metrics"@, count_tree(metrics)),
        ],
    )
}

/// The line that tells `tree`.
pub open spec fn line_of(tree: Tree) -> Seq<char> {
    json_text(settled(tree)) + "\n"@
}

/// A number.
pub(crate) fn count(n: u64) -> (r: Json)
    ensures
        r.tree() == count_tree(n as nat),
{
    Json::Number(number(n))
}

fn text(s: &str) -> (r: Json)
    ensures
        r.tree() == Tree::Text(s@),
{
    Json::Text(s.to_owned())
}

/// The line that tells `json`.
fn line_for(json: Json) -> (line: String)
    ensures
        line@ == line_of(json.tree()),
        one_line(line@),
        simple(settled(json.tree()), 8) ==> stands_for(line@, settled(json.tree())),
{
    let mut line = written(json);
    let ghost start = line@;
    line.append("\n");
    proof {
        reveal_strlit("\n");
        assert(line@ =~= start.push('\n'));
    }
    line
}

/// A failure, and why.
pub open spec fn error_tree(message: Seq<char>) -> Tree {
    Tree::Object(
        seq![
            ("ok"@, Tree::Bool(false)),
            ("v"@, count_tree(VERSION as nat)),
            ("error"@, Tree::Text(message)),
        ],
    )
}

/// Whether `line` is the failure response that says `message`: one line of JSON
/// that reads back as such.
pub open spec fn refuses(message: Seq<char>, line: Seq<char>) -> bool {
    &&& line == line_of(error_tree(message))
    &&& stands_for(line, error_tree(message))
}

/// A count is written in nothing but digits.
proof fn lemma_count_is_simple(n: u64, depth: nat)
    ensures
        simple(count_tree(n as nat), depth),
{
}

/// The one-line failure response that says `message`.
pub fn respond_error(message: &str) -> (line: String)
    ensures
        refuses(message@, line@),
        one_line(line@),
{
    let fields = vec![
        ("ok".to_owned(), Json::Bool(false)),
        ("v".to_owned(), count(VERSION as u64)),
        ("error".to_owned(), self::text(message)),
    ];
    let json = Json::Object(fields);
    proof {
        lemma_array_and_object(json);
        let told = error_tree(message@);
        assert(field_trees(fields@) =~= told->Object_0);
        reveal_strlit("ok");
        reveal_strlit("v");
        reveal_strlit("error");
        lemma_count_is_simple(VERSION as u64, 7);
        reveal_with_fuel(simple, 2);
        reveal_with_fuel(orderly, 2);
        let f = told->Object_0;
        assert(f[0].0.len() == 2 && f[1].0.len() == 1 && f[2].0.len() == 5);
        assert(distinct(f));
        assert(simple(told, 8));
        assert(orderly(told, 8));
        lemma_orderly(told, 8);
    }
    line_for(json)
}

/// The response to a request for facts about the collector and its store.
pub fn info_line(interval_ms: u64, capacity: usize, len: usize, metrics: usize) -> (line: String)
    ensures
        line@ == line_of(info_tree(interval_ms, capacity as nat, len as nat, metrics as nat)),
        one_line(line@),
        stands_for(line@, info_tree(interval_ms, capacity as nat, len as nat, metrics as nat)),
{
    let fields = vec![
        ("ok".to_owned(), Json::Bool(true)),
        ("v".to_owned(), count(VERSION as u64)),
        ("version".to_owned(), self::text(crate::VERSION)),
        ("interval_ms".to_owned(), count(interval_ms)),
        ("capacity".to_owned(), count(capacity as u64)),
        ("len".to_owned(), count(len as u64)),
        ("metrics".to_owned(), count(metrics as u64)),
    ];
    let json = Json::Object(fields);
    proof {
        lemma_array_and_object(json);
        let told = info_tree(interval_ms, capacity as nat, len as nat, metrics as nat);
        assert(field_trees(fields@) =~= told->Object_0);
        reveal_strlit("ok");
        reveal_strlit("v");
        reveal_strlit("version");
        reveal_strlit("interval_ms");
        reveal_strlit("capacity");
        reveal_strlit("len");
        reveal_strlit("metrics");
        lemma_count_is_simple(VERSION as u64, 7);
        lemma_count_is_simple(interval_ms, 7);
        lemma_count_is_simple(capacity as u64, 7);
        lemma_count_is_simple(len as u64, 7);
        lemma_count_is_simple(metrics as u64, 7);
        reveal_with_fuel(simple, 2);
        reveal_with_fuel(orderly, 2);
        let f = told->Object_0;
        assert(f[0].0.len() == 2 && f[1].0.len() == 1 && f[2].0.len() == 7 && f[3].0.len() == 11);
        assert(f[4].0.len() == 8 && f[5].0.len() == 3 && f[6].0.len() == 7 && f[2].0[0] != f[6].0[0]);
        assert(distinct(f));
        assert(simple(told, 8));
        assert(orderly(told, 8));
        lemma_orderly(told, 8);
    }
    line_for(json)
}

/// One metric's name, label and unit.
pub open spec fn metric_tree(m: MetricText) -> Tree {
    Tree::Object(
        seq![("name"@, Tree::Text(m.name)), ("label"@, Tree::Text(m.label)), ("unit"@, Tree::Text(m.unit))],
    )
}

proof fn lemma_metric_tree(m: MetricText)
    ensures
        simple(metric_tree(m), 6),
        orderly(metric_tree(m), 6),
{
    reveal_strlit("name");
    reveal_strlit("label");
    reveal_strlit("unit");
    reveal_with_fuel(simple, 2);
    reveal_with_fuel(orderly, 2);
    assert("name"@[0] != "unit"@[0]);
    assert(distinct(metric_tree(m)->Object_0));
}

/// The list of metrics in every record, in record order.
pub open spec fn metrics_tree(metrics: Seq<MetricText>) -> Tree {
    Tree::Object(
        seq![
            ("ok"@, Tree::Bool(true)),
            ("v"@, count_tree(VERSION as nat)),
            ("metrics"@, Tree::Array(metrics.map_values(|m: MetricText| metric_tree(m)))),
        ],
    )
}

/// The response to a request for the list of metrics.
pub fn metrics_line(schema: &Schema) -> (line: String)
    ensures
        line@ == line_of(metrics_tree(schema@)),
        one_line(line@),
        stands_for(line@, metrics_tree(schema@)),
{
    let metrics = schema.metrics();
    let mut list: Vec<Json> = Vec::new();
    for i in 0..metrics.len()
        invariant
            metrics_text(metrics@) == schema@,
            list@.len() == i,
            forall|j: int| 0 <= j < i ==> (#[trigger] list@[j]).tree() == metric_tree(schema@[j]),
    {
        let m = &metrics[i];
        let fields = vec![
            ("name".to_owned(), self::text(&m.name)),
            ("label".to_owned(), self::text(&m.label)),
            ("unit".to_owned(), self::text(m.unit)),
        ];
        let item = Json::Object(fields);
        proof {
            lemma_array_and_object(item);
            assert(schema@[i as int] == m@);
            assert(field_trees(fields@) =~= metric_tree(m@)->Object_0);
        }
        list.push(item);
    }
    let all = Json::Array(list);
    let fields = vec![
        ("ok".to_owned(), Json::Bool(true)),
        ("v".to_owned(), count(VERSION as u64)),
        ("metrics".to_owned(), all),
    ];
    let json = Json::Object(fields);
    proof {
        lemma_array_and_object(all);
        lemma_array_and_object(json);
        let told = metrics_tree(schema@);
        let items = schema@.map_values(|m: MetricText| metric_tree(m));
        assert(item_trees(list@) =~= items);
        assert(field_trees(fields@) =~= told->Object_0);
        reveal_strlit("ok");
        reveal_strlit("v");
        reveal_strlit("metrics");
        assert forall|i: int| 0 <= i < items.len() implies simple(#[trigger] items[i], 6) && orderly(items[i], 6) by {
            lemma_metric_tree(schema@[i]);
        }
        lemma_count_is_simple(VERSION as u64, 7);
        assert(simple(Tree::Array(items), 7) && orderly(Tree::Array(items), 7));
        reveal_with_fuel(simple, 2);
        reveal_with_fuel(orderly, 2);
        let f = told->Object_0;
        assert(f[0].0.len() == 2 && f[1].0.len() == 1 && f[2].0.len() == 7);
        assert(distinct(f));
        assert(simple(told, 8));
        assert(orderly(told, 8));
        lemma_orderly(told, 8);
    }
    line_for(json)
}

/// A value as JSON: a number, or null for one that couldn't be measured.
pub open spec fn cell_tree(cell: Option<serde_json::Number>) -> Tree {
    match cell {
        Some(n) => Tree::Number(number_text(n)),
        None => Tree::Null,
    }
}

/// The newest record by metric name, or null for its time if there is none.
pub open spec fn latest_tree(
    metrics: Seq<MetricText>,
    latest: Option<(u64, Seq<Option<serde_json::Number>>)>,
) -> Tree {
    let (timestamp, values) = match latest {
        Some((time, cells)) => (
            count_tree(time as nat),
            Seq::new(cells.len(), |i: int| (metrics[i].name, cell_tree(cells[i]))),
        ),
        None => (Tree::Null, seq![]),
    };
    Tree::Object(
        seq![
            ("ok"@, Tree::Bool(true)),
            ("v"@, count_tree(VERSION as nat)),
            ("timestamp"@, timestamp),
            ("values"@, Tree::Object(values)),
        ],
    )
}

/// What the newest record, if there is one, says.
pub open spec fn latest_view(
    latest: Option<(u64, Vec<Option<serde_json::Number>>)>,
) -> Option<(u64, Seq<Option<serde_json::Number>>)> {
    match latest {
        Some((time, cells)) => Some((time, cells@)),
        None => None,
    }
}

/// The response to a request for the newest record: its time and values, if
/// there is one.
pub fn latest_line(schema: &Schema, latest: Option<(u64, Vec<Option<serde_json::Number>>)>) -> (line: String)
    requires
        latest matches Some((time, cells)) ==> cells@.len() == schema@.len(),
    ensures
        line@ == line_of(latest_tree(schema@, latest_view(latest))),
        one_line(line@),
        simple(settled(latest_tree(schema@, latest_view(latest))), 8) ==> stands_for(
            line@,
            settled(latest_tree(schema@, latest_view(latest))),
        ),
        latest is None ==> stands_for(line@, latest_tree(schema@, None)),
{
    let mut values: Vec<(String, Json)> = Vec::new();
    let mut timestamp = Json::Null;
    let ghost given = latest_view(latest);
    let ghost told = latest_tree(schema@, given);
    let ghost pairs: Seq<(Seq<char>, Tree)> = told->Object_0[3].1->Object_0;
    if let Some((time, cells)) = latest {
        timestamp = count(time);
        let metrics = schema.metrics();
        let ghost all = cells@;
        assert(pairs =~= Seq::new(all.len(), |i: int| (schema@[i].name, cell_tree(all[i]))));
        for cell in it: cells
            invariant
                it.seq() == all,
                metrics_text(metrics@) == schema@,
                all.len() == schema@.len(),
                pairs.len() == all.len(),
                forall|j: int| 0 <= j < all.len() ==> #[trigger] pairs[j] == (schema@[j].name, cell_tree(all[j])),
                values@.len() == it.index(),
                forall|j: int|
                    0 <= j < values@.len() ==> ((#[trigger] values@[j]).0@, values@[j].1.tree()) == pairs[j],
        {
            let ghost index = it.index();
            let i: usize = values.len();
            assert(schema@[i as int] == metrics@[i as int]@);
            let value = match cell {
                Some(n) => Json::Number(n),
                None => Json::Null,
            };
            assert(pairs[index] == (schema@[index].name, cell_tree(all[index])));
            values.push((metrics[i].name.clone(), value));
        }
    }
    assert(field_trees(values@) =~= pairs);
    let object = Json::Object(values);
    let fields = vec![
        ("ok".to_owned(), Json::Bool(true)),
        ("v".to_owned(), count(VERSION as u64)),
        ("timestamp".to_owned(), timestamp),
        ("values".to_owned(), object),
    ];
    let json = Json::Object(fields);
    proof {
        lemma_array_and_object(object);
        lemma_array_and_object(json);
        assert(field_trees(fields@) =~= told->Object_0);
        if given is None {
            lemma_no_latest_tree(schema@);
        }
    }
    line_for(json)
}

/// That there is no record yet is said in a way that reads back as it was meant.
proof fn lemma_no_latest_tree(metrics: Seq<MetricText>)
    ensures
        simple(latest_tree(metrics, None), 8),
        settled(latest_tree(metrics, None)) == latest_tree(metrics, None),
{
    let told = latest_tree(metrics, None);
    let f = told->Object_0;
    reveal_strlit("ok");
    reveal_strlit("v");
    reveal_strlit("timestamp");
    reveal_strlit("values");
    assert(f[0].0.len() == 2 && f[1].0.len() == 1 && f[2].0.len() == 9 && f[3].0.len() == 6);
    assert(distinct(f));
    lemma_count_is_simple(VERSION as u64, 7);
    reveal_with_fuel(simple, 3);
    reveal_with_fuel(orderly, 3);
    assert(simple(f[3].1, 7) && orderly(f[3].1, 7));
    assert(simple(told, 8));
    assert(orderly(told, 8));
    lemma_orderly(told, 8);
}

/// A value as it is written.
pub open spec fn cell_text(cell: Option<serde_json::Number>) -> Seq<char> {
    match cell {
        Some(n) => number_text(n),
        None => "null"@,
    }
}

/// The values of one metric.
pub open spec fn cells_text(cells: Seq<Option<serde_json::Number>>) -> Seq<char> {
    "["@ + join(cells.map_values(|c: Option<serde_json::Number>| cell_text(c)), ","@) + "]"@
}

/// The values of several metrics, by name.
pub open spec fn series_text(
    names: Seq<Seq<char>>,
    columns: Seq<Seq<Option<serde_json::Number>>>,
) -> Seq<char> {
    "{"@ + join(
        Seq::new(columns.len(), |k: int| string_text(names[k]) + ":"@ + cells_text(columns[k])),
        ","@,
    ) + "}"@
}

/// Times, in order.
pub open spec fn times_text(timestamps: Seq<u64>) -> Seq<char> {
    "["@ + join(timestamps.map_values(|t: u64| decimal(t as nat)), ","@) + "]"@
}

/// What several columns say.
pub open spec fn columns_view(
    columns: Seq<Vec<Option<serde_json::Number>>>,
) -> Seq<Seq<Option<serde_json::Number>>> {
    columns.map_values(|c: Vec<Option<serde_json::Number>>| c@)
}

/// The values of one metric.
fn cells_written(cells: &[Option<serde_json::Number>]) -> (r: String)
    ensures
        r@ == cells_text(cells@),
        unbroken(r@),
{
    let mut parts: Vec<String> = Vec::new();
    for i in 0..cells.len()
        invariant
            parts@.len() == i,
            forall|j: int| 0 <= j < i ==> (#[trigger] parts@[j])@ == cell_text(cells@[j]) && unbroken(parts@[j]@),
    {
        let part = match &cells[i] {
            Some(n) => number_to_text(n),
            None => "null".to_owned(),
        };
        proof {
            reveal_strlit("null");
            assert forall|k: int| 0 <= k < part@.len() implies #[trigger] part@[k] != '\n' by {
                assert(part@.contains(part@[k]));
            }
        }
        parts.push(part);
    }
    proof {
        assert(texts(parts@) =~= cells@.map_values(|c: Option<serde_json::Number>| cell_text(c)));
        reveal_strlit("[");
        reveal_strlit("]");
        reveal_strlit(",");
        lemma_join_unbroken(texts(parts@), ","@);
    }
    "[".to_owned().concat(&joined(&parts, ",")).concat("]")
}

/// The values of several metrics, by name.
fn series_written(names: &[String], columns: &[Vec<Option<serde_json::Number>>]) -> (r: String)
    requires
        names@.len() == columns@.len(),
    ensures
        r@ == series_text(texts(names@), columns_view(columns@)),
        unbroken(r@),
{
    let ghost all = columns_view(columns@);
    let ghost wanted = Seq::new(
        all.len(),
        |k: int| string_text(texts(names@)[k]) + ":"@ + cells_text(all[k]),
    );
    let mut parts: Vec<String> = Vec::new();
    proof {
        reveal_strlit(":");
        reveal_strlit("{");
        reveal_strlit("}");
        reveal_strlit(",");
    }
    for i in 0..columns.len()
        invariant
            names@.len() == columns@.len(),
            all == columns_view(columns@),
            unbroken(":"@),
            parts@.len() == i,
            forall|j: int|
                0 <= j < i ==> (#[trigger] parts@[j])@ == string_text(texts(names@)[j]) + ":"@ + cells_text(
                    all[j],
                ) && unbroken(parts@[j]@),
    {
        assert(all[i as int] == columns@[i as int]@);
        assert(texts(names@)[i as int] == names@[i as int]@);
        let part = quoted(&names[i]).concat(":").concat(&cells_written(&columns[i]));
        parts.push(part);
    }
    proof {
        assert(texts(parts@) =~= wanted);
        lemma_join_unbroken(texts(parts@), ","@);
        assert(wanted =~= Seq::new(
            all.len(),
            |k: int| string_text(texts(names@)[k]) + ":"@ + cells_text(all[k]),
        ));
    }
    "{".to_owned().concat(&joined(&parts, ",")).concat("}")
}

/// Times, in order.
fn times_written(timestamps: &[u64]) -> (r: String)
    ensures
        r@ == times_text(timestamps@),
        unbroken(r@),
{
    let mut parts: Vec<String> = Vec::new();
    for i in 0..timestamps.len()
        invariant
            parts@.len() == i,
            forall|j: int|
                0 <= j < i ==> (#[trigger] parts@[j])@ == decimal(timestamps@[j] as nat) && unbroken(parts@[j]@),
    {
        proof {
            lemma_decimal_unbroken(timestamps@[i as int] as nat);
        }
        parts.push(decimal_of(timestamps[i]));
    }
    proof {
        assert(texts(parts@) =~= timestamps@.map_values(|t: u64| decimal(t as nat)));
        reveal_strlit("[");
        reveal_strlit("]");
        reveal_strlit(",");
        lemma_join_unbroken(texts(parts@), ","@);
    }
    "[".to_owned().concat(&joined(&parts, ",")).concat("]")
}

/// Recorded history, as a response tells it: the width of its buckets if it is
/// summarised, its times, each metric's values, and if asked for each metric's
/// least and greatest.
pub ghost struct History {
    /// The width of each bucket, in milliseconds.
    pub step: Option<u64>,
    /// When each record was taken, or each bucket starts.
    pub timestamps: Seq<u64>,
    /// The metrics, by name.
    pub names: Seq<Seq<char>>,
    /// Each metric's values.
    pub series: Seq<Seq<Option<serde_json::Number>>>,
    /// Each metric's least and greatest values.
    pub extremes: Option<(Seq<Seq<Option<serde_json::Number>>>, Seq<Seq<Option<serde_json::Number>>>)>,
}

/// The response that tells `history`, up to its extremes.
pub open spec fn history_start(history: History) -> Seq<char> {
    let step = match history.step {
        Some(step) => ",\"step_ms\":"@ + decimal(step as nat),
        None => ""@,
    };
    "{\"ok\":true,\"v\":"@ + decimal(VERSION as nat) + step + ",\"timestamps\":"@ + times_text(history.timestamps)
        + ",\"series\":"@ + series_text(history.names, history.series)
}

/// The response that tells `history`.
pub open spec fn history_line(history: History) -> Seq<char> {
    let extremes = match history.extremes {
        Some((low, high)) => ",\"min\":"@ + series_text(history.names, low) + ",\"max\":"@ + series_text(
            history.names,
            high,
        ),
        None => ""@,
    };
    history_start(history) + extremes + "}\n"@
}

/// The values of one metric, as JSON.
pub open spec fn cells_tree(cells: Seq<Option<serde_json::Number>>) -> Tree {
    Tree::Array(cells.map_values(|c: Option<serde_json::Number>| cell_tree(c)))
}

/// The values of several metrics, by name, as JSON.
pub open spec fn series_tree(names: Seq<Seq<char>>, columns: Seq<Seq<Option<serde_json::Number>>>) -> Tree {
    Tree::Object(Seq::new(columns.len(), |k: int| (names[k], cells_tree(columns[k]))))
}

/// Times, in order, as JSON.
pub open spec fn times_tree(timestamps: Seq<u64>) -> Tree {
    Tree::Array(timestamps.map_values(|t: u64| count_tree(t as nat)))
}

/// The fields of recorded history up to its extremes: the width of its buckets
/// only if it is summarised.
pub open spec fn history_fields(history: History) -> Seq<(Seq<char>, Tree)> {
    let start = seq![("ok"@, Tree::Bool(true)), ("v"@, count_tree(VERSION as nat))];
    let with_step = match history.step {
        Some(step) => start.push(("step_ms"@, count_tree(step as nat))),
        None => start,
    };
    with_step.push(("timestamps"@, times_tree(history.timestamps))).push(
        ("series"@, series_tree(history.names, history.series)),
    )
}

/// Recorded history, as JSON: the least and the greatest values only if they are
/// asked for.
pub open spec fn history_tree(history: History) -> Tree {
    Tree::Object(
        match history.extremes {
            Some((low, high)) => history_fields(history).push(("min"@, series_tree(history.names, low))).push(
                ("max"@, series_tree(history.names, high)),
            ),
            None => history_fields(history),
        },
    )
}

/// The values of one metric are written as their JSON is.
proof fn lemma_cells_text(cells: Seq<Option<serde_json::Number>>)
    ensures
        cells_text(cells) == json_text(cells_tree(cells)),
{
    let items = cells.map_values(|c: Option<serde_json::Number>| cell_tree(c));
    lemma_item_texts(items);
    let parts = cells.map_values(|c: Option<serde_json::Number>| cell_text(c));
    assert forall|i: int| 0 <= i < cells.len() implies #[trigger] parts[i] == item_texts(items)[i] by {
        assert(item_texts(items)[i] == json_text(items[i]));
    }
    assert(parts =~= item_texts(items));
}

/// The values of several metrics are written as their JSON is.
proof fn lemma_series_text(names: Seq<Seq<char>>, columns: Seq<Seq<Option<serde_json::Number>>>)
    ensures
        series_text(names, columns) == json_text(series_tree(names, columns)),
{
    let fields = Seq::new(columns.len(), |k: int| (names[k], cells_tree(columns[k])));
    lemma_field_texts(fields);
    let parts = Seq::new(columns.len(), |k: int| string_text(names[k]) + ":"@ + cells_text(columns[k]));
    assert forall|k: int| 0 <= k < columns.len() implies #[trigger] parts[k] == field_texts(fields)[k] by {
        lemma_cells_text(columns[k]);
        assert(field_texts(fields)[k] == string_text(fields[k].0) + ":"@ + json_text(fields[k].1));
    }
    assert(parts =~= field_texts(fields));
}

/// Times are written as their JSON is.
proof fn lemma_times_text(timestamps: Seq<u64>)
    ensures
        times_text(timestamps) == json_text(times_tree(timestamps)),
{
    let items = timestamps.map_values(|t: u64| count_tree(t as nat));
    lemma_item_texts(items);
    let parts = timestamps.map_values(|t: u64| decimal(t as nat));
    assert forall|i: int| 0 <= i < timestamps.len() implies #[trigger] parts[i] == item_texts(items)[i] by {
        assert(item_texts(items)[i] == json_text(items[i]));
    }
    assert(parts =~= item_texts(items));
}

/// One field more is a comma and the field more.
proof fn lemma_one_field_more(fields: Seq<(Seq<char>, Tree)>, name: Seq<char>, value: Tree)
    requires
        fields.len() > 0,
        plain(name),
    ensures
        join(field_texts(fields.push((name, value))), ","@) == join(field_texts(fields), ","@) + (",\""@ + name + "\":"@)
            + json_text(value),
{
    let more = fields.push((name, value));
    lemma_field_texts(fields);
    assert(more.drop_last() =~= fields);
    let texts = field_texts(more);
    assert(texts.drop_last() =~= field_texts(fields));
    reveal_strlit(",");
    reveal_strlit(":");
    reveal_strlit("\"");
    reveal_strlit(",\"");
    reveal_strlit("\":");
    assert(","@ + texts.last() =~= (",\""@ + name + "\":"@) + json_text(value));
    assert(join(texts, ","@) =~= join(field_texts(fields), ","@) + (","@ + texts.last()));
}

/// How the names of a response's fields are written.
proof fn lemma_labels()
    ensures
        plain("v"@) && plain("step_ms"@) && plain("timestamps"@) && plain("series"@) && plain("min"@) && plain("max"@),
        ",\""@ + "step_ms"@ + "\":"@ == ",\"step_ms\":"@,
        ",\""@ + "timestamps"@ + "\":"@ == ",\"timestamps\":"@,
        ",\""@ + "series"@ + "\":"@ == ",\"series\":"@,
        ",\""@ + "min"@ + "\":"@ == ",\"min\":"@,
        ",\""@ + "max"@ + "\":"@ == ",\"max\":"@,
        "}"@ + "\n"@ == "}\n"@,
        ""@.len() == 0,
{
    reveal_strlit("v");
    reveal_strlit("step_ms");
    reveal_strlit("timestamps");
    reveal_strlit("series");
    reveal_strlit("min");
    reveal_strlit("max");
    reveal_strlit(",\"step_ms\":");
    reveal_strlit(",\"timestamps\":");
    reveal_strlit(",\"series\":");
    reveal_strlit(",\"min\":");
    reveal_strlit(",\"max\":");
    reveal_strlit(",\"");
    reveal_strlit("\":");
    reveal_strlit("}");
    reveal_strlit("\n");
    reveal_strlit("}\n");
    reveal_strlit("");
    assert(",\""@ + "step_ms"@ + "\":"@ =~= ",\"step_ms\":"@);
    assert(",\""@ + "timestamps"@ + "\":"@ =~= ",\"timestamps\":"@);
    assert(",\""@ + "series"@ + "\":"@ =~= ",\"series\":"@);
    assert(",\""@ + "min"@ + "\":"@ =~= ",\"min\":"@);
    assert(",\""@ + "max"@ + "\":"@ =~= ",\"max\":"@);
    assert("}"@ + "\n"@ =~= "}\n"@);
}

/// How the first two fields of a response are written.
proof fn lemma_opening(start: Seq<(Seq<char>, Tree)>)
    requires
        start == seq![("ok"@, Tree::Bool(true)), ("v"@, count_tree(VERSION as nat))],
    ensures
        "{"@ + join(field_texts(start), ","@) == "{\"ok\":true,\"v\":"@ + decimal(VERSION as nat),
{
    let ok = start.drop_last();
    let none = ok.drop_last();
    let version = count_tree(VERSION as nat);
    let first = string_text("ok"@) + ":"@ + "true"@;
    assert(none.len() == 0);
    assert(ok.last() == ("ok"@, Tree::Bool(true)));
    assert(json_text(Tree::Bool(true)) == "true"@);
    assert(field_texts(none) =~= seq![]);
    assert(field_texts(ok) == field_texts(none).push(first));
    assert(join(field_texts(ok), ","@) == first);
    lemma_labels();
    lemma_one_field_more(ok, "v"@, version);
    assert(start =~= ok.push(("v"@, version)));
    reveal_strlit("{\"ok\":true,\"v\":");
    reveal_strlit("ok");
    reveal_strlit("v");
    reveal_strlit("true");
    reveal_strlit("{");
    reveal_strlit(":");
    reveal_strlit("\"");
    reveal_strlit(",\"");
    reveal_strlit("\":");
    assert(plain("ok"@));
    assert("{"@ + first + (",\""@ + "v"@ + "\":"@) =~= "{\"ok\":true,\"v\":"@);
    assert("{"@ + join(field_texts(start), ","@) =~= "{"@ + first + (",\""@ + "v"@ + "\":"@) + decimal(
        VERSION as nat,
    ));
}

/// What is written of an object so far, with one field more.
proof fn lemma_written_so_far(
    fields: Seq<(Seq<char>, Tree)>,
    so_far: Seq<char>,
    name: Seq<char>,
    value: Tree,
    label: Seq<char>,
    text: Seq<char>,
)
    requires
        fields.len() > 0,
        plain(name),
        "{"@ + join(field_texts(fields), ","@) == so_far,
        label == ",\""@ + name + "\":"@,
        text == json_text(value),
    ensures
        "{"@ + join(field_texts(fields.push((name, value))), ","@) == so_far + label + text,
{
    lemma_one_field_more(fields, name, value);
    assert("{"@ + join(field_texts(fields.push((name, value))), ","@) =~= so_far + label + text);
}

/// The text of recorded history up to its extremes.
proof fn lemma_history_start(history: History)
    ensures
        history_fields(history).len() > 0,
        "{"@ + join(field_texts(history_fields(history)), ","@) == history_start(history),
{
    lemma_labels();
    let start = seq![("ok"@, Tree::Bool(true)), ("v"@, count_tree(VERSION as nat))];
    let opening = "{\"ok\":true,\"v\":"@ + decimal(VERSION as nat);
    lemma_opening(start);
    let (with_step, so_far) = match history.step {
        Some(step) => {
            let value = count_tree(step as nat);
            assert(json_text(value) == decimal(step as nat));
            lemma_written_so_far(start, opening, "step_ms"@, value, ",\"step_ms\":"@, decimal(step as nat));
            assert(opening + (",\"step_ms\":"@ + decimal(step as nat)) =~= opening + ",\"step_ms\":"@ + decimal(
                step as nat,
            ));
            (start.push(("step_ms"@, value)), opening + (",\"step_ms\":"@ + decimal(step as nat)))
        },
        None => {
            assert(opening + ""@ =~= opening);
            (start, opening + ""@)
        },
    };
    let times = times_tree(history.timestamps);
    let times_part = times_text(history.timestamps);
    let series = series_tree(history.names, history.series);
    let series_part = series_text(history.names, history.series);
    lemma_times_text(history.timestamps);
    lemma_series_text(history.names, history.series);
    lemma_written_so_far(with_step, so_far, "timestamps"@, times, ",\"timestamps\":"@, times_part);
    let with_times = with_step.push(("timestamps"@, times));
    let then = so_far + ",\"timestamps\":"@ + times_part;
    lemma_written_so_far(with_times, then, "series"@, series, ",\"series\":"@, series_part);
}

/// A response with recorded history is JSON: it is how `serde_json` would write
/// the tree with the history's fields.
pub proof fn law_history_is_json(history: History)
    ensures
        history_line(history) == json_text(history_tree(history)) + "\n"@,
{
    lemma_labels();
    let fields = history_fields(history);
    let body = history_start(history);
    lemma_history_start(history);
    match history.extremes {
        Some((low, high)) => {
            let least = series_tree(history.names, low);
            let greatest = series_tree(history.names, high);
            let least_part = series_text(history.names, low);
            let greatest_part = series_text(history.names, high);
            lemma_series_text(history.names, low);
            lemma_series_text(history.names, high);
            lemma_written_so_far(fields, body, "min"@, least, ",\"min\":"@, least_part);
            let with_least = fields.push(("min"@, least));
            let then = body + ",\"min\":"@ + least_part;
            lemma_written_so_far(with_least, then, "max"@, greatest, ",\"max\":"@, greatest_part);
            let all = with_least.push(("max"@, greatest));
            assert(history_tree(history) == Tree::Object(all));
            let extremes = ",\"min\":"@ + least_part + ",\"max\":"@ + greatest_part;
            assert(then + ",\"max\":"@ + greatest_part =~= body + extremes);
            assert((body + extremes) + "}"@ + "\n"@ =~= body + extremes + ("}"@ + "\n"@));
        },
        None => {
            assert(body + "}"@ + "\n"@ =~= body + ""@ + ("}"@ + "\n"@));
        },
    }
}

/// What the least and greatest values, if they are there, say.
pub open spec fn extremes_view(
    extremes: Option<(Vec<Vec<Option<serde_json::Number>>>, Vec<Vec<Option<serde_json::Number>>>)>,
) -> Option<(Seq<Seq<Option<serde_json::Number>>>, Seq<Seq<Option<serde_json::Number>>>)> {
    match extremes {
        Some((low, high)) => Some((columns_view(low@), columns_view(high@))),
        None => None,
    }
}

/// The response to a request for recorded history.
pub fn read_line(
    step: Option<u64>,
    timestamps: &[u64],
    names: &[String],
    series: &[Vec<Option<serde_json::Number>>],
    extremes: &Option<(Vec<Vec<Option<serde_json::Number>>>, Vec<Vec<Option<serde_json::Number>>>)>,
) -> (line: String)
    requires
        series@.len() == names@.len(),
        extremes matches Some((low, high)) ==> low@.len() == names@.len() && high@.len() == names@.len(),
    ensures
        line@ == history_line(
            (History {
                step,
                timestamps: timestamps@,
                names: texts(names@),
                series: columns_view(series@),
                extremes: extremes_view(*extremes),
            }),
        ),
        line@ == json_text(
            history_tree(
                (History {
                    step,
                    timestamps: timestamps@,
                    names: texts(names@),
                    series: columns_view(series@),
                    extremes: extremes_view(*extremes),
                }),
            ),
        ) + "\n"@,
        one_line(line@),
{
    proof {
        reveal_strlit("{\"ok\":true,\"v\":");
        reveal_strlit(",\"step_ms\":");
        reveal_strlit(",\"timestamps\":");
        reveal_strlit(",\"series\":");
        reveal_strlit(",\"min\":");
        reveal_strlit(",\"max\":");
        reveal_strlit("}\n");
        reveal_strlit("");
        lemma_decimal_unbroken(VERSION as nat);
    }
    let step_part = match step {
        Some(step) => {
            proof {
                lemma_decimal_unbroken(step as nat);
            }
            ",\"step_ms\":".to_owned().concat(&decimal_of(step))
        },
        None => "".to_owned(),
    };
    let extremes_part = match extremes {
        Some((low, high)) => ",\"min\":".to_owned().concat(&series_written(names, low)).concat(
            ",\"max\":",
        ).concat(&series_written(names, high)),
        None => "".to_owned(),
    };
    assert(unbroken(step_part@) && unbroken(extremes_part@));
    let mut line = "{\"ok\":true,\"v\":".to_owned();
    line.append(&decimal_of(VERSION as u64));
    line.append(&step_part);
    line.append(",\"timestamps\":");
    line.append(&times_written(timestamps));
    line.append(",\"series\":");
    line.append(&series_written(names, series));
    line.append(&extremes_part);
    line.append("}\n");
    proof {
        law_history_is_json(
            History {
                step,
                timestamps: timestamps@,
                names: texts(names@),
                series: columns_view(series@),
                extremes: extremes_view(*extremes),
            },
        );
    }
    line
}

/// What `number` makes of each value: none for a value that isn't known or
/// couldn't be measured.
pub open spec fn rendered<N: Fn(u64) -> Option<serde_json::Number>>(
    number: N,
    bits: Seq<Option<u64>>,
    cells: Seq<Option<serde_json::Number>>,
) -> bool {
    &&& cells.len() == bits.len()
    &&& forall|i: int|
        #![trigger cells[i]]
        #![trigger bits[i]]
        0 <= i < bits.len() ==> match bits[i] {
            None => cells[i] is None,
            Some(b) => if is_measured(b) {
                call_ensures(number, (b,), cells[i])
            } else {
                cells[i] is None
            },
        }
}

/// What `number` makes of several columns.
pub open spec fn told<N: Fn(u64) -> Option<serde_json::Number>>(
    number: N,
    bits: Seq<Seq<Option<u64>>>,
    cells: Seq<Seq<Option<serde_json::Number>>>,
) -> bool {
    &&& cells.len() == bits.len()
    &&& forall|k: int| 0 <= k < bits.len() ==> rendered(number, #[trigger] bits[k], #[trigger] cells[k])
}

/// Values that are all known.
pub open spec fn known(bits: Seq<u64>) -> Seq<Option<u64>> {
    bits.map_values(|b: u64| Some(b))
}

/// Values that are all known.
pub(crate) fn known_of(bits: &[u64]) -> (r: Vec<Option<u64>>)
    ensures
        r@ == known(bits@),
{
    let mut r: Vec<Option<u64>> = Vec::with_capacity(bits.len());
    for i in 0..bits.len()
        invariant
            r@ == known(bits@.take(i as int)),
    {
        r.push(Some(bits[i]));
        assert(r@ =~= known(bits@.take(i + 1)));
    }
    assert(bits@.take(bits@.len() as int) =~= bits@);
    r
}

/// What `number` makes of each value.
fn cells_for<N: Fn(u64) -> Option<serde_json::Number>>(number: &N, bits: &[Option<u64>]) -> (cells: Vec<
    Option<serde_json::Number>,
>)
    requires
        forall|b: u64| #[trigger] call_requires(*number, (b,)),
    ensures
        rendered(*number, bits@, cells@),
{
    let mut cells: Vec<Option<serde_json::Number>> = Vec::with_capacity(bits.len());
    for i in 0..bits.len()
        invariant
            forall|b: u64| #[trigger] call_requires(*number, (b,)),
            rendered(*number, bits@.take(i as int), cells@),
    {
        let cell = match bits[i] {
            None => None,
            Some(b) => if was_measured(b) {
                number(b)
            } else {
                None
            },
        };
        cells.push(cell);
        assert(bits@.take(i + 1).drop_last() =~= bits@.take(i as int));
    }
    assert(bits@.take(bits@.len() as int) =~= bits@);
    cells
}

/// What several columns of values that may be unknown say.
pub open spec fn bits_view(columns: Seq<Vec<Option<u64>>>) -> Seq<Seq<Option<u64>>> {
    columns.map_values(|c: Vec<Option<u64>>| c@)
}

/// What `number` makes of several columns.
pub(crate) fn columns_for<N: Fn(u64) -> Option<serde_json::Number>>(
    number: &N,
    bits: &[Vec<Option<u64>>],
) -> (cells: Vec<Vec<Option<serde_json::Number>>>)
    requires
        forall|b: u64| #[trigger] call_requires(*number, (b,)),
    ensures
        told(*number, bits_view(bits@), columns_view(cells@)),
{
    let mut cells: Vec<Vec<Option<serde_json::Number>>> = Vec::with_capacity(bits.len());
    for k in 0..bits.len()
        invariant
            forall|b: u64| #[trigger] call_requires(*number, (b,)),
            cells@.len() == k,
            forall|j: int| 0 <= j < k ==> rendered(*number, bits@[j]@, (#[trigger] cells@[j])@),
    {
        cells.push(cells_for(number, &bits[k]));
    }
    cells
}

/// The names of `metrics`.
pub open spec fn names(metrics: Seq<MetricText>) -> Seq<Seq<char>> {
    metrics.map_values(|m: MetricText| m.name)
}

/// Every record's values, a column for each metric.
pub open spec fn all_columns(records: Seq<Record>, width: nat) -> Seq<Seq<Option<u64>>> {
    Seq::new(width, |k: int| known(column(records, k)))
}

/// Facts about a collector and its store.
pub open spec fn info_of(shared: Shared) -> Tree {
    info_tree(shared.interval_ms, shared.store.limit(), shared.records().len(), shared.metrics().len())
}

/// The time and the values of the newest record, if there is one.
pub open spec fn newest(records: Seq<Record>) -> Option<(u64, Seq<u64>)> {
    if records.len() == 0 {
        None
    } else {
        Some((records.last().time, records.last().row))
    }
}

/// Whether `line` tells the newest record. That there is none reads back as it
/// was meant, and so does a record whose numbers are all whole.
pub open spec fn tells_newest<N: Fn(u64) -> Option<serde_json::Number>>(
    metrics: Seq<MetricText>,
    record: Option<(u64, Seq<u64>)>,
    number: N,
    line: Seq<char>,
) -> bool {
    match record {
        None => line == line_of(latest_tree(metrics, None)) && stands_for(line, latest_tree(metrics, None)),
        Some((time, row)) => exists|cells: Seq<Option<serde_json::Number>>|
            {
                let tree = latest_tree(metrics, Some((time, cells)));
                &&& rendered(number, known(row), cells)
                &&& line == #[trigger] line_of(latest_tree(metrics, Some((time, cells))))
                &&& simple(settled(tree), 8) ==> stands_for(line, settled(tree))
            },
    }
}

/// What a record that was copied, if there is one, says.
pub open spec fn record_view(record: Option<(u64, Vec<u64>)>) -> Option<(u64, Seq<u64>)> {
    match record {
        Some((time, row)) => Some((time, row@)),
        None => None,
    }
}

/// The response that tells the newest record, if there is one. `number` makes a
/// JSON number of the bits of a value that was measured.
pub fn newest_line<N: Fn(u64) -> Option<serde_json::Number>>(
    schema: &Schema,
    record: Option<(u64, Vec<u64>)>,
    number: &N,
) -> (line: String)
    requires
        record matches Some((time, row)) ==> row@.len() == schema@.len(),
        forall|b: u64| #[trigger] call_requires(*number, (b,)),
    ensures
        tells_newest(schema@, record_view(record), *number, line@),
        one_line(line@),
{
    match record {
        None => latest_line(schema, None),
        Some((time, row)) => {
            let cells = cells_for(number, &known_of(&row));
            latest_line(schema, Some((time, cells)))
        },
    }
}

/// Whether `line` answers `request`. What is said of the collector and of its
/// metrics reads back as it was meant.
pub open spec fn responds<N: Fn(u64) -> Option<serde_json::Number>>(
    request: Request,
    shared: Shared,
    number: N,
    line: Seq<char>,
) -> bool {
    let records = shared.records();
    match request {
        Request::Info => line == line_of(info_of(shared)) && stands_for(line, info_of(shared)),
        Request::Metrics => line == line_of(metrics_tree(shared.metrics())) && stands_for(
            line,
            metrics_tree(shared.metrics()),
        ),
        Request::Latest => tells_newest(shared.metrics(), newest(records), number, line),
        Request::Read => exists|series: Seq<Seq<Option<serde_json::Number>>>|
            #[trigger] told(number, all_columns(records, shared.metrics().len()), series) && line == history_line(
                History {
                    step: None,
                    timestamps: times(records),
                    names: names(shared.metrics()),
                    series,
                    extremes: None,
                },
            ),
    }
}

/// The name of each metric.
fn names_of(schema: &Schema) -> (r: Vec<String>)
    ensures
        texts(r@) == names(schema@),
{
    let metrics = schema.metrics();
    let mut r: Vec<String> = Vec::with_capacity(metrics.len());
    for i in 0..metrics.len()
        invariant
            metrics_text(metrics@) == schema@,
            r@.len() == i,
            forall|j: int| 0 <= j < i ==> (#[trigger] r@[j])@ == schema@[j].name,
    {
        assert(schema@[i as int] == metrics@[i as int]@);
        r.push(metrics[i].name.clone());
    }
    assert(texts(r@) =~= names(schema@));
    r
}

/// The one-line response to `request`. `number` makes a JSON number of the bits
/// of a value that was measured.
pub fn respond<N: Fn(u64) -> Option<serde_json::Number>>(request: Request, shared: &Shared, number: &N) -> (line:
    String)
    requires
        shared.wf(),
        forall|b: u64| #[trigger] call_requires(*number, (b,)),
    ensures
        responds(request, *shared, *number, line@),
        one_line(line@),
{
    proof {
        shared.store.law_bounded_and_in_order();
    }
    let store = shared.read();
    match request {
        Request::Info => info_line(shared.interval_ms, store.capacity(), store.len(), shared.schema.len()),
        Request::Metrics => metrics_line(&shared.schema),
        Request::Latest => newest_line(&shared.schema, store.latest(), number),
        Request::Read => {
            let snapshot = store.snapshot();
            let ghost records = shared.records();
            let ghost width = shared.metrics().len();
            let mut bits: Vec<Vec<Option<u64>>> = Vec::with_capacity(snapshot.columns.len());
            for k in 0..snapshot.columns.len()
                invariant
                    snapshot.holds(records, Seq::new(width, |k: int| k as usize)),
                    width <= usize::MAX,
                    bits@.len() == k,
                    forall|j: int| 0 <= j < k ==> (#[trigger] bits@[j])@ == known(column(records, j)),
            {
                assert(snapshot.columns@[k as int]@ == column(records, k as int));
                bits.push(known_of(&snapshot.columns[k]));
            }
            assert(bits_view(bits@) =~= all_columns(records, width));
            let series = columns_for(number, &bits);
            let names = names_of(&shared.schema);
            assert(texts(names@).len() == width && columns_view(series@).len() == width);
            read_line(None, &snapshot.timestamps, &names, &series, &None)
        },
    }
}

/// A request is an object whose `op` is the name of an operation, and whose `v`, if
/// it has one, is the version spoken here; nothing else is one.
pub proof fn law_what_a_request_is(tree: Tree)
    ensures
        ({
            let fits = tree is Object && (tree.field("v"@) is None || tree.at("v"@).count() == Some(1nat));
            let asked = request(tree);
            &&& asked == Ok::<Request, Refusal>(Request::Info) <==> fits && tree.field("op"@) == Some(Tree::Text("info"@))
            &&& asked == Ok::<Request, Refusal>(Request::Metrics) <==> fits && tree.field("op"@) == Some(
                Tree::Text("metrics"@),
            )
            &&& asked == Ok::<Request, Refusal>(Request::Latest) <==> fits && tree.field("op"@) == Some(
                Tree::Text("latest"@),
            )
            &&& asked == Ok::<Request, Refusal>(Request::Read) <==> fits && tree.field("op"@) == Some(Tree::Text("read"@))
            &&& !(tree is Object) ==> asked == Err::<Request, Refusal>(Refusal::NotAnObject)
            &&& tree is Object && tree.field("v"@) is Some && tree.at("v"@).count() is None ==> asked == Err::<
                Request,
                Refusal,
            >(Refusal::BadVersion)
            &&& tree is Object && tree.at("v"@).count() is Some && tree.at("v"@).count()->0 != 1 ==> asked == Err::<
                Request,
                Refusal,
            >(Refusal::UnsupportedVersion(tree.at("v"@).count()->0 as u64))
            &&& fits && tree.field("op"@) is None ==> asked == Err::<Request, Refusal>(Refusal::MissingOp)
            &&& fits && tree.field("op"@) is Some && !(tree.at("op"@) is Text) ==> asked == Err::<Request, Refusal>(
                Refusal::OpNotAString,
            )
        }),
{
    reveal_strlit("info");
    reveal_strlit("metrics");
    reveal_strlit("latest");
    reveal_strlit("read");
    assert("info"@.len() == 4 && "metrics"@.len() == 7 && "latest"@.len() == 6 && "read"@.len() == 4);
    assert("info"@[0] == 'i' && "read"@[0] == 'r');
}

/// What a line asks for is what the JSON on it does; a line that is no JSON asks for
/// nothing.
pub proof fn law_a_request_is_json(line: Seq<char>, tree: Tree)
    ensures
        stands_for(line, tree) ==> requested(line) == request(tree),
        json_parse(line) is Err ==> requested(line) == Err::<Request, Refusal>(Refusal::NotJson),
{
}

/// The facts about a collector are each told under their own name.
pub proof fn law_facts_are_told(shared: Shared)
    ensures
        ({
            let told = info_of(shared);
            &&& told.at("ok"@) == Tree::Bool(true)
            &&& told.at("v"@) == Tree::Number(decimal(1))
            &&& told.at("version"@) == Tree::Text(crate::VERSION@)
            &&& told.at("interval_ms"@) == Tree::Number(decimal(shared.interval_ms as nat))
            &&& told.at("capacity"@) == Tree::Number(decimal(shared.store.limit()))
            &&& told.at("len"@) == Tree::Number(decimal(shared.records().len()))
            &&& told.at("metrics"@) == Tree::Number(decimal(shared.metrics().len()))
        }),
{
    let told = info_of(shared);
    let f = told->Object_0;
    reveal_strlit("ok");
    reveal_strlit("v");
    reveal_strlit("version");
    reveal_strlit("interval_ms");
    reveal_strlit("capacity");
    reveal_strlit("len");
    reveal_strlit("metrics");
    assert(f[0].0.len() == 2 && f[1].0.len() == 1 && f[2].0.len() == 7 && f[3].0.len() == 11 && f[4].0.len() == 8
        && f[5].0.len() == 3 && f[6].0.len() == 7);
    assert("version"@[0] == 'v' && "metrics"@[0] == 'm');
    assert(distinct(f));
    lemma_found(f, 0);
    lemma_found(f, 1);
    lemma_found(f, 2);
    lemma_found(f, 3);
    lemma_found(f, 4);
    lemma_found(f, 5);
    lemma_found(f, 6);
}

/// Where no two fields have the same name, each is found by its own.
proof fn lemma_found(fields: Seq<(Seq<char>, Tree)>, i: int)
    requires
        distinct(fields),
        0 <= i < fields.len(),
    ensures
        Tree::Object(fields).field(fields[i].0) == Some(fields[i].1),
        Tree::Object(fields).at(fields[i].0) == fields[i].1,
    decreases i,
{
    if i > 0 {
        let rest = fields.drop_first();
        assert(rest[i - 1] == fields[i]);
        assert forall|a: int, b: int| 0 <= a < b < rest.len() implies (#[trigger] rest[a]).0 != (#[trigger] rest[b]).0 by {
            assert(fields[a + 1].0 != fields[b + 1].0);
        }
        assert(fields[0].0 != fields[i].0);
        lemma_found(rest, i - 1);
    }
}

/// Each metric is told with its own name, label and unit, in record order.
pub proof fn law_metrics_are_told(metrics: Seq<MetricText>, i: int)
    requires
        0 <= i < metrics.len(),
    ensures
        ({
            let list = metrics_tree(metrics).at("metrics"@);
            &&& metrics_tree(metrics).at("ok"@) == Tree::Bool(true)
            &&& metrics_tree(metrics).at("v"@) == Tree::Number(decimal(1))
            &&& list is Array && list->Array_0.len() == metrics.len()
            &&& list.nth(i).at("name"@) == Tree::Text(metrics[i].name)
            &&& list.nth(i).at("label"@) == Tree::Text(metrics[i].label)
            &&& list.nth(i).at("unit"@) == Tree::Text(metrics[i].unit)
        }),
{
    reveal_strlit("ok");
    reveal_strlit("v");
    reveal_strlit("metrics");
    reveal_strlit("name");
    reveal_strlit("label");
    reveal_strlit("unit");
    let f = metrics_tree(metrics)->Object_0;
    assert(f[0].0.len() == 2 && f[1].0.len() == 1 && f[2].0.len() == 7);
    assert(distinct(f));
    lemma_found(f, 0);
    lemma_found(f, 1);
    lemma_found(f, 2);
    let g = metric_tree(metrics[i])->Object_0;
    lemma_metric_tree(metrics[i]);
    reveal_with_fuel(orderly, 1);
    assert(distinct(g));
    assert(metrics_tree(metrics).at("metrics"@).nth(i) == metric_tree(metrics[i]));
    lemma_found(g, 0);
    lemma_found(g, 1);
    lemma_found(g, 2);
}

/// The newest record is told with its time, and each value under its own metric: a
/// number as it is written, or null for a gap. Without a record there is no time and
/// there are no values.
pub proof fn law_the_newest_record_is_told(
    metrics: Seq<MetricText>,
    time: u64,
    cells: Seq<Option<serde_json::Number>>,
    i: int,
)
    requires
        0 <= i < cells.len(),
        cells.len() == metrics.len(),
    ensures
        ({
            let told = latest_tree(metrics, Some((time, cells)));
            &&& told.at("ok"@) == Tree::Bool(true)
            &&& told.at("v"@) == Tree::Number(decimal(1))
            &&& told.at("timestamp"@) == Tree::Number(decimal(time as nat))
            &&& told.at("values"@) is Object
            &&& told.at("values"@)->Object_0.len() == metrics.len()
            &&& told.at("values"@)->Object_0[i].0 == metrics[i].name
            &&& cells[i] is None ==> told.at("values"@)->Object_0[i].1 == Tree::Null
            &&& cells[i] matches Some(n) ==> told.at("values"@)->Object_0[i].1 == Tree::Number(number_text(n))
            &&& latest_tree(metrics, None).at("timestamp"@) == Tree::Null
            &&& latest_tree(metrics, None).at("values"@) is Object
            &&& latest_tree(metrics, None).at("values"@)->Object_0.len() == 0
            &&& latest_tree(metrics, None).at("ok"@) == Tree::Bool(true)
        }),
{
    reveal_strlit("ok");
    reveal_strlit("v");
    reveal_strlit("timestamp");
    reveal_strlit("values");
    let f = latest_tree(metrics, Some((time, cells)))->Object_0;
    assert(f[0].0.len() == 2 && f[1].0.len() == 1 && f[2].0.len() == 9 && f[3].0.len() == 6);
    assert(distinct(f));
    lemma_found(f, 0);
    lemma_found(f, 1);
    lemma_found(f, 2);
    lemma_found(f, 3);
    let g = latest_tree(metrics, None)->Object_0;
    assert(g[0].0.len() == 2 && g[1].0.len() == 1 && g[2].0.len() == 9 && g[3].0.len() == 6);
    assert(distinct(g));
    lemma_found(g, 0);
    lemma_found(g, 2);
    lemma_found(g, 3);
}

/// Which record is the newest: the last that was added.
pub proof fn law_the_newest_is_the_last(records: Seq<Record>, record: Record)
    ensures
        newest(records.push(record)) == Some((record.time, record.row)),
        newest(Seq::<Record>::empty()) is None,
{
}

/// The answer to a request for the newest record tells that record: a value that was
/// measured as the number it is, and any other as null.
pub proof fn law_latest_tells_the_newest_record<N: Fn(u64) -> Option<serde_json::Number>>(
    shared: Shared,
    number: N,
    line: Seq<char>,
) -> (cells: Seq<Option<serde_json::Number>>)
    requires
        responds(Request::Latest, shared, number, line),
        shared.records().len() > 0,
    ensures
        ({
            let record = shared.records().last();
            &&& line == line_of(latest_tree(shared.metrics(), Some((record.time, cells))))
            &&& cells.len() == record.row.len()
            &&& forall|i: int| 0 <= i < cells.len() && !is_measured(record.row[i]) ==> (#[trigger] cells[i]) is None
            &&& forall|i: int|
                0 <= i < cells.len() && is_measured(record.row[i]) ==> call_ensures(
                    number,
                    (record.row[i],),
                    #[trigger] cells[i],
                )
        }),
{
    let record = shared.records().last();
    let cells = choose|cells: Seq<Option<serde_json::Number>>|
        {
            let tree = latest_tree(shared.metrics(), Some((record.time, cells)));
            &&& rendered(number, known(record.row), cells)
            &&& line == #[trigger] line_of(latest_tree(shared.metrics(), Some((record.time, cells))))
            &&& simple(settled(tree), 8) ==> stands_for(line, settled(tree))
        };
    assert forall|i: int| 0 <= i < cells.len() implies if is_measured(record.row[i]) {
        call_ensures(number, (record.row[i],), #[trigger] cells[i])
    } else {
        cells[i] is None
    } by {
        assert(known(record.row)[i] == Some(record.row[i]));
    }
    cells
}

/// The answer to a plain request for history tells every record, oldest first: its
/// time, and under each metric's name that metric's value, null if it wasn't
/// measured.
pub proof fn law_read_tells_every_record<N: Fn(u64) -> Option<serde_json::Number>>(
    shared: Shared,
    number: N,
    line: Seq<char>,
) -> (history: History)
    requires
        responds(Request::Read, shared, number, line),
    ensures
        ({
            let records = shared.records();
            let metrics = shared.metrics();
            &&& line == history_line(history)
            &&& history.step is None && history.extremes is None
            &&& history.timestamps.len() == records.len()
            &&& forall|i: int| 0 <= i < records.len() ==> #[trigger] history.timestamps[i] == records[i].time
            &&& history.names.len() == metrics.len() && history.series.len() == metrics.len()
            &&& forall|k: int| 0 <= k < metrics.len() ==> #[trigger] history.names[k] == metrics[k].name
            &&& forall|k: int| 0 <= k < metrics.len() ==> (#[trigger] history.series[k]).len() == records.len()
            &&& forall|k: int, i: int|
                0 <= k < metrics.len() && 0 <= i < records.len() ==> if is_measured(records[i].row[k]) {
                    call_ensures(number, (records[i].row[k],), #[trigger] history.series[k][i])
                } else {
                    history.series[k][i] is None
                }
        }),
{
    let records = shared.records();
    let width = shared.metrics().len();
    let series = choose|series: Seq<Seq<Option<serde_json::Number>>>|
        #[trigger] told(number, all_columns(records, width), series) && line == history_line(
            History {
                step: None,
                timestamps: times(records),
                names: names(shared.metrics()),
                series,
                extremes: None,
            },
        );
    let all = all_columns(records, width);
    assert forall|k: int, i: int| 0 <= k < width && 0 <= i < records.len() implies if is_measured(records[i].row[k]) {
        call_ensures(number, (records[i].row[k],), #[trigger] series[k][i])
    } else {
        series[k][i] is None
    } by {
        assert(rendered(number, all[k], series[k]));
        assert(all[k][i] == Some(records[i].row[k]));
    }
    assert forall|k: int| 0 <= k < width implies (#[trigger] series[k]).len() == records.len() by {
        assert(rendered(number, all[k], series[k]));
        assert(all[k].len() == records.len());
    }
    History { step: None, timestamps: times(records), names: names(shared.metrics()), series, extremes: None }
}

/// History is told under the names it has: its times, and for each metric its own
/// values, each a number as it is written or null.
pub proof fn law_history_is_told(history: History, k: int, i: int)
    requires
        0 <= k < history.series.len(),
        history.series.len() == history.names.len(),
        0 <= i < history.series[k].len(),
        0 <= i < history.timestamps.len(),
    ensures
        ({
            let told = history_tree(history);
            let series = told.at("series"@);
            &&& told.at("ok"@) == Tree::Bool(true)
            &&& told.at("v"@) == Tree::Number(decimal(1))
            &&& history.step is None ==> told.field("step_ms"@) is None
            &&& history.step matches Some(step) ==> told.field("step_ms"@) == Some(Tree::Number(decimal(step as nat)))
            &&& told.at("timestamps"@) is Array && told.at("timestamps"@)->Array_0.len() == history.timestamps.len()
            &&& told.at("timestamps"@).nth(i) == Tree::Number(decimal(history.timestamps[i] as nat))
            &&& series is Object && series->Object_0.len() == history.series.len()
            &&& series->Object_0[k].0 == history.names[k]
            &&& series->Object_0[k].1 is Array && series->Object_0[k].1->Array_0.len() == history.series[k].len()
            &&& history.series[k][i] is None ==> series->Object_0[k].1.nth(i) == Tree::Null
            &&& history.series[k][i] matches Some(n) ==> series->Object_0[k].1.nth(i) == Tree::Number(number_text(n))
            &&& history.extremes is None ==> told.field("min"@) is None && told.field("max"@) is None
            &&& history.extremes matches Some((low, high)) ==> told.at("min"@) == series_tree(history.names, low) && told.at(
                "max"@,
            ) == series_tree(history.names, high)
            &&& series == series_tree(history.names, history.series)
        }),
{
    reveal_strlit("ok");
    reveal_strlit("v");
    reveal_strlit("step_ms");
    reveal_strlit("timestamps");
    reveal_strlit("series");
    reveal_strlit("min");
    reveal_strlit("max");
    assert("ok"@.len() == 2 && "v"@.len() == 1 && "step_ms"@.len() == 7 && "timestamps"@.len() == 10 && "series"@.len() == 6
        && "min"@.len() == 3 && "max"@.len() == 3);
    assert("min"@[1] == 'i' && "max"@[1] == 'a');
    let f = history_tree(history)->Object_0;
    assert(distinct(f));
    lemma_found(f, 0);
    lemma_found(f, 1);
    lemma_found(f, 2);
    lemma_found(f, 3);
    if f.len() > 4 {
        lemma_found(f, 4);
    }
    if f.len() > 5 {
        lemma_found(f, 5);
    }
    if f.len() > 6 {
        lemma_found(f, 6);
    }
    if history.step is None {
        lemma_not_there(f, "step_ms"@);
    }
    if history.extremes is None {
        lemma_not_there(f, "min"@);
        lemma_not_there(f, "max"@);
    }
}

proof fn lemma_not_there(fields: Seq<(Seq<char>, Tree)>, key: Seq<char>)
    requires
        forall|i: int| 0 <= i < fields.len() ==> (#[trigger] fields[i]).0 != key,
    ensures
        Tree::Object(fields).field(key) is None,
    decreases fields.len(),
{
    if fields.len() > 0 {
        let rest = fields.drop_first();
        assert forall|i: int| 0 <= i < rest.len() implies (#[trigger] rest[i]).0 != key by {
            assert(rest[i] == fields[i + 1]);
        }
        lemma_not_there(rest, key);
    }
}

/// A failure says so, and why.
pub proof fn law_failures_are_told(message: Seq<char>)
    ensures
        error_tree(message).at("ok"@) == Tree::Bool(false),
        error_tree(message).at("v"@) == Tree::Number(decimal(1)),
        error_tree(message).at("error"@) == Tree::Text(message),
{
    reveal_strlit("ok");
    reveal_strlit("v");
    reveal_strlit("error");
    let f = error_tree(message)->Object_0;
    assert(f[0].0.len() == 2 && f[1].0.len() == 1 && f[2].0.len() == 5);
    assert(distinct(f));
    lemma_found(f, 0);
    lemma_found(f, 1);
    lemma_found(f, 2);
}

/// A refusal names the operation or the version it is about, an operation by its
/// first forty characters.
pub proof fn law_refusals_name_what_is_wrong(op: Seq<char>, v: u64)
    ensures
        op.len() <= 40 ==> mentions(Refusal::UnknownOp(op).words(), op),
        op.len() > 40 ==> mentions(Refusal::UnknownOp(op).words(), op.take(40)),
        mentions(Refusal::UnsupportedVersion(v).words(), decimal(v as nat)),
{
    lemma_mentions("unknown op \""@, shown(op), "\" (try info, metrics, latest or read)"@);
    let end = " (this server speaks "@ + decimal(VERSION as nat) + ")"@;
    lemma_mentions("unsupported protocol version "@, decimal(v as nat), end);
    assert("unsupported protocol version "@ + decimal(v as nat) + end =~= Refusal::UnsupportedVersion(v).words());
}

}
