//! Answering a request in three steps: [`hear`] what is asked, [`see`] what the
//! collector has of it, and [`tell`] it.
//!
//! Only the second step needs the collector, and all it does is to copy. So the
//! lock on it can be let go of before anything is computed or written: a slow
//! answer must never hold up the sampler.
use vstd::prelude::*;

use crate::json::{from_text, json_parse, stands_for, unfold, Tree};
use crate::metrics::Schema;
use crate::protocol::{
    bits_view, error_tree, history_line, info_line, info_of, info_tree, line_of, metrics_line, metrics_tree, newest, newest_line, record_view, refuses,
    request, request_of, requested, respond_error, responds, tells_newest, History, Request, RequestError,
};
use crate::read::{
    columns_of, columns_wanted, figures_line, in_order, lemma_selected, names_at, names_of, options, options_of, recalls,
    recounts, shows, sound, step_wanted, summary, tells_of, values_of, values_view, Figures, Objection, ReadOptions,
};
use crate::state::Shared;
use crate::store::{within, Snapshot};
use crate::text::{one_line, texts};

verus! {

/// A request, as far as it can be understood without the collector.
#[derive(Debug, Clone, PartialEq, Eq)]
pub enum Asked {
    /// It is refused: this is the answer.
    Answered(String),
    /// Facts about the collector and its store.
    Info,
    /// The list of metrics.
    Metrics,
    /// The newest record.
    Latest,
    /// Recorded history.
    Read(ReadOptions),
}

/// What a request needs of the collector, copied.
#[derive(Debug, Clone, PartialEq, Eq)]
pub enum Seen {
    /// Nothing: this is the answer.
    Answered(String),
    /// Facts about the collector and its store.
    Facts {
        /// The time between samples, in milliseconds.
        interval_ms: u64,
        /// The most records the store will hold.
        capacity: usize,
        /// How many it holds.
        len: usize,
        /// How many metrics there are.
        metrics: usize,
    },
    /// The list of metrics.
    Metrics(Schema),
    /// The newest record, if there is one, and what its values are.
    Newest {
        /// What each value is.
        schema: Schema,
        /// The time of the record, and its values.
        record: Option<(u64, Vec<u64>)>,
    },
    /// Recorded history.
    History {
        /// What of it is asked for.
        options: ReadOptions,
        /// The time between samples, in milliseconds.
        interval_ms: u64,
        /// The metrics, by name.
        names: Vec<String>,
        /// The records, with the values of those metrics.
        snapshot: Snapshot,
    },
}

impl Asked {
    /// Whether history is asked for as closely as it can be.
    pub open spec fn wf(self) -> bool {
        self matches Asked::Read(options) ==> sound(options.detail)
    }
}

impl Seen {
    /// Whether the values are as many as the metrics, and history is in order.
    pub open spec fn wf(self) -> bool {
        match self {
            Seen::Newest { schema, record } => record matches Some((time, row)) ==> row@.len() == schema@.len(),
            Seen::History { options, interval_ms, names, snapshot } => {
                &&& sound(options.detail)
                &&& in_order(snapshot)
                &&& snapshot.columns@.len() == names@.len()
            },
            _ => true,
        }
    }
}

/// Whether `reply` answers the request `text`.
pub open spec fn answers<N: Fn(u64) -> Option<serde_json::Number>, M: Fn(Vec<u64>) -> u64>(
    text: Seq<char>,
    shared: Shared,
    number: N,
    mean: M,
    reply: Seq<char>,
) -> bool {
    match requested(text) {
        Err(refusal) => refuses(refusal.words(), reply),
        Ok(Request::Read) => recounts(json_parse(text)->Ok_0, shared, number, mean, reply),
        Ok(other) => responds(other, shared, number, reply),
    }
}

/// Whether `reply` is one line that says why a request is refused.
pub open spec fn objects(message: Seq<char>, reply: Seq<char>) -> bool {
    refuses(message, reply) && one_line(reply)
}

/// Whether `asked` is what `text` asks for.
pub open spec fn hears(text: Seq<char>, asked: Asked) -> bool {
    match requested(text) {
        Err(refusal) => asked matches Asked::Answered(reply) && objects(refusal.words(), reply@),
        Ok(Request::Info) => asked is Info,
        Ok(Request::Metrics) => asked is Metrics,
        Ok(Request::Latest) => asked is Latest,
        Ok(Request::Read) => match options(json_parse(text)->Ok_0) {
            Err(objection) => asked matches Asked::Answered(reply) && objects(objection.words(), reply@),
            Ok(wanted) => asked matches Asked::Read(options) && options@ == wanted,
        },
    }
}

/// What the request `text` asks for.
pub fn hear(text: &str) -> (asked: Asked)
    ensures
        hears(text@, asked),
        asked.wf(),
{
    let json = match from_text(text) {
        Err(_) => {
            return Asked::Answered(respond_error(&RequestError::NotJson.message()));
        },
        Ok(value) => unfold(value),
    };
    match request_of(&json) {
        Err(e) => Asked::Answered(respond_error(&e.message())),
        Ok(Request::Info) => Asked::Info,
        Ok(Request::Metrics) => Asked::Metrics,
        Ok(Request::Latest) => Asked::Latest,
        Ok(Request::Read) => match options_of(&json) {
            Err(e) => Asked::Answered(respond_error(&e.message())),
            Ok(options) => Asked::Read(options),
        },
    }
}

/// Whether `seen` is what the collector has of what is asked for.
pub open spec fn sees(asked: Asked, shared: Shared, seen: Seen) -> bool {
    let metrics = shared.metrics();
    match asked {
        Asked::Answered(reply) => seen matches Seen::Answered(same) && same@ == reply@,
        Asked::Info => {
            &&& seen matches Seen::Facts { interval_ms, capacity, len, metrics: width }
            &&& interval_ms == shared.interval_ms
            &&& capacity == shared.store.limit()
            &&& len == shared.records().len()
            &&& width == metrics.len()
        },
        Asked::Metrics => seen matches Seen::Metrics(schema) && schema@ == metrics,
        Asked::Latest => {
            &&& seen matches Seen::Newest { schema, record }
            &&& schema@ == metrics
            &&& record_view(record) == newest(shared.records())
        },
        Asked::Read(wanted) => match columns_wanted(metrics, wanted@.metrics) {
            Err(name) => seen matches Seen::Answered(reply) && objects(
                Objection::UnknownMetric(name).words(),
                reply@,
            ),
            Ok(columns) => {
                &&& seen matches Seen::History { options, interval_ms, names, snapshot }
                &&& options@ == wanted@
                &&& interval_ms == shared.interval_ms
                &&& texts(names@) == names_at(metrics, columns)
                &&& snapshot.holds(within(shared.records(), wanted.from, wanted.to), columns)
            },
        },
    }
}

/// Copies what the collector has of what is asked for.
pub fn see(asked: Asked, shared: &Shared) -> (seen: Seen)
    requires
        asked.wf(),
        shared.wf(),
    ensures
        sees(asked, *shared, seen),
        seen.wf(),
{
    proof {
        shared.store.law_bounded_and_in_order();
    }
    let store = shared.read();
    match asked {
        Asked::Answered(reply) => Seen::Answered(reply),
        Asked::Info => Seen::Facts {
            interval_ms: shared.interval_ms,
            capacity: store.capacity(),
            len: store.len(),
            metrics: shared.schema.len(),
        },
        Asked::Metrics => Seen::Metrics(shared.schema.duplicate()),
        Asked::Latest => Seen::Newest { schema: shared.schema.duplicate(), record: store.latest() },
        Asked::Read(options) => match columns_of(&shared.schema, &options.metrics) {
            Err(e) => Seen::Answered(respond_error(&e.message())),
            Ok(columns) => {
                let snapshot = store.select(options.from, options.to, &columns);
                let names = names_of(&shared.schema, &columns);
                proof {
                    lemma_selected(*shared, options.from, options.to, columns@, snapshot);
                    assert(texts(names@).len() == columns@.len());
                }
                Seen::History { options, interval_ms: shared.interval_ms, names, snapshot }
            },
        },
    }
}

/// Whether `line` tells what was seen.
pub open spec fn tells<N: Fn(u64) -> Option<serde_json::Number>, M: Fn(Vec<u64>) -> u64>(
    seen: Seen,
    number: N,
    mean: M,
    line: Seq<char>,
) -> bool {
    match seen {
        Seen::Answered(reply) => line == reply@,
        Seen::Facts { interval_ms, capacity, len, metrics } => {
            let tree = info_tree(interval_ms, capacity as nat, len as nat, metrics as nat);
            line == line_of(tree) && stands_for(line, tree)
        },
        Seen::Metrics(schema) => line == line_of(metrics_tree(schema@)) && stands_for(line, metrics_tree(schema@)),
        Seen::Newest { schema, record } => tells_newest(schema@, record_view(record), number, line),
        Seen::History { options, interval_ms, names, snapshot } => exists|figures: Figures, history: History|
            figures.tells(
                snapshot.timestamps@,
                values_view(snapshot.columns@),
                step_wanted(options.detail, snapshot.timestamps@, interval_ms),
                options.extremes,
                mean,
            ) && #[trigger] shows(number, figures, texts(names@), history) && line == history_line(history),
    }
}

/// The one-line response that tells what was seen. `number` makes a JSON number
/// of the bits of a value that was measured, and `mean` makes one value of several.
pub fn tell<N: Fn(u64) -> Option<serde_json::Number>, M: Fn(Vec<u64>) -> u64>(seen: Seen, number: &N, mean: &M) -> (line:
    String)
    requires
        seen.wf(),
        forall|b: u64| #[trigger] call_requires(*number, (b,)),
        forall|given: Vec<u64>| given@.len() > 0 ==> #[trigger] call_requires(*mean, (given,)),
    ensures
        tells(seen, *number, *mean, line@),
        !(seen is Answered) ==> one_line(line@),
{
    match seen {
        Seen::Answered(reply) => reply,
        Seen::Facts { interval_ms, capacity, len, metrics } => info_line(interval_ms, capacity, len, metrics),
        Seen::Metrics(schema) => metrics_line(&schema),
        Seen::Newest { schema, record } => newest_line(&schema, record, number),
        Seen::History { options, interval_ms, names, snapshot } => {
            let ghost columns = values_view(snapshot.columns@);
            let figures = summary(snapshot, interval_ms, options.detail, options.extremes, mean);
            proof {
                assert(bits_view(figures.series@).len() == columns.len());
                assert(figures.extremes matches Some((low, high)) ==> bits_view(low@).len()
                    == columns.len() && bits_view(high@).len() == columns.len());
            }
            figures_line(number, &figures, &names)
        },
    }
}

/// What is heard, seen and told of a request answers it.
pub proof fn law_three_steps_answer<N: Fn(u64) -> Option<serde_json::Number>, M: Fn(Vec<u64>) -> u64>(
    text: Seq<char>,
    asked: Asked,
    shared: Shared,
    seen: Seen,
    number: N,
    mean: M,
    line: Seq<char>,
)
    requires
        hears(text, asked),
        sees(asked, shared, seen),
        tells(seen, number, mean, line),
    ensures
        answers(text, shared, number, mean, line),
{
    if let Ok(Request::Read) = requested(text) {
        if let Ok(wanted) = options(json_parse(text)->Ok_0) {
            if let Ok(columns) = columns_wanted(shared.metrics(), wanted.metrics) {
                let records = within(shared.records(), wanted.from, wanted.to);
                let names = names_at(shared.metrics(), columns);
                let snapshot = seen->snapshot;
                assert(values_view(snapshot.columns@) =~= values_of(records, columns));
                let (figures, history) = choose|figures: Figures, history: History|
                    figures.tells(
                        snapshot.timestamps@,
                        values_view(snapshot.columns@),
                        step_wanted(wanted.detail, snapshot.timestamps@, shared.interval_ms),
                        wanted.extremes,
                        mean,
                    ) && #[trigger] shows(number, figures, names, history) && line == history_line(history);
                assert(recalls(shared, wanted, columns, mean, figures) && shows(number, figures, names, history));
                assert(tells_of(shared, wanted, columns, number, mean, line));
            }
        }
    }
}

/// What answers a request: the reason why it is refused, if it is; history, where
/// that is asked for, as its options say; and otherwise what the collector has.
pub proof fn law_what_answers_a_request<N: Fn(u64) -> Option<serde_json::Number>, M: Fn(Vec<u64>) -> u64>(
    text: Seq<char>,
    tree: Tree,
    shared: Shared,
    number: N,
    mean: M,
    reply: Seq<char>,
)
    requires
        stands_for(text, tree),
        answers(text, shared, number, mean, reply),
    ensures
        request(tree) matches Err(refusal) ==> refuses(refusal.words(), reply),
        request(tree) matches Ok(Request::Info) ==> stands_for(reply, info_of(shared)),
        request(tree) matches Ok(Request::Metrics) ==> stands_for(reply, metrics_tree(shared.metrics())),
        request(tree) matches Ok(Request::Latest) ==> responds(Request::Latest, shared, number, reply),
        request(tree) matches Ok(Request::Read) ==> match options(tree) {
            Err(objection) => refuses(objection.words(), reply),
            Ok(wanted) => match columns_wanted(shared.metrics(), wanted.metrics) {
                Err(name) => refuses(Objection::UnknownMetric(name).words(), reply),
                Ok(columns) => tells_of(shared, wanted, columns, number, mean, reply),
            },
        },
{
}

/// A refusal is an answer that says so, and why.
pub proof fn law_what_a_refusal_is(message: Seq<char>, reply: Seq<char>)
    requires
        refuses(message, reply),
    ensures
        stands_for(reply, error_tree(message)),
{
}

}
